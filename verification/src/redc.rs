//! Montgomery reduction (REDC): a double-width value `t < n * R` is reduced
//! to the unique `w < n` with `w * R == t (mod n)`, where `R = 2^(64 r)` is
//! the Montgomery radix, by eliminating one low limb per round and finishing
//! with one conditional subtraction.

use vstd::prelude::*;
use vstd::arithmetic::power2::{pow2, lemma_pow2_adds, lemma_pow2_pos, lemma2_to64};
use vstd::arithmetic::mul::lemma_mul_strict_inequality_converse;
use vstd::arithmetic::div_mod::{
    lemma_add_mod_noop, lemma_mod_multiples_vanish, lemma_mul_mod_noop_left,
    lemma_mul_mod_noop_right, lemma_small_mod, lemma_fundamental_div_mod,
};
use crate::arith::{addmul_row, copy_from, ge_n, lemma_mac_fits, propagate_carry, sub_in_place};
use crate::limbs::{as_nat, lemma_as_nat_bound, lemma_as_nat_zero_prefix};

verus! {

/// The contract on the reduction constant: `nquote0 * n == -1 (mod 2^64)`.
pub open spec fn mont_ok(nq: u64, n: Seq<u64>) -> bool {
    ((nq as nat) * as_nat(n) + 1) % pow2(64) == 0
}

/// What the reduction constant forces on the modulus: it is odd (hence
/// nonzero), and the same relation holds against its low limb alone.
pub proof fn lemma_mont_ok_facts(nq: u64, n: Seq<u64>)
    requires
        n.len() >= 1,
        mont_ok(nq, n),
    ensures
        as_nat(n) % 2 == 1,
        as_nat(n) >= 1,
        ((nq as nat) * (n[0] as nat) + 1) % pow2(64) == 0,
{
    lemma2_to64();
    lemma_pow2_pos(64);
    let bb = pow2(64) as int;
    let nn = as_nat(n) as int;
    let nqi = nq as int;
    let n0 = n[0] as int;
    let hh = as_nat(n.skip(1)) as int;
    assert(nn == n0 + bb * hh);
    // the low-limb form of the relation
    assert(nqi * nn == nqi * n0 + bb * (nqi * hh)) by (nonlinear_arith)
        requires
            nn == n0 + bb * hh,
    ;
    lemma_mod_multiples_vanish(nqi * hh, nqi * n0 + 1, bb);
    assert((nqi * n0 + 1) % bb == (nqi * nn + 1) % bb);
    // the modulus is nonzero
    if nn == 0 {
        assert(nqi * nn + 1 == 1) by (nonlinear_arith)
            requires
                nn == 0,
        ;
        lemma_small_mod(1, pow2(64));
        assert(false);
    }
    // the modulus is odd
    let v = nqi * nn + 1;
    assert(v >= 1) by (nonlinear_arith)
        requires
            nqi >= 0,
            nn >= 0,
            v == nqi * nn + 1,
    ;
    lemma_fundamental_div_mod(v, bb);
    let q = v / bb;
    assert(v == bb * q);
    if nn % 2 == 0 {
        let half = nn / 2;
        lemma_fundamental_div_mod(nn as int, 2);
        assert(nn == 2 * half);
        assert(v == 2 * (nqi * half) + 1) by (nonlinear_arith)
            requires
                nn == 2 * half,
                v == nqi * nn + 1,
        ;
        lemma_mod_multiples_vanish(nqi * half, 1, 2);
        lemma_small_mod(1, 2);
        assert(v % 2 == 1);
        lemma_pow2_adds(1, 63);
        assert(v == 2 * (pow2(63) as int * q)) by (nonlinear_arith)
            requires
                v == bb * q,
                bb == 2 * pow2(63),
        ;
        lemma_mod_multiples_vanish(pow2(63) as int * q, 0, 2);
        assert(v % 2 == 0);
        assert(false);
    }
}

/// REDC.  Destroys the double-width scratch `t` and leaves in `w` the unique
/// residue below `n` whose product with the radix is congruent to what `t`
/// held: `w * 2^(64 r_limbs) == t (mod n)`.
pub fn redc(w: &mut Vec<u64>, r_limbs: usize, n: &Vec<u64>, nquote0: u64, t: &mut Vec<u64>)
    requires
        old(w).len() == r_limbs,
        n.len() == r_limbs,
        old(t).len() == 2 * r_limbs,
        r_limbs >= 1,
        mont_ok(nquote0, n@),
        as_nat(old(t)@) < as_nat(n@) * pow2((64 * r_limbs) as nat),
    ensures
        final(w)@.len() == r_limbs,
        final(t)@.len() == 2 * r_limbs,
        as_nat(final(w)@) < as_nat(n@),
        (as_nat(final(w)@) * pow2((64 * r_limbs) as nat)) % as_nat(n@) == as_nat(old(t)@)
            % as_nat(n@),
{
    let ghost nn = as_nat(n@);
    let ghost t0 = as_nat(old(t)@);
    let ghost rr = pow2((64 * r_limbs) as nat);
    let ghost p2r = pow2((64 * (2 * r_limbs)) as nat);
    proof {
        lemma_mont_ok_facts(nquote0, n@);
        lemma_as_nat_bound(n@);
        lemma_pow2_adds((64 * r_limbs) as nat, (64 * r_limbs) as nat);
        lemma_pow2_pos((64 * r_limbs) as nat);
        lemma_pow2_pos(64);
        lemma2_to64();
        assert(as_nat(n@.take(0)) == 0);
    }
    let mut top: u64 = 0;
    let mut i: usize = 0;
    #[verifier::loop_isolation(false)]
    while i < r_limbs
        invariant
            i <= r_limbs,
            t@.len() == 2 * r_limbs,
            top <= 1,
            forall|j: int| 0 <= j < i ==> t@[j] == 0,
            (as_nat(t@) + (top as nat) * p2r) % nn == t0 % nn,
            as_nat(t@) + (top as nat) * p2r <= t0 + (pow2((64 * i) as nat) - 1) * nn,
        decreases r_limbs - i,
    {
        let ghost prev = t@;
        let ghost top0 = top;
        let ti = t[i];
        proof {
            lemma_mac_fits(ti, nquote0, 0, 0);
        }
        let m = (((ti as u128) * (nquote0 as u128)) % 0x1_0000_0000_0000_0000u128) as u64;
        let carry = addmul_row(t, i, m, n);
        let ghost mid = t@;
        let c2 = propagate_carry(t, i + r_limbs, carry);
        proof {
            let bb = pow2(64) as int;
            let ii = i as int;
            let pi = pow2((64 * ii) as nat) as int;
            let pi1 = pow2((64 * (ii + 1)) as nat) as int;
            let pir = pow2((64 * (ii + r_limbs)) as nat) as int;
            lemma_pow2_pos((64 * ii) as nat);
            lemma_pow2_pos((64 * (ii + 1)) as nat);
            lemma_pow2_adds((64 * ii) as nat, 64);
            // the chosen digit eliminates limb i
            assert(m as nat == ((ti as nat) * (nquote0 as nat)) % pow2(64));
            assert(t@[ii] == mid[ii]);
            assert(mid[ii] as nat == ((prev[ii] as nat) + (m as nat) * (n@[0] as nat)) % pow2(
                64,
            ));
            lemma_mul_mod_noop_left((ti as int) * (nquote0 as int), n@[0] as int, bb);
            assert((m as int) * (n@[0] as int) % bb == ((ti as int) * (nquote0 as int)) * (
            n@[0] as int) % bb);
            lemma_add_mod_noop(ti as int, (m as int) * (n@[0] as int), bb);
            lemma_add_mod_noop(ti as int, ((ti as int) * (nquote0 as int)) * (n@[0] as int), bb);
            let z = (nquote0 as int) * (n@[0] as int) + 1;
            assert(ti as int + ((ti as int) * (nquote0 as int)) * (n@[0] as int) == (ti as int) * z)
                by (nonlinear_arith)
                requires
                    z == (nquote0 as int) * (n@[0] as int) + 1,
            ;
            lemma_mul_mod_noop_right(ti as int, z, bb);
            assert(z % bb == 0);
            assert((ti as int) * (z % bb) == 0) by (nonlinear_arith)
                requires
                    z % bb == 0,
            ;
            lemma_small_mod(0, pow2(64));
            assert((ti as int + ((ti as int) * (nquote0 as int)) * (n@[0] as int)) % bb == 0);
            assert(t@[ii] == 0);
            // value accounting for this round
            let va = as_nat(t@) as int;
            let vm = as_nat(mid) as int;
            let vp = as_nat(prev) as int;
            let mi = m as int;
            let nni = nn as int;
            assert(vm + (carry as int) * pir == vp + mi * nni * pi);
            assert(va + (c2 as int) * (p2r as int) == vm + (carry as int) * pir);
            assert(va + (c2 as int) * (p2r as int) == vp + mi * nni * pi);
            // the invariant congruence is preserved
            let vnew = va + (top0 as int) * (p2r as int) + (c2 as int) * (p2r as int);
            let vold = vp + (top0 as int) * (p2r as int);
            assert(vnew == vold + mi * nni * pi);
            assert(mi * nni * pi == nni * (mi * pi)) by (nonlinear_arith);
            lemma_mod_multiples_vanish(mi * pi, vold, nni);
            assert(vnew % nni == vold % nni);
            // the invariant bound is preserved
            assert(mi * nni * pi <= (bb - 1) * nni * pi) by (nonlinear_arith)
                requires
                    0 <= mi <= bb - 1,
                    nni >= 0,
                    pi >= 0,
            ;
            assert((pi - 1) * nni + (bb - 1) * nni * pi == (pi1 - 1) * nni) by (nonlinear_arith)
                requires
                    pi1 == pi * bb,
            ;
            assert(vnew <= t0 + (pi1 - 1) * nni);
            // the top carry stays a single bit
            assert(pow2((64 * (ii + 1)) as nat) <= rr) by {
                if ii + 1 < r_limbs {
                    vstd::arithmetic::power2::lemma_pow2_strictly_increases(
                        (64 * (ii + 1)) as nat,
                        (64 * r_limbs) as nat,
                    );
                }
            }
            assert((pi1 - 1) * nni < pi1 * nni) by (nonlinear_arith)
                requires
                    nni >= 1,
                    pi1 >= 1,
            ;
            assert(pi1 * nni <= rr as int * nni) by (nonlinear_arith)
                requires
                    pi1 <= rr as int,
                    nni >= 0,
            ;
            assert(t0 < nni * rr as int);
            assert(nni * rr as int == rr as int * nni) by (nonlinear_arith);
            assert(vnew < 2 * (rr as int * nni));
            assert(rr as int * nni < rr as int * rr as int) by (nonlinear_arith)
                requires
                    nni < rr as int,
                    rr as int >= 1,
            ;
            assert(vnew < 2 * (p2r as int));
            assert((top0 as int + c2) * (p2r as int) == (top0 as int) * (p2r as int) + (
            c2 as int) * (p2r as int)) by (nonlinear_arith);
            assert(vnew >= (top0 as int + c2) * (p2r as int)) by (nonlinear_arith)
                requires
                    vnew == va + (top0 as int) * (p2r as int) + (c2 as int) * (p2r as int),
                    va >= 0,
                    p2r as int >= 0,
            ;
            assert(top0 as int + c2 <= 1) by (nonlinear_arith)
                requires
                    vnew >= (top0 as int + c2) * (p2r as int),
                    vnew < 2 * (p2r as int),
                    p2r as int >= 1,
                    top0 as int + c2 >= 0,
            ;
            assert(as_nat(t@) as int + ((top0 + c2) as int) * (p2r as int) == vnew);
        }
        top = top + c2;
        i += 1;
    }
    // the low half is now zero; the value sits in the upper half plus `top`
    proof {
        lemma_as_nat_zero_prefix(t@, r_limbs as int);
    }
    let ghost upper = as_nat(t@.skip(r_limbs as int));
    proof {
        lemma_as_nat_bound(t@.skip(r_limbs as int));
        assert(t@.skip(r_limbs as int).len() == r_limbs);
        let ui = upper as int;
        let rri = rr as int;
        let nni = nn as int;
        let topi = top as int;
        let v = as_nat(t@) as int + topi * (p2r as int);
        assert(v == rri * ui + topi * (rri * rri));
        assert(v == rri * (ui + topi * rri)) by (nonlinear_arith)
            requires
                v == rri * ui + topi * (rri * rri),
        ;
        assert(v <= t0 + (rri - 1) * nni);
        assert(t0 < nni * rri);
        assert((rri - 1) * nni < rri * nni) by (nonlinear_arith)
            requires
                nni >= 1,
                rri >= 1,
        ;
        assert(nni * rri == rri * nni) by (nonlinear_arith);
        assert(v < 2 * (rri * nni));
        assert(rri * (2 * nni) == 2 * (rri * nni)) by (nonlinear_arith);
        assert(v < rri * (2 * nni));
        lemma_mul_strict_inequality_converse(ui + topi * rri, 2 * nni, rri);
        assert(ui + topi * rri < 2 * nni);
    }
    copy_from(w, t, r_limbs);
    proof {
        assert(w@ =~= t@.skip(r_limbs as int));
        assert(as_nat(w@) == upper);
    }
    let need_sub = if top > 0 {
        true
    } else {
        ge_n(w, n)
    };
    let ghost w_mid = w@;
    if need_sub {
        proof {
            // with a pending top bit the upper half lies below the modulus
            if top > 0 {
                assert(top == 1);
                let ui = upper as int;
                let rri = rr as int;
                let nni = nn as int;
                assert(ui + rri < 2 * nni);
                assert(ui < nni);
            }
        }
        sub_in_place(w, n);
    }
    proof {
        let ui = upper as int;
        let rri = rr as int;
        let nni = nn as int;
        let topi = top as int;
        let wf = as_nat(w@) as int;
        let v = rri * (ui + topi * rri);
        assert(v == as_nat(t@) as int + topi * (p2r as int)) by (nonlinear_arith)
            requires
                v == rri * (ui + topi * rri),
                as_nat(t@) as int == rri * ui,
                p2r as int == rri * rri,
        ;
        assert(v % nni == (t0 as int) % nni);
        if need_sub {
            assert(as_nat(w_mid) == upper);
            assert(wf == ui + topi * rri - nni);
            assert(wf < nni);
            assert(wf * rri == v - nni * rri) by (nonlinear_arith)
                requires
                    v == rri * (ui + topi * rri),
                    wf == ui + topi * rri - nni,
            ;
            assert(nni * (-rri) + v == v - nni * rri) by (nonlinear_arith);
            lemma_mod_multiples_vanish(-rri, v, nni);
            assert((wf * rri) % nni == (t0 as int) % nni);
        } else {
            assert(topi == 0 && ui < nni);
            assert(wf == ui);
            assert(wf * rri == v) by (nonlinear_arith)
                requires
                    v == rri * (ui + topi * rri),
                    topi == 0,
                    wf == ui,
            ;
            assert((wf * rri) % nni == (t0 as int) % nni);
        }
        assert(wf < nni);
    }
}

} // verus!
