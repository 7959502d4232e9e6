//! Montgomery-domain products and the windowed exponentiation that drives
//! them: multiplier, squarer, precomputed power table and the k-ary
//! square-and-multiply loop (window width fixed at 6 bits).

use vstd::prelude::*;
use vstd::arithmetic::power::{
    lemma_pow1, lemma_pow_adds, lemma_pow_distributes, lemma_pow_mod_noop, lemma_pow_multiplies,
    pow,
};
use vstd::arithmetic::power2::{pow2, lemma_pow2, lemma_pow2_adds, lemma_pow2_pos, lemma2_to64};
use vstd::arithmetic::div_mod::{
    lemma_basic_div, lemma_breakdown, lemma_fundamental_div_mod, lemma_div_denominator,
    lemma_hoist_over_denominator, lemma_mod_bound, lemma_mod_multiples_vanish,
    lemma_mul_mod_noop_general, lemma_small_mod,
};
use crate::arith::{clone_limbs, copy_from, make_zero_vec, mul_limbs};
use crate::limbs::{as_nat, lemma_as_nat_bound, lemma_as_nat_bit};
use crate::redc::{mont_ok, redc};

verus! {

/// Congruences multiply: factors congruent modulo `m` give congruent
/// products.
pub proof fn lemma_mod_mul_both(x1: int, y1: int, x2: int, y2: int, m: int)
    requires
        m >= 1,
        x1 % m == y1 % m,
        x2 % m == y2 % m,
    ensures
        (x1 * x2) % m == (y1 * y2) % m,
{
    lemma_mul_mod_noop_general(x1, x2, m);
    lemma_mul_mod_noop_general(y1, y2, m);
}

/// Congruences raise to powers: congruent bases give congruent powers.
pub proof fn lemma_mod_pow_congruent(x: int, y: int, e: nat, m: int)
    requires
        m >= 1,
        x % m == y % m,
    ensures
        pow(x, e) % m == pow(y, e) % m,
{
    lemma_pow_mod_noop(x, e, m);
    lemma_pow_mod_noop(y, e, m);
}

/// The product of two residues is below `n * R`, so REDC may reduce it.
proof fn lemma_product_reducible(av: nat, bv: nat, nn: nat, r: nat)
    requires
        av < nn,
        bv < nn,
        nn < pow2(64 * r),
    ensures
        av * bv < nn * pow2(64 * r),
{
    lemma_pow2_pos(64 * r);
    assert(av * bv < nn * pow2(64 * r)) by (nonlinear_arith)
        requires
            av < nn,
            bv < nn,
            nn < pow2(64 * r),
            0 <= av,
            0 <= bv,
    ;
}

/// Montgomery product into a separate output: `w` becomes the residue with
/// `w * R == a * b (mod n)`.
pub fn mont_mul(
    w: &mut Vec<u64>,
    r_limbs: usize,
    a: &Vec<u64>,
    b: &Vec<u64>,
    n: &Vec<u64>,
    nquote0: u64,
    t: &mut Vec<u64>,
)
    requires
        old(w).len() == r_limbs,
        a.len() == r_limbs,
        b.len() == r_limbs,
        n.len() == r_limbs,
        old(t).len() == 2 * r_limbs,
        r_limbs >= 1,
        mont_ok(nquote0, n@),
        as_nat(a@) < as_nat(n@),
        as_nat(b@) < as_nat(n@),
    ensures
        final(w)@.len() == r_limbs,
        final(t)@.len() == 2 * r_limbs,
        as_nat(final(w)@) < as_nat(n@),
        (as_nat(final(w)@) * pow2((64 * r_limbs) as nat)) % as_nat(n@) == (as_nat(a@) * as_nat(
            b@,
        )) % as_nat(n@),
{
    mul_limbs(t, a, b);
    proof {
        lemma_as_nat_bound(n@);
        lemma_product_reducible(as_nat(a@), as_nat(b@), as_nat(n@), r_limbs as nat);
    }
    redc(w, r_limbs, n, nquote0, t);
}

/// Montgomery product folded onto the accumulator: `w` becomes the residue
/// with `w * R == old(w) * b (mod n)`.
pub fn mont_mul_assign(
    w: &mut Vec<u64>,
    r_limbs: usize,
    b: &Vec<u64>,
    n: &Vec<u64>,
    nquote0: u64,
    t: &mut Vec<u64>,
)
    requires
        old(w).len() == r_limbs,
        b.len() == r_limbs,
        n.len() == r_limbs,
        old(t).len() == 2 * r_limbs,
        r_limbs >= 1,
        mont_ok(nquote0, n@),
        as_nat(old(w)@) < as_nat(n@),
        as_nat(b@) < as_nat(n@),
    ensures
        final(w)@.len() == r_limbs,
        final(t)@.len() == 2 * r_limbs,
        as_nat(final(w)@) < as_nat(n@),
        (as_nat(final(w)@) * pow2((64 * r_limbs) as nat)) % as_nat(n@) == (as_nat(old(w)@)
            * as_nat(b@)) % as_nat(n@),
{
    mul_limbs(t, w, b);
    proof {
        lemma_as_nat_bound(n@);
        lemma_product_reducible(as_nat(w@), as_nat(b@), as_nat(n@), r_limbs as nat);
    }
    redc(w, r_limbs, n, nquote0, t);
}

/// Montgomery squaring in place: `w` becomes the residue with
/// `w * R == old(w)^2 (mod n)`.
pub fn mont_sqr(w: &mut Vec<u64>, r_limbs: usize, n: &Vec<u64>, nquote0: u64, t: &mut Vec<u64>)
    requires
        old(w).len() == r_limbs,
        n.len() == r_limbs,
        old(t).len() == 2 * r_limbs,
        r_limbs >= 1,
        mont_ok(nquote0, n@),
        as_nat(old(w)@) < as_nat(n@),
    ensures
        final(w)@.len() == r_limbs,
        final(t)@.len() == 2 * r_limbs,
        as_nat(final(w)@) < as_nat(n@),
        (as_nat(final(w)@) * pow2((64 * r_limbs) as nat)) % as_nat(n@) == (as_nat(old(w)@)
            * as_nat(old(w)@)) % as_nat(n@),
{
    mul_limbs(t, w, w);
    proof {
        lemma_as_nat_bound(n@);
        lemma_product_reducible(as_nat(w@), as_nat(w@), as_nat(n@), r_limbs as nat);
    }
    redc(w, r_limbs, n, nquote0, t);
}


/// The number of 6-bit windows covering an exponent of `ebl` bits.
pub open spec fn block_count(ebl: nat) -> nat {
    (ebl + 5) / 6
}

/// The exponent actually raised to: the low `ebl` bits of the exponent
/// buffer (higher bits are read as zero).
pub open spec fn exp_value(e: Seq<u64>, ebl: nat) -> nat {
    as_nat(e) % pow2(ebl)
}

/// Entry `e` of a flat power table of `r`-limb entries.
pub open spec fn table_entry(tb: Seq<u64>, e: int, r: nat) -> Seq<u64> {
    tb.subrange(e * r as int, e * r + r)
}

/// Entry `e` holds the Montgomery form of the e-th power of the base:
/// multiplied by `R^(e-1)` it is congruent to `a^e` modulo `n`.
pub open spec fn entry_ok(tb: Seq<u64>, e: int, av: nat, nn: nat, r: nat) -> bool {
    &&& as_nat(table_entry(tb, e, r)) < nn
    &&& ((as_nat(table_entry(tb, e, r)) as int) * pow(pow2(64 * r) as int, (e - 1) as nat)) % (
    nn as int) == pow(av as int, e as nat) % (nn as int)
}

/// The defining relation of the exponentiation result: with `S = 2^(6 bc)`
/// squaring factors folded in, `wf * R^(S + e - 1) == w0^S * a^e (mod n)`.
/// For an accumulator pre-seeded to Montgomery one this pins the result to
/// the Montgomery form of `a^e`.
pub open spec fn mont_exp_rel(wf: nat, w0: nat, av: nat, nn: nat, e: nat, bc: nat, r: nat) -> bool {
    ((wf as int) * pow(pow2(64 * r) as int, (pow2(6 * bc) + e - 1) as nat)) % (nn as int) == (pow(
        w0 as int,
        pow2(6 * bc),
    ) * pow(av as int, e)) % (nn as int)
}

/// Extending a power table: the next Montgomery product turns the relation
/// for entry `e - 1` into the relation for entry `e`.
proof fn lemma_table_step(nextv: int, prevv: int, av: int, nn: int, rr: int, e: nat)
    requires
        nn >= 1,
        e >= 2,
        (nextv * rr) % nn == (av * prevv) % nn,
        (prevv * pow(rr, (e - 2) as nat)) % nn == pow(av, (e - 1) as nat) % nn,
    ensures
        (nextv * pow(rr, (e - 1) as nat)) % nn == pow(av, e) % nn,
{
    let p = pow(rr, (e - 2) as nat);
    lemma_mod_mul_both(nextv * rr, av * prevv, p, p, nn);
    lemma_pow1(rr);
    lemma_pow_adds(rr, 1, (e - 2) as nat);
    assert((nextv * rr) * p == nextv * (rr * p)) by (nonlinear_arith);
    assert((av * prevv) * p == av * (prevv * p)) by (nonlinear_arith);
    lemma_mod_mul_both(av, av, prevv * p, pow(av, (e - 1) as nat), nn);
    lemma_pow1(av);
    lemma_pow_adds(av, 1, (e - 1) as nat);
}

/// Precomputes the 64 window powers of the Montgomery-form base `a`, as one
/// flat buffer of 64 entries of `r_limbs` limbs.  Entry 0 is a placeholder
/// holding the literal value 1; it is never consulted by the exponentiation
/// loop, which skips the multiply on a zero window.
pub fn build_power_table(
    r_limbs: usize,
    a: &Vec<u64>,
    n: &Vec<u64>,
    nquote0: u64,
    t: &mut Vec<u64>,
) -> (table: Vec<u64>)
    requires
        a.len() == r_limbs,
        n.len() == r_limbs,
        old(t).len() == 2 * r_limbs,
        r_limbs >= 1,
        r_limbs <= usize::MAX / 64,
        mont_ok(nquote0, n@),
        as_nat(a@) < as_nat(n@),
    ensures
        final(t)@.len() == 2 * r_limbs,
        table@.len() == 64 * r_limbs,
        as_nat(table_entry(table@, 0, r_limbs as nat)) == 1,
        forall|j: int|
            1 <= j < 64 ==> entry_ok(table@, j, as_nat(a@), as_nat(n@), r_limbs as nat),
{
    let ghost nn = as_nat(n@);
    let ghost av = as_nat(a@);
    let ghost rr = pow2((64 * r_limbs) as nat);
    proof {
        crate::redc::lemma_mont_ok_facts(nquote0, n@);
        lemma_pow2_pos((64 * r_limbs) as nat);
        lemma2_to64();
    }
    let mut table: Vec<u64> = Vec::new();
    let mut e0 = make_zero_vec(r_limbs);
    let ghost zeros = e0@;
    e0.set(0, 1);
    proof {
        crate::limbs::lemma_as_nat_update(zeros, 0, 1);
        assert(as_nat(e0@) == 1);
    }
    table.append(&mut e0);
    let mut e1 = clone_limbs(a);
    table.append(&mut e1);
    let mut prev = clone_limbs(a);
    proof {
        assert(table@.len() == 2 * r_limbs);
        assert(table_entry(table@, 0, r_limbs as nat) =~= table@.take(r_limbs as int));
        assert(table@.take(r_limbs as int) =~= zeros.update(0, 1u64));
        assert(table_entry(table@, 1, r_limbs as nat) =~= a@);
        // entry 1 satisfies its relation: a * R^0 == a^1 (mod n)
        vstd::arithmetic::power::lemma_pow0(rr as int);
        lemma_pow1(av as int);
        assert((av as int) * 1 == av as int) by (nonlinear_arith);
        lemma_mod_bound(av as int, nn as int);
        assert(entry_ok(table@, 1, av, nn, r_limbs as nat));
    }
    let mut e: usize = 2;
    #[verifier::loop_isolation(false)]
    while e < 64
        invariant
            2 <= e <= 64,
            table@.len() == e * r_limbs,
            prev@.len() == r_limbs,
            t@.len() == 2 * r_limbs,
            as_nat(prev@) < nn,
            prev@ == table_entry(table@, e - 1, r_limbs as nat),
            as_nat(table_entry(table@, 0, r_limbs as nat)) == 1,
            forall|j: int| 1 <= j < e ==> entry_ok(table@, j, av, nn, r_limbs as nat),
        decreases 64 - e,
    {
        let mut next = make_zero_vec(r_limbs);
        mont_mul(&mut next, r_limbs, a, &prev, n, nquote0, t);
        let mut push = clone_limbs(&next);
        let ghost tb_old = table@;
        table.append(&mut push);
        proof {
            let r = r_limbs as nat;
            let ei = e as int;
            assert(table@.len() == (ei + 1) * r_limbs) by (nonlinear_arith)
                requires
                    table@.len() == tb_old.len() + r_limbs,
                    tb_old.len() == ei * r_limbs,
            ;
            assert(r_limbs <= tb_old.len()) by (nonlinear_arith)
                requires
                    tb_old.len() == ei * r_limbs,
                    ei >= 2,
                    r_limbs >= 0,
            ;
            assert(0 <= ei * (r_limbs as int) && ei * (r_limbs as int) + r_limbs <= table@.len())
                by (nonlinear_arith)
                requires
                    table@.len() == (ei + 1) * r_limbs,
                    ei >= 2,
                    r_limbs >= 0,
            ;
            assert(table_entry(table@, 0, r) =~= table_entry(tb_old, 0, r));
            assert forall|j: int| 1 <= j < ei implies entry_ok(table@, j, av, nn, r) by {
                assert(0 <= j * r_limbs && j * r_limbs + r_limbs <= tb_old.len())
                    by (nonlinear_arith)
                    requires
                        1 <= j < ei,
                        tb_old.len() == ei * r_limbs,
                        r_limbs >= 1,
                ;
                assert(tb_old.len() <= table@.len());
                assert(entry_ok(tb_old, j, av, nn, r));
                assert(table_entry(table@, j, r) =~= table_entry(tb_old, j, r));
                assert(as_nat(table_entry(table@, j, r)) == as_nat(table_entry(tb_old, j, r)));
            }
            assert(table_entry(table@, ei, r) =~= next@);
            assert(prev@ == table_entry(tb_old, ei - 1, r));
            assert(entry_ok(tb_old, ei - 1, av, nn, r));
            assert((as_nat(prev@) as int * pow(rr as int, (ei - 2) as nat)) % (nn as int) == pow(
                av as int,
                (ei - 1) as nat,
            ) % (nn as int));
            lemma_table_step(
                as_nat(next@) as int,
                as_nat(prev@) as int,
                av as int,
                nn as int,
                rr as int,
                e as nat,
            );
            assert(entry_ok(table@, ei, av, nn, r));
        }
        prev = next;
        e += 1;
    }
    table
}

/// One squaring in the chain: the folded radix exponent doubles and gains
/// one.
proof fn lemma_sqr_chain(wn: int, wv: int, w_in: int, rr: int, nn: int, s: nat)
    requires
        nn >= 1,
        rr >= 1,
        (wn * rr) % nn == (wv * wv) % nn,
        (wv * pow(rr, (pow2(s) - 1) as nat)) % nn == pow(w_in, pow2(s)) % nn,
    ensures
        (wn * pow(rr, (pow2((s + 1) as nat) - 1) as nat)) % nn == pow(w_in, pow2((s + 1) as nat))
            % nn,
{
    let c = (pow2(s) - 1) as nat;
    lemma_pow2_pos(s);
    lemma_pow2_adds(s, 1);
    lemma2_to64();
    assert(pow2((s + 1) as nat) == 2 * pow2(s));
    let pc = pow(rr, c);
    vstd::arithmetic::power::lemma_pow_positive(rr, c);
    lemma_mod_mul_both(wv * pc, pow(w_in, pow2(s)), wv * pc, pow(w_in, pow2(s)), nn);
    lemma_pow_adds(w_in, pow2(s), pow2(s));
    lemma_mod_mul_both(wn * rr, wv * wv, pc * pc, pc * pc, nn);
    assert((wv * pc) * (wv * pc) == (wv * wv) * (pc * pc)) by (nonlinear_arith);
    assert((wn * rr) * (pc * pc) == wn * (rr * (pc * pc))) by (nonlinear_arith);
    lemma_pow_adds(rr, c, c);
    lemma_pow1(rr);
    lemma_pow_adds(rr, 1, (c + c) as nat);
    assert(pow(rr, (1 + (c + c)) as nat) == rr * (pc * pc)) by {
        assert(pow(rr, (c + c) as nat) == pc * pc);
        assert(pow(rr, 1) * pow(rr, (c + c) as nat) == rr * (pc * pc));
    }
    assert((pow2((s + 1) as nat) - 1) as nat == 1 + (c + c));
}

/// Six squarings compose with the relation for the blocks already done:
/// both the squaring count and the digits processed scale by 64.
proof fn lemma_block_compose(
    w_out: int,
    w_in: int,
    w0: int,
    av: int,
    nn: int,
    rr: int,
    sp: nat,
    ep: nat,
)
    requires
        nn >= 1,
        rr >= 1,
        sp >= 1,
        (w_in * pow(rr, (sp + ep - 1) as nat)) % nn == (pow(w0, sp) * pow(av, ep)) % nn,
        (w_out * pow(rr, 63)) % nn == pow(w_in, 64) % nn,
    ensures
        (w_out * pow(rr, (64 * sp + 64 * ep - 1) as nat)) % nn == (pow(w0, (64 * sp) as nat)
            * pow(av, (64 * ep) as nat)) % nn,
{
    let c = (sp + ep - 1) as nat;
    let p = pow(rr, c);
    let g = pow(w0, sp) * pow(av, ep);
    lemma_mod_pow_congruent(w_in * p, g, 64, nn);
    lemma_pow_distributes(w_in, p, 64);
    lemma_pow_multiplies(rr, c, 64);
    assert(pow(w_in * p, 64) == pow(w_in, 64) * pow(rr, (c * 64) as nat));
    lemma_pow_distributes(pow(w0, sp), pow(av, ep), 64);
    lemma_pow_multiplies(w0, sp, 64);
    lemma_pow_multiplies(av, ep, 64);
    assert(pow(g, 64) == pow(w0, (sp * 64) as nat) * pow(av, (ep * 64) as nat));
    let p64 = pow(rr, (c * 64) as nat);
    vstd::arithmetic::power::lemma_pow_positive(rr, (c * 64) as nat);
    lemma_mod_mul_both(w_out * pow(rr, 63), pow(w_in, 64), p64, p64, nn);
    assert((w_out * pow(rr, 63)) * p64 == w_out * (pow(rr, 63) * p64)) by (nonlinear_arith);
    lemma_pow_adds(rr, 63, (c * 64) as nat);
    assert((63 + c * 64) as nat == (64 * sp + 64 * ep - 1) as nat);
    assert((pow(w_in, 64) * p64) % nn == pow(w_in * p, 64) % nn) by {
        assert(pow(w_in, 64) * p64 == pow(w_in * p, 64));
    }
    assert((w_out * pow(rr, (64 * sp + 64 * ep - 1) as nat)) % nn == pow(g, 64) % nn);
    assert(pow(g, 64) == pow(w0, (64 * sp) as nat) * pow(av, (64 * ep) as nat));
}

/// Folding in the table entry for a nonzero window adds its digit to the
/// processed exponent.
proof fn lemma_block_mul(
    w_f: int,
    w_prev: int,
    w0: int,
    av: int,
    ent: int,
    nn: int,
    rr: int,
    sp64: nat,
    ep64: nat,
    bv: nat,
)
    requires
        nn >= 1,
        rr >= 1,
        sp64 >= 1,
        bv >= 1,
        (w_prev * pow(rr, (sp64 + ep64 - 1) as nat)) % nn == (pow(w0, sp64) * pow(av, ep64)) % nn,
        (w_f * rr) % nn == (w_prev * ent) % nn,
        (ent * pow(rr, (bv - 1) as nat)) % nn == pow(av, bv) % nn,
    ensures
        (w_f * pow(rr, (sp64 + ep64 + bv - 1) as nat)) % nn == (pow(w0, sp64) * pow(av, (ep64
            + bv) as nat)) % nn,
{
    let c = (sp64 + ep64 - 1) as nat;
    let pc = pow(rr, c);
    let pb = pow(rr, (bv - 1) as nat);
    vstd::arithmetic::power::lemma_pow_positive(rr, c);
    vstd::arithmetic::power::lemma_pow_positive(rr, (bv - 1) as nat);
    lemma_mod_mul_both(w_f * rr, w_prev * ent, pc * pb, pc * pb, nn);
    assert((w_f * rr) * (pc * pb) == w_f * (rr * (pc * pb))) by (nonlinear_arith);
    lemma_pow1(rr);
    lemma_pow_adds(rr, c, (bv - 1) as nat);
    lemma_pow_adds(rr, 1, (c + (bv - 1)) as nat);
    assert(rr * (pc * pb) == pow(rr, (1 + (c + (bv - 1))) as nat)) by {
        assert(pc * pb == pow(rr, (c + (bv - 1)) as nat));
        assert(pow(rr, 1) * pow(rr, (c + (bv - 1)) as nat) == rr * (pc * pb));
    }
    assert((1 + (c + (bv - 1))) as nat == (sp64 + ep64 + bv - 1) as nat);
    assert((w_prev * ent) * (pc * pb) == (w_prev * pc) * (ent * pb)) by (nonlinear_arith);
    lemma_mod_mul_both(w_prev * pc, pow(w0, sp64) * pow(av, ep64), ent * pb, pow(av, bv), nn);
    lemma_pow_adds(av, ep64, bv);
    assert((pow(w0, sp64) * pow(av, ep64)) * pow(av, bv) == pow(w0, sp64) * (pow(av, ep64) * pow(
        av,
        bv,
    ))) by (nonlinear_arith);
}

/// The exponent splits six bits at a time: the digits above window `i` are
/// 64 times the digits above window `i + 1` plus window `i` itself.
proof fn lemma_exp_digit_split(e: nat, i: nat)
    ensures
        e / pow2(6 * i) == 64 * (e / pow2((6 * (i + 1)) as nat)) + (e / pow2(6 * i)) % 64,
        (e / pow2(6 * i)) % 64 < 64,
{
    lemma_pow2_pos(6 * i);
    lemma_pow2_pos(6);
    lemma2_to64();
    lemma_pow2_adds(6 * i, 6);
    lemma_div_denominator(e as int, pow2(6 * i) as int, 64);
    lemma_fundamental_div_mod((e / pow2(6 * i)) as int, 64);
    lemma_mod_bound((e / pow2(6 * i)) as int, 64);
}

/// Below the stated bit length, a bit of the truncated exponent agrees with
/// the same bit of the full buffer value.
proof fn lemma_bit_below_length(xv: nat, ebl: nat, p: nat)
    requires
        p < ebl,
    ensures
        ((xv % pow2(ebl)) / pow2(p)) % 2 == (xv / pow2(p)) % 2,
{
    let q = (xv / pow2(ebl)) as int;
    let rm = (xv % pow2(ebl)) as int;
    lemma_pow2_pos(ebl);
    lemma_pow2_pos(p);
    lemma_pow2_pos((ebl - p) as nat);
    lemma_fundamental_div_mod(xv as int, pow2(ebl) as int);
    lemma_pow2_adds(p, (ebl - p) as nat);
    let hi = q * pow2((ebl - p) as nat) as int;
    lemma_hoist_over_denominator(rm, hi, pow2(p));
    assert(hi * pow2(p) as int == pow2(ebl) as int * q) by (nonlinear_arith)
        requires
            hi == q * pow2((ebl - p) as nat) as int,
            pow2((ebl - p) as nat) as int * pow2(p) as int == pow2(ebl) as int,
    ;
    assert(xv as int == rm + hi * pow2(p) as int);
    assert((xv / pow2(p)) as int == rm / pow2(p) as int + hi);
    lemma_pow2_adds(1, (ebl - p - 1) as nat);
    lemma2_to64();
    assert(hi == 2 * (q * pow2((ebl - p - 1) as nat) as int)) by (nonlinear_arith)
        requires
            hi == q * pow2((ebl - p) as nat) as int,
            pow2((ebl - p) as nat) == 2 * pow2((ebl - p - 1) as nat),
    ;
    lemma_mod_multiples_vanish(q * pow2((ebl - p - 1) as nat) as int, rm / pow2(p) as int, 2);
}

/// Accumulating one window bit: the low `j + 1` bits of window `i` are its
/// low `j` bits plus bit `6 i + j` of the exponent, weighted by `2^j`.
proof fn lemma_window_accumulate(e: nat, i: nat, j: nat)
    requires
        j < 6,
    ensures
        (e / pow2(6 * i)) % pow2((j + 1) as nat) == (e / pow2(6 * i)) % pow2(j) + pow2(j) * ((e
            / pow2((6 * i + j) as nat)) % 2),
{
    let ehi = (e / pow2(6 * i)) as int;
    lemma_pow2_pos(6 * i);
    lemma_pow2_pos(j);
    lemma_pow2_adds(j, 1);
    lemma2_to64();
    lemma_breakdown(ehi, pow2(j) as int, 2);
    lemma_pow2_adds(6 * i, j);
    lemma_div_denominator(e as int, pow2(6 * i) as int, pow2(j) as int);
    assert(ehi / pow2(j) as int == (e / pow2((6 * i + j) as nat)) as int);
}

/// Windowed (6-ary) modular exponentiation in the Montgomery domain,
/// in place on the accumulator `w`.
///
/// The caller supplies the modulus `n`, its reduction constant, the
/// Montgomery-form base `a`, the exponent limbs and the number of exponent
/// bits to use (higher bits are read as zero).  `w` must be pre-seeded —
/// with the Montgomery form of one to compute a power — and the result obeys
/// `mont_exp_rel`: `w' * R^(S + e - 1) == w^S * a^e (mod n)` with
/// `S = 2^(6 bc)` the squarings performed.  A zero bit length leaves `w`
/// untouched.
pub fn modpow(
    w: &mut Vec<u64>,
    r_limbs: usize,
    n: &Vec<u64>,
    nquote0: u64,
    a: &Vec<u64>,
    exponent: &Vec<u64>,
    exponent_bit_length: usize,
)
    requires
        old(w).len() == r_limbs,
        n.len() == r_limbs,
        a.len() == r_limbs,
        r_limbs >= 1,
        r_limbs <= usize::MAX / 64,
        mont_ok(nquote0, n@),
        as_nat(a@) < as_nat(n@),
        as_nat(old(w)@) < as_nat(n@),
        exponent_bit_length <= 64 * exponent.len(),
        exponent.len() <= usize::MAX / 64,
    ensures
        final(w)@.len() == r_limbs,
        as_nat(final(w)@) < as_nat(n@),
        mont_exp_rel(
            as_nat(final(w)@),
            as_nat(old(w)@),
            as_nat(a@),
            as_nat(n@),
            exp_value(exponent@, exponent_bit_length as nat),
            block_count(exponent_bit_length as nat),
            r_limbs as nat,
        ),
        exponent_bit_length == 0 ==> final(w)@ == old(w)@,
{
    let ghost nn = as_nat(n@);
    let ghost av = as_nat(a@);
    let ghost w0 = as_nat(old(w)@);
    let ghost rr = pow2((64 * r_limbs) as nat);
    let ghost xv = as_nat(exponent@);
    let ghost ebl = exponent_bit_length as nat;
    let ghost e = exp_value(exponent@, ebl);
    proof {
        crate::redc::lemma_mont_ok_facts(nquote0, n@);
        lemma_pow2_pos((64 * r_limbs) as nat);
        lemma_pow2_pos(ebl);
        lemma_mod_bound(xv as int, pow2(ebl) as int);
    }
    let mut t = make_zero_vec(2 * r_limbs);
    let table = build_power_table(r_limbs, a, n, nquote0, &mut t);
    let bc = exponent_bit_length / 6 + (if exponent_bit_length % 6 != 0 {
        1
    } else {
        0
    });
    proof {
        let q = (ebl as int) / 6;
        let rm = (ebl as int) % 6;
        lemma_fundamental_div_mod(ebl as int, 6);
        lemma_hoist_over_denominator(rm + 5, q, 6);
        if rm == 0 {
            lemma_basic_div(5, 6);
        } else {
            lemma_hoist_over_denominator(rm - 1, 1, 6);
            lemma_basic_div(rm - 1, 6);
        }
        assert(bc as int == (ebl as int + 5) / 6);
        assert(bc as nat == block_count(ebl));
        assert(ebl <= 6 * (bc as nat));
        if ebl < 6 * (bc as nat) {
            vstd::arithmetic::power2::lemma_pow2_strictly_increases(ebl, 6 * (bc as nat));
        }
        assert(e < pow2((6 * (bc as nat)) as nat));
        lemma_pow2_pos((6 * (bc as nat)) as nat);
        lemma_basic_div(e as int, pow2((6 * (bc as nat)) as nat) as int);
        // the relation holds trivially before any window is processed
        vstd::arithmetic::power::lemma_pow0(rr as int);
        vstd::arithmetic::power::lemma_pow0(av as int);
        lemma_pow1(w0 as int);
        lemma2_to64();
        assert((w0 as int) * pow(rr as int, 0) == pow(w0 as int, 1) * pow(av as int, 0)) by {
            assert((w0 as int) * 1 == w0 as int) by (nonlinear_arith);
            assert(pow(w0 as int, 1) * 1 == pow(w0 as int, 1)) by (nonlinear_arith);
        }
    }
    let mut i: usize = bc;
    #[verifier::loop_isolation(false)]
    while i > 0
        invariant
            i <= bc,
            w@.len() == r_limbs,
            t@.len() == 2 * r_limbs,
            as_nat(w@) < nn,
            i == bc ==> w@ == old(w)@,
            ((as_nat(w@) as int) * pow(
                rr as int,
                (pow2((6 * (bc - i)) as nat) + e / pow2((6 * i) as nat) - 1) as nat,
            )) % (nn as int) == (pow(w0 as int, pow2((6 * (bc - i)) as nat)) * pow(
                av as int,
                e / pow2((6 * i) as nat),
            )) % (nn as int),
        decreases i,
    {
        i -= 1;
        let ghost spp = pow2((6 * (bc - i - 1)) as nat);
        let ghost epp = e / pow2((6 * (i + 1)) as nat);
        proof {
            lemma_pow2_pos((6 * (bc - i - 1)) as nat);
            lemma_pow2_pos((6 * (i + 1)) as nat);
            lemma_pow2_pos((6 * i) as nat);
            assert(6 * (bc as int) <= ebl as int + 5);
            lemma_mod_bound((e / pow2((6 * i) as nat)) as int, 64);
        }
        // extract the 6-bit window at block i
        let mut bv: u64 = 0;
        let mut j: usize = 0;
        proof {
            lemma2_to64();
            lemma_mod_bound((e / pow2((6 * i) as nat)) as int, 1);
        }
        #[verifier::loop_isolation(false)]
        while j < 6
            invariant
                j <= 6,
                i < bc,
                bv as nat == (e / pow2((6 * i) as nat)) % pow2(j as nat),
            decreases 6 - j,
        {
            proof {
                lemma_window_accumulate(e, i as nat, j as nat);
                lemma2_to64();
                lemma_pow2_pos((j) as nat);
                lemma_mod_bound((e / pow2((6 * i) as nat)) as int, pow2(j as nat) as int);
                assert(6 * (i as int) + j < ebl as int + 6);
            }
            let p = i * 6 + j;
            let ghost pn = (6 * (i as nat) + j as nat) as nat;
            let bitval: u64;
            if p < exponent_bit_length {
                proof {
                    lemma_bit_below_length(xv, ebl, pn);
                    crate::limbs::lemma_as_nat_bit(exponent@, pn);
                    vstd::arithmetic::div_mod::lemma_multiply_divide_lt(
                        p as int,
                        exponent@.len() as int,
                        64,
                    );
                }
                let limb = exponent[p / 64];
                let sh = (p % 64) as u64;
                proof {
                    vstd::bits::lemma_u64_shr_is_div(limb, sh);
                }
                let shifted = limb >> sh;
                proof {
                    assert((shifted & 1) == shifted % 2) by (bit_vector);
                }
                bitval = shifted & 1;
                proof {
                    assert(bitval as nat == (e / pow2(pn)) % 2);
                }
            } else {
                bitval = 0;
                proof {
                    if ebl < pn {
                        vstd::arithmetic::power2::lemma_pow2_strictly_increases(ebl, pn);
                    }
                    lemma_pow2_pos(pn);
                    lemma_basic_div(e as int, pow2(pn) as int);
                    lemma_small_mod(0, 2);
                    assert(bitval as nat == (e / pow2(pn)) % 2);
                }
            }
            proof {
                vstd::bits::lemma_u64_shl_is_mul(1u64, j as u64);
            }
            if bitval == 1 {
                bv = bv + (1u64 << (j as u64));
            }
            j += 1;
        }
        proof {
            lemma_exp_digit_split(e, i as nat);
            assert(bv as nat == (e / pow2((6 * i) as nat)) % 64);
        }
        // square the accumulator once per window bit
        let ghost w_in = w@;
        let mut s: usize = 0;
        proof {
            vstd::arithmetic::power::lemma_pow0(rr as int);
            lemma_pow1(as_nat(w_in) as int);
            lemma2_to64();
            assert((as_nat(w@) as int) * pow(rr as int, 0) == as_nat(w@) as int) by {
                assert((as_nat(w@) as int) * 1 == as_nat(w@) as int) by (nonlinear_arith);
            }
        }
        #[verifier::loop_isolation(false)]
        while s < 6
            invariant
                s <= 6,
                w@.len() == r_limbs,
                t@.len() == 2 * r_limbs,
                as_nat(w@) < nn,
                ((as_nat(w@) as int) * pow(rr as int, (pow2(s as nat) - 1) as nat)) % (nn as int)
                    == pow(as_nat(w_in) as int, pow2(s as nat)) % (nn as int),
            decreases 6 - s,
        {
            let ghost wv = as_nat(w@);
            mont_sqr(w, r_limbs, n, nquote0, &mut t);
            proof {
                lemma_pow2_pos((64 * r_limbs) as nat);
                lemma_sqr_chain(
                    as_nat(w@) as int,
                    wv as int,
                    as_nat(w_in) as int,
                    rr as int,
                    nn as int,
                    s as nat,
                );
            }
            s += 1;
        }
        proof {
            lemma2_to64();
            assert(pow2(6) == 64);
            assert(pow2((6 * (bc - (i + 1))) as nat) == spp);
            lemma_block_compose(
                as_nat(w@) as int,
                as_nat(w_in) as int,
                w0 as int,
                av as int,
                nn as int,
                rr as int,
                spp,
                epp,
            );
            lemma_pow2_adds(6, (6 * (bc - i - 1)) as nat);
            assert(pow2((6 * (bc - i)) as nat) == 64 * spp);
        }
        // multiply in the matching table entry when the window is nonzero
        if bv != 0 {
            proof {
                assert((bv as int) * (r_limbs as int) + r_limbs <= 64 * r_limbs)
                    by (nonlinear_arith)
                    requires
                        0 <= bv as int <= 63,
                        r_limbs >= 0,
                ;
                assert((bv as int) * (r_limbs as int) <= 63 * (usize::MAX as int / 64))
                    by (nonlinear_arith)
                    requires
                        0 <= bv as int <= 63,
                        0 <= r_limbs as int <= usize::MAX as int / 64,
                ;
            }
            let mut winbuf = make_zero_vec(r_limbs);
            copy_from(&mut winbuf, &table, (bv as usize) * r_limbs);
            proof {
                assert(winbuf@ =~= table_entry(table@, bv as int, r_limbs as nat));
                assert(entry_ok(table@, bv as int, av, nn, r_limbs as nat));
            }
            let ghost w_prev = as_nat(w@);
            mont_mul_assign(w, r_limbs, &winbuf, n, nquote0, &mut t);
            proof {
                lemma_block_mul(
                    as_nat(w@) as int,
                    w_prev as int,
                    w0 as int,
                    av as int,
                    as_nat(winbuf@) as int,
                    nn as int,
                    rr as int,
                    (64 * spp) as nat,
                    (64 * epp) as nat,
                    bv as nat,
                );
                assert(e / pow2((6 * i) as nat) == 64 * epp + bv as nat);
            }
        } else {
            proof {
                assert(e / pow2((6 * i) as nat) == 64 * epp);
            }
        }
    }
    proof {
        lemma2_to64();
        vstd::arithmetic::div_mod::lemma_div_basics_2(e as int);
        assert(e / pow2((6 * 0) as nat) == e);
        assert(mont_exp_rel(as_nat(w@), w0, av, nn, e, bc as nat, r_limbs as nat));
    }
}

} // verus!
