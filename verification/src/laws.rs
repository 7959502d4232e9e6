//! The number-theoretic laws of the Montgomery domain: powers of two cancel
//! modulo an odd modulus, so the contracts of `redc` and `modpow` pin their
//! results to the unique Montgomery representatives, and decoding recovers
//! the plain modular values.

use vstd::prelude::*;
use vstd::arithmetic::power::{pow, lemma_pow1, lemma_pow_adds, lemma_pow_distributes, lemma_pow_multiplies};
use vstd::arithmetic::power2::{pow2, lemma_pow2, lemma_pow2_adds, lemma_pow2_pos, lemma2_to64};
use vstd::arithmetic::div_mod::{
    lemma_fundamental_div_mod, lemma_mod_multiples_vanish, lemma_small_mod,
};
use crate::mont::{lemma_mod_mul_both, lemma_mod_pow_congruent, mont_exp_rel};

verus! {

/// A factor two cancels from a congruence modulo an odd modulus, since two
/// is invertible there (its inverse is `(n + 1) / 2`).
proof fn lemma_cancel_two(x: int, y: int, nn: int)
    requires
        nn >= 1,
        nn % 2 == 1,
        (x * 2) % nn == (y * 2) % nn,
    ensures
        x % nn == y % nn,
{
    lemma_fundamental_div_mod(nn, 2);
    let h = nn / 2 + 1;
    assert(2 * h == nn + 1);
    lemma_mod_mul_both(x * 2, y * 2, h, h, nn);
    assert((x * 2) * h == nn * x + x) by (nonlinear_arith)
        requires
            2 * h == nn + 1,
    ;
    assert((y * 2) * h == nn * y + y) by (nonlinear_arith)
        requires
            2 * h == nn + 1,
    ;
    lemma_mod_multiples_vanish(x, x, nn);
    lemma_mod_multiples_vanish(y, y, nn);
}

/// Any power of two cancels from a congruence modulo an odd modulus.
proof fn lemma_cancel_pow2(x: int, y: int, j: nat, nn: int)
    requires
        nn >= 1,
        nn % 2 == 1,
        (x * pow2(j)) % nn == (y * pow2(j)) % nn,
    ensures
        x % nn == y % nn,
    decreases j,
{
    if j == 0 {
        lemma2_to64();
        assert(x * (pow2(j) as int) == x * 1);
        assert(x * 1 == x && y * 1 == y) by (nonlinear_arith);
        assert(y * (pow2(j) as int) == y * 1);
    } else {
        lemma_pow2_adds((j - 1) as nat, 1);
        lemma2_to64();
        let p = pow2((j - 1) as nat) as int;
        assert(x * pow2(j) == (x * p) * 2) by (nonlinear_arith)
            requires
                pow2(j) as int == p * 2,
        ;
        assert(y * pow2(j) == (y * p) * 2) by (nonlinear_arith)
            requires
                pow2(j) as int == p * 2,
        ;
        lemma_cancel_two(x * p, y * p, nn);
        lemma_cancel_pow2(x, y, (j - 1) as nat, nn);
    }
}

/// Any power of the Montgomery radix cancels from a congruence modulo an
/// odd modulus.
pub proof fn lemma_cancel_radix_pow(x: int, y: int, c: nat, r: nat, nn: int)
    requires
        nn >= 1,
        nn % 2 == 1,
        (x * pow(pow2(64 * r) as int, c)) % nn == (y * pow(pow2(64 * r) as int, c)) % nn,
    ensures
        x % nn == y % nn,
{
    lemma_pow2(64 * r);
    lemma_pow_multiplies(2, 64 * r, c);
    lemma_pow2((64 * r * c) as nat);
    assert(pow(pow2(64 * r) as int, c) == pow2((64 * r * c) as nat) as int);
    lemma_cancel_pow2(x, y, (64 * r * c) as nat, nn);
}

/// The value that `redc`'s contract describes is unique: two residues below
/// an odd modulus whose radix products agree modulo it are equal.  With the
/// reduction contract this says the output is exactly `t * R^-1 mod n`.
pub proof fn lemma_mont_value_unique(x1: nat, x2: nat, r: nat, nn: nat)
    requires
        nn >= 1,
        nn % 2 == 1,
        x1 < nn,
        x2 < nn,
        (x1 * pow2(64 * r)) % nn == (x2 * pow2(64 * r)) % nn,
    ensures
        x1 == x2,
{
    let ri = pow2(64 * r) as int;
    lemma_pow2_pos(64 * r);
    lemma_pow1(ri);
    assert((x1 as int * pow(ri, 1)) % (nn as int) == (x2 as int * pow(ri, 1)) % (nn as int));
    lemma_cancel_radix_pow(x1 as int, x2 as int, 1, r, nn as int);
    lemma_small_mod(x1, nn);
    lemma_small_mod(x2, nn);
}

/// Decoding the exponentiation: when the accumulator was pre-seeded with the
/// Montgomery form of one and the base buffer holds the Montgomery form of
/// `x`, the relation guaranteed by `modpow` pins the result to the
/// Montgomery form of `x^e mod n` — decoding it yields `x^e mod n`.
pub proof fn lemma_modpow_decodes(
    wf: nat,
    w0: nat,
    avv: nat,
    nn: nat,
    x: nat,
    e: nat,
    bc: nat,
    r: nat,
)
    requires
        nn >= 1,
        nn % 2 == 1,
        wf < nn,
        w0 % nn == pow2(64 * r) % nn,
        avv % nn == (x * pow2(64 * r)) % nn,
        mont_exp_rel(wf, w0, avv, nn, e, bc, r),
    ensures
        wf as int == (pow(x as int, e) * pow2(64 * r) as int) % (nn as int),
{
    let ri = pow2(64 * r) as int;
    let ni = nn as int;
    let ss = pow2(6 * bc);
    lemma_pow2_pos(6 * bc);
    lemma_pow2_pos(64 * r);
    let cc = (ss + e - 1) as nat;
    lemma_mod_pow_congruent(w0 as int, ri, ss, ni);
    lemma_mod_pow_congruent(avv as int, (x as int) * ri, e, ni);
    lemma_pow_distributes(x as int, ri, e);
    lemma_mod_mul_both(
        pow(w0 as int, ss),
        pow(ri, ss),
        pow(avv as int, e),
        pow(x as int, e) * pow(ri, e),
        ni,
    );
    lemma_pow_adds(ri, ss, e);
    lemma_pow1(ri);
    lemma_pow_adds(ri, 1, cc);
    assert(pow(ri, ss) * (pow(x as int, e) * pow(ri, e)) == (pow(x as int, e) * ri) * pow(ri, cc))
        by (nonlinear_arith)
        requires
            pow(ri, ss) * pow(ri, e) == pow(ri, (ss + e) as nat),
            pow(ri, (ss + e) as nat) == ri * pow(ri, cc),
    ;
    assert((wf as int * pow(ri, cc)) % ni == ((pow(x as int, e) * ri) * pow(ri, cc)) % ni);
    lemma_cancel_radix_pow(wf as int, pow(x as int, e) * ri, cc, r, ni);
    lemma_small_mod(wf, nn);
}

/// An exponent of one returns the base unchanged: `modpow(a, 1, n)` decodes
/// to what `a` decodes to.
pub proof fn lemma_modpow_exponent_one(wf: nat, w0: nat, avv: nat, nn: nat, bc: nat, r: nat)
    requires
        nn >= 1,
        nn % 2 == 1,
        wf < nn,
        avv < nn,
        w0 % nn == pow2(64 * r) % nn,
        mont_exp_rel(wf, w0, avv, nn, 1, bc, r),
    ensures
        wf == avv,
{
    let ri = pow2(64 * r) as int;
    let ni = nn as int;
    let ss = pow2(6 * bc);
    lemma_pow2_pos(6 * bc);
    lemma_pow2_pos(64 * r);
    assert((ss + 1 - 1) as nat == ss);
    lemma_mod_pow_congruent(w0 as int, ri, ss, ni);
    lemma_pow1(avv as int);
    lemma_mod_mul_both(pow(w0 as int, ss), pow(ri, ss), pow(avv as int, 1), avv as int, ni);
    assert(pow(ri, ss) * (avv as int) == (avv as int) * pow(ri, ss)) by (nonlinear_arith);
    lemma_cancel_radix_pow(wf as int, avv as int, ss, r, ni);
    lemma_small_mod(wf, nn);
    lemma_small_mod(avv, nn);
}

/// An exponent of two matches one Montgomery squaring of the base.
pub proof fn lemma_modpow_exponent_two(
    wf: nat,
    ws: nat,
    w0: nat,
    avv: nat,
    nn: nat,
    bc: nat,
    r: nat,
)
    requires
        nn >= 1,
        nn % 2 == 1,
        wf < nn,
        ws < nn,
        w0 % nn == pow2(64 * r) % nn,
        mont_exp_rel(wf, w0, avv, nn, 2, bc, r),
        (ws * pow2(64 * r)) % nn == (avv * avv) % nn,
    ensures
        wf == ws,
{
    let ri = pow2(64 * r) as int;
    let ni = nn as int;
    let ss = pow2(6 * bc);
    lemma_pow2_pos(6 * bc);
    lemma_pow2_pos(64 * r);
    let cc = (ss + 2 - 1) as nat;
    lemma_mod_pow_congruent(w0 as int, ri, ss, ni);
    lemma_pow1(avv as int);
    lemma_pow_adds(avv as int, 1, 1);
    assert(pow(avv as int, 2) == (avv as int) * (avv as int));
    lemma_mod_mul_both(
        pow(w0 as int, ss),
        pow(ri, ss),
        pow(avv as int, 2),
        (ws as int) * ri,
        ni,
    );
    lemma_pow1(ri);
    lemma_pow_adds(ri, 1, ss);
    assert(pow(ri, ss) * ((ws as int) * ri) == (ws as int) * pow(ri, (1 + ss) as nat))
        by (nonlinear_arith)
        requires
            pow(ri, (1 + ss) as nat) == ri * pow(ri, ss),
    ;
    assert(cc == 1 + ss);
    lemma_cancel_radix_pow(wf as int, ws as int, cc, r, ni);
    lemma_small_mod(wf, nn);
    lemma_small_mod(ws, nn);
}

/// Decoding a power-table entry: entry `eidx` of the table built from the
/// Montgomery form of `x` is the Montgomery form of `x^eidx mod n`.
pub proof fn lemma_table_entry_decodes(ent: nat, avv: nat, nn: nat, x: nat, eidx: nat, r: nat)
    requires
        nn >= 1,
        nn % 2 == 1,
        ent < nn,
        eidx >= 1,
        avv % nn == (x * pow2(64 * r)) % nn,
        ((ent as int) * pow(pow2(64 * r) as int, (eidx - 1) as nat)) % (nn as int) == pow(
            avv as int,
            eidx,
        ) % (nn as int),
    ensures
        ent as int == (pow(x as int, eidx) * pow2(64 * r) as int) % (nn as int),
{
    let ri = pow2(64 * r) as int;
    let ni = nn as int;
    let cc = (eidx - 1) as nat;
    lemma_pow2_pos(64 * r);
    lemma_mod_pow_congruent(avv as int, (x as int) * ri, eidx, ni);
    lemma_pow_distributes(x as int, ri, eidx);
    lemma_pow1(ri);
    lemma_pow_adds(ri, 1, cc);
    assert(pow(x as int, eidx) * pow(ri, eidx) == (pow(x as int, eidx) * ri) * pow(ri, cc))
        by (nonlinear_arith)
        requires
            pow(ri, eidx) == ri * pow(ri, cc),
    ;
    lemma_cancel_radix_pow(ent as int, pow(x as int, eidx) * ri, cc, r, ni);
    lemma_small_mod(ent, nn);
}

} // verus!
