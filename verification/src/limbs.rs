//! The mathematical model of limb sequences: a `Seq<u64>` read little-endian
//! as a nonnegative integer, and the lemmas that relate that value to
//! prefixes, suffixes, single-limb updates and single bits.

use vstd::prelude::*;
use vstd::arithmetic::power2::{pow2, lemma_pow2_adds, lemma_pow2_pos, lemma2_to64};
use vstd::arithmetic::mul::{
    lemma_mul_inequality, lemma_mul_is_associative, lemma_mul_is_commutative,
    lemma_mul_is_distributive_add,
};
use vstd::arithmetic::div_mod::{
    lemma_basic_div, lemma_div_denominator, lemma_hoist_over_denominator,
    lemma_mod_multiples_vanish,
};

verus! {

/// The integer that a little-endian limb sequence stands for.
pub open spec fn as_nat(s: Seq<u64>) -> nat
    decreases s.len(),
{
    if s.len() == 0 {
        0
    } else {
        s[0] as nat + pow2(64) * as_nat(s.skip(1))
    }
}

/// The value of a sequence splits at any index `k` into the value of the low
/// `k` limbs plus `2^(64k)` times the value of the rest.
pub proof fn lemma_as_nat_split(s: Seq<u64>, k: int)
    requires
        0 <= k <= s.len(),
    ensures
        as_nat(s) == as_nat(s.take(k)) + pow2((64 * k) as nat) * as_nat(s.skip(k)),
    decreases k,
{
    if k == 0 {
        assert(s.take(0).len() == 0);
        assert(s.skip(0) =~= s);
        lemma2_to64();
    } else {
        let tail = s.skip(1);
        lemma_as_nat_split(tail, k - 1);
        assert(tail.take(k - 1) =~= s.take(k).skip(1));
        assert(tail.skip(k - 1) =~= s.skip(k));
        assert(s.take(k)[0] == s[0]);
        assert(s.take(k).len() == k);
        lemma_pow2_adds(64, (64 * (k - 1)) as nat);
        let b = pow2(64) as int;
        let p = pow2((64 * (k - 1)) as nat) as int;
        let t = as_nat(tail.take(k - 1)) as int;
        let h = as_nat(s.skip(k)) as int;
        assert(b * (t + p * h) == b * t + (b * p) * h) by (nonlinear_arith);
    }
}

/// Appending limb `k` to a prefix adds `s[k] * 2^(64k)` to its value.
pub proof fn lemma_as_nat_take_succ(s: Seq<u64>, k: int)
    requires
        0 <= k < s.len(),
    ensures
        as_nat(s.take(k + 1)) == as_nat(s.take(k)) + (s[k] as nat) * pow2((64 * k) as nat),
{
    let u = s.take(k + 1);
    lemma_as_nat_split(u, k);
    assert(u.take(k) =~= s.take(k));
    let last = u.skip(k);
    assert(last.len() == 1);
    assert(last[0] == s[k]);
    assert(last.skip(1).len() == 0);
    assert(as_nat(last.skip(1)) == 0);
    assert(as_nat(last) == s[k] as nat + pow2(64) * as_nat(last.skip(1)));
    lemma_mul_is_commutative(pow2((64 * k) as nat) as int, s[k] as int);
}

/// A sequence of `L` limbs stands for a value below `2^(64L)`.
pub proof fn lemma_as_nat_bound(s: Seq<u64>)
    ensures
        as_nat(s) < pow2((64 * s.len()) as nat),
    decreases s.len(),
{
    if s.len() == 0 {
        lemma2_to64();
    } else {
        let tail = s.skip(1);
        lemma_as_nat_bound(tail);
        lemma_pow2_adds(64, (64 * (s.len() - 1)) as nat);
        lemma_pow2_pos((64 * (s.len() - 1)) as nat);
        lemma_pow2_pos(64);
        lemma2_to64();
        let b = pow2(64) as int;
        let p = pow2((64 * (s.len() - 1)) as nat) as int;
        let t = as_nat(tail) as int;
        assert(t <= p - 1);
        assert(b * t <= b * (p - 1) && b * (p - 1) == b * p - b) by (nonlinear_arith)
            requires
                t <= p - 1,
                b > 0,
        ;
    }
}

/// Changing one limb changes the value by the weighted difference of the
/// old and the new limb.
pub proof fn lemma_as_nat_update(s: Seq<u64>, k: int, v: u64)
    requires
        0 <= k < s.len(),
    ensures
        as_nat(s.update(k, v)) + (s[k] as nat) * pow2((64 * k) as nat) == as_nat(s) + (
        v as nat) * pow2((64 * k) as nat),
{
    let u = s.update(k, v);
    lemma_as_nat_split(s, k);
    lemma_as_nat_split(u, k);
    assert(u.take(k) =~= s.take(k));
    let st = s.skip(k);
    let ut = u.skip(k);
    assert(st.len() > 0 && ut.len() > 0);
    assert(st[0] == s[k] && ut[0] == v);
    assert(st.skip(1) =~= ut.skip(1));
    let p = pow2((64 * k) as nat) as int;
    let b = pow2(64) as int;
    let h = as_nat(st.skip(1)) as int;
    assert(p * (v + b * h) + s[k] * p == p * (s[k] + b * h) + v * p) by (nonlinear_arith);
}

/// A sequence of zero limbs stands for zero.
pub proof fn lemma_as_nat_zeros(s: Seq<u64>)
    requires
        forall|j: int| 0 <= j < s.len() ==> s[j] == 0,
    ensures
        as_nat(s) == 0,
    decreases s.len(),
{
    if s.len() > 0 {
        assert(s[0] == 0);
        lemma_as_nat_zeros(s.skip(1));
        assert(as_nat(s) == 0 + pow2(64) * 0);
    }
}

/// When the low `k` limbs are zero the value is `2^(64k)` times the value of
/// the remaining limbs.
pub proof fn lemma_as_nat_zero_prefix(s: Seq<u64>, k: int)
    requires
        0 <= k <= s.len(),
        forall|j: int| 0 <= j < k ==> s[j] == 0,
    ensures
        as_nat(s) == pow2((64 * k) as nat) * as_nat(s.skip(k)),
{
    lemma_as_nat_split(s, k);
    lemma_as_nat_zeros(s.take(k));
}

/// Limb sequences compare by their most significant differing limb.
pub proof fn lemma_as_nat_compare(a: Seq<u64>, b: Seq<u64>, pos: int)
    requires
        a.len() == b.len(),
        0 <= pos < a.len(),
        forall|j: int| pos < j < a.len() ==> a[j] == b[j],
        a[pos] > b[pos],
    ensures
        as_nat(a) > as_nat(b),
{
    lemma_as_nat_split(a, pos);
    lemma_as_nat_split(b, pos);
    let at = a.skip(pos);
    let bt = b.skip(pos);
    assert(at.len() > 0 && bt.len() > 0);
    assert(at[0] == a[pos] && bt[0] == b[pos]);
    assert(at.skip(1) =~= bt.skip(1));
    lemma_as_nat_bound(b.take(pos));
    assert(b.take(pos).len() == pos);
    lemma_pow2_pos((64 * pos) as nat);
    lemma_pow2_pos(64);
    let p = pow2((64 * pos) as nat) as int;
    let bb = pow2(64) as int;
    let h = as_nat(at.skip(1)) as int;
    let alow = as_nat(a.take(pos)) as int;
    let blow = as_nat(b.take(pos)) as int;
    assert(alow + p * (a[pos] + bb * h) > blow + p * (b[pos] + bb * h)) by (nonlinear_arith)
        requires
            alow >= 0,
            blow < p,
            a[pos] >= b[pos] + 1,
            p > 0,
            bb > 0,
            h >= 0,
    ;
}

/// Dividing the value by `2^(64q)` exposes limb `q` in the low word.
pub proof fn lemma_as_nat_digit_div(s: Seq<u64>, q: int)
    requires
        0 <= q < s.len(),
    ensures
        as_nat(s) / pow2((64 * q) as nat) == s[q] as nat + pow2(64) * as_nat(s.skip(q + 1)),
{
    lemma_as_nat_split(s, q);
    let p = pow2((64 * q) as nat);
    lemma_pow2_pos((64 * q) as nat);
    let st = s.skip(q);
    assert(st.len() > 0);
    assert(st[0] == s[q]);
    assert(st.skip(1) =~= s.skip(q + 1));
    let low = as_nat(s.take(q));
    let x = as_nat(st);
    lemma_as_nat_bound(s.take(q));
    assert(s.take(q).len() == q);
    lemma_hoist_over_denominator(low as int, x as int, p);
    assert(low as int / p as int == 0) by {
        lemma_basic_div(low as int, p as int);
    }
    assert(x as int * p as int == p as int * x as int) by (nonlinear_arith);
}

/// Bit `p` of the value of a limb sequence is bit `p % 64` of limb `p / 64`.
pub proof fn lemma_as_nat_bit(s: Seq<u64>, p: nat)
    requires
        p < 64 * s.len(),
    ensures
        (as_nat(s) / pow2(p)) % 2 == ((s[(p / 64) as int] as nat) / pow2(p % 64)) % 2,
{
    let q = (p / 64) as int;
    let rb = p % 64;
    assert(0 <= q < s.len());
    assert(p == 64 * q + rb);
    lemma_as_nat_digit_div(s, q);
    let h = as_nat(s.skip(q + 1));
    let d = s[q] as nat;
    lemma_pow2_adds((64 * q) as nat, rb);
    lemma_pow2_pos((64 * q) as nat);
    lemma_pow2_pos(rb);
    lemma_div_denominator(as_nat(s) as int, pow2((64 * q) as nat) as int, pow2(rb) as int);
    assert(as_nat(s) / pow2(p) == (d + pow2(64) * h) / pow2(rb));
    lemma_pow2_adds(rb, (64 - rb) as nat);
    let hi = pow2((64 - rb) as nat) * h;
    lemma_hoist_over_denominator(d as int, hi as int, pow2(rb));
    assert(hi as int * pow2(rb) as int == pow2(64) as int * h as int) by (nonlinear_arith)
        requires
            pow2((64 - rb) as nat) as int * pow2(rb) as int == pow2(64) as int,
            hi as int == pow2((64 - rb) as nat) as int * h as int,
    ;
    assert((d + pow2(64) * h) / pow2(rb) == d / pow2(rb) + hi);
    lemma_pow2_adds(1, (63 - rb) as nat);
    lemma2_to64();
    assert(hi == 2 * (pow2((63 - rb) as nat) * h)) by (nonlinear_arith)
        requires
            hi == pow2((64 - rb) as nat) * h,
            pow2((64 - rb) as nat) == 2 * pow2((63 - rb) as nat),
    ;
    lemma_mod_multiples_vanish((pow2((63 - rb) as nat) * h) as int, (d / pow2(rb)) as int, 2);
}

} // verus!
