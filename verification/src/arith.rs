//! Verified multi-precision primitives over little-endian limb buffers:
//! zeroing, copying, comparison, borrowing subtraction, a multiply-accumulate
//! row and carry propagation, composed into the full schoolbook product.

use vstd::prelude::*;
use vstd::arithmetic::power2::{pow2, lemma_pow2_adds, lemma_pow2_pos, lemma2_to64};
use vstd::arithmetic::div_mod::{lemma_fundamental_div_mod, lemma_multiply_divide_lt};
use crate::limbs::{
    as_nat, lemma_as_nat_bound, lemma_as_nat_compare, lemma_as_nat_take_succ,
    lemma_as_nat_update, lemma_as_nat_zeros,
};

verus! {

/// Bound used to show that one multiply-accumulate step fits in a double word.
pub(crate) proof fn lemma_mac_fits(x: u64, y: u64, a: u64, c: u64)
    ensures
        (x as nat) * (y as nat) + (a as nat) + (c as nat) <= u128::MAX,
{
    let m: int = 0xffff_ffff_ffff_ffff;
    assert((x as int) * (y as int) <= m * m) by (nonlinear_arith)
        requires
            0 <= x as int <= m,
            0 <= y as int <= m,
    ;
}

/// A double word splits into a high and a low limb at `2^64`.
proof fn lemma_split_double(tot: u128)
    ensures
        (tot as nat) % pow2(64) < pow2(64),
        (tot as nat) / pow2(64) < pow2(64),
        (tot as nat) == pow2(64) * ((tot as nat) / pow2(64)) + (tot as nat) % pow2(64),
{
    lemma2_to64();
    lemma_pow2_pos(64);
    lemma_fundamental_div_mod(tot as int, pow2(64) as int);
    assert((tot as int) < pow2(64) as int * pow2(64) as int);
    lemma_multiply_divide_lt(tot as int, pow2(64) as int, pow2(64) as int);
}

/// A fresh buffer of `len` zero limbs.
pub fn make_zero_vec(len: usize) -> (w: Vec<u64>)
    ensures
        w@.len() == len,
        forall|j: int| 0 <= j < len ==> w@[j] == 0,
        as_nat(w@) == 0,
{
    let mut w: Vec<u64> = Vec::new();
    #[verifier::loop_isolation(false)]
    while w.len() < len
        invariant
            w@.len() <= len,
            forall|j: int| 0 <= j < w@.len() ==> w@[j] == 0,
        decreases len - w@.len(),
    {
        w.push(0);
    }
    proof {
        lemma_as_nat_zeros(w@);
    }
    w
}

/// A copy of a limb buffer.
pub fn clone_limbs(src: &Vec<u64>) -> (w: Vec<u64>)
    ensures
        w@ == src@,
{
    let mut w: Vec<u64> = Vec::new();
    let mut k: usize = 0;
    #[verifier::loop_isolation(false)]
    while k < src.len()
        invariant
            k <= src@.len(),
            w@ =~= src@.take(k as int),
        decreases src@.len() - k,
    {
        w.push(src[k]);
        k += 1;
    }
    proof {
        assert(w@ =~= src@);
    }
    w
}

/// Overwrites `w` with `w.len()` limbs of `src` starting at limb `start`.
pub fn copy_from(w: &mut Vec<u64>, src: &Vec<u64>, start: usize)
    requires
        start + old(w).len() <= src.len(),
    ensures
        final(w)@.len() == old(w)@.len(),
        final(w)@ == src@.subrange(start as int, start + old(w)@.len()),
{
    let mut k: usize = 0;
    #[verifier::loop_isolation(false)]
    while k < w.len()
        invariant
            k <= w@.len(),
            w@.len() == old(w)@.len(),
            forall|j: int| 0 <= j < k ==> w@[j] == src@[start + j],
        decreases w@.len() - k,
    {
        let v = src[start + k];
        w.set(k, v);
        k += 1;
    }
    proof {
        assert(w@ =~= src@.subrange(start as int, start + old(w)@.len()));
    }
}

/// Three-way comparison collapsed to what the reduction needs: whether the
/// first operand is at least the second.
pub fn ge_n(a: &Vec<u64>, b: &Vec<u64>) -> (r: bool)
    requires
        a.len() == b.len(),
    ensures
        r == (as_nat(a@) >= as_nat(b@)),
{
    let mut i: usize = a.len();
    #[verifier::loop_isolation(false)]
    while i > 0
        invariant
            i <= a@.len(),
            forall|j: int| i <= j < a@.len() ==> a@[j] == b@[j],
        decreases i,
    {
        i -= 1;
        let x = a[i];
        let y = b[i];
        if x > y {
            proof {
                lemma_as_nat_compare(a@, b@, i as int);
            }
            return true;
        }
        if x < y {
            proof {
                lemma_as_nat_compare(b@, a@, i as int);
            }
            return false;
        }
    }
    proof {
        assert(a@ =~= b@);
    }
    true
}

/// Subtracts `b` from `w` in place, wrapping modulo `2^(64 len)` when `b`
/// is the larger; the standard borrow chain.
pub fn sub_in_place(w: &mut Vec<u64>, b: &Vec<u64>)
    requires
        old(w).len() == b.len(),
    ensures
        final(w)@.len() == old(w)@.len(),
        as_nat(old(w)@) >= as_nat(b@) ==> as_nat(final(w)@) + as_nat(b@) == as_nat(old(w)@),
        as_nat(old(w)@) < as_nat(b@) ==> as_nat(final(w)@) + as_nat(b@) == as_nat(old(w)@)
            + pow2((64 * old(w)@.len()) as nat),
{
    let ghost orig = old(w)@;
    let mut borrow: u64 = 0;
    let mut k: usize = 0;
    proof {
        lemma2_to64();
    }
    #[verifier::loop_isolation(false)]
    while k < w.len()
        invariant
            k <= w@.len(),
            w@.len() == old(w)@.len(),
            borrow <= 1,
            forall|j: int| k <= j < w@.len() ==> w@[j] == old(w)@[j],
            as_nat(old(w)@.take(k as int)) + (borrow as nat) * pow2((64 * k) as nat) == as_nat(
                w@.take(k as int)) + as_nat(b@.take(k as int)),
        decreases w@.len() - k,
    {
        let ghost prev = w@;
        let wi = w[k] as u128;
        let sub_total = b[k] as u128 + borrow as u128;
        let new_borrow: u64;
        let val: u64;
        if wi >= sub_total {
            val = (wi - sub_total) as u64;
            new_borrow = 0;
        } else {
            val = (wi + 0x1_0000_0000_0000_0000u128 - sub_total) as u64;
            new_borrow = 1;
        }
        w.set(k, val);
        proof {
            let ki = k as int;
            lemma_pow2_adds((64 * ki) as nat, 64);
            lemma_pow2_pos((64 * ki) as nat);
            lemma_pow2_pos(64);
            assert(w@.take(ki) =~= prev.take(ki));
            lemma_as_nat_take_succ(w@, ki);
            lemma_as_nat_take_succ(b@, ki);
            let p = pow2((64 * ki) as nat) as int;
            let bb = pow2(64) as int;
            assert(val as int == orig[ki] + (if new_borrow == 1 { bb } else { 0 }) - b@[ki]
                - borrow);
            lemma_as_nat_take_succ(orig, ki);
            assert(as_nat(orig.take(ki + 1)) + (new_borrow as nat) * pow2((64 * (ki + 1)) as nat)
                == as_nat(w@.take(ki + 1)) + as_nat(b@.take(ki + 1))) by (nonlinear_arith)
                requires
                    as_nat(orig.take(ki)) + (borrow as nat) * (p as nat) == as_nat(
                        prev.take(ki)) + as_nat(b@.take(ki)),
                    as_nat(w@.take(ki + 1)) == as_nat(w@.take(ki)) + (val as nat) * (p as nat),
                    as_nat(orig.take(ki + 1)) == as_nat(orig.take(ki)) + (
                    orig[ki] as nat) * (p as nat),
                    as_nat(b@.take(ki + 1)) == as_nat(b@.take(ki)) + (b@[ki] as nat) * (p as nat),
                    as_nat(w@.take(ki)) == as_nat(prev.take(ki)),
                    pow2((64 * (ki + 1)) as nat) == (p * bb) as nat,
                    val as int == orig[ki] + (if new_borrow == 1 { bb } else { 0 }) - b@[ki]
                        - borrow,
                    new_borrow == 0 || new_borrow == 1,
                    p > 0,
                    bb > 0,
            ;
        }
        borrow = new_borrow;
        k += 1;
    }
    proof {
        let len = w@.len() as int;
        assert(w@.take(len) =~= w@);
        assert(old(w)@.take(len) =~= old(w)@);
        assert(b@.take(len) =~= b@);
        lemma_as_nat_bound(w@);
        lemma_as_nat_bound(old(w)@);
        let pfull = pow2((64 * len) as nat);
        if borrow == 0 {
            assert((borrow as nat) * pfull == 0) by (nonlinear_arith)
                requires
                    borrow == 0,
            ;
        } else {
            assert((borrow as nat) * pfull == pfull) by (nonlinear_arith)
                requires
                    borrow == 1,
            ;
        }
    }
}

/// Adds `m * n`, shifted `off` limbs up, into `t`; the returned carry has
/// weight `2^(64 (off + n.len()))`.  The low target limb afterwards equals
/// the sum of its old value and `m * n[0]`, reduced modulo `2^64`.
pub fn addmul_row(t: &mut Vec<u64>, off: usize, m: u64, n: &Vec<u64>) -> (carry: u64)
    requires
        off + n.len() <= old(t).len(),
    ensures
        final(t)@.len() == old(t)@.len(),
        forall|j: int| 0 <= j < off ==> final(t)@[j] == old(t)@[j],
        forall|j: int| off + n@.len() <= j < old(t)@.len() ==> final(t)@[j] == old(t)@[j],
        as_nat(final(t)@) + (carry as nat) * pow2((64 * (off + n@.len())) as nat) == as_nat(
            old(t)@) + (m as nat) * as_nat(n@) * pow2((64 * off) as nat),
        n@.len() > 0 ==> final(t)@[off as int] as nat == ((old(t)@[off as int] as nat) + (
        m as nat) * (n@[0] as nat)) % pow2(64),
{
    let ghost orig = old(t)@;
    let mut carry: u64 = 0;
    let mut j: usize = 0;
    proof {
        lemma2_to64();
        assert(n@.take(0).len() == 0);
        assert(as_nat(n@.take(0)) == 0);
        assert((m as nat) * as_nat(n@.take(0)) * pow2((64 * off) as nat) == 0) by (nonlinear_arith)
            requires
                as_nat(n@.take(0)) == 0,
        ;
    }
    #[verifier::loop_isolation(false)]
    while j < n.len()
        invariant
            j <= n@.len(),
            t@.len() == old(t)@.len(),
            forall|i: int| 0 <= i < off ==> t@[i] == old(t)@[i],
            forall|i: int| off + j <= i < t@.len() ==> t@[i] == old(t)@[i],
            as_nat(t@) + (carry as nat) * pow2((64 * (off + j)) as nat) == as_nat(old(t)@) + (
            m as nat) * as_nat(n@.take(j as int)) * pow2((64 * off) as nat),
            j > 0 ==> t@[off as int] as nat == ((old(t)@[off as int] as nat) + (m as nat) * (
            n@[0] as nat)) % pow2(64),
            j == 0 ==> carry == 0,
        decreases n@.len() - j,
    {
        let ghost prev = t@;
        let ghost carry0 = carry;
        let tj = t[off + j];
        let nj = n[j];
        proof {
            lemma_mac_fits(m, nj, tj, carry);
        }
        let tot: u128 = (m as u128) * (nj as u128) + (tj as u128) + (carry as u128);
        let lo = (tot % 0x1_0000_0000_0000_0000u128) as u64;
        let hi = (tot / 0x1_0000_0000_0000_0000u128) as u64;
        t.set(off + j, lo);
        proof {
            lemma_split_double(tot);
            let ji = j as int;
            let pos = off + ji;
            let p = pow2((64 * pos) as nat) as int;
            let poff = pow2((64 * off) as nat) as int;
            let pj = pow2((64 * ji) as nat) as int;
            let bb = pow2(64) as int;
            lemma_pow2_adds((64 * pos) as nat, 64);
            lemma_pow2_adds((64 * off) as nat, (64 * ji) as nat);
            lemma_pow2_adds((64 * off) as nat, (64 * (ji + 1)) as nat);
            lemma_pow2_adds((64 * ji) as nat, 64);
            lemma_pow2_pos((64 * pos) as nat);
            lemma_pow2_pos((64 * off) as nat);
            lemma_pow2_pos((64 * ji) as nat);
            lemma_pow2_pos(64);
            lemma_as_nat_update(prev, pos, lo);
            lemma_as_nat_take_succ(n@, ji);
            assert(tot as int == (m as int) * (nj as int) + tj + carry0);
            assert(tot as int == bb * (hi as int) + lo);
            let aa = as_nat(t@) as int;
            let pr = as_nat(prev) as int;
            let oo = as_nat(orig) as int;
            let tj_take = as_nat(n@.take(ji)) as int;
            let t1_take = as_nat(n@.take(ji + 1)) as int;
            let mi = m as int;
            let nji = nj as int;
            let hii = hi as int;
            let loi = lo as int;
            let tji = tj as int;
            let ci = carry0 as int;
            let p1 = pow2((64 * (pos + 1)) as nat) as int;
            assert(aa + tji * p == pr + loi * p);
            assert(pr + ci * p == oo + mi * tj_take * poff);
            assert(t1_take == tj_take + nji * pj);
            assert(bb * hii + loi == mi * nji + tji + ci);
            assert(hii * p1 == (bb * hii) * p) by (nonlinear_arith)
                requires
                    p1 == p * bb,
            ;
            assert((bb * hii) * p == (mi * nji) * p + tji * p + ci * p - loi * p)
                by (nonlinear_arith)
                requires
                    bb * hii == mi * nji + tji + ci - loi,
            ;
            assert(mi * t1_take * poff == mi * tj_take * poff + (mi * nji) * p)
                by (nonlinear_arith)
                requires
                    t1_take == tj_take + nji * pj,
                    p == poff * pj,
            ;
            assert(aa + hii * p1 == oo + mi * t1_take * poff);
            assert(as_nat(t@) + (hi as nat) * pow2((64 * (pos + 1)) as nat) == as_nat(orig)
                + (m as nat) * as_nat(n@.take(ji + 1)) * pow2((64 * off) as nat));
            if j == 0 {
                assert(lo as nat == ((old(t)@[off as int] as nat) + (m as nat) * (n@[0] as nat))
                    % pow2(64));
            }
        }
        carry = hi;
        j += 1;
    }
    proof {
        assert(n@.take(n@.len() as int) =~= n@);
    }
    carry
}

/// Propagates a single carry upward from limb `pos` to the end of `t`; the
/// returned carry has weight `2^(64 t.len())`.
pub fn propagate_carry(t: &mut Vec<u64>, pos: usize, c: u64) -> (out: u64)
    requires
        pos <= old(t).len(),
    ensures
        final(t)@.len() == old(t)@.len(),
        forall|j: int| 0 <= j < pos ==> final(t)@[j] == old(t)@[j],
        as_nat(final(t)@) + (out as nat) * pow2((64 * old(t)@.len()) as nat) == as_nat(old(t)@)
            + (c as nat) * pow2((64 * pos) as nat),
        pos < old(t)@.len() ==> out <= 1,
        pos == old(t)@.len() ==> out == c,
{
    let ghost orig = old(t)@;
    let mut carry: u64 = c;
    let mut j: usize = pos;
    #[verifier::loop_isolation(false)]
    while j < t.len()
        invariant
            pos <= j <= t@.len(),
            t@.len() == old(t)@.len(),
            forall|i: int| 0 <= i < pos ==> t@[i] == old(t)@[i],
            as_nat(t@) + (carry as nat) * pow2((64 * j) as nat) == as_nat(old(t)@) + (c as nat)
                * pow2((64 * pos) as nat),
            j > pos ==> carry <= 1,
            j == pos ==> carry == c,
        decreases t@.len() - j,
    {
        let ghost prev = t@;
        let ghost carry0 = carry;
        let tj = t[j];
        let tot: u128 = (tj as u128) + (carry as u128);
        let lo = (tot % 0x1_0000_0000_0000_0000u128) as u64;
        let hi = (tot / 0x1_0000_0000_0000_0000u128) as u64;
        t.set(j, lo);
        proof {
            lemma_split_double(tot);
            lemma2_to64();
            let ji = j as int;
            let p = pow2((64 * ji) as nat) as int;
            let bb = pow2(64) as int;
            lemma_pow2_adds((64 * ji) as nat, 64);
            lemma_pow2_pos((64 * ji) as nat);
            lemma_pow2_pos(64);
            lemma_as_nat_update(prev, ji, lo);
            assert(tot as int == tj + carry0);
            assert(tot as int == bb * (hi as int) + lo);
            assert(hi <= 1);
            assert(as_nat(t@) + (hi as nat) * pow2((64 * (ji + 1)) as nat) == as_nat(orig) + (
            c as nat) * pow2((64 * pos) as nat)) by (nonlinear_arith)
                requires
                    as_nat(t@) + (prev[ji] as nat) * (p as nat) == as_nat(prev) + (lo as nat) * (
                    p as nat),
                    as_nat(prev) + (carry0 as nat) * (p as nat) == as_nat(orig) + (c as nat)
                        * pow2((64 * pos) as nat),
                    prev[ji] == tj,
                    tot as int == tj + carry0,
                    tot as int == bb * (hi as int) + lo,
                    pow2((64 * (ji + 1)) as nat) as int == p * bb,
                    p > 0,
                    bb > 0,
            ;
        }
        carry = hi;
        j += 1;
    }
    carry
}

/// Full double-width schoolbook product: `t` becomes `a * b`.
pub fn mul_limbs(t: &mut Vec<u64>, a: &Vec<u64>, b: &Vec<u64>)
    requires
        old(t).len() == a.len() + b.len(),
    ensures
        final(t)@.len() == old(t)@.len(),
        as_nat(final(t)@) == as_nat(a@) * as_nat(b@),
{
    let mut k: usize = 0;
    #[verifier::loop_isolation(false)]
    while k < t.len()
        invariant
            k <= t@.len(),
            t@.len() == old(t)@.len(),
            forall|j: int| 0 <= j < k ==> t@[j] == 0,
        decreases t@.len() - k,
    {
        t.set(k, 0);
        k += 1;
    }
    proof {
        lemma_as_nat_zeros(t@);
        assert(a@.take(0).len() == 0);
    }
    let mut i: usize = 0;
    #[verifier::loop_isolation(false)]
    while i < a.len()
        invariant
            i <= a@.len(),
            t@.len() == old(t)@.len(),
            forall|j: int| i + b@.len() <= j < t@.len() ==> t@[j] == 0,
            as_nat(t@) == as_nat(a@.take(i as int)) * as_nat(b@),
        decreases a@.len() - i,
    {
        let ghost before = t@;
        let ai = a[i];
        let carry = addmul_row(t, i, ai, b);
        let ghost after_row = t@;
        t.set(i + b.len(), carry);
        proof {
            let ii = i as int;
            let top = ii + b@.len() as int;
            lemma_as_nat_update(after_row, top, carry);
            assert(after_row[top] == 0);
            lemma_as_nat_take_succ(a@, ii);
            let pi = pow2((64 * ii) as nat) as int;
            let ptop = pow2((64 * top) as nat) as int;
            assert(as_nat(t@) == as_nat(a@.take(ii + 1)) * as_nat(b@)) by (nonlinear_arith)
                requires
                    as_nat(t@) == as_nat(after_row) + (carry as nat) * (ptop as nat),
                    as_nat(after_row) + (carry as nat) * (ptop as nat) == as_nat(before) + (
                    ai as nat) * as_nat(b@) * (pi as nat),
                    as_nat(before) == as_nat(a@.take(ii)) * as_nat(b@),
                    as_nat(a@.take(ii + 1)) == as_nat(a@.take(ii)) + (ai as nat) * (pi as nat),
            ;
        }
        i += 1;
    }
    proof {
        assert(a@.take(a@.len() as int) =~= a@);
    }
}

} // verus!
