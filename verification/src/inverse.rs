//! The word-level modular inverse that seeds REDC's reduction constant:
//! bit-by-bit Hensel lifting of the trivial inverse modulo 2 up to the full
//! word width.

use vstd::prelude::*;
use vstd::arithmetic::power2::{pow2, lemma_pow2_adds, lemma_pow2_pos, lemma2_to64, lemma2_to64_rest};
use vstd::arithmetic::div_mod::{
    lemma_add_mod_noop, lemma_breakdown, lemma_fundamental_div_mod, lemma_mod_bound,
    lemma_mod_multiples_vanish, lemma_small_mod,
};
use crate::arith::lemma_mac_fits;

verus! {

/// One Hensel step: an inverse of odd `x` modulo `2^b` either already works
/// modulo `2^(b+1)`, or works after its bit `b` is set.
proof fn lemma_hensel_step(x: u64, y: u64, b: nat)
    requires
        x % 2 == 1,
        1 <= b <= 63,
        ((x as nat) * (y as nat)) % pow2(b) == 1,
    ensures
        ((x as nat) * (y as nat)) % pow2((b + 1) as nat) == 1 || ((x as nat) * (y as nat)) % pow2(
            (b + 1) as nat,
        ) == 1 + pow2(b),
        ((x as nat) * (y as nat)) % pow2((b + 1) as nat) == 1 + pow2(b) ==> ((x as nat) * ((
        y as nat) + pow2(b))) % pow2((b + 1) as nat) == 1,
{
    let m = pow2(b) as int;
    let m2 = pow2((b + 1) as nat) as int;
    lemma_pow2_pos(b);
    lemma_pow2_adds(b, 1);
    lemma2_to64();
    assert(m2 == 2 * m);
    let xy = (x as int) * (y as int);
    vstd::arithmetic::mul::lemma_mul_nonnegative(x as int, y as int);
    lemma_breakdown(xy, m, 2);
    assert(xy % m2 == m * ((xy / m) % 2) + xy % m);
    lemma_mod_bound(xy / m, 2);
    let bbit = (xy / m) % 2;
    assert(bbit == 0 || bbit == 1);
    if bbit == 0 {
        assert(xy % m2 == 1);
    } else {
        assert(xy % m2 == m + 1);
        // the lifted candidate y + 2^b
        let c = x as int / 2;
        lemma_fundamental_div_mod(x as int, 2);
        assert(x as int == 2 * c + 1);
        let xm = (x as int) * m;
        assert(xm == m2 * c + m) by (nonlinear_arith)
            requires
                x as int == 2 * c + 1,
                m2 == 2 * m,
                xm == (x as int) * m,
        ;
        lemma_mod_multiples_vanish(c, m, m2);
        lemma_small_mod(m as nat, m2 as nat);
        assert(xm % m2 == m);
        let xy2 = (x as int) * ((y as int) + m);
        assert(xy2 == xy + xm) by (nonlinear_arith)
            requires
                xy == (x as int) * (y as int),
                xm == (x as int) * m,
                xy2 == (x as int) * ((y as int) + m),
        ;
        lemma_add_mod_noop(xy, xm, m2);
        assert(xy2 % m2 == ((xy % m2) + (xm % m2)) % m2);
        assert(xy2 % m2 == (1 + m + m) % m2);
        lemma_mod_multiples_vanish(1, 1, m2);
        lemma_small_mod(1, m2 as nat);
        assert(xy2 % m2 == 1);
    }
}

/// Inverse of an odd word modulo `2^64`, by Hensel lifting from the low bit
/// upward: after handling bit `b` the partial inverse is exact modulo
/// `2^(b+1)`, and the last bit is fixed by a final conditional step.
pub fn inv1(x: u64) -> (y: u64)
    requires
        x % 2 == 1,
    ensures
        ((x as nat) * (y as nat)) % pow2(64) == 1,
{
    let mut y: u64 = 1;
    let mut bit: u64 = 2;
    let mut i: u64 = 2;
    proof {
        lemma2_to64();
        lemma_small_mod(1, 2);
    }
    #[verifier::loop_isolation(false)]
    while i < 64
        invariant
            2 <= i <= 64,
            bit == pow2((i - 1) as nat),
            y < pow2((i - 1) as nat),
            ((x as nat) * (y as nat)) % pow2((i - 1) as nat) == 1,
        decreases 64 - i,
    {
        proof {
            lemma_mac_fits(x, y, 0, 0);
            lemma_pow2_pos((i - 1) as nat);
            lemma_pow2_adds((i - 1) as nat, 1);
            lemma2_to64();
            lemma2_to64_rest();
            vstd::arithmetic::power2::lemma_pow2_strictly_increases((i - 1) as nat, 63);
            lemma_hensel_step(x, y, (i - 1) as nat);
        }
        let pr: u128 = (x as u128) * (y as u128);
        let m2: u128 = (bit as u128) * 2;
        let rem = pr % m2;
        if (bit as u128) < rem {
            y = y + bit;
        }
        i = i + 1;
        bit = bit * 2;
    }
    proof {
        lemma_mac_fits(x, y, 0, 0);
        lemma_pow2_pos(63);
        lemma_pow2_adds(63, 1);
        lemma2_to64();
        lemma_hensel_step(x, y, 63);
    }
    let pr: u128 = (x as u128) * (y as u128);
    let m2: u128 = (bit as u128) * 2;
    let rem = pr % m2;
    if (bit as u128) < rem {
        y = y + bit;
    }
    y
}

} // verus!
