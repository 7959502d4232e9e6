//! End-to-end tests of the Montgomery kernel against a naive reference
//! implementation of modular arithmetic on little-endian limb vectors.

use montmod::{build_power_table, inv1, modpow, mont_mul, mont_mul_assign, mont_sqr, redc};

/// The reduction constant for an odd modulus: `n * nq == -1 (mod 2^64)`.
fn reduction_constant(n: &Vec<u64>) -> u64 {
    inv1(n[0]).wrapping_neg()
}

/// `a >= b` for equal-length little-endian limb vectors.
fn ref_ge(a: &Vec<u64>, b: &Vec<u64>) -> bool {
    for k in 0..a.len() {
        let i: usize = a.len() - 1 - k;
        if a[i] > b[i] {
            return true;
        }
        if a[i] < b[i] {
            return false;
        }
    }
    true
}

/// `a - b` for equal-length vectors, assuming `a >= b`.
fn ref_minus(a: &Vec<u64>, b: &Vec<u64>) -> Vec<u64> {
    let mut out: Vec<u64> = vec![0u64; a.len()];
    let mut borrow: u64 = 0;
    for i in 0..a.len() {
        let ai: u128 = a[i] as u128;
        let s: u128 = b[i] as u128 + borrow as u128;
        if ai >= s {
            out[i] = (ai - s) as u64;
            borrow = 0;
        } else {
            out[i] = (ai + (1u128 << 64) - s) as u64;
            borrow = 1;
        }
    }
    out
}

/// `(a + b) mod n` for residues `a, b < n`.
fn ref_mod_sum(a: &Vec<u64>, b: &Vec<u64>, n: &Vec<u64>) -> Vec<u64> {
    let mut out: Vec<u64> = vec![0u64; a.len()];
    let mut carry: u64 = 0;
    for i in 0..a.len() {
        let tot: u128 = a[i] as u128 + b[i] as u128 + carry as u128;
        out[i] = tot as u64;
        carry = (tot >> 64) as u64;
    }
    if carry > 0 || ref_ge(&out, n) {
        out = ref_minus(&out, n);
    }
    out
}

/// `(a * b) mod n` by binary double-and-add, for residues `a, b < n`.
fn ref_mod_product(a: &Vec<u64>, b: &Vec<u64>, n: &Vec<u64>) -> Vec<u64> {
    let r: usize = n.len();
    let mut res: Vec<u64> = vec![0u64; r];
    for k in 0..(64 * r) {
        let bit_index: usize = 64 * r - 1 - k;
        res = ref_mod_sum(&res, &res, n);
        if (b[bit_index / 64] >> (bit_index % 64)) & 1 == 1 {
            res = ref_mod_sum(&res, a, n);
        }
    }
    res
}

/// `R mod n` where `R = 2^(64 n.len())`, by repeated modular doubling of 1.
fn ref_radix_residue(n: &Vec<u64>) -> Vec<u64> {
    let r: usize = n.len();
    let mut one: Vec<u64> = vec![0u64; r];
    one[0] = 1;
    if ref_ge(&one, n) {
        one = ref_minus(&one, n);
    }
    let mut res = one;
    for _ in 0..(64 * r) {
        res = ref_mod_sum(&res, &res, n);
    }
    res
}

/// Montgomery encoding through the reference arithmetic: `x * R mod n`.
fn ref_encode(x: &Vec<u64>, n: &Vec<u64>) -> Vec<u64> {
    let rmod = ref_radix_residue(n);
    ref_mod_product(x, &rmod, n)
}

/// Montgomery decoding through the verified reducer: `x * R^-1 mod n`.
fn mont_decode(x: &Vec<u64>, n: &Vec<u64>, nq: u64) -> Vec<u64> {
    let r: usize = n.len();
    let mut t = x.clone();
    t.extend(vec![0u64; r]);
    let mut w: Vec<u64> = vec![0u64; r];
    redc(&mut w, r, n, nq, &mut t);
    w
}

/// Little-endian limbs of a hex string, padded to `limbs` limbs.
fn from_hex(s: &str, limbs: usize) -> Vec<u64> {
    let mut out: Vec<u64> = vec![0u64; limbs];
    let digits: Vec<u32> = s.chars().map(|c| c.to_digit(16).unwrap()).collect();
    for (pos, d) in digits.iter().rev().enumerate() {
        let bit: usize = 4 * pos;
        out[bit / 64] |= (*d as u64) << (bit % 64);
    }
    out
}

#[test]
fn test_inv1() {
    assert_eq!(inv1(23).wrapping_mul(23), 1);
}

#[test]
fn test_inv1_64() {
    assert_eq!(inv1(193514046488575).wrapping_mul(193514046488575), 1);
}

#[test]
fn inv1_more_odd_words() {
    let xs: Vec<u64> = vec![1, 3, 5, 0xFFFF_FFFF_FFFF_FFFF, 0xDEAD_BEEF_1234_5677, 987654321];
    for x in xs {
        assert_eq!(inv1(x).wrapping_mul(x), 1, "inverse failed for {}", x);
    }
}

#[test]
fn redc_brute_force_single_limb() {
    // r_limbs = 1: every odd n below 100, a sweep of t < n * 2^64.
    let mut n0: u64 = 3;
    while n0 < 100 {
        let n: Vec<u64> = vec![n0];
        let nq = reduction_constant(&n);
        assert_eq!(n0.wrapping_mul(nq), u64::MAX);
        let samples: Vec<u128> = vec![
            0,
            1,
            n0 as u128,
            (n0 as u128) * 7 + 5,
            (n0 as u128) << 64,
            ((n0 as u128) << 64) - 1,
            ((n0 as u128) << 63) + 12345,
        ];
        for t_val in samples {
            if t_val >= (n0 as u128) << 64 {
                continue;
            }
            let mut t: Vec<u64> = vec![t_val as u64, (t_val >> 64) as u64];
            let mut w: Vec<u64> = vec![0u64];
            redc(&mut w, 1, &n, nq, &mut t);
            let res = w[0];
            assert!(res < n0);
            // res * 2^64 == t (mod n)
            let lhs = ((res as u128) << 64) % (n0 as u128);
            assert_eq!(lhs, t_val % (n0 as u128), "redc wrong for n={} t={}", n0, t_val);
        }
        n0 += 2;
    }
}

#[test]
fn redc_carry_heavy_case() {
    // a two-limb modulus and a reduction input near n * R, where the
    // intermediate rounds generate a carry out of the top limb
    let n: Vec<u64> = vec![u64::MAX, u64::MAX];  // 2^128 - 1, odd
    let nq = reduction_constant(&n);
    let mut t: Vec<u64> = vec![u64::MAX, u64::MAX - 1, u64::MAX, u64::MAX - 1];
    let mut w: Vec<u64> = vec![0u64, 0];
    let t_copy = t.clone();
    redc(&mut w, 2, &n, nq, &mut t);
    // check w * R == t (mod n) through the reference arithmetic
    let t_low: Vec<u64> = vec![t_copy[0], t_copy[1]];
    let t_high: Vec<u64> = vec![t_copy[2], t_copy[3]];
    let rmod = ref_radix_residue(&n);
    // t mod n = (t_high * R + t_low) mod n
    let mut expect = ref_mod_product(&t_high, &rmod, &n);
    let mut t_low_mod = t_low.clone();
    while ref_ge(&t_low_mod, &n) {
        t_low_mod = ref_minus(&t_low_mod, &n);
    }
    expect = ref_mod_sum(&expect, &t_low_mod, &n);
    let got = ref_mod_product(&w, &rmod, &n);
    assert_eq!(got, expect);
}

#[test]
fn modpow_single_limb_matches_reference() {
    let n: Vec<u64> = vec![0xFFFF_FFFF_FFFF_FFC5];  // odd modulus near 2^64
    let nq = reduction_constant(&n);
    let base: u64 = 123456789;
    let exps: Vec<u64> = vec![0, 1, 2, 3, 65537, 0xFFFF_FFFF];
    for e in exps {
        let a_bar = ref_encode(&vec![base], &n);
        let mut w = ref_radix_residue(&n);  // Montgomery form of 1
        let exponent: Vec<u64> = vec![e];
        let ebl: usize = (64 - e.leading_zeros()) as usize;
        modpow(&mut w, 1, &n, nq, &a_bar, &exponent, ebl);
        let got = mont_decode(&w, &n, nq)[0];
        // reference square-and-multiply in u128
        let m = n[0] as u128;
        let mut expect: u128 = 1;
        let mut acc: u128 = (base as u128) % m;
        let mut ee = e;
        while ee > 0 {
            if ee & 1 == 1 {
                expect = mulmod_u128(expect, acc, m);
            }
            acc = mulmod_u128(acc, acc, m);
            ee >>= 1;
        }
        assert_eq!(got as u128, expect, "modpow wrong for exponent {}", e);
    }
}

/// `(a * b) mod m` for values below `2^64`, via 128-bit schoolbook halves.
fn mulmod_u128(a: u128, b: u128, m: u128) -> u128 {
    // double-and-add to avoid overflowing 128 bits
    let mut res: u128 = 0;
    let mut x = a % m;
    let mut y = b;
    while y > 0 {
        if y & 1 == 1 {
            res = (res + x) % m;
        }
        x = (x + x) % m;
        y >>= 1;
    }
    res
}

#[test]
fn modpow_zero_bits_leaves_accumulator() {
    let n: Vec<u64> = vec![1_000_000_007 * 2 + 1, 42];  // odd two-limb modulus
    let nq = reduction_constant(&n);
    let one_bar = ref_radix_residue(&n);
    let a_bar = ref_encode(&vec![55, 0], &n);
    let mut w = one_bar.clone();
    let exponent: Vec<u64> = vec![0xFFFF_FFFF_FFFF_FFFF];
    modpow(&mut w, 2, &n, nq, &a_bar, &exponent, 0);
    assert_eq!(w, one_bar);
    let decoded = mont_decode(&w, &n, nq);
    assert_eq!(decoded, vec![1, 0]);
}

#[test]
fn modpow_exponent_one_returns_base() {
    let n: Vec<u64> = vec![0x1234_5678_9ABC_DEF1, 0x42];
    let nq = reduction_constant(&n);
    let a_bar = ref_encode(&vec![987654321, 17], &n);
    let mut w = ref_radix_residue(&n);
    let exponent: Vec<u64> = vec![1];
    modpow(&mut w, 2, &n, nq, &a_bar, &exponent, 1);
    assert_eq!(w, a_bar);
}

#[test]
fn modpow_exponent_two_matches_one_squaring() {
    let n: Vec<u64> = vec![0x1234_5678_9ABC_DEF1, 0x42];
    let nq = reduction_constant(&n);
    let a_bar = ref_encode(&vec![987654321, 17], &n);
    let mut w = ref_radix_residue(&n);
    let exponent: Vec<u64> = vec![2];
    modpow(&mut w, 2, &n, nq, &a_bar, &exponent, 2);
    let mut sq = a_bar.clone();
    let mut t: Vec<u64> = vec![0u64; 4];
    mont_sqr(&mut sq, 2, &n, nq, &mut t);
    assert_eq!(w, sq);
}

#[test]
fn power_table_entries_decode_to_powers() {
    let n: Vec<u64> = vec![10_000_000_019 | 1];  // odd single-limb modulus
    let nq = reduction_constant(&n);
    let base: u64 = 999;
    let a_bar = ref_encode(&vec![base], &n);
    let mut t: Vec<u64> = vec![0u64; 2];
    let table = build_power_table(1, &a_bar, &n, nq, &mut t);
    assert_eq!(table.len(), 64);
    let m = n[0] as u128;
    let mut expect: u128 = 1;
    for i in 1..64usize {
        expect = mulmod_u128(expect, base as u128, m);
        let entry: Vec<u64> = vec![table[i]];
        let decoded = mont_decode(&entry, &n, nq)[0];
        assert_eq!(decoded as u128, expect, "table entry {} wrong", i);
    }
}

#[test]
fn mont_mul_agrees_with_reference() {
    let n: Vec<u64> = vec![0xFFFF_FFFF_0000_0001, 0xABCD_EF01_2345_6789];
    let nq = reduction_constant(&n);
    let x: Vec<u64> = vec![0x1111_2222_3333_4444, 0x01];
    let y: Vec<u64> = vec![0x5555_6666_7777_8888, 0x02];
    let x_bar = ref_encode(&x, &n);
    let y_bar = ref_encode(&y, &n);
    let mut w: Vec<u64> = vec![0u64; 2];
    let mut t: Vec<u64> = vec![0u64; 4];
    mont_mul(&mut w, 2, &x_bar, &y_bar, &n, nq, &mut t);
    let got = mont_decode(&w, &n, nq);
    let expect = ref_mod_product(&x, &y, &n);
    assert_eq!(got, expect);
}

#[test]
fn repeated_montgomery_multiplication_fixture() {
    // three ~1024-bit values, modulus odd; iterate Montgomery multiplication
    // and compare against plain modular multiplication
    let limbs: usize = 16;
    let a_hex = "c3a5a1b6f0d9e8c7b4a39281706f5e4d3c2b1a0918273645546372819a0b1c2d\
3e4f5a6b7c8d9e0f112233445566778899aabbccddeeff00fedcba987654321f\
0123456789abcdef00112233445566778899aabbccddeeff1020304050607080\
90a0b0c0d0e0f0102030405060708090a1b2c3d4e5f60718293a4b5c6d7e8f90";
    let b_hex = "1f2e3d4c5b6a798887969594a3b2c1d0e1f2030415263748596a7b8c9dabecfd\
0e1f2a3b4c5d6e7f8091a2b3c4d5e6f708192a3b4c5d6e7f8091a2b3c4d5e6f7\
fedcba9876543210fedcba9876543210fedcba9876543210fedcba9876543210\
13579bdf02468ace13579bdf02468ace13579bdf02468ace13579bdf02468ace";
    let n_hex = "e8c7b4a39281706f5e4d3c2b1a0918273645546372819a0b1c2dc3a5a1b6f0d9\
112233445566778899aabbccddeeff00fedcba987654321f3e4f5a6b7c8d9e0f\
0011223344556677ccddeeff102030405060708001234567899aabb89abcdef0\
2030405060708090a1b2c3d4e5f60718293a4b5c6d7e8f9090a0b0c0d0e0f011";
    let a = from_hex(a_hex, limbs);
    let b = from_hex(b_hex, limbs);
    let n = from_hex(n_hex, limbs);
    assert_eq!(n[0] & 1, 1, "modulus must be odd");
    let nq = reduction_constant(&n);

    // reduce a and b modulo n for the reference track
    let one: Vec<u64> = {
        let mut v = vec![0u64; limbs];
        v[0] = 1;
        v
    };
    let a_mod = ref_mod_product(&a, &one, &n);
    let b_mod = ref_mod_product(&b, &one, &n);

    let a_bar = ref_encode(&a_mod, &n);
    let b_bar = ref_encode(&b_mod, &n);

    let iterations: usize = 100;
    let mut cur = a_bar.clone();
    let mut t: Vec<u64> = vec![0u64; 2 * limbs];
    let mut reference = a_mod.clone();
    for _ in 0..iterations {
        mont_mul_assign(&mut cur, limbs, &b_bar, &n, nq, &mut t);
        reference = ref_mod_product(&reference, &b_mod, &n);
    }
    let decoded = mont_decode(&cur, &n, nq);
    assert_eq!(decoded, reference);
}

#[test]
fn modpow_multi_limb_matches_reference() {
    let n: Vec<u64> = vec![0x9E37_79B9_7F4A_7C15 | 1, 0xF39C_0C4A_23B1_88AD];
    let nq = reduction_constant(&n);
    let x: Vec<u64> = vec![0x0123_4567_89AB_CDEF, 0x11];
    let exponent: Vec<u64> = vec![0xA5A5_5A5A_DEAD_BEEF];
    let ebl: usize = 64;
    let a_bar = ref_encode(&x, &n);
    let mut w = ref_radix_residue(&n);
    modpow(&mut w, 2, &n, nq, &a_bar, &exponent, ebl);
    let got = mont_decode(&w, &n, nq);
    // reference square-and-multiply over the limb vectors
    let mut expect: Vec<u64> = vec![1, 0];
    for k in 0..64usize {
        let bit: usize = 63 - k;
        expect = ref_mod_product(&expect, &expect, &n);
        if (exponent[0] >> bit) & 1 == 1 {
            expect = ref_mod_product(&expect, &x, &n);
        }
    }
    assert_eq!(got, expect);
}

#[test]
fn modpow_exponent_bits_beyond_length_are_zero() {
    // the same exponent buffer with a shorter bit length uses only low bits
    let n: Vec<u64> = vec![0xFFFF_FFFF_FFFF_FFC5];
    let nq = reduction_constant(&n);
    let a_bar = ref_encode(&vec![7], &n);
    let exponent: Vec<u64> = vec![0xFF05];  // low 4 bits: 5
    let mut w = ref_radix_residue(&n);
    modpow(&mut w, 1, &n, nq, &a_bar, &exponent, 4);
    let got = mont_decode(&w, &n, nq)[0];
    let m = n[0] as u128;
    let mut expect: u128 = 1;
    for _ in 0..5 {
        expect = mulmod_u128(expect, 7, m);
    }
    assert_eq!(got as u128, expect);
}

#[test]
fn redc_three_and_four_limb_moduli() {
    let moduli: Vec<Vec<u64>> = vec![
        vec![0xFFFF_FFFF_FFFF_FFC5, 0x1234_5678_9ABC_DEF0, 0x0FED_CBA9_8765_4321],
        vec![0xDEAD_BEEF_CAFE_F00D, 0x0123_4567_89AB_CDEF, u64::MAX, 0x7FFF_FFFF_FFFF_FFFF],
    ];
    for n in moduli {
        let r: usize = n.len();
        assert_eq!(n[0] & 1, 1);
        let nq = reduction_constant(&n);
        let rmod = ref_radix_residue(&n);
        let samples: Vec<Vec<u64>> = vec![
            vec![0u64; 2 * r],
            {
                let mut v = vec![0u64; 2 * r];
                v[0] = 1;
                v
            },
            {
                // n * R - 1: the largest admissible input
                let mut v: Vec<u64> = vec![u64::MAX; r];
                let mut high = n.clone();
                let one_low: Vec<u64> = {
                    let mut o = vec![0u64; r];
                    o[0] = 1;
                    o
                };
                high = ref_minus(&high, &one_low);
                v.extend(high);
                v
            },
            {
                let mut v = vec![0u64; 2 * r];
                for i in 0..r {
                    v[i] = 0xA5A5_5A5A_DEAD_BEEF ^ (i as u64);
                    v[r + i] = n[i] / 3;
                }
                v
            },
        ];
        for t_orig in samples {
            let mut t = t_orig.clone();
            let mut w: Vec<u64> = vec![0u64; r];
            redc(&mut w, r, &n, nq, &mut t);
            assert!(!ref_ge(&w, &n), "result must lie below the modulus");
            // w * R == t (mod n): reduce both sides with the reference helpers
            let lhs = ref_mod_product(&w, &rmod, &n);
            let t_low: Vec<u64> = t_orig[..r].to_vec();
            let t_high: Vec<u64> = t_orig[r..].to_vec();
            let mut rhs = ref_mod_product(&t_high, &rmod, &n);
            let mut t_low_mod = t_low.clone();
            while ref_ge(&t_low_mod, &n) {
                t_low_mod = ref_minus(&t_low_mod, &n);
            }
            rhs = ref_mod_sum(&rhs, &t_low_mod, &n);
            assert_eq!(lhs, rhs, "redc wrong for r = {}", r);
        }
    }
}
