//! Montgomery-arithmetic kernel for modular exponentiation over large odd
//! moduli: word-level inverse, REDC reduction, Montgomery products, power
//! tables and windowed exponentiation, each with a proved contract.

pub mod arith;
pub mod inverse;
pub mod laws;
pub mod limbs;
pub mod mont;
pub mod redc;

pub use inverse::inv1;
pub use limbs::as_nat;
pub use mont::{block_count, build_power_table, exp_value, modpow, mont_exp_rel, mont_mul, mont_mul_assign, mont_sqr};
pub use redc::{mont_ok, redc};
