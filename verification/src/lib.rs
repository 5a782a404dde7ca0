//! Finite-field arithmetic for pairing-friendly curves: a Montgomery-form
//! prime field and the quadratic/cubic extension tower built on top of it
//! (degree 2, 6 and 12), with inversion, square roots, serialization and
//! the cyclotomic-subgroup squaring used by pairing exponentiation.

pub mod arith;
pub mod biginteger;
pub mod fp;
pub mod inversion;
pub mod params;
pub mod towerspec;
pub mod fp2;
pub mod fp6;
pub mod fp12;
pub mod cyclotomic;
pub mod codec;
pub mod laws;
pub mod sqrt;
