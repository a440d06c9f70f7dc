//! Towered extension-field arithmetic over the BLS12-381 base field, the
//! optimal ate pairing, scalar decomposition for fast group exponentiation,
//! and SHA-256, with contracts stated over the mathematical field model.
//!
//! - `digits`: base 2^32 digit sequences and the big-integer calls they rest on
//! - `big`: non-negative integer exponents and their bits
//! - `fp`, `fp2`, `fp4`: the prime field and its quadratic and quartic extensions
//! - `fp12`: the degree-twelve target field with sparsity tags
//! - `ecp`: points of the curve and of its twist
//! - `pair`: line functions, Miller loops, final exponentiation, decompositions
//! - `hash256`: SHA-256, HMAC and HKDF

pub mod digits;
pub mod big;
pub mod fp;
pub mod fp2;
pub mod fp4;
pub mod fp12;
pub mod hash256;
pub mod ecp;
pub mod pair;
