//! A learning-with-errors public-key scheme over small integer matrices:
//! key generation, bitwise encryption of text and decryption with the
//! private key, together with the text format in which keys and
//! ciphertexts are stored.
use vstd::prelude::*;

pub mod arith;
pub mod encrypt;
pub mod matrix;
pub mod rng;
pub mod text;

verus! {

/// Which of the two encrypted fields of an account to read.
#[allow(non_camel_case_types)]
pub enum FIELD {
    USERNAME,
    PASSWORD,
}

} // verus!
