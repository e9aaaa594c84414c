//! The process random source: key material and indistinguishable-from-random
//! fill both come from here.

use vstd::prelude::*;

verus! {

/// One byte from the process random source.
///
/// Relies on `openssl::rand::rand_bytes`; nothing can be said of the byte it
/// returns.
#[verifier::external_body]
pub fn rand_u8() -> u8 {
    let mut buf = [0u8; 1];
    openssl::rand::rand_bytes(&mut buf).unwrap();
    buf[0]
}

} // verus!
