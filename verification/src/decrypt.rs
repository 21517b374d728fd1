//! Decryption of a single ciphertext under a recovered key stream.

use vstd::prelude::*;
use crate::xor::xor_seq;
use crate::xor::xor_bytes;

verus! {

/// The key handed to [`decrypt`] is shorter than the ciphertext, so some
/// ciphertext positions have no key byte at all.
#[derive(Clone, Copy, Debug, PartialEq, Eq)]
pub struct BoundsError;

/// XOR the ciphertext with the key stream, truncated to the ciphertext's
/// length. Succeeds exactly when the key covers the whole ciphertext; key
/// positions past the ciphertext's length are never read. A position whose
/// key byte was never derived holds zero, so the output byte there equals
/// the raw ciphertext byte.
pub fn decrypt(ciphertext: &[u8], key: &[u8]) -> (r: Result<Vec<u8>, BoundsError>)
    ensures
        r is Ok <==> ciphertext@.len() <= key@.len(),
        r matches Ok(p) ==> p@ == xor_seq(ciphertext@, key@.take(ciphertext@.len() as int)),
{
    if key.len() < ciphertext.len() {
        return Err(BoundsError);
    }
    let p = xor_bytes(ciphertext, key);
    proof {
        assert(xor_seq(ciphertext@, key@) =~= xor_seq(ciphertext@, key@.take(ciphertext@.len() as int)));
    }
    Ok(p)
}

} // verus!
