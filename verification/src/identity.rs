//! The content-addressed identity of an image.
//!
//! An identity binds an image's logical location and its raw bytes: it is
//! the lowercase hex of the SHA-256 digest of the location bytes, one `:`
//! separator byte, and the content bytes.  Any change to either input
//! changes the digest, so a palette cached under an identity is tied both to
//! what the image is and to where it was found.

use vstd::prelude::*;
use sha2::Digest;
use crate::hexfmt::{hex_of, hex_string};

verus! {

/// The SHA-256 digest of the location bytes, one `:` byte, and the content
/// bytes, as a function of the two inputs alone.
pub uninterp spec fn sha256_of(location: Seq<char>, bytes: Seq<u8>) -> Seq<u8>;

/// Relies on sha2::Sha256 through the Digest trait (new, update, finalize):
/// the digest of the concatenation of the updates, 32 bytes long, depending
/// on the hashed bytes alone.
#[verifier::external_body]
fn sha256_identity(location: &str, bytes: &Vec<u8>) -> (r: Vec<u8>)
    ensures
        r@ == sha256_of(location@, bytes@),
        r@.len() == 32,
{
    let mut h = sha2::Sha256::new();
    h.update(location.as_bytes());
    h.update(b":");
    h.update(bytes.as_slice());
    let digest: &[u8] = &h.finalize();
    digest.to_vec()
}

/// The identity string: 64 lowercase hex digits of the digest.
pub open spec fn identity_spec(location: Seq<char>, bytes: Seq<u8>) -> Seq<char> {
    hex_of(sha256_of(location, bytes))
}

/// Derive the identity of an image from its logical location and its raw
/// bytes.  Pure: the same location and bytes always give the same identity.
pub fn identity_of(location: &str, bytes: &Vec<u8>) -> (r: String)
    ensures
        r@ == identity_spec(location@, bytes@),
        r@.len() == 64,
{
    let digest = sha256_identity(location, bytes);
    hex_string(&digest)
}

} // verus!
