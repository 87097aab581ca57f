//! A DKIM-canonicalized email with its signature and the signer's RSA modulus.
use crate::field::{bytes_to_hex, hex_lower};
use vstd::prelude::*;

verus! {

/// A DKIM-canonicalized email: header and body as the signer hashed them, the
/// signature, and the modulus of the signer's RSA key, both big-endian.
#[derive(Debug, Clone)]
pub struct ParsedEmail {
    pub canonicalized_header: String,
    pub canonicalized_body: String,
    pub signature: Vec<u8>,
    pub public_key: Vec<u8>,
}

impl ParsedEmail {
    /// The signature as `0x` and lowercase hex.
    pub fn signature_string(&self) -> (r: String)
        ensures
            r@ == seq!['0', 'x'] + hex_lower(self.signature@),
    {
        bytes_to_hex(self.signature.as_slice())
    }

    /// The RSA modulus as `0x` and lowercase hex.
    pub fn public_key_string(&self) -> (r: String)
        ensures
            r@ == seq!['0', 'x'] + hex_lower(self.public_key@),
    {
        bytes_to_hex(self.public_key.as_slice())
    }
}

} // verus!
