use vstd::prelude::*;

verus! {

/// The SHA-1 digest of a byte string.
pub uninterp spec fn sha1_of(data: Seq<u8>) -> Seq<u8>;

/// Relies on rust-crypto's `Sha1` (`Digest::input`, then `Digest::result`): the 20-byte
/// SHA-1 digest of `data`, which depends on `data` alone.
#[verifier::external_body]
pub(crate) fn sha1(data: &[u8]) -> (r: Vec<u8>)
    ensures
        r@ == sha1_of(data@),
        r@.len() == 20,
{
    let mut hasher = crypto::sha1::Sha1::new();
    crypto::digest::Digest::input(&mut hasher, data);
    let mut out: Vec<u8> = vec![0u8; 20];
    crypto::digest::Digest::result(&mut hasher, &mut out);
    out
}

} // verus!
