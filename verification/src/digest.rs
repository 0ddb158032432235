//! The digest that names an object.

use vstd::prelude::*;

verus! {

/// The SHA-1 digest of `data`. Computing it is the work of the `sha1` crate
/// and is not modelled here; this only names its outcome.
pub uninterp spec fn sha1_digest(data: Seq<u8>) -> Seq<u8>;

/// `sha1::Sha1::digest`: the twenty bytes of the SHA-1 digest of `data`.
/// Believed, not proved: the bytes are those that `sha1_digest` names.
#[verifier::external_body]
pub(crate) fn sha1_of(data: &[u8]) -> (digest: [u8; 20])
    ensures
        digest@ == sha1_digest(data@),
{
    <::sha1::Sha1 as ::sha1::Digest>::digest(data).into()
}

} // verus!
