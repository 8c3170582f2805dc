//! SHA-1 digests, computed by the `sha1` crate.

use vstd::prelude::*;

verus! {

/// The SHA-1 digest of a byte string.
pub uninterp spec fn sha1_of(data: Seq<u8>) -> Seq<u8>;

/// Relies on `sha1::Sha1::from(data).digest().bytes()` (sha1 0.6, which is
/// sha1_smol): the 20-byte SHA-1 digest of `data`, which depends on `data`
/// alone.
#[verifier::external_body]
pub(crate) fn sha1_digest(data: &[u8]) -> (r: [u8; 20])
    ensures
        r@ == sha1_of(data@),
{
    sha1::Sha1::from(data).digest().bytes()
}

/// Whether `data` has digest `hash`.
pub fn digest_matches(data: &[u8], hash: &[u8; 20]) -> (r: bool)
    ensures
        r == (sha1_of(data@) == hash@),
{
    let d = sha1_digest(data);
    let mut i: usize = 0;
    while i < 20
        invariant
            i <= 20,
            d@ == sha1_of(data@),
            d@.len() == 20,
            hash@.len() == 20,
            forall|j: int| 0 <= j < i ==> d@[j] == hash@[j],
        decreases 20 - i,
    {
        if d[i] != hash[i] {
            assert(d@[i as int] != hash@[i as int]);
            assert(d@ != hash@);
            return false;
        }
        i = i + 1;
    }
    assert(d@ =~= hash@);
    true
}

} // verus!
