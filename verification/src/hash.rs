//! SHA-1.
use vstd::prelude::*;

verus! {

/// The SHA-1 digest of `data`.
pub uninterp spec fn sha1(data: Seq<u8>) -> Seq<u8>;

/// `sha1_smol::Sha1::from` and `digest`: the digest of `data`, which is a function of `data`.
#[verifier::external_body]
pub(crate) fn sha1_digest(data: &[u8]) -> (res: [u8; 20])
    ensures
        res@ == sha1(data@),
{
    sha1_smol::Sha1::from(data).digest().bytes()
}

/// Whether two hashes are the same.
pub fn same_hash(a: &[u8; 20], b: &[u8; 20]) -> (res: bool)
    ensures
        res == (a@ == b@),
{
    let mut i: usize = 0;
    while i < 20
        invariant
            i <= 20,
            forall|j: int| 0 <= j < i ==> a@[j] == #[trigger] b@[j],
        decreases 20 - i,
    {
        if a[i] != b[i] {
            return false;
        }
        i += 1;
    }
    assert(a@ =~= b@);
    true
}

} // verus!
