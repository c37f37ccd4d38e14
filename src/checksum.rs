//! The hash primitive and the comparison of a computed checksum with a stored one.
use vstd::prelude::*;

verus! {

/// Size in bytes of a SHA-1 object id and of a file's trailing checksum.
pub const HASH_LEN: usize = 20;

/// The SHA-1 digest of a byte sequence.
pub uninterp spec fn sha1_of(bytes: Seq<u8>) -> Seq<u8>;

/// Relies on `git_features::hash::Sha1` (`update`, then `digest`): the digest of
/// the given bytes, which is always 20 bytes long.
#[verifier::external_body]
pub(crate) fn sha1_digest(bytes: &[u8]) -> (r: Vec<u8>)
    ensures
        r@ == sha1_of(bytes@),
        r@.len() == HASH_LEN,
{
    let mut hasher = git_features::hash::Sha1::default();
    hasher.update(bytes);
    hasher.digest().to_vec()
}

/// Failure of a checksum verification.
#[derive(Debug, PartialEq, Eq, Clone)]
pub enum ChecksumError {
    /// The stored checksum differs from the one computed over the contents.
    Mismatch { expected: Vec<u8>, actual: Vec<u8> },
    /// The cancellation flag was set before the work began.
    Interrupted,
}

/// Byte-wise equality of two slices.
pub fn bytes_equal(a: &[u8], b: &[u8]) -> (r: bool)
    ensures
        r == (a@ == b@),
{
    if a.len() != b.len() {
        return false;
    }
    let mut i: usize = 0;
    while i < a.len()
        invariant
            a@.len() == b@.len(),
            0 <= i <= a@.len(),
            a@.subrange(0, i as int) == b@.subrange(0, i as int),
        decreases a@.len() - i,
    {
        if a[i] != b[i] {
            return false;
        }
        assert(a@.subrange(0, i + 1) == a@.subrange(0, i as int).push(a@[i as int]));
        assert(b@.subrange(0, i + 1) == b@.subrange(0, i as int).push(b@[i as int]));
        i = i + 1;
    }
    assert(a@ == a@.subrange(0, i as int));
    assert(b@ == b@.subrange(0, i as int));
    true
}

/// Compares the checksum `actual` computed over some contents with the `expected`
/// one stored beside them: `actual` is returned where the two agree.
pub fn compare_checksums(expected: &[u8], actual: Vec<u8>) -> (r: Result<Vec<u8>, ChecksumError>)
    ensures
        expected@ == actual@ ==> r is Ok && r->Ok_0@ == actual@,
        expected@ != actual@ ==> r is Err && r->Err_0 is Mismatch
            && r->Err_0->Mismatch_expected@ == expected@
            && r->Err_0->Mismatch_actual@ == actual@,
{
    if bytes_equal(expected, actual.as_slice()) {
        Ok(actual)
    } else {
        Err(ChecksumError::Mismatch { expected: vstd::slice::slice_to_vec(expected), actual })
    }
}

} // verus!
