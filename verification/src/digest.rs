//! SHA-256, as computed by the `sha2` crate.

use vstd::prelude::*;

use sha2::Digest;

verus! {

/// A SHA-256 digest.
pub type Sha256Hash = [u8; 32];

/// The SHA-256 digest of `data`, as `sha2::Sha256::digest` computes it.
pub uninterp spec fn sha256_spec(data: Seq<u8>) -> Seq<u8>;

/// Computes the SHA-256 checksum of `data` with `sha2::Sha256::digest`.
///
/// Trusted: the contract says that the 32 bytes returned are the digest that
/// `sha2::Sha256::digest` computes on `data`, named `sha256_spec`.
#[verifier::external_body]
pub fn calculate_checksum(data: &[u8]) -> (hash: Sha256Hash)
    ensures
        hash@ == sha256_spec(data@),
{
    sha2::Sha256::digest(data).into()
}

/// A SHA-256 computation in progress, fed piece by piece.
#[verifier::external_body]
pub struct FileHasher {
    inner: sha2::Sha256,
}

/// The bytes fed so far to a `FileHasher`, in order.
pub uninterp spec fn fed_bytes(hasher: FileHasher) -> Seq<u8>;

impl FileHasher {
    /// Starts a computation with `sha2::Sha256::new`.
    ///
    /// Trusted: the contract says that nothing has been fed yet.
    #[verifier::external_body]
    pub fn new() -> (hasher: FileHasher)
        ensures
            fed_bytes(hasher) == Seq::<u8>::empty(),
    {
        FileHasher { inner: sha2::Sha256::new() }
    }

    /// Feeds `data` with `sha2::Digest::update`.
    ///
    /// Trusted: the contract says that the bytes fed so far are extended by
    /// `data`; the crate's block buffer makes the digest depend only on that
    /// concatenation, not on how it was cut.
    #[verifier::external_body]
    pub fn update(&mut self, data: &[u8])
        ensures
            fed_bytes(*final(self)) == fed_bytes(*old(self)) + data@,
    {
        self.inner.update(data);
    }

    /// Ends the computation with `sha2::Digest::finalize`.
    ///
    /// Trusted: the contract says that the result is the digest of all bytes
    /// fed, the same that `sha2::Sha256::digest` gives on them (in the crate's
    /// source `digest` is `new`, one `update` and `finalize`).
    #[verifier::external_body]
    pub fn finalize(self) -> (hash: Sha256Hash)
        ensures
            hash@ == sha256_spec(fed_bytes(self)),
    {
        self.inner.finalize().into()
    }
}

} // verus!
