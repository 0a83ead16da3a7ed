//! The values that the rest of the crate passes around.

use vstd::prelude::*;

verus! {

/// Number of bytes in a blob hash.
pub const HASH_SIZE: usize = 32;

/// The hash that names a blob.
#[derive(Clone, Copy, Debug, Eq, PartialOrd, Ord, Hash)]
pub struct BlobHash(pub [u8; 32]);

impl View for BlobHash {
    type V = Seq<u8>;

    open spec fn view(&self) -> Seq<u8> {
        self.0@
    }
}

impl PartialEq for BlobHash {
    fn eq(&self, other: &Self) -> (equal: bool) {
        let mut i: usize = 0;
        while i < HASH_SIZE
            invariant
                i <= HASH_SIZE,
                forall|j: int| 0 <= j < i ==> self.0@[j] == other.0@[j],
            decreases HASH_SIZE - i,
        {
            if self.0[i] != other.0[i] {
                return false;
            }
            i += 1;
        }
        assert(self.0 =~= other.0);
        true
    }
}

impl vstd::std_specs::cmp::PartialEqSpecImpl for BlobHash {
    open spec fn obeys_eq_spec() -> bool {
        true
    }

    open spec fn eq_spec(&self, other: &Self) -> bool {
        *self == *other
    }
}

impl BlobHash {
    /// The hash with these bytes.
    pub fn from_bytes(bytes: [u8; 32]) -> (hash: Self)
        ensures
            hash@ == bytes@,
            hash.0 == bytes,
    {
        BlobHash(bytes)
    }

    /// The bytes of the hash.
    pub fn as_bytes(&self) -> (bytes: &[u8; 32])
        ensures
            bytes@ == self@,
    {
        &self.0
    }
}

/// Two hashes with the same bytes are the same hash.
pub proof fn lemma_hash_extensional(a: BlobHash, b: BlobHash)
    requires
        a@ == b@,
    ensures
        a == b,
{
    assert(a.0 =~= b.0);
}

/// An operation of the write-ahead log, with its keys in encoded form.
#[derive(Debug)]
pub enum WalOpRaw {
    /// `key_bytes` maps to `hash` from here on.
    Put { key_bytes: Vec<u8>, hash: BlobHash },
    /// The keys `keys_bytes` map to nothing from here on.
    Remove { keys_bytes: Vec<Vec<u8>> },
}

/// What a `WalOpRaw` says.
pub ghost enum RawOp {
    Put { key: Seq<u8>, hash: Seq<u8> },
    Remove { keys: Seq<Seq<u8>> },
}

impl View for WalOpRaw {
    type V = RawOp;

    open spec fn view(&self) -> RawOp {
        match self {
            WalOpRaw::Put { key_bytes, hash } => RawOp::Put { key: key_bytes@, hash: hash@ },
            WalOpRaw::Remove { keys_bytes } => RawOp::Remove {
                keys: keys_bytes@.map_values(|key: Vec<u8>| key@),
            },
        }
    }
}

/// An operation of the write-ahead log.
#[derive(Debug)]
pub enum WalOp<K> {
    /// `key` maps to `hash` from here on.
    Put { key: K, hash: BlobHash },
    /// The keys `keys` map to nothing from here on.
    Remove { keys: Vec<K> },
}

/// When the data of a new blob is flushed to the disk.
#[derive(Clone, Copy, Debug, PartialEq, Eq, Structural)]
pub enum SyncMode {
    /// Before the commit goes on.
    Sync,
    /// By a worker, some time later.
    Async,
}

/// `std::io::Error`, which this crate hands on and does not look into.
#[verifier::external_type_specification]
#[verifier::external_body]
pub struct ExIoError(std::io::Error);

/// What the decisions of this crate tell apart about a failed file operation.
#[derive(Clone, Copy, Debug, PartialEq, Eq, Structural)]
pub enum IoErrorKind {
    /// There is no such file.
    NotFound,
    /// Anything else.
    Other,
}

/// A failed file operation.
#[derive(Debug)]
pub struct IoFailure {
    pub kind: IoErrorKind,
    pub error: std::io::Error,
}

/// A place in the store's directory.
#[derive(Clone, Copy, Debug)]
pub enum StorePath {
    /// The directory of files that are being written.
    StagingRoot,
    /// The directory of committed blobs.
    CasRoot,
    /// The file that the transaction at hand writes.
    StagedFile,
    /// The file of a committed blob.
    Blob(BlobHash),
}

} // verus!
