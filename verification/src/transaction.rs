//! Writing a new blob and putting it under a key.

use vstd::prelude::*;

use crate::cas_manager::CasManagerError;
use crate::digest::{blake3_digest, RunningDigest};
use crate::store::{LibError, LibIoOperation, PendingOp};
use crate::types::{BlobHash, IoFailure, StorePath, WalOp};

verus! {

/// The operations on a staged file.
#[derive(Clone, Copy, Debug, PartialEq, Eq, Structural)]
pub enum StagingFileOp {
    Create,
    Write,
}

/// Why a transaction could not be started or written to.
#[derive(Debug)]
pub enum TransactionError {
    /// `operation` failed on `path`.
    StagingFileIo { operation: StagingFileOp, path: StorePath, source: IoFailure },
}

/// A new file has to be made in the staging directory.
#[derive(Debug)]
pub struct StagingCreate<K> {
    pub key: K,
}

/// The staged file has to be opened for writing.
#[derive(Debug)]
pub struct StagingReopen<K> {
    pub key: K,
}

/// A blob that is being written, to be put under a key.
#[must_use]
#[derive(Debug)]
pub struct Transaction<K> {
    digest: RunningDigest,
    key: K,
}

impl<K> StagingCreate<K> {
    /// Goes on after the attempt to make the file, with the file.
    pub fn created<F>(self, outcome: Result<F, IoFailure>) -> (result: Result<
        (StagingReopen<K>, F),
        TransactionError,
    >)
        ensures
            result == (match outcome {
                Ok(file) => Ok((StagingReopen { key: self.key }, file)),
                Err(source) => Err(
                    TransactionError::StagingFileIo {
                        operation: StagingFileOp::Create,
                        path: StorePath::StagingRoot,
                        source,
                    },
                ),
            }),
    {
        match outcome {
            Ok(file) => Ok((StagingReopen { key: self.key }, file)),
            Err(source) => Err(
                TransactionError::StagingFileIo {
                    operation: StagingFileOp::Create,
                    path: StorePath::StagingRoot,
                    source,
                },
            ),
        }
    }
}

impl<K> StagingReopen<K> {
    /// Ends with a transaction to which nothing was written, after the attempt
    /// to open the file, and with the open file.
    pub fn reopened<F>(self, outcome: Result<F, IoFailure>) -> (result: Result<
        (Transaction<K>, F),
        TransactionError,
    >)
        ensures
            match outcome {
                Ok(file) => {
                    &&& result is Ok
                    &&& result->Ok_0.0.key() == self.key
                    &&& result->Ok_0.0.written() == Seq::<u8>::empty()
                    &&& result->Ok_0.1 == file
                },
                Err(source) => result == Err::<(Transaction<K>, F), TransactionError>(
                    TransactionError::StagingFileIo {
                        operation: StagingFileOp::Create,
                        path: StorePath::StagedFile,
                        source,
                    },
                ),
            },
    {
        match outcome {
            Ok(file) => Ok((Transaction { digest: RunningDigest::new(), key: self.key }, file)),
            Err(source) => Err(
                TransactionError::StagingFileIo {
                    operation: StagingFileOp::Create,
                    path: StorePath::StagedFile,
                    source,
                },
            ),
        }
    }
}

impl<K> Transaction<K> {
    /// The key that the blob will be put under.
    pub closed spec fn key(self) -> K {
        self.key
    }

    /// What was given to `write`, in order.
    pub closed spec fn written(self) -> Seq<u8> {
        self.digest.input()
    }

    /// Starts a transaction that puts a blob under `key`.
    pub fn new(key: K) -> (stage: StagingCreate<K>)
        ensures
            stage == (StagingCreate { key }),
    {
        StagingCreate { key }
    }

    /// Number of bytes that were given to `write`.
    pub fn bytes_written(&self) -> (count: u64)
        ensures
            count == self.written().len(),
    {
        self.digest.count()
    }

    /// Takes in a piece of the blob, after the attempt to write it to the staged
    /// file. It goes into the blob's hash even where that failed.
    pub fn write(&mut self, data: &[u8], outcome: Result<(), IoFailure>) -> (result: Result<
        (),
        TransactionError,
    >)
        requires
            old(self).written().len() + data@.len() <= u64::MAX,
        ensures
            final(self).key() == old(self).key(),
            final(self).written() == old(self).written() + data@,
            result == (match outcome {
                Ok(_) => Ok(()),
                Err(source) => Err(
                    TransactionError::StagingFileIo {
                        operation: StagingFileOp::Write,
                        path: StorePath::StagedFile,
                        source,
                    },
                ),
            }),
    {
        let mut digest = RunningDigest::new();
        std::mem::swap(&mut digest, &mut self.digest);
        self.digest = digest.update(data);
        match outcome {
            Ok(_) => Ok(()),
            Err(source) => Err(
                TransactionError::StagingFileIo {
                    operation: StagingFileOp::Write,
                    path: StorePath::StagedFile,
                    source,
                },
            ),
        }
    }

    /// Starts to commit, after the attempt to flush what was written to the
    /// staged file.
    pub fn finish(self, flushed: Result<(), IoFailure>) -> (result: Result<
        CommitHandle<K>,
        LibError<K>,
    >)
        ensures
            match flushed {
                Ok(_) => result == Ok::<CommitHandle<K>, LibError<K>>(
                    CommitHandle { transaction: self },
                ),
                Err(source) => result == Err::<CommitHandle<K>, LibError<K>>(
                    LibError::<K>::Io {
                        operation: LibIoOperation::CommitFlushWriter,
                        path: None,
                        source,
                    },
                ),
            },
    {
        match flushed {
            Ok(_) => Ok(CommitHandle { transaction: self }),
            Err(source) => Err(
                LibError::Io { operation: LibIoOperation::CommitFlushWriter, path: None, source },
            ),
        }
    }
}

/// The handle of the staged file has to be cloned.
#[derive(Debug)]
pub struct CommitHandle<K> {
    pub transaction: Transaction<K>,
}

/// The data of the staged file has to be flushed to the disk.
#[derive(Debug)]
pub struct CommitSync<K> {
    pub transaction: Transaction<K>,
}

/// The staged file has to be committed as the blob `hash`.
#[derive(Debug)]
pub struct CommitBlob<K> {
    pub key: K,
    pub hash: BlobHash,
}

impl<K> CommitHandle<K> {
    /// Goes on after the attempt to clone the handle, with the clone.
    pub fn handle_cloned<F>(self, outcome: Result<F, IoFailure>) -> (result: Result<
        (CommitSync<K>, F),
        LibError<K>,
    >)
        ensures
            match outcome {
                Ok(file) => result == Ok::<(CommitSync<K>, F), LibError<K>>(
                    (CommitSync { transaction: self.transaction }, file),
                ),
                Err(source) => result == Err::<(CommitSync<K>, F), LibError<K>>(
                    LibError::<K>::Io {
                        operation: LibIoOperation::CommitCloneHandle,
                        path: None,
                        source,
                    },
                ),
            },
    {
        match outcome {
            Ok(file) => Ok((CommitSync { transaction: self.transaction }, file)),
            Err(source) => Err(
                LibError::Io { operation: LibIoOperation::CommitCloneHandle, path: None, source },
            ),
        }
    }
}

impl<K> CommitSync<K> {
    /// Goes on after the attempt to flush the data: the hash of the blob is that
    /// of all that was written.
    pub fn synced<F>(self, outcome: Result<(), LibError<K, F>>) -> (result: Result<
        CommitBlob<K>,
        LibError<K, F>,
    >)
        ensures
            match outcome {
                Ok(_) => {
                    &&& result is Ok
                    &&& result->Ok_0.key == self.transaction.key()
                    &&& result->Ok_0.hash@ == blake3_digest(self.transaction.written())
                },
                Err(error) => result == Err::<CommitBlob<K>, LibError<K, F>>(error),
            },
    {
        match outcome {
            Ok(_) => {
                let hash = BlobHash::from_bytes(self.transaction.digest.finalize());
                Ok(CommitBlob { key: self.transaction.key, hash })
            },
            Err(error) => Err(error),
        }
    }
}

impl<K> CommitBlob<K> {
    /// Goes on after the attempt to commit the blob: what has to be logged next
    /// is that the key maps to it.
    pub fn stored(self, outcome: Result<StorePath, CasManagerError>) -> (result: Result<
        PendingOp<K, ()>,
        LibError<K>,
    >)
        ensures
            result == (match outcome {
                Ok(_) => Ok(
                    PendingOp {
                        op: WalOp::Put { key: self.key, hash: self.hash },
                        answer: (),
                    },
                ),
                Err(error) => Err(LibError::<K>::Cas(error)),
            }),
    {
        match outcome {
            Ok(_) => Ok(
                PendingOp { op: WalOp::Put { key: self.key, hash: self.hash }, answer: () },
            ),
            Err(error) => Err(LibError::Cas(error)),
        }
    }
}

} // verus!
