//! The store: keys, the blobs that they map to, and what is done to both.

use std::collections::BTreeMap;
use std::collections::BTreeSet;

use vstd::prelude::*;

use crate::cas_manager::CasManagerError;
use crate::digest::{blake3_digest, digest_of};
use crate::hash_list::lists_hashes;
use crate::index::{
    after_op, in_range, keys_ascend, released, Index, IndexError, KeyBound,
};
use crate::transaction::{StagingFileOp, Transaction, TransactionError};
use crate::types::{BlobHash, IoErrorKind, IoFailure, StorePath, SyncMode, WalOp};

verus! {

/// The file operations of the store that are not those on single blobs.
#[derive(Clone, Copy, Debug, PartialEq, Eq, Structural)]
pub enum LibIoOperation {
    CreateStagingDir,
    CreateCasDir,
    FileSync,
    CommitFlushWriter,
    CommitCloneHandle,
    CreateStagingFile,
    WriteStagingFile,
}

/// Why the store could not do what was asked. `F` is a file on its way to the
/// worker that flushes files; only the steps that flush have one.
#[derive(Debug)]
pub enum LibError<K, F = ()> {
    /// `operation` failed on `path`.
    Io { operation: LibIoOperation, path: Option<StorePath>, source: IoFailure },
    /// The file of a blob could not be dealt with.
    Cas(CasManagerError),
    /// `key` maps to `hash`, and there is no such blob.
    BlobDataMissing { key: K, hash: BlobHash },
    /// The worker that flushes files is gone: this file could not be sent to it.
    CommitFdatasyncSend(F),
    /// The data of a new blob could not be flushed to the disk.
    CommitFdatasyncIo(IoFailure),
    /// The index could not do what was asked of it.
    Index(IndexError<K>),
}

/// The hash that names the blob with this content.
pub fn calculate_blob_hash(blob_data: &[u8]) -> (hash: BlobHash)
    ensures
        hash@ == blake3_digest(blob_data@),
{
    BlobHash(digest_of(blob_data))
}

// Opening a store.

/// The directory of staged files has to be made.
#[derive(Debug)]
pub struct OpenStagingDir {
    pub sync_mode: SyncMode,
}

/// The directory of blobs has to be made.
#[derive(Debug)]
pub struct OpenCasDir {
    pub sync_mode: SyncMode,
}

/// The index has to be loaded.
#[derive(Debug)]
pub struct OpenIndex {
    pub sync_mode: SyncMode,
}

impl OpenStagingDir {
    /// Goes on after the attempt to make the directory.
    pub fn created<K>(self, outcome: Result<(), IoFailure>) -> (result: Result<
        OpenCasDir,
        LibError<K>,
    >)
        ensures
            result == (match outcome {
                Ok(_) => Ok(OpenCasDir { sync_mode: self.sync_mode }),
                Err(source) => Err(
                    LibError::<K>::Io {
                        operation: LibIoOperation::CreateStagingDir,
                        path: Some(StorePath::StagingRoot),
                        source,
                    },
                ),
            }),
    {
        match outcome {
            Ok(_) => Ok(OpenCasDir { sync_mode: self.sync_mode }),
            Err(source) => Err(
                LibError::Io {
                    operation: LibIoOperation::CreateStagingDir,
                    path: Some(StorePath::StagingRoot),
                    source,
                },
            ),
        }
    }
}

impl OpenCasDir {
    /// Goes on after the attempt to make the directory.
    pub fn created<K>(self, outcome: Result<(), IoFailure>) -> (result: Result<
        OpenIndex,
        LibError<K>,
    >)
        ensures
            result == (match outcome {
                Ok(_) => Ok(OpenIndex { sync_mode: self.sync_mode }),
                Err(source) => Err(
                    LibError::<K>::Io {
                        operation: LibIoOperation::CreateCasDir,
                        path: Some(StorePath::CasRoot),
                        source,
                    },
                ),
            }),
    {
        match outcome {
            Ok(_) => Ok(OpenIndex { sync_mode: self.sync_mode }),
            Err(source) => Err(
                LibError::Io {
                    operation: LibIoOperation::CreateCasDir,
                    path: Some(StorePath::CasRoot),
                    source,
                },
            ),
        }
    }
}

impl OpenIndex {
    /// Ends with the store, after the attempt to load the index, and with the
    /// log that it was loaded from.
    pub fn loaded<K: Ord + Clone, W>(
        self,
        outcome: Result<(Index<K>, W), IndexError<K>>,
    ) -> (result: Result<(CasInner<K>, W), LibError<K>>)
        ensures
            match outcome {
                Ok((index, log)) => {
                    &&& result is Ok
                    &&& result->Ok_0.0@ == index@
                    &&& result->Ok_0.0.sync_mode() == self.sync_mode
                    &&& result->Ok_0.1 == log
                },
                Err(error) => result == Err::<(CasInner<K>, W), LibError<K>>(
                    LibError::Index(error),
                ),
            },
    {
        match outcome {
            Ok((index, log)) => Ok((CasInner { index, sync_mode: self.sync_mode }, log)),
            Err(error) => Err(LibError::Index(error)),
        }
    }
}

// Operations that change the index.

/// What an operation that may change the index has to do next.
#[derive(Debug)]
pub enum OpStage<K, A> {
    /// An operation has to be written to the log.
    Log(PendingOp<K, A>),
    /// Nothing: this is the answer.
    Done(A),
}

/// `op` has to be written to the log. In the end `answer` is the answer.
#[derive(Debug)]
pub struct PendingOp<K, A> {
    pub op: WalOp<K>,
    pub answer: A,
}

/// The files of `hashes` have to be deleted. In the end `answer` is the answer.
#[derive(Debug)]
pub struct PendingDeletion<A> {
    pub hashes: Vec<BlobHash>,
    pub answer: A,
}

impl<K: Ord + Clone, A> PendingOp<K, A> {
    /// Goes on after the attempt to write to the log. The index changes only
    /// where that succeeded; what has to be deleted then are the blobs that no
    /// key maps to any more.
    pub fn logged(self, store: &mut CasInner<K>, outcome: Result<(), IndexError<K>>) -> (result:
        Result<PendingDeletion<A>, LibError<K>>)
        ensures
            final(store).sync_mode() == old(store).sync_mode(),
            match outcome {
                Ok(_) => {
                    &&& final(store)@ == after_op(old(store)@, self.op)
                    &&& result is Ok
                    &&& lists_hashes(
                        result->Ok_0.hashes@,
                        released(old(store)@, final(store)@),
                    )
                    &&& result->Ok_0.answer == self.answer
                },
                Err(error) => {
                    &&& final(store)@ == old(store)@
                    &&& result == Err::<PendingDeletion<A>, LibError<K>>(LibError::Index(error))
                },
            },
    {
        match store.index.apply_wal_op(&self.op, outcome) {
            Ok(hashes) => Ok(PendingDeletion { hashes, answer: self.answer }),
            Err(error) => Err(LibError::Index(error)),
        }
    }
}

impl<A> PendingDeletion<A> {
    /// Ends with the answer, after the attempt to delete the files.
    pub fn deleted<K>(self, outcome: Result<Vec<BlobHash>, CasManagerError>) -> (result: Result<
        A,
        LibError<K>,
    >)
        ensures
            result == (match outcome {
                Ok(_) => Ok(self.answer),
                Err(error) => Err(LibError::<K>::Cas(error)),
            }),
    {
        match outcome {
            Ok(_) => Ok(self.answer),
            Err(error) => Err(LibError::Cas(error)),
        }
    }
}

// Flushing the data of a new blob.

/// How the data of a new blob is flushed to the disk.
#[derive(Debug)]
pub enum SyncStage<F> {
    /// Its file has to be sent to the worker.
    Send(F, SyncSend),
    /// Its file has to be flushed at once.
    Flush(F, SyncFlush),
}

/// The file of the new blob has to be sent to the worker.
#[derive(Debug)]
pub struct SyncSend;

/// The file of the new blob has to be flushed at once.
#[derive(Debug)]
pub struct SyncFlush;

impl SyncSend {
    /// Ends after the attempt to send the file. A file that could not be sent
    /// comes back and goes into the error.
    pub fn sent<K, F>(self, outcome: Result<(), F>) -> (result: Result<(), LibError<K, F>>)
        ensures
            result == (match outcome {
                Ok(_) => Ok(()),
                Err(file) => Err(LibError::<K, F>::CommitFdatasyncSend(file)),
            }),
    {
        match outcome {
            Ok(_) => Ok(()),
            Err(file) => Err(LibError::CommitFdatasyncSend(file)),
        }
    }
}

impl SyncFlush {
    /// Ends after the attempt to flush the file.
    pub fn flushed<K, F>(self, outcome: Result<(), IoFailure>) -> (result: Result<
        (),
        LibError<K, F>,
    >)
        ensures
            result == (match outcome {
                Ok(_) => Ok(()),
                Err(source) => Err(LibError::<K, F>::CommitFdatasyncIo(source)),
            }),
    {
        match outcome {
            Ok(_) => Ok(()),
            Err(source) => Err(LibError::CommitFdatasyncIo(source)),
        }
    }
}

// Reading.

/// Whether an error says that the file of a blob is not there.
pub open spec fn says_missing(error: CasManagerError) -> bool {
    error matches CasManagerError::FileOperation { source, .. } && source.kind
        == IoErrorKind::NotFound
}

/// What comes of the attempt to get something of the blob `hash` for `key`. That
/// its file is missing counts as no answer, or as an error of its own.
pub open spec fn blob_result<K, T>(
    key: K,
    hash: BlobHash,
    return_err_on_missing: bool,
    outcome: Result<T, CasManagerError>,
) -> Result<Option<T>, LibError<K>> {
    match outcome {
        Ok(value) => Ok(Some(value)),
        Err(error) => if !says_missing(error) {
            Err(LibError::Cas(error))
        } else if return_err_on_missing {
            Err(LibError::BlobDataMissing { key, hash })
        } else {
            Ok(None)
        },
    }
}

/// What comes of looking for a key that maps to nothing.
pub open spec fn absent_result<K, T>(key: K, return_err_on_missing: bool) -> Result<
    Option<T>,
    LibError<K>,
> {
    if return_err_on_missing {
        Err(LibError::Index(IndexError::KeyNotFound { key }))
    } else {
        Ok(None)
    }
}

/// The state of a store: which key maps to which blob, and how the data of new
/// blobs is flushed.
#[derive(Debug)]
#[verifier::reject_recursive_types(K)]
pub struct CasInner<K: Ord + Clone> {
    index: Index<K>,
    sync_mode: SyncMode,
}

impl<K: Ord + Clone> View for CasInner<K> {
    type V = Map<K, BlobHash>;

    closed spec fn view(&self) -> Map<K, BlobHash> {
        self.index@
    }
}

impl<K: Ord + Clone> CasInner<K> {
    /// How the data of new blobs is flushed.
    pub closed spec fn sync_mode(self) -> SyncMode {
        self.sync_mode
    }

    /// Starts to open a store.
    pub fn new(sync_mode: SyncMode) -> (stage: OpenStagingDir)
        ensures
            stage == (OpenStagingDir { sync_mode }),
    {
        OpenStagingDir { sync_mode }
    }

    /// A transaction that was started and its file, or why it could not be.
    pub fn put<F>(&self, started: Result<(Transaction<K>, F), TransactionError>) -> (result: Result<
        (Transaction<K>, F),
        LibError<K>,
    >)
        ensures
            result == (match started {
                Ok(transaction) => Ok(transaction),
                Err(TransactionError::StagingFileIo { operation, path, source }) => Err(
                    LibError::<K>::Io {
                        operation: match operation {
                            StagingFileOp::Create => LibIoOperation::CreateStagingFile,
                            StagingFileOp::Write => LibIoOperation::WriteStagingFile,
                        },
                        path: Some(path),
                        source,
                    },
                ),
            }),
    {
        match started {
            Ok(transaction) => Ok(transaction),
            Err(TransactionError::StagingFileIo { operation, path, source }) => {
                let operation = match operation {
                    StagingFileOp::Create => LibIoOperation::CreateStagingFile,
                    StagingFileOp::Write => LibIoOperation::WriteStagingFile,
                };
                Err(LibError::Io { operation, path: Some(path), source })
            },
        }
    }

    /// The blob that `key` maps to.
    pub fn get_hash_for_key(&self, key: &K) -> (hash: Option<BlobHash>)
        ensures
            hash == (if self@.contains_key(*key) {
                Some(self@[*key])
            } else {
                None
            }),
    {
        self.index.get_hash_for_key(key)
    }

    /// Whether `key` maps to a blob.
    pub fn contains_key(&self, key: &K) -> (contains: bool)
        ensures
            contains == self@.contains_key(*key),
    {
        self.index.contains_key(key)
    }

    /// The content of the blob that `key` maps to, as `read_blob` gets it.
    pub fn get<F>(&self, key: &K, read_blob: F) -> (result: Result<
        Option<bytes::Bytes>,
        LibError<K>,
    >) where F: FnOnce(&BlobHash) -> Result<bytes::Bytes, CasManagerError>
        requires
            self@.contains_key(*key) ==> call_requires(read_blob, (&self@[*key],)),
        ensures
            !self@.contains_key(*key) ==> result == Ok::<Option<bytes::Bytes>, LibError<K>>(None),
            self@.contains_key(*key) ==> exists|outcome: Result<bytes::Bytes, CasManagerError>| #[trigger]
                call_ensures(read_blob, (&self@[*key],), outcome) && result == blob_result(
                    *key,
                    self@[*key],
                    false,
                    outcome,
                ),
    {
        self.with_blob_hash(key, false, read_blob)
    }

    /// The size of the blob that `key` maps to, as `blob_size` gets it.
    pub fn size<F>(&self, key: &K, blob_size: F) -> (result: Result<
        Option<u64>,
        LibError<K>,
    >) where F: FnOnce(&BlobHash) -> Result<u64, CasManagerError>
        requires
            self@.contains_key(*key) ==> call_requires(blob_size, (&self@[*key],)),
        ensures
            !self@.contains_key(*key) ==> result == Ok::<Option<u64>, LibError<K>>(None),
            self@.contains_key(*key) ==> exists|outcome: Result<u64, CasManagerError>| #[trigger]
                call_ensures(blob_size, (&self@[*key],), outcome) && result == blob_result(
                    *key,
                    self@[*key],
                    false,
                    outcome,
                ),
    {
        self.with_blob_hash(key, false, blob_size)
    }

    /// The bytes of the blob that `key` maps to from `range_start` up to
    /// `range_end`, as `read_blob_range` gets them.
    pub fn get_range<F>(
        &self,
        key: &K,
        range_start: u64,
        range_end: u64,
        read_blob_range: F,
    ) -> (result: Result<Option<bytes::Bytes>, LibError<K>>) where
        F: FnOnce(&BlobHash, u64, u64) -> Result<bytes::Bytes, CasManagerError>,

        requires
            self@.contains_key(*key) ==> call_requires(
                read_blob_range,
                (&self@[*key], range_start, range_end),
            ),
        ensures
            !self@.contains_key(*key) ==> result == Ok::<Option<bytes::Bytes>, LibError<K>>(None),
            self@.contains_key(*key) ==> exists|outcome: Result<bytes::Bytes, CasManagerError>| #[trigger]
                call_ensures(read_blob_range, (&self@[*key], range_start, range_end), outcome)
                    && result == blob_result(*key, self@[*key], false, outcome),
    {
        match self.index.get_hash_for_key(key) {
            Some(blob_hash) => {
                let outcome = read_blob_range(&blob_hash, range_start, range_end);
                assert(call_ensures(
                    read_blob_range,
                    (&self@[*key], range_start, range_end),
                    outcome,
                ));
                self.settle_blob_result(key, blob_hash, false, outcome)
            },
            None => Ok(None),
        }
    }

    /// A reader of the blob that `key` maps to, as `blob_bufreader` gets it.
    pub fn raw_bufreader<R, F>(&self, key: &K, blob_bufreader: F) -> (result: Result<
        R,
        LibError<K>,
    >) where F: FnOnce(&BlobHash) -> Result<R, CasManagerError>
        requires
            self@.contains_key(*key) ==> call_requires(blob_bufreader, (&self@[*key],)),
        ensures
            !self@.contains_key(*key) ==> result == Err::<R, LibError<K>>(
                LibError::Index(IndexError::KeyNotFound { key: *key }),
            ),
            self@.contains_key(*key) ==> exists|outcome: Result<R, CasManagerError>| #[trigger]
                call_ensures(blob_bufreader, (&self@[*key],), outcome) && result == (
                match outcome {
                    Ok(reader) => Ok::<R, LibError<K>>(reader),
                    Err(error) => Err(LibError::<K>::Cas(error)),
                }),
    {
        match self.index.require_hash_for_key(key) {
            Ok(blob_hash) => {
                let outcome = blob_bufreader(&blob_hash);
                assert(call_ensures(blob_bufreader, (&self@[*key],), outcome));
                match outcome {
                    Ok(reader) => Ok(reader),
                    Err(error) => Err(LibError::Cas(error)),
                }
            },
            Err(error) => Err(LibError::Index(error)),
        }
    }

    /// How the data of a new blob, which is in `file`, has to be flushed.
    pub fn fdatasync<F>(&self, file: F) -> (stage: SyncStage<F>)
        ensures
            stage == (match self.sync_mode() {
                SyncMode::Sync => SyncStage::Flush(file, SyncFlush),
                SyncMode::Async => SyncStage::Send(file, SyncSend),
            }),
    {
        match self.sync_mode {
            SyncMode::Sync => SyncStage::Flush(file, SyncFlush),
            SyncMode::Async => SyncStage::Send(file, SyncSend),
        }
    }

    /// The keys that map to a blob.
    pub fn known_keys(&self) -> (keys: BTreeSet<K>)
        ensures
            keys@ == self@.dom(),
    {
        self.index.known_keys()
    }

    /// A copy of the whole index.
    pub fn index_snapshot(&self) -> (snapshot: BTreeMap<K, BlobHash>)
        ensures
            snapshot@ == self@,
    {
        self.index.index_snapshot()
    }

    /// The blobs that some key maps to, in ascending order.
    pub fn known_blobs(&self) -> (blobs: Vec<BlobHash>)
        ensures
            lists_hashes(blobs@, self@.values()),
    {
        self.index.known_blobs()
    }

    /// Starts to remove `key`. The answer is whether it mapped to a blob.
    pub fn remove(&self, key: &K) -> (stage: OpStage<K, bool>)
        ensures
            if self@.contains_key(*key) {
                &&& stage matches OpStage::Log(pending)
                &&& pending.answer
                &&& pending.op matches WalOp::Remove { keys }
                &&& keys@ == seq![*key]
            } else {
                stage == OpStage::<K, bool>::Done(false)
            },
    {
        if self.index.contains_key(key) {
            let mut keys: Vec<K> = Vec::new();
            keys.push(self.index.copy_key(key));
            assert(keys@ =~= seq![*key]);
            OpStage::Log(PendingOp { op: WalOp::Remove { keys }, answer: true })
        } else {
            OpStage::Done(false)
        }
    }

    /// Starts to remove the keys of a range. The answer is how many of them
    /// mapped to a blob.
    pub fn remove_range(&self, start: &KeyBound<K>, end: &KeyBound<K>) -> (stage: OpStage<
        K,
        usize,
    >)
        ensures
            match stage {
                OpStage::Log(pending) => {
                    &&& pending.op matches WalOp::Remove { keys }
                    &&& pending.answer == keys@.len()
                    &&& keys@.len() > 0
                    &&& keys_ascend(keys@)
                    &&& forall|k: K| #[trigger]
                        keys@.contains(k) <==> self@.contains_key(k) && in_range(k, *start, *end)
                },
                OpStage::Done(count) => {
                    &&& count == 0
                    &&& forall|k: K|
                        #![trigger self@.contains_key(k)]
                        #![trigger in_range(k, *start, *end)]
                        self@.contains_key(k) ==> !in_range(k, *start, *end)
                },
            },
    {
        let keys = self.index.keys_in_range(start, end);
        let count: usize = keys.len();
        if count == 0 {
            proof {
                assert forall|k: K| #[trigger] self@.contains_key(k) implies !in_range(
                    k,
                    *start,
                    *end,
                ) by {
                    assert(!keys@.contains(k));
                }
            }
            return OpStage::Done(0);
        }
        OpStage::Log(PendingOp { op: WalOp::Remove { keys }, answer: count })
    }

    /// Ends a checkpoint, after the attempt to write the index to the disk.
    pub fn checkpoint(&self, outcome: Result<(), IndexError<K>>) -> (result: Result<
        (),
        LibError<K>,
    >)
        ensures
            result == (match outcome {
                Ok(_) => Ok(()),
                Err(error) => Err(LibError::<K>::Index(error)),
            }),
    {
        match outcome {
            Ok(_) => Ok(()),
            Err(error) => Err(LibError::Index(error)),
        }
    }

    /// What comes of the attempt to get something of the blob `hash` for `key`.
    pub fn settle_blob_result<T>(
        &self,
        key: &K,
        hash: BlobHash,
        return_err_on_missing: bool,
        outcome: Result<T, CasManagerError>,
    ) -> (result: Result<Option<T>, LibError<K>>)
        ensures
            result == blob_result(*key, hash, return_err_on_missing, outcome),
    {
        match outcome {
            Ok(value) => Ok(Some(value)),
            Err(error) => {
                let missing: bool = match &error {
                    CasManagerError::FileOperation { source, .. } => match source.kind {
                        IoErrorKind::NotFound => true,
                        IoErrorKind::Other => false,
                    },
                    _ => false,
                };
                if !missing {
                    Err(LibError::Cas(error))
                } else if return_err_on_missing {
                    Err(LibError::BlobDataMissing { key: self.index.copy_key(key), hash })
                } else {
                    Ok(None)
                }
            },
        }
    }

    /// What `f` gets of the blob that `key` maps to.
    pub fn with_blob_hash<T, F>(&self, key: &K, return_err_on_missing: bool, f: F) -> (result:
        Result<Option<T>, LibError<K>>) where F: FnOnce(&BlobHash) -> Result<T, CasManagerError>
        requires
            self@.contains_key(*key) ==> call_requires(f, (&self@[*key],)),
        ensures
            !self@.contains_key(*key) ==> result == absent_result::<K, T>(
                *key,
                return_err_on_missing,
            ),
            self@.contains_key(*key) ==> exists|outcome: Result<T, CasManagerError>| #[trigger]
                call_ensures(f, (&self@[*key],), outcome) && result == blob_result(
                    *key,
                    self@[*key],
                    return_err_on_missing,
                    outcome,
                ),
    {
        match self.index.get_hash_for_key(key) {
            Some(blob_hash) => {
                let outcome = f(&blob_hash);
                assert(call_ensures(f, (&self@[*key],), outcome));
                self.settle_blob_result(key, blob_hash, return_err_on_missing, outcome)
            },
            None => if return_err_on_missing {
                Err(
                    LibError::Index(IndexError::KeyNotFound { key: self.index.copy_key(key) }),
                )
            } else {
                Ok(None)
            },
        }
    }
}

} // verus!
