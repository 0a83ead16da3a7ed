//! What is done with the files of blobs.
//!
//! Nothing here touches a file. An operation that takes several file operations
//! is a chain of stages: a stage says what to do to which file, and takes the
//! outcome to the next stage or to the answer.

use vstd::prelude::*;

use crate::blob_bytes::{bytes_content, bytes_from_vec, no_bytes};
use crate::types::{BlobHash, IoErrorKind, IoFailure, StorePath};

verus! {

/// The file operations on blobs.
#[derive(Clone, Copy, Debug, PartialEq, Eq, Structural)]
pub enum CasIoOperation {
    ReadContent,
    ReadMetadata,
    OpenBuffered,
    OpenRangeRead,
    ReadRange,
    CreateSubdir,
    MoveStaged,
    RemoveStaged,
    RemoveFile,
}

/// Why a blob could not be read, committed or deleted.
#[derive(Debug)]
pub enum CasManagerError {
    /// `operation` failed on `path`.
    FileOperation { operation: CasIoOperation, path: StorePath, source: IoFailure },
    /// A range was asked for that starts after its end.
    InvalidRangeStartEnd { start: u64, end: u64 },
    /// Cut to the size of the file, a range starts after its end.
    InvalidCalculatedRangeStartEnd { start: u64, end: u64 },
}

/// The outcome of a file operation, with a failure put in terms of the store.
pub open spec fn file_result<T>(
    outcome: Result<T, IoFailure>,
    operation: CasIoOperation,
    path: StorePath,
) -> Result<T, CasManagerError> {
    match outcome {
        Ok(value) => Ok(value),
        Err(source) => Err(CasManagerError::FileOperation { operation, path, source }),
    }
}

fn settle_file_result<T>(
    outcome: Result<T, IoFailure>,
    operation: CasIoOperation,
    path: StorePath,
) -> (result: Result<T, CasManagerError>)
    ensures
        result == file_result(outcome, operation, path),
{
    match outcome {
        Ok(value) => Ok(value),
        Err(source) => Err(CasManagerError::FileOperation { operation, path, source }),
    }
}

/// Whether `result` is what comes of reading the file of `hash` with `outcome`.
pub open spec fn blob_read(
    hash: BlobHash,
    outcome: Result<Vec<u8>, IoFailure>,
    result: Result<bytes::Bytes, CasManagerError>,
) -> bool {
    match file_result(outcome, CasIoOperation::ReadContent, StorePath::Blob(hash)) {
        Ok(content) => result is Ok && bytes_content(result->Ok_0) == content@,
        Err(error) => result == Err::<bytes::Bytes, CasManagerError>(error),
    }
}

/// The smaller of two numbers.
pub open spec fn smaller(a: u64, b: u64) -> u64 {
    if a < b {
        a
    } else {
        b
    }
}

/// Cuts a range to the size of a file.
pub fn clamp_range(range_start: u64, range_end: u64, len: u64) -> (result: Result<
    (u64, u64),
    CasManagerError,
>)
    ensures
        ({
            let start = smaller(range_start, len);
            let end = smaller(range_end, len);
            result == (if start > end {
                Err(CasManagerError::InvalidCalculatedRangeStartEnd { start, end })
            } else {
                Ok((start, end))
            })
        }),
{
    let start: u64 = if range_start < len {
        range_start
    } else {
        len
    };
    let end: u64 = if range_end < len {
        range_end
    } else {
        len
    };
    if start > end {
        Err(CasManagerError::InvalidCalculatedRangeStartEnd { start, end })
    } else {
        Ok((start, end))
    }
}

/// Decides what is done with the files of blobs. The directory layout `P` and
/// the lock `L` are those of whoever does the file operations.
pub struct CasManager<P, L> {
    pub paths: P,
    pub fs_lock: L,
}

impl<P, L> CasManager<P, L> {
    /// A manager with this layout and lock.
    pub fn new(paths: P, fs_lock: L) -> (manager: Self)
        ensures
            manager.paths == paths,
            manager.fs_lock == fs_lock,
    {
        CasManager { paths, fs_lock }
    }

    /// The content of a blob, from the outcome of reading its file.
    pub fn read_blob(&self, blob_hash: &BlobHash, outcome: Result<Vec<u8>, IoFailure>) -> (result:
        Result<bytes::Bytes, CasManagerError>)
        ensures
            blob_read(*blob_hash, outcome, result),
    {
        match settle_file_result(
            outcome,
            CasIoOperation::ReadContent,
            StorePath::Blob(*blob_hash),
        ) {
            Ok(content) => Ok(bytes_from_vec(content)),
            Err(error) => Err(error),
        }
    }

    /// The size of a blob, from the outcome of asking for that of its file.
    pub fn blob_size(&self, blob_hash: &BlobHash, outcome: Result<u64, IoFailure>) -> (result:
        Result<u64, CasManagerError>)
        ensures
            result == file_result(
                outcome,
                CasIoOperation::ReadMetadata,
                StorePath::Blob(*blob_hash),
            ),
    {
        settle_file_result(outcome, CasIoOperation::ReadMetadata, StorePath::Blob(*blob_hash))
    }

    /// A reader of a blob, from the outcome of opening its file.
    pub fn blob_bufreader<R>(&self, blob_hash: &BlobHash, outcome: Result<R, IoFailure>) -> (result:
        Result<R, CasManagerError>)
        ensures
            result == file_result(
                outcome,
                CasIoOperation::OpenBuffered,
                StorePath::Blob(*blob_hash),
            ),
    {
        settle_file_result(outcome, CasIoOperation::OpenBuffered, StorePath::Blob(*blob_hash))
    }

    /// Starts to read the bytes of a blob from `range_start` up to `range_end`,
    /// which is not read. A range that starts after its end is refused before
    /// any file is touched.
    pub fn read_blob_range(
        &self,
        blob_hash: &BlobHash,
        range_start: u64,
        range_end: u64,
    ) -> (result: Result<RangeOpen, CasManagerError>)
        ensures
            result == (if range_start > range_end {
                Err(
                    CasManagerError::InvalidRangeStartEnd { start: range_start, end: range_end },
                )
            } else {
                Ok(RangeOpen { hash: *blob_hash, start: range_start, end: range_end })
            }),
    {
        if range_start > range_end {
            return Err(
                CasManagerError::InvalidRangeStartEnd { start: range_start, end: range_end },
            );
        }
        Ok(RangeOpen { hash: *blob_hash, start: range_start, end: range_end })
    }

    /// Starts to put the staged file in the place of the blob `blob_hash`.
    pub fn commit_blob(&self, blob_hash: &BlobHash) -> (stage: CommitSubdir)
        ensures
            stage == (CommitSubdir { hash: *blob_hash }),
    {
        CommitSubdir { hash: *blob_hash }
    }

    /// Starts to delete the files of `hashes`, in their order.
    pub fn delete_blobs(&self, hashes: &[BlobHash]) -> (stage: DeletionStage)
        ensures
            stage.is_at(hashes@, Seq::empty()),
    {
        let mut todo: Vec<BlobHash> = Vec::new();
        let mut i: usize = 0;
        while i < hashes.len()
            invariant
                i <= hashes@.len(),
                todo@ == hashes@.take(i as int),
            decreases hashes@.len() - i,
        {
            todo.push(hashes[i]);
            assert(todo@ =~= hashes@.take(i + 1));
            i += 1;
        }
        assert(todo@ =~= hashes@);
        assert(todo@.skip(0) =~= todo@);
        next_deletion(todo, 0, Vec::new())
    }
}

// Reading a range.

/// The file of `hash` has to be opened.
#[derive(Debug)]
pub struct RangeOpen {
    pub hash: BlobHash,
    pub start: u64,
    pub end: u64,
}

/// The size of the open file has to be asked for.
#[derive(Debug)]
pub struct RangeMeasure {
    pub hash: BlobHash,
    pub start: u64,
    pub end: u64,
}

/// Up to `len` bytes have to be read from the open file, from `offset` on.
#[derive(Debug)]
pub struct RangeFill {
    pub hash: BlobHash,
    pub offset: u64,
    pub len: usize,
}

/// What follows once the size of the file is known.
#[derive(Debug)]
pub enum RangeStage {
    /// There is something to read.
    Fill(RangeFill),
    /// The range has no bytes.
    Done(bytes::Bytes),
}

impl RangeOpen {
    /// Goes on after the attempt to open the file, with the open file.
    pub fn opened<F>(self, outcome: Result<F, IoFailure>) -> (result: Result<
        (RangeMeasure, F),
        CasManagerError,
    >)
        ensures
            match file_result(outcome, CasIoOperation::OpenRangeRead, StorePath::Blob(self.hash)) {
                Ok(file) => result == Ok::<(RangeMeasure, F), CasManagerError>(
                    (RangeMeasure { hash: self.hash, start: self.start, end: self.end }, file),
                ),
                Err(error) => result == Err::<(RangeMeasure, F), CasManagerError>(error),
            },
    {
        match settle_file_result(
            outcome,
            CasIoOperation::OpenRangeRead,
            StorePath::Blob(self.hash),
        ) {
            Ok(file) => Ok(
                (RangeMeasure { hash: self.hash, start: self.start, end: self.end }, file),
            ),
            Err(error) => Err(error),
        }
    }
}

impl RangeMeasure {
    /// What follows when the file has `len` bytes.
    pub open spec fn stage_is(self, len: u64, stage: RangeStage) -> bool {
        let start = smaller(self.start, len);
        let end = smaller(self.end, len);
        match stage {
            RangeStage::Done(content) => start == end && bytes_content(content)
                == Seq::<u8>::empty(),
            RangeStage::Fill(fill) => start < end && fill == (RangeFill {
                hash: self.hash,
                offset: start,
                len: (end - start) as usize,
            }),
        }
    }

    /// Goes on after the attempt to ask for the size.
    pub fn measured(self, outcome: Result<u64, IoFailure>) -> (result: Result<
        RangeStage,
        CasManagerError,
    >)
        ensures
            match file_result(outcome, CasIoOperation::ReadMetadata, StorePath::Blob(self.hash)) {
                Ok(len) => {
                    let start = smaller(self.start, len);
                    let end = smaller(self.end, len);
                    if start > end {
                        result == Err::<RangeStage, CasManagerError>(
                            CasManagerError::InvalidCalculatedRangeStartEnd { start, end },
                        )
                    } else {
                        result is Ok && self.stage_is(len, result->Ok_0)
                    }
                },
                Err(error) => result == Err::<RangeStage, CasManagerError>(error),
            },
    {
        let len: u64 = match settle_file_result(
            outcome,
            CasIoOperation::ReadMetadata,
            StorePath::Blob(self.hash),
        ) {
            Ok(len) => len,
            Err(error) => {
                return Err(error);
            },
        };
        match clamp_range(self.start, self.end, len) {
            Ok((start, end)) => {
                let read_len: u64 = end - start;
                if read_len == 0 {
                    Ok(RangeStage::Done(no_bytes()))
                } else {
                    Ok(
                        RangeStage::Fill(
                            RangeFill { hash: self.hash, offset: start, len: read_len as usize },
                        ),
                    )
                }
            },
            Err(error) => Err(error),
        }
    }
}

impl RangeFill {
    /// Whether `result` is what comes of a read into `buffer` with `outcome`: the
    /// bytes that the read filled.
    pub open spec fn ends_with(
        self,
        buffer: Seq<u8>,
        outcome: Result<usize, IoFailure>,
        result: Result<bytes::Bytes, CasManagerError>,
    ) -> bool {
        match file_result(outcome, CasIoOperation::ReadRange, StorePath::Blob(self.hash)) {
            Ok(bytes_read) => {
                &&& result is Ok
                &&& bytes_content(result->Ok_0) == (if bytes_read <= buffer.len() {
                    buffer.take(bytes_read as int)
                } else {
                    buffer
                })
            },
            Err(error) => result == Err::<bytes::Bytes, CasManagerError>(error),
        }
    }

    /// A buffer of zeros to read into.
    pub fn buffer(&self) -> (buffer: Vec<u8>)
        ensures
            buffer@ == Seq::new(self.len as nat, |i: int| 0u8),
    {
        let buffer: Vec<u8> = vec![0; self.len];
        assert forall|i: int| 0 <= i < self.len implies buffer@[i] == 0 by {
            assert(cloned(0u8, buffer@[i]));
        }
        buffer
    }

    /// Ends with what was read: of `buffer`, which was read into, the bytes that
    /// the read filled.
    pub fn filled(self, buffer: Vec<u8>, outcome: Result<usize, IoFailure>) -> (result: Result<
        bytes::Bytes,
        CasManagerError,
    >)
        ensures
            self.ends_with(buffer@, outcome, result),
    {
        match settle_file_result(
            outcome,
            CasIoOperation::ReadRange,
            StorePath::Blob(self.hash),
        ) {
            Ok(bytes_read) => {
                let mut content = buffer;
                content.truncate(bytes_read);
                Ok(bytes_from_vec(content))
            },
            Err(error) => Err(error),
        }
    }
}

// Committing a blob.

/// The directory that the file of `hash` belongs in has to be made.
#[derive(Debug)]
pub struct CommitSubdir {
    pub hash: BlobHash,
}

/// It has to be found out, under the lock, whether the file of `hash` exists.
#[derive(Debug)]
pub struct CommitCheck {
    pub hash: BlobHash,
}

/// What becomes of the staged file, still under the lock.
#[derive(Debug)]
pub enum CommitPlacement {
    /// It has to be renamed to the file of the blob.
    Move(CommitMove),
    /// The blob is there already: it has to be removed.
    Discard(CommitDiscard),
}

/// The staged file has to be renamed to the file of `hash`.
#[derive(Debug)]
pub struct CommitMove {
    pub hash: BlobHash,
}

/// The file of `hash` is there: the staged file has to be removed.
#[derive(Debug)]
pub struct CommitDiscard {
    pub hash: BlobHash,
}

impl CommitSubdir {
    /// Goes on after the attempt to make the directory.
    pub fn created(self, outcome: Result<(), IoFailure>) -> (result: Result<
        CommitCheck,
        CasManagerError,
    >)
        ensures
            match file_result(outcome, CasIoOperation::CreateSubdir, StorePath::Blob(self.hash)) {
                Ok(_) => result == Ok::<CommitCheck, CasManagerError>(
                    CommitCheck { hash: self.hash },
                ),
                Err(error) => result == Err::<CommitCheck, CasManagerError>(error),
            },
    {
        match settle_file_result(
            outcome,
            CasIoOperation::CreateSubdir,
            StorePath::Blob(self.hash),
        ) {
            Ok(_) => Ok(CommitCheck { hash: self.hash }),
            Err(error) => Err(error),
        }
    }
}

impl CommitCheck {
    /// What becomes of the staged file.
    pub open spec fn placement(self, exists: bool) -> CommitPlacement {
        if exists {
            CommitPlacement::Discard(CommitDiscard { hash: self.hash })
        } else {
            CommitPlacement::Move(CommitMove { hash: self.hash })
        }
    }

    /// Decides what becomes of the staged file.
    pub fn checked(self, exists: bool) -> (placement: CommitPlacement)
        ensures
            placement == self.placement(exists),
    {
        if !exists {
            CommitPlacement::Move(CommitMove { hash: self.hash })
        } else {
            CommitPlacement::Discard(CommitDiscard { hash: self.hash })
        }
    }
}

impl CommitMove {
    /// Ends with the place of the blob, after the attempt to rename.
    pub fn moved(self, outcome: Result<(), IoFailure>) -> (result: Result<
        StorePath,
        CasManagerError,
    >)
        ensures
            match file_result(outcome, CasIoOperation::MoveStaged, StorePath::Blob(self.hash)) {
                Ok(_) => result == Ok::<StorePath, CasManagerError>(StorePath::Blob(self.hash)),
                Err(error) => result == Err::<StorePath, CasManagerError>(error),
            },
    {
        match settle_file_result(outcome, CasIoOperation::MoveStaged, StorePath::Blob(self.hash)) {
            Ok(_) => Ok(StorePath::Blob(self.hash)),
            Err(error) => Err(error),
        }
    }
}

impl CommitDiscard {
    /// Ends with the place of the blob, after the attempt to remove the staged file.
    pub fn discarded(self, outcome: Result<(), IoFailure>) -> (result: Result<
        StorePath,
        CasManagerError,
    >)
        ensures
            match file_result(outcome, CasIoOperation::RemoveStaged, StorePath::StagedFile) {
                Ok(_) => result == Ok::<StorePath, CasManagerError>(StorePath::Blob(self.hash)),
                Err(error) => result == Err::<StorePath, CasManagerError>(error),
            },
    {
        match settle_file_result(outcome, CasIoOperation::RemoveStaged, StorePath::StagedFile) {
            Ok(_) => Ok(StorePath::Blob(self.hash)),
            Err(error) => Err(error),
        }
    }
}

// Deleting blobs.

/// What a deletion has to do next.
#[derive(Debug)]
pub enum DeletionStage {
    /// A file has to be removed.
    Remove(PendingRemoval),
    /// Nothing: these blobs were deleted.
    Done(Vec<BlobHash>),
}

/// The file of `hash()` has to be removed.
#[derive(Debug)]
pub struct PendingRemoval {
    hashes: Vec<BlobHash>,
    next: usize,
    deleted: Vec<BlobHash>,
}

impl DeletionStage {
    /// Whether the files of `todo` are still to be removed and those of
    /// `deleted` were.
    pub open spec fn is_at(self, todo: Seq<BlobHash>, deleted: Seq<BlobHash>) -> bool {
        match self {
            DeletionStage::Remove(pending) => {
                &&& todo.len() > 0
                &&& pending.todo() == todo
                &&& pending.deleted() == deleted
            },
            DeletionStage::Done(hashes) => {
                &&& todo.len() == 0
                &&& hashes@ == deleted
            },
        }
    }
}

fn next_deletion(hashes: Vec<BlobHash>, next: usize, deleted: Vec<BlobHash>) -> (stage:
    DeletionStage)
    requires
        next <= hashes@.len(),
    ensures
        stage.is_at(hashes@.skip(next as int), deleted@),
{
    if next < hashes.len() {
        DeletionStage::Remove(PendingRemoval { hashes, next, deleted })
    } else {
        DeletionStage::Done(deleted)
    }
}

/// Whether the removal of a file has failed in a way that ends a deletion: that
/// the file is not there is no such way.
pub open spec fn removal_failed(outcome: Result<(), IoFailure>) -> bool {
    outcome matches Err(failure) && failure.kind != IoErrorKind::NotFound
}

impl PendingRemoval {
    #[verifier::type_invariant]
    spec fn well_formed(self) -> bool {
        self.next < self.hashes@.len()
    }

    /// The blobs whose files are to be removed, that of `hash()` first.
    pub closed spec fn todo(self) -> Seq<BlobHash> {
        self.hashes@.skip(self.next as int)
    }

    /// The blobs whose files were removed.
    pub closed spec fn deleted(self) -> Seq<BlobHash> {
        self.deleted@
    }

    /// Whether `result` follows on the attempt to remove the file of `hash()` that
    /// had `outcome`.
    pub open spec fn goes_on(
        self,
        outcome: Result<(), IoFailure>,
        result: Result<DeletionStage, CasManagerError>,
    ) -> bool {
        &&& self.todo().len() > 0
        &&& if removal_failed(outcome) {
            result == Err::<DeletionStage, CasManagerError>(
                CasManagerError::FileOperation {
                    operation: CasIoOperation::RemoveFile,
                    path: StorePath::Blob(self.todo()[0]),
                    source: outcome->Err_0,
                },
            )
        } else {
            &&& result is Ok
            &&& result->Ok_0.is_at(
                self.todo().skip(1),
                if outcome is Ok {
                    self.deleted().push(self.todo()[0])
                } else {
                    self.deleted()
                },
            )
        }
    }

    /// The blob whose file has to be removed.
    pub fn hash(&self) -> (hash: BlobHash)
        ensures
            self.todo().len() > 0,
            hash == self.todo()[0],
    {
        proof {
            use_type_invariant(self);
        }
        self.hashes[self.next]
    }

    /// Goes on after the attempt to remove the file of `hash()`. A file that is
    /// not there is passed over; any other failure ends the deletion.
    pub fn removed(self, outcome: Result<(), IoFailure>) -> (result: Result<
        DeletionStage,
        CasManagerError,
    >)
        ensures
            self.goes_on(outcome, result),
    {
        proof {
            use_type_invariant(&self);
            assert(self.todo().skip(1) =~= self.hashes@.skip(self.next + 1));
        }
        let PendingRemoval { hashes, next, mut deleted } = self;
        let hash: BlobHash = hashes[next];
        assert(next < hashes.len());
        match outcome {
            Ok(_) => {
                deleted.push(hash);
            },
            Err(source) => {
                match source.kind {
                    IoErrorKind::NotFound => {},
                    IoErrorKind::Other => {
                        return Err(
                            CasManagerError::FileOperation {
                                operation: CasIoOperation::RemoveFile,
                                path: StorePath::Blob(hash),
                                source,
                            },
                        );
                    },
                }
            },
        }
        Ok(next_deletion(hashes, next + 1, deleted))
    }
}

} // verus!
