//! What becomes of the files of blobs.

use vstd::prelude::*;

use crate::blob_bytes::bytes_content;
use crate::cas_manager::{
    clamp_range, CasIoOperation, CasManager, CasManagerError, CommitCheck, CommitDiscard,
    CommitMove, CommitPlacement, CommitSubdir, DeletionStage, PendingRemoval, RangeFill,
    RangeMeasure, RangeOpen, RangeStage,
};
use crate::store_laws::removed_blobs;
use crate::types::{BlobHash, IoErrorKind, IoFailure, StorePath};

verus! {

// Whole blobs.

/// What the file of a blob holds is the content of the blob, and a file that
/// cannot be read is reported as such, with the reason.
pub proof fn law_read_blob<P, L>(
    manager: &CasManager<P, L>,
    hash: &BlobHash,
    outcome: Result<Vec<u8>, IoFailure>,
    result: Result<bytes::Bytes, CasManagerError>,
)
    requires
        call_ensures(CasManager::<P, L>::read_blob, (manager, hash, outcome), result),
    ensures
        result is Ok <==> outcome is Ok,
        outcome matches Ok(content) ==> bytes_content(result->Ok_0) == content@,
        outcome matches Err(source) ==> result->Err_0 == (CasManagerError::FileOperation {
            operation: CasIoOperation::ReadContent,
            path: StorePath::Blob(*hash),
            source,
        }),
{
}

/// The size of the file of a blob is the size of the blob, and a file that cannot
/// be asked is reported as such, with the reason.
pub proof fn law_blob_size<P, L>(
    manager: &CasManager<P, L>,
    hash: &BlobHash,
    outcome: Result<u64, IoFailure>,
    result: Result<u64, CasManagerError>,
)
    requires
        call_ensures(CasManager::<P, L>::blob_size, (manager, hash, outcome), result),
    ensures
        result is Ok <==> outcome is Ok,
        outcome matches Ok(size) ==> result->Ok_0 == size,
        outcome matches Err(source) ==> result->Err_0 == (CasManagerError::FileOperation {
            operation: CasIoOperation::ReadMetadata,
            path: StorePath::Blob(*hash),
            source,
        }),
{
}

/// The reader of the file of a blob is handed on, and a file that cannot be
/// opened is reported as such, with the reason.
pub proof fn law_blob_bufreader<P, L, R>(
    manager: &CasManager<P, L>,
    hash: &BlobHash,
    outcome: Result<R, IoFailure>,
    result: Result<R, CasManagerError>,
)
    requires
        call_ensures(CasManager::<P, L>::blob_bufreader::<R>, (manager, hash, outcome), result),
    ensures
        result is Ok <==> outcome is Ok,
        outcome matches Ok(reader) ==> result->Ok_0 == reader,
        outcome matches Err(source) ==> result->Err_0 == (CasManagerError::FileOperation {
            operation: CasIoOperation::OpenBuffered,
            path: StorePath::Blob(*hash),
            source,
        }),
{
}

// Ranges.

/// A range is refused exactly where it starts after its end, and the error gives
/// both.
pub proof fn law_backward_range_refused<P, L>(
    manager: &CasManager<P, L>,
    hash: &BlobHash,
    start: u64,
    end: u64,
    result: Result<RangeOpen, CasManagerError>,
)
    requires
        call_ensures(CasManager::<P, L>::read_blob_range, (manager, hash, start, end), result),
    ensures
        result is Err <==> start > end,
        start > end ==> result->Err_0 == (CasManagerError::InvalidRangeStartEnd { start, end }),
{
}

/// Cut to a size, an end of a range stays where it is or comes down to the size,
/// and only a range that starts after its end and inside the size is refused.
pub proof fn law_range_cut_to_size(
    start: u64,
    end: u64,
    len: u64,
    result: Result<(u64, u64), CasManagerError>,
)
    requires
        call_ensures(clamp_range, (start, end, len), result),
    ensures
        result is Err <==> start > end && len > end,
        result matches Ok((from, to)) ==> {
            &&& from <= to <= len
            &&& start <= len ==> from == start
            &&& start >= len ==> from == len
            &&& end <= len ==> to == end
            &&& end >= len ==> to == len
        },
        result matches Err(error) ==> error == (
        CasManagerError::InvalidCalculatedRangeStartEnd {
            start: if start < len {
                start
            } else {
                len
            },
            end,
        }),
{
}

/// Reading a range asks the open file for exactly the bytes that the file has of
/// it, from the first on, and asks for nothing where the file has none.
pub proof fn law_range_asks_for_its_bytes<P, L, F>(
    manager: &CasManager<P, L>,
    hash: &BlobHash,
    start: u64,
    end: u64,
    open: RangeOpen,
    file: F,
    opened: Result<(RangeMeasure, F), CasManagerError>,
    len: u64,
    result: Result<RangeStage, CasManagerError>,
)
    requires
        start <= end,
        len <= usize::MAX,
        call_ensures(CasManager::<P, L>::read_blob_range, (manager, hash, start, end), Ok(open)),
        call_ensures(RangeOpen::opened::<F>, (open, Ok(file)), opened),
        opened is Ok ==> call_ensures(RangeMeasure::measured, (opened->Ok_0.0, Ok(len)), result),
    ensures
        open.hash == *hash,
        opened is Ok,
        opened->Ok_0.1 == file,
        result is Ok,
        result->Ok_0 is Done <==> start == end || start >= len,
        result->Ok_0 matches RangeStage::Done(content) ==> bytes_content(content).len() == 0,
        result->Ok_0 matches RangeStage::Fill(fill) ==> {
            &&& fill.hash == *hash
            &&& fill.offset == start
            &&& end <= len ==> fill.offset + fill.len == end
            &&& end >= len ==> fill.offset + fill.len == len
        },
{
}

/// A range that starts after its end is refused at the latest when the size of the
/// file is known, unless both ends lie behind it.
pub proof fn law_backward_range_refused_by_size(
    measure: RangeMeasure,
    len: u64,
    result: Result<RangeStage, CasManagerError>,
)
    requires
        measure.start > measure.end,
        call_ensures(RangeMeasure::measured, (measure, Ok(len)), result),
    ensures
        len <= measure.end ==> (result matches Ok(RangeStage::Done(content)) && bytes_content(
            content,
        ).len() == 0),
        len > measure.end ==> result == Err::<RangeStage, CasManagerError>(
            CasManagerError::InvalidCalculatedRangeStartEnd {
                start: if len < measure.start {
                    len
                } else {
                    measure.start
                },
                end: measure.end,
            },
        ),
{
}

/// The buffer has room for exactly the bytes that are asked for, and holds zeros.
pub proof fn law_range_buffer_fits(fill: RangeFill, buffer: Vec<u8>)
    requires
        call_ensures(RangeFill::buffer, (&fill,), buffer),
    ensures
        buffer@.len() == fill.len,
        forall|i: int| 0 <= i < fill.len ==> #[trigger] buffer@[i] == 0,
{
}

/// What a read put into the buffer comes out: the bytes that it filled, in their
/// order, and no others. A count beyond the buffer stands for all of it.
pub proof fn law_filled_bytes_come_out(
    fill: RangeFill,
    buffer: Vec<u8>,
    bytes_read: usize,
    result: Result<bytes::Bytes, CasManagerError>,
)
    requires
        call_ensures(RangeFill::filled, (fill, buffer, Ok(bytes_read)), result),
    ensures
        result is Ok,
        bytes_read <= buffer@.len() ==> bytes_content(result->Ok_0).len() == bytes_read,
        bytes_read > buffer@.len() ==> bytes_content(result->Ok_0).len() == buffer@.len(),
        forall|i: int|
            0 <= i < bytes_read && i < buffer@.len() ==> #[trigger] bytes_content(
                result->Ok_0,
            )[i] == buffer@[i],
{
}

/// A range that is read from a file in full is the bytes of the file from its
/// start up to its end, as far as the file goes.
pub proof fn law_range_bytes_are_those_of_the_file<P, L, F>(
    manager: &CasManager<P, L>,
    hash: &BlobHash,
    start: u64,
    end: u64,
    open: RangeOpen,
    file: F,
    opened: Result<(RangeMeasure, F), CasManagerError>,
    content: Seq<u8>,
    stage: Result<RangeStage, CasManagerError>,
    buffer: Vec<u8>,
    result: Result<bytes::Bytes, CasManagerError>,
)
    requires
        start <= end,
        content.len() <= usize::MAX,
        call_ensures(CasManager::<P, L>::read_blob_range, (manager, hash, start, end), Ok(open)),
        call_ensures(RangeOpen::opened::<F>, (open, Ok(file)), opened),
        opened is Ok ==> call_ensures(
            RangeMeasure::measured,
            (opened->Ok_0.0, Ok(content.len() as u64)),
            stage,
        ),
        stage matches Ok(RangeStage::Fill(fill)) ==> {
            &&& buffer@.len() == fill.len
            &&& forall|i: int|
                0 <= i < fill.len ==> #[trigger] buffer@[i] == content[fill.offset + i]
            &&& call_ensures(RangeFill::filled, (fill, buffer, Ok(fill.len)), result)
        },
        stage matches Ok(RangeStage::Done(answer)) ==> result == Ok::<
            bytes::Bytes,
            CasManagerError,
        >(answer),
    ensures
        stage is Ok,
        result is Ok,
        ({
            let bytes = bytes_content(result->Ok_0);
            &&& start >= content.len() ==> bytes.len() == 0
            &&& start < content.len() && end <= content.len() ==> bytes.len() == end - start
            &&& start < content.len() && end > content.len() ==> bytes.len() == content.len()
                - start
            &&& forall|i: int| 0 <= i < bytes.len() ==> #[trigger] bytes[i] == content[start + i]
        }),
{
    let len = content.len() as u64;
    assert(len == content.len());
    law_range_asks_for_its_bytes(manager, hash, start, end, open, file, opened, len, stage);
    if let Ok(RangeStage::Fill(fill)) = stage {
        law_filled_bytes_come_out(fill, buffer, fill.len, result);
    }
}

/// A step of a range read that fails ends it with the step, the file and the
/// reason.
pub proof fn law_failed_range_read_reported<F>(
    open: RangeOpen,
    measure: RangeMeasure,
    fill: RangeFill,
    buffer: Vec<u8>,
    source: IoFailure,
    opened: Result<(RangeMeasure, F), CasManagerError>,
    measured: Result<RangeStage, CasManagerError>,
    filled: Result<bytes::Bytes, CasManagerError>,
)
    requires
        call_ensures(RangeOpen::opened::<F>, (open, Err(source)), opened),
        call_ensures(RangeMeasure::measured, (measure, Err(source)), measured),
        call_ensures(RangeFill::filled, (fill, buffer, Err(source)), filled),
    ensures
        opened == Err::<(RangeMeasure, F), CasManagerError>(
            CasManagerError::FileOperation {
                operation: CasIoOperation::OpenRangeRead,
                path: StorePath::Blob(open.hash),
                source,
            },
        ),
        measured == Err::<RangeStage, CasManagerError>(
            CasManagerError::FileOperation {
                operation: CasIoOperation::ReadMetadata,
                path: StorePath::Blob(measure.hash),
                source,
            },
        ),
        filled == Err::<bytes::Bytes, CasManagerError>(
            CasManagerError::FileOperation {
                operation: CasIoOperation::ReadRange,
                path: StorePath::Blob(fill.hash),
                source,
            },
        ),
{
}

// Commits.

/// A commit moves the staged file to the place of its blob where nothing is
/// there, and discards it where the blob is there. Either way it ends at the
/// place of the blob that it was started for.
pub proof fn law_commit_ends_at_its_blob<P, L>(
    manager: &CasManager<P, L>,
    hash: &BlobHash,
    subdir: CommitSubdir,
    made: Result<CommitCheck, CasManagerError>,
    exists_already: bool,
    placement: CommitPlacement,
    result: Result<StorePath, CasManagerError>,
)
    requires
        call_ensures(CasManager::<P, L>::commit_blob, (manager, hash), subdir),
        call_ensures(CommitSubdir::created, (subdir, Ok(())), made),
        made is Ok ==> call_ensures(
            CommitCheck::checked,
            (made->Ok_0, exists_already),
            placement,
        ),
        placement matches CommitPlacement::Move(step) ==> call_ensures(
            CommitMove::moved,
            (step, Ok(())),
            result,
        ),
        placement matches CommitPlacement::Discard(step) ==> call_ensures(
            CommitDiscard::discarded,
            (step, Ok(())),
            result,
        ),
    ensures
        made is Ok,
        placement is Discard <==> exists_already,
        placement matches CommitPlacement::Move(step) ==> step.hash == *hash,
        result == Ok::<StorePath, CasManagerError>(StorePath::Blob(*hash)),
{
}

/// A step of a commit that fails ends it with the step, the file and the reason.
pub proof fn law_failed_commit_reported(
    subdir: CommitSubdir,
    moving: CommitMove,
    discarding: CommitDiscard,
    source: IoFailure,
    created: Result<CommitCheck, CasManagerError>,
    moved: Result<StorePath, CasManagerError>,
    discarded: Result<StorePath, CasManagerError>,
)
    requires
        call_ensures(CommitSubdir::created, (subdir, Err(source)), created),
        call_ensures(CommitMove::moved, (moving, Err(source)), moved),
        call_ensures(CommitDiscard::discarded, (discarding, Err(source)), discarded),
    ensures
        created == Err::<CommitCheck, CasManagerError>(
            CasManagerError::FileOperation {
                operation: CasIoOperation::CreateSubdir,
                path: StorePath::Blob(subdir.hash),
                source,
            },
        ),
        moved == Err::<StorePath, CasManagerError>(
            CasManagerError::FileOperation {
                operation: CasIoOperation::MoveStaged,
                path: StorePath::Blob(moving.hash),
                source,
            },
        ),
        discarded == Err::<StorePath, CasManagerError>(
            CasManagerError::FileOperation {
                operation: CasIoOperation::RemoveStaged,
                path: StorePath::StagedFile,
                source,
            },
        ),
{
}

// Deletions.

/// A deletion goes on after a file that was removed or was not there. Any other
/// failure ends it, with the file that it was about and the reason.
pub proof fn law_deletion_goes_on(
    pending: PendingRemoval,
    hash: BlobHash,
    outcome: Result<(), IoFailure>,
    result: Result<DeletionStage, CasManagerError>,
)
    requires
        call_ensures(PendingRemoval::hash, (&pending,), hash),
        call_ensures(PendingRemoval::removed, (pending, outcome), result),
    ensures
        outcome is Ok ==> result is Ok,
        outcome matches Err(source) ==> if source.kind == IoErrorKind::NotFound {
            result is Ok
        } else {
            result == Err::<DeletionStage, CasManagerError>(
                CasManagerError::FileOperation {
                    operation: CasIoOperation::RemoveFile,
                    path: StorePath::Blob(hash),
                    source,
                },
            )
        },
{
}

/// Whether `results` are what comes of deleting `hashes`: the first is how the
/// deletion starts, and as long as there is a file to remove, the next is what
/// follows on the outcome of that.
pub open spec fn deletion_results<P, L>(
    manager: &CasManager<P, L>,
    hashes: &[BlobHash],
    outcomes: Seq<Result<(), IoFailure>>,
    results: Seq<Result<DeletionStage, CasManagerError>>,
) -> bool {
    &&& results.len() == outcomes.len() + 1
    &&& results[0] matches Ok(start)
    &&& call_ensures(CasManager::<P, L>::delete_blobs, (manager, hashes), start)
    &&& forall|i: int|
        #![trigger outcomes[i]]
        0 <= i < outcomes.len() ==> (results[i] matches Ok(DeletionStage::Remove(pending))
            ==> call_ensures(PendingRemoval::removed, (pending, outcomes[i]), results[i + 1]))
}

/// Whether an attempt to remove a file lets a deletion go on.
pub open spec fn gone(outcome: Result<(), IoFailure>) -> bool {
    outcome matches Err(source) ==> source.kind == IoErrorKind::NotFound
}

proof fn lemma_deletion_results<P, L>(
    manager: &CasManager<P, L>,
    hashes: &[BlobHash],
    outcomes: Seq<Result<(), IoFailure>>,
    results: Seq<Result<DeletionStage, CasManagerError>>,
    n: int,
)
    requires
        deletion_results(manager, hashes, outcomes, results),
        0 <= n <= outcomes.len(),
        n <= hashes@.len(),
        forall|i: int| 0 <= i < n ==> gone(#[trigger] outcomes[i]),
    ensures
        results[n] is Ok,
        results[n]->Ok_0.is_at(
            hashes@.skip(n),
            removed_blobs(hashes@.take(n), outcomes.take(n)),
        ),
    decreases n,
{
    if n == 0 {
        assert(hashes@.skip(0) =~= hashes@);
    } else {
        lemma_deletion_results(manager, hashes, outcomes, results, n - 1);
        assert(gone(outcomes[n - 1]));
        assert(hashes@.skip(n - 1).skip(1) =~= hashes@.skip(n));
        assert(hashes@.take(n).drop_last() =~= hashes@.take(n - 1));
        assert(outcomes.take(n).drop_last() =~= outcomes.take(n - 1));
        assert(hashes@.skip(n - 1)[0] == hashes@.take(n).last());
        assert(outcomes.take(n).last() == outcomes[n - 1]);
    }
}

/// A deletion of any number of blobs in which every file is removed or was not
/// there tries them all, in their order, and ends with the blobs whose files were
/// removed.
pub proof fn law_deletion_ends_when_all_are_tried<P, L>(
    manager: &CasManager<P, L>,
    hashes: &[BlobHash],
    outcomes: Seq<Result<(), IoFailure>>,
    results: Seq<Result<DeletionStage, CasManagerError>>,
    i: int,
    pending: PendingRemoval,
    hash: BlobHash,
)
    requires
        deletion_results(manager, hashes, outcomes, results),
        outcomes.len() == hashes@.len(),
        forall|k: int| 0 <= k < outcomes.len() ==> gone(#[trigger] outcomes[k]),
    ensures
        results.last() matches Ok(DeletionStage::Done(deleted)),
        results.last()->Ok_0->Done_0@ == removed_blobs(hashes@, outcomes),
        0 <= i < outcomes.len() ==> results[i] matches Ok(DeletionStage::Remove(_)),
        0 <= i < outcomes.len() && results[i] == Ok::<DeletionStage, CasManagerError>(
            DeletionStage::Remove(pending),
        ) && call_ensures(PendingRemoval::hash, (&pending,), hash) ==> hash == hashes@[i],
{
    let n = outcomes.len() as int;
    lemma_deletion_results(manager, hashes, outcomes, results, n);
    assert(hashes@.take(n) =~= hashes@);
    assert(outcomes.take(n) =~= outcomes);
    if 0 <= i < n {
        lemma_deletion_results(manager, hashes, outcomes, results, i);
    }
}

/// A deletion in which every file is removed ends with all of its blobs.
pub proof fn law_deletion_of_present_files_deletes_all<P, L>(
    manager: &CasManager<P, L>,
    hashes: &[BlobHash],
    outcomes: Seq<Result<(), IoFailure>>,
    results: Seq<Result<DeletionStage, CasManagerError>>,
)
    requires
        deletion_results(manager, hashes, outcomes, results),
        outcomes.len() == hashes@.len(),
        forall|k: int| 0 <= k < outcomes.len() ==> (#[trigger] outcomes[k]) is Ok,
    ensures
        results.last() matches Ok(DeletionStage::Done(deleted)),
        results.last()->Ok_0->Done_0@ == hashes@,
{
    assert forall|k: int| 0 <= k < outcomes.len() implies gone(#[trigger] outcomes[k]) by {}
    law_deletion_ends_when_all_are_tried(
        manager,
        hashes,
        outcomes,
        results,
        -1,
        arbitrary(),
        arbitrary(),
    );
    lemma_all_removed(hashes@, outcomes);
}

proof fn lemma_all_removed(hashes: Seq<BlobHash>, outcomes: Seq<Result<(), IoFailure>>)
    requires
        hashes.len() == outcomes.len(),
        forall|k: int| 0 <= k < outcomes.len() ==> (#[trigger] outcomes[k]) is Ok,
    ensures
        removed_blobs(hashes, outcomes) == hashes,
    decreases hashes.len(),
{
    if hashes.len() > 0 {
        let earlier = outcomes.drop_last();
        assert forall|k: int| 0 <= k < earlier.len() implies (#[trigger] earlier[k]) is Ok by {
            assert(outcomes[k] is Ok);
        }
        lemma_all_removed(hashes.drop_last(), earlier);
        assert(outcomes[outcomes.len() - 1] is Ok);
        assert(hashes.drop_last().push(hashes.last()) =~= hashes);
    } else {
        assert(hashes =~= Seq::empty());
    }
}

/// The first failure other than that a file is not there ends a deletion, with
/// the file that it was about and the reason.
pub proof fn law_failed_deletion_reported<P, L>(
    manager: &CasManager<P, L>,
    hashes: &[BlobHash],
    outcomes: Seq<Result<(), IoFailure>>,
    results: Seq<Result<DeletionStage, CasManagerError>>,
    n: int,
    source: IoFailure,
)
    requires
        deletion_results(manager, hashes, outcomes, results),
        0 <= n < outcomes.len(),
        n < hashes@.len(),
        forall|k: int| 0 <= k < n ==> gone(#[trigger] outcomes[k]),
        outcomes[n] == Err::<(), IoFailure>(source),
        source.kind != IoErrorKind::NotFound,
    ensures
        results[n + 1] == Err::<DeletionStage, CasManagerError>(
            CasManagerError::FileOperation {
                operation: CasIoOperation::RemoveFile,
                path: StorePath::Blob(hashes@[n]),
                source,
            },
        ),
{
    lemma_deletion_results(manager, hashes, outcomes, results, n);
}

/// The blobs that a deletion ends with are those of which some attempt removed
/// the file, no more often than attempts did.
pub proof fn law_deleted_blobs_were_removed(
    hashes: Seq<BlobHash>,
    outcomes: Seq<Result<(), IoFailure>>,
    hash: BlobHash,
)
    requires
        hashes.len() == outcomes.len(),
    ensures
        removed_blobs(hashes, outcomes).contains(hash) <==> exists|i: int|
            0 <= i < hashes.len() && (#[trigger] outcomes[i]) is Ok && hashes[i] == hash,
        removed_blobs(hashes, outcomes).len() <= hashes.len(),
    decreases hashes.len(),
{
    if hashes.len() > 0 {
        let earlier_hashes = hashes.drop_last();
        let earlier_outcomes = outcomes.drop_last();
        let earlier = removed_blobs(earlier_hashes, earlier_outcomes);
        let last: int = hashes.len() - 1;
        law_deleted_blobs_were_removed(earlier_hashes, earlier_outcomes, hash);
        assert(earlier.push(hashes.last()).contains(hash) <==> earlier.contains(hash)
            || hashes.last() == hash) by {
            broadcast use vstd::seq_lib::group_seq_properties;

        }
        if earlier.contains(hash) {
            let i = choose|i: int|
                0 <= i < earlier_hashes.len() && (#[trigger] earlier_outcomes[i]) is Ok
                    && earlier_hashes[i] == hash;
            assert(outcomes[i] is Ok && hashes[i] == hash);
        }
        if exists|i: int|
            0 <= i < hashes.len() && (#[trigger] outcomes[i]) is Ok && hashes[i] == hash {
            let i = choose|i: int|
                0 <= i < hashes.len() && (#[trigger] outcomes[i]) is Ok && hashes[i] == hash;
            if i < last {
                assert(earlier_outcomes[i] is Ok && earlier_hashes[i] == hash);
            }
        }
        assert(outcomes[last] == outcomes.last());
    }
}

} // verus!
