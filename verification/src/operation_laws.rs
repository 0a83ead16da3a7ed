//! What the operations of the store answer and change, in terms of each other.

use std::cmp::Ordering;
use std::collections::BTreeMap;
use std::collections::BTreeSet;

use vstd::prelude::*;
use vstd::std_specs::cmp::OrdSpec;

use crate::blob_bytes::bytes_content;
use crate::cas_manager::{CasManager, CasManagerError};
use crate::digest::blake3_digest;
use crate::index::{
    in_range, lawful_key, lemma_ascending_keys_distinct, Index, IndexError, KeyBound,
};
use crate::order_laws::{
    law_range_end, law_range_ends_count_apart, law_range_start, lemma_key_order,
    smaller_where_they_differ,
};
use crate::store::{
    blob_result, calculate_blob_hash, CasInner, LibError, LibIoOperation, OpStage, OpenCasDir, OpenIndex,
    OpenStagingDir, PendingDeletion, PendingOp, SyncFlush, SyncSend, SyncStage,
};
use crate::transaction::{
    CommitBlob, CommitHandle, CommitSync, StagingCreate, StagingFileOp, StagingReopen, Transaction,
    TransactionError,
};
use crate::types::{
    lemma_hash_extensional, BlobHash, IoErrorKind, IoFailure, StorePath, SyncMode, WalOp,
};

verus! {

// Hashes.

/// A hash has the bytes that it was made from.
pub proof fn law_hash_keeps_its_bytes(bytes: [u8; 32], hash: BlobHash, back: &[u8; 32])
    requires
        call_ensures(BlobHash::from_bytes, (bytes,), hash),
        call_ensures(BlobHash::as_bytes, (&hash,), back),
    ensures
        hash.0 == bytes,
        *back == bytes,
{
    assert(*back =~= bytes);
}

/// Two hashes are found equal exactly when each of their bytes is.
pub proof fn law_hashes_are_equal_by_their_bytes(a: &BlobHash, b: &BlobHash, equal: bool)
    requires
        call_ensures(BlobHash::eq, (a, b), equal),
    ensures
        equal <==> forall|i: int| 0 <= i < 32 ==> #[trigger] a.0[i] == b.0[i],
{
    if forall|i: int| 0 <= i < 32 ==> #[trigger] a.0[i] == b.0[i] {
        assert(a.0 =~= b.0);
    }
}

/// The hash of a blob is the BLAKE3 digest of its content, byte for byte.
pub proof fn law_blob_hash_is_the_digest(content: &[u8], hash: BlobHash)
    requires
        call_ensures(calculate_blob_hash, (content,), hash),
    ensures
        hash.0@ == blake3_digest(content@),
{
}

// The index.

/// A new index has no key.
pub proof fn law_new_index_is_empty<K: Ord + Clone>(
    index: Index<K>,
    key: &K,
    found: Option<BlobHash>,
)
    requires
        call_ensures(Index::<K>::new, (), index),
        call_ensures(Index::<K>::get_hash_for_key, (&index, key), found),
    ensures
        found is None,
{
}

/// The ways to ask an index what it has agree: to look a key up, to ask for it,
/// to demand it, to list the keys, the blobs or all of it.
pub proof fn law_index_answers_agree<K: Ord + Clone>(
    index: &Index<K>,
    key: &K,
    hash: BlobHash,
    found: Option<BlobHash>,
    contains: bool,
    required: Result<BlobHash, IndexError<K>>,
    keys: BTreeSet<K>,
    snapshot: BTreeMap<K, BlobHash>,
    blobs: Vec<BlobHash>,
)
    requires
        call_ensures(Index::<K>::get_hash_for_key, (index, key), found),
        call_ensures(Index::<K>::contains_key, (index, key), contains),
        call_ensures(Index::<K>::require_hash_for_key, (index, key), required),
        call_ensures(Index::<K>::known_keys, (index,), keys),
        call_ensures(Index::<K>::index_snapshot, (index,), snapshot),
        call_ensures(Index::<K>::known_blobs, (index,), blobs),
    ensures
        contains == found is Some,
        keys@.contains(*key) == contains,
        snapshot@.contains_key(*key) == contains,
        match found {
            Some(blob) => {
                &&& required == Ok::<BlobHash, IndexError<K>>(blob)
                &&& snapshot@[*key] == blob
                &&& blobs@.contains(blob)
            },
            None => required == Err::<BlobHash, IndexError<K>>(
                IndexError::KeyNotFound { key: *key },
            ),
        },
        blobs@.contains(hash) <==> exists|k: K| #[trigger]
            snapshot@.contains_key(k) && snapshot@[k] == hash,
{
    let map = snapshot@;
    assert(blobs@.to_set() == map.values());
    assert(blobs@.to_set().contains(hash) == blobs@.contains(hash));
    if blobs@.contains(hash) {
        assert(map.contains_value(hash));
        let k = choose|k: K| #[trigger] map.dom().contains(k) && map[k] == hash;
        assert(map.contains_key(k));
    }
    if let Some(blob) = found {
        assert(map.dom().contains(*key));
        assert(map.contains_value(blob));
        assert(blobs@.to_set().contains(blob));
    }
}

/// A put that is logged gives its key the blob, and every other key keeps what it
/// had.
pub proof fn law_index_put<K: Ord + Clone>(
    index: &mut Index<K>,
    key: K,
    hash: BlobHash,
    result: Result<Vec<BlobHash>, IndexError<K>>,
    other: &K,
    before: Option<BlobHash>,
    after: Option<BlobHash>,
)
    requires
        call_ensures(
            Index::<K>::apply_wal_op,
            (index, &WalOp::Put { key, hash }, Ok(())),
            result,
        ),
        call_ensures(Index::<K>::get_hash_for_key, (&*old(index), other), before),
        call_ensures(Index::<K>::get_hash_for_key, (&*final(index), other), after),
    ensures
        result is Ok,
        *other == key ==> after == Some(hash),
        *other != key ==> after == before,
{
}

/// A removal that is logged takes its keys away, and every other key keeps what
/// it had.
pub proof fn law_index_remove<K: Ord + Clone>(
    index: &mut Index<K>,
    keys: Vec<K>,
    result: Result<Vec<BlobHash>, IndexError<K>>,
    other: &K,
    before: Option<BlobHash>,
    after: Option<BlobHash>,
)
    requires
        call_ensures(
            Index::<K>::apply_wal_op,
            (index, &WalOp::Remove { keys }, Ok(())),
            result,
        ),
        call_ensures(Index::<K>::get_hash_for_key, (&*old(index), other), before),
        call_ensures(Index::<K>::get_hash_for_key, (&*final(index), other), after),
    ensures
        result is Ok,
        keys@.contains(*other) ==> after is None,
        !keys@.contains(*other) ==> after == before,
{
}

/// An operation that could not be logged is refused with the reason, and no key
/// changes.
pub proof fn law_unlogged_op_changes_nothing<K: Ord + Clone>(
    index: &mut Index<K>,
    op: &WalOp<K>,
    error: IndexError<K>,
    result: Result<Vec<BlobHash>, IndexError<K>>,
    key: &K,
    before: Option<BlobHash>,
    after: Option<BlobHash>,
)
    requires
        call_ensures(Index::<K>::apply_wal_op, (index, op, Err(error)), result),
        call_ensures(Index::<K>::get_hash_for_key, (&*old(index), key), before),
        call_ensures(Index::<K>::get_hash_for_key, (&*final(index), key), after),
    ensures
        result == Err::<Vec<BlobHash>, IndexError<K>>(error),
        after == before,
{
}

/// What a logged operation hands back to delete are exactly the blobs that some
/// key had before and none has after, each once and in ascending order.
pub proof fn law_released_blobs_have_no_key<K: Ord + Clone>(
    index: &mut Index<K>,
    op: &WalOp<K>,
    result: Result<Vec<BlobHash>, IndexError<K>>,
    before: BTreeMap<K, BlobHash>,
    after: BTreeMap<K, BlobHash>,
    hash: BlobHash,
    i: int,
    j: int,
)
    requires
        call_ensures(Index::<K>::apply_wal_op, (index, op, Ok(())), result),
        call_ensures(Index::<K>::index_snapshot, (&*old(index),), before),
        call_ensures(Index::<K>::index_snapshot, (&*final(index),), after),
    ensures
        result is Ok,
        result->Ok_0@.contains(hash) <==> (exists|k: K| #[trigger]
            before@.contains_key(k) && before@[k] == hash) && !(exists|k: K| #[trigger]
            after@.contains_key(k) && after@[k] == hash),
        0 <= i < j < result->Ok_0@.len() ==> smaller_where_they_differ(
            result->Ok_0@[i],
            result->Ok_0@[j],
        ),
{
    let blobs = result->Ok_0@;
    let (a, b) = (before@, after@);
    crate::order_laws::law_listed_hashes_ascend(blobs, a.values().difference(b.values()));
    lemma_values(a, hash);
    lemma_values(b, hash);
    if 0 <= i < j < blobs.len() {
        let (x, y) = (blobs[i], blobs[j]);
        assert(smaller_where_they_differ(x, y));
    }
}

proof fn lemma_values<K>(map: Map<K, BlobHash>, hash: BlobHash)
    ensures
        map.values().contains(hash) <==> exists|k: K| #[trigger]
            map.contains_key(k) && map[k] == hash,
{
    if map.values().contains(hash) {
        assert(map.contains_value(hash));
        let k = choose|k: K| #[trigger] map.dom().contains(k) && map[k] == hash;
        assert(map.contains_key(k));
    }
    if exists|k: K| #[trigger] map.contains_key(k) && map[k] == hash {
        let k = choose|k: K| #[trigger] map.contains_key(k) && map[k] == hash;
        assert(map.dom().contains(k));
        assert(map.contains_value(hash));
    }
}

// Opening a store.

/// A store that opens has the keys of the index that was loaded, and flushes new
/// blobs in the mode that it was opened with.
pub proof fn law_opened_store_has_its_index<K: Ord + Clone, W, F>(
    sync_mode: SyncMode,
    start: OpenStagingDir,
    staged: Result<OpenCasDir, LibError<K>>,
    made: Result<OpenIndex, LibError<K>>,
    index: Index<K>,
    log: W,
    result: Result<(CasInner<K>, W), LibError<K>>,
    key: &K,
    in_index: Option<BlobHash>,
    in_store: Option<BlobHash>,
    file: F,
    stage: SyncStage<F>,
)
    requires
        call_ensures(CasInner::<K>::new, (sync_mode,), start),
        call_ensures(OpenStagingDir::created::<K>, (start, Ok(())), staged),
        staged is Ok ==> call_ensures(OpenCasDir::created::<K>, (staged->Ok_0, Ok(())), made),
        made is Ok ==> call_ensures(
            OpenIndex::loaded::<K, W>,
            (made->Ok_0, Ok((index, log))),
            result,
        ),
        call_ensures(Index::<K>::get_hash_for_key, (&index, key), in_index),
        result is Ok ==> call_ensures(
            CasInner::<K>::get_hash_for_key,
            (&result->Ok_0.0, key),
            in_store,
        ),
        result is Ok ==> call_ensures(
            CasInner::<K>::fdatasync::<F>,
            (&result->Ok_0.0, file),
            stage,
        ),
    ensures
        staged is Ok,
        made is Ok,
        result is Ok,
        result->Ok_0.1 == log,
        in_store == in_index,
        sync_mode == SyncMode::Sync ==> (stage matches SyncStage::Flush(flushed, _) && flushed
            == file),
        sync_mode == SyncMode::Async ==> (stage matches SyncStage::Send(sent, _) && sent == file),
{
}

/// A step of opening a store that fails ends it with the step and the reason.
pub proof fn law_failed_opening_reported<K: Ord + Clone, W>(
    staging: OpenStagingDir,
    cas: OpenCasDir,
    index: OpenIndex,
    source: IoFailure,
    error: IndexError<K>,
    staged: Result<OpenCasDir, LibError<K>>,
    made: Result<OpenIndex, LibError<K>>,
    loaded: Result<(CasInner<K>, W), LibError<K>>,
)
    requires
        call_ensures(OpenStagingDir::created::<K>, (staging, Err(source)), staged),
        call_ensures(OpenCasDir::created::<K>, (cas, Err(source)), made),
        call_ensures(OpenIndex::loaded::<K, W>, (index, Err(error)), loaded),
    ensures
        staged == Err::<OpenCasDir, LibError<K>>(
            LibError::Io {
                operation: LibIoOperation::CreateStagingDir,
                path: Some(StorePath::StagingRoot),
                source,
            },
        ),
        made == Err::<OpenIndex, LibError<K>>(
            LibError::Io {
                operation: LibIoOperation::CreateCasDir,
                path: Some(StorePath::CasRoot),
                source,
            },
        ),
        loaded == Err::<(CasInner<K>, W), LibError<K>>(LibError::Index(error)),
{
}

// Asking a store.

/// The ways to ask a store what it has agree.
pub proof fn law_store_answers_agree<K: Ord + Clone>(
    store: &CasInner<K>,
    key: &K,
    hash: BlobHash,
    found: Option<BlobHash>,
    contains: bool,
    keys: BTreeSet<K>,
    snapshot: BTreeMap<K, BlobHash>,
    blobs: Vec<BlobHash>,
    i: int,
    j: int,
)
    requires
        call_ensures(CasInner::<K>::get_hash_for_key, (store, key), found),
        call_ensures(CasInner::<K>::contains_key, (store, key), contains),
        call_ensures(CasInner::<K>::known_keys, (store,), keys),
        call_ensures(CasInner::<K>::index_snapshot, (store,), snapshot),
        call_ensures(CasInner::<K>::known_blobs, (store,), blobs),
    ensures
        contains == found is Some,
        keys@.contains(*key) == contains,
        snapshot@.contains_key(*key) == contains,
        found matches Some(blob) ==> snapshot@[*key] == blob,
        blobs@.contains(hash) <==> exists|k: K| #[trigger]
            snapshot@.contains_key(k) && snapshot@[k] == hash,
        0 <= i < j < blobs@.len() ==> smaller_where_they_differ(blobs@[i], blobs@[j]),
{
    lemma_values(snapshot@, hash);
    crate::order_laws::law_listed_hashes_ascend(blobs@, snapshot@.values());
    if 0 <= i < j < blobs@.len() {
        let (x, y) = (blobs@[i], blobs@[j]);
        assert(smaller_where_they_differ(x, y));
    }
}

/// What comes of an attempt on the file of a blob: what was got comes out, and an
/// error comes out as it is, of whatever kind, unless it says that the file is
/// not there. Only that becomes no answer, or an error that names key and blob.
pub proof fn law_only_a_missing_file_is_no_answer<K: Ord + Clone, T>(
    store: &CasInner<K>,
    key: &K,
    hash: BlobHash,
    return_err_on_missing: bool,
    outcome: Result<T, CasManagerError>,
    result: Result<Option<T>, LibError<K>>,
)
    requires
        call_ensures(
            CasInner::<K>::settle_blob_result::<T>,
            (store, key, hash, return_err_on_missing, outcome),
            result,
        ),
    ensures
        outcome matches Ok(value) ==> result == Ok::<Option<T>, LibError<K>>(Some(value)),
        outcome matches Err(CasManagerError::FileOperation { operation, path, source }) ==> result
            == (if source.kind != IoErrorKind::NotFound {
            Err::<Option<T>, LibError<K>>(LibError::Cas(outcome->Err_0))
        } else if return_err_on_missing {
            Err(LibError::BlobDataMissing { key: *key, hash })
        } else {
            Ok(None)
        }),
        outcome matches Err(CasManagerError::InvalidRangeStartEnd { start, end }) ==> result
            == Err::<Option<T>, LibError<K>>(
            LibError::Cas(CasManagerError::InvalidRangeStartEnd { start, end }),
        ),
        outcome matches Err(CasManagerError::InvalidCalculatedRangeStartEnd { start, end })
            ==> result == Err::<Option<T>, LibError<K>>(
            LibError::Cas(CasManagerError::InvalidCalculatedRangeStartEnd { start, end }),
        ),
{
}

/// Whether `result` is the answer to a question about a blob of a key: what was
/// got, nothing where the file was not there, or the error.
pub open spec fn answers<K, T>(
    outcome: Result<T, CasManagerError>,
    result: Result<Option<T>, LibError<K>>,
) -> bool {
    match outcome {
        Ok(value) => result == Ok::<Option<T>, LibError<K>>(Some(value)),
        Err(CasManagerError::FileOperation { operation, path, source }) => if source.kind
            == IoErrorKind::NotFound {
            result == Ok::<Option<T>, LibError<K>>(None)
        } else {
            result == Err::<Option<T>, LibError<K>>(LibError::Cas(outcome->Err_0))
        },
        Err(error) => result == Err::<Option<T>, LibError<K>>(LibError::Cas(error)),
    }
}

/// A key that the store has is read from the blob that it maps to, and the
/// outcome is the answer; a key that it has not is answered with nothing.
pub proof fn law_get_reads_the_blob_of_its_key<
    K: Ord + Clone,
    F: FnOnce(&BlobHash) -> Result<bytes::Bytes, CasManagerError>,
>(
    store: &CasInner<K>,
    key: &K,
    found: Option<BlobHash>,
    read_blob: F,
    outcome: Result<bytes::Bytes, CasManagerError>,
    result: Result<Option<bytes::Bytes>, LibError<K>>,
)
    requires
        call_ensures(CasInner::<K>::get_hash_for_key, (store, key), found),
        found matches Some(hash) ==> forall|o: Result<bytes::Bytes, CasManagerError>| #[trigger]
            call_ensures(read_blob, (&hash,), o) ==> o == outcome,
        call_ensures(CasInner::<K>::get::<F>, (store, key, read_blob), result),
    ensures
        found is None ==> result == Ok::<Option<bytes::Bytes>, LibError<K>>(None),
        found is Some ==> answers(outcome, result),
{
    if let Some(hash) = found {
        let o = choose|o: Result<bytes::Bytes, CasManagerError>| #[trigger]
            call_ensures(read_blob, (&store@[*key],), o) && result == blob_result(
                *key,
                store@[*key],
                false,
                o,
            );
        assert(call_ensures(read_blob, (&hash,), o));
    }
}

/// The size of a key that the store has is that of the blob that it maps to; a
/// key that it has not is answered with nothing.
pub proof fn law_size_measures_the_blob_of_its_key<
    K: Ord + Clone,
    F: FnOnce(&BlobHash) -> Result<u64, CasManagerError>,
>(
    store: &CasInner<K>,
    key: &K,
    found: Option<BlobHash>,
    blob_size: F,
    outcome: Result<u64, CasManagerError>,
    result: Result<Option<u64>, LibError<K>>,
)
    requires
        call_ensures(CasInner::<K>::get_hash_for_key, (store, key), found),
        found matches Some(hash) ==> forall|o: Result<u64, CasManagerError>| #[trigger]
            call_ensures(blob_size, (&hash,), o) ==> o == outcome,
        call_ensures(CasInner::<K>::size::<F>, (store, key, blob_size), result),
    ensures
        found is None ==> result == Ok::<Option<u64>, LibError<K>>(None),
        found is Some ==> answers(outcome, result),
{
    if let Some(hash) = found {
        let o = choose|o: Result<u64, CasManagerError>| #[trigger]
            call_ensures(blob_size, (&store@[*key],), o) && result == blob_result(
                *key,
                store@[*key],
                false,
                o,
            );
        assert(call_ensures(blob_size, (&hash,), o));
    }
}

/// A range of a key that the store has is read from the blob that it maps to,
/// with the same start and end; a key that it has not is answered with nothing.
pub proof fn law_get_range_reads_the_blob_of_its_key<
    K: Ord + Clone,
    F: FnOnce(&BlobHash, u64, u64) -> Result<bytes::Bytes, CasManagerError>,
>(
    store: &CasInner<K>,
    key: &K,
    start: u64,
    end: u64,
    found: Option<BlobHash>,
    read_range: F,
    outcome: Result<bytes::Bytes, CasManagerError>,
    result: Result<Option<bytes::Bytes>, LibError<K>>,
)
    requires
        call_ensures(CasInner::<K>::get_hash_for_key, (store, key), found),
        found matches Some(hash) ==> forall|o: Result<bytes::Bytes, CasManagerError>| #[trigger]
            call_ensures(read_range, (&hash, start, end), o) ==> o == outcome,
        call_ensures(CasInner::<K>::get_range::<F>, (store, key, start, end, read_range), result),
    ensures
        found is None ==> result == Ok::<Option<bytes::Bytes>, LibError<K>>(None),
        found is Some ==> answers(outcome, result),
{
}

/// A range that starts after its end is refused for every key that the store has,
/// and the error gives both ends.
pub proof fn law_backward_range_of_a_key_refused<
    K: Ord + Clone,
    F: FnOnce(&BlobHash, u64, u64) -> Result<bytes::Bytes, CasManagerError>,
>(
    store: &CasInner<K>,
    key: &K,
    start: u64,
    end: u64,
    read_range: F,
    result: Result<Option<bytes::Bytes>, LibError<K>>,
)
    requires
        start > end,
        call_ensures(CasInner::<K>::contains_key, (store, key), true),
        forall|hash: BlobHash, o: Result<bytes::Bytes, CasManagerError>| #[trigger]
            call_ensures(read_range, (&hash, start, end), o) ==> o == Err::<
                bytes::Bytes,
                CasManagerError,
            >(CasManagerError::InvalidRangeStartEnd { start, end }),
        call_ensures(CasInner::<K>::get_range::<F>, (store, key, start, end, read_range), result),
    ensures
        result == Err::<Option<bytes::Bytes>, LibError<K>>(
            LibError::Cas(CasManagerError::InvalidRangeStartEnd { start, end }),
        ),
{
}

/// A reader of a key that the store has is that of the blob that it maps to, and
/// any error, also that the file is not there, comes out as it is; a key that it
/// has not is refused by name.
pub proof fn law_raw_bufreader_opens_the_blob_of_its_key<
    K: Ord + Clone,
    R,
    F: FnOnce(&BlobHash) -> Result<R, CasManagerError>,
>(
    store: &CasInner<K>,
    key: &K,
    found: Option<BlobHash>,
    open: F,
    outcome: Result<R, CasManagerError>,
    result: Result<R, LibError<K>>,
)
    requires
        call_ensures(CasInner::<K>::get_hash_for_key, (store, key), found),
        found matches Some(hash) ==> forall|o: Result<R, CasManagerError>| #[trigger]
            call_ensures(open, (&hash,), o) ==> o == outcome,
        call_ensures(CasInner::<K>::raw_bufreader::<R, F>, (store, key, open), result),
    ensures
        found is None ==> result == Err::<R, LibError<K>>(
            LibError::Index(IndexError::KeyNotFound { key: *key }),
        ),
        found is Some ==> (outcome matches Ok(reader) ==> result == Ok::<R, LibError<K>>(reader)),
        found is Some ==> (outcome matches Err(error) ==> result == Err::<R, LibError<K>>(
            LibError::Cas(error),
        )),
{
    if let Some(hash) = found {
        let o = choose|o: Result<R, CasManagerError>| #[trigger]
            call_ensures(open, (&store@[*key],), o) && result == (match o {
                Ok(reader) => Ok::<R, LibError<K>>(reader),
                Err(error) => Err(LibError::Cas(error)),
            });
        assert(call_ensures(open, (&hash,), o));
    }
}

/// A question about a blob is put to the blob that the key maps to. That there is
/// no such key, or no such file, is an error where errors are asked for, and no
/// answer otherwise.
pub proof fn law_question_goes_to_the_blob_of_its_key<
    K: Ord + Clone,
    T,
    F: FnOnce(&BlobHash) -> Result<T, CasManagerError>,
>(
    store: &CasInner<K>,
    key: &K,
    return_err_on_missing: bool,
    found: Option<BlobHash>,
    f: F,
    outcome: Result<T, CasManagerError>,
    result: Result<Option<T>, LibError<K>>,
)
    requires
        call_ensures(CasInner::<K>::get_hash_for_key, (store, key), found),
        found matches Some(hash) ==> forall|o: Result<T, CasManagerError>| #[trigger]
            call_ensures(f, (&hash,), o) ==> o == outcome,
        call_ensures(
            CasInner::<K>::with_blob_hash::<T, F>,
            (store, key, return_err_on_missing, f),
            result,
        ),
    ensures
        found is None && return_err_on_missing ==> result == Err::<Option<T>, LibError<K>>(
            LibError::Index(IndexError::KeyNotFound { key: *key }),
        ),
        found is None && !return_err_on_missing ==> result == Ok::<Option<T>, LibError<K>>(None),
        found is Some && !return_err_on_missing ==> answers(outcome, result),
        found is Some && return_err_on_missing ==> match outcome {
            Err(CasManagerError::FileOperation { operation, path, source }) => if source.kind
                == IoErrorKind::NotFound {
                result == Err::<Option<T>, LibError<K>>(
                    LibError::BlobDataMissing { key: *key, hash: found->0 },
                )
            } else {
                answers(outcome, result)
            },
            _ => answers(outcome, result),
        },
{
}

// Changing a store.

/// The keys that a stage of a removal removes.
pub open spec fn removes<K, A>(stage: OpStage<K, A>, key: K) -> bool {
    stage matches OpStage::Log(pending) && (pending.op matches WalOp::Remove { keys }
        && keys@.contains(key))
}

/// A key that the store has is removed, it alone, and the answer is that it was
/// there; for a key that it has not, nothing is to be done and the answer is that
/// it was not.
pub proof fn law_remove_removes_its_key<K: Ord + Clone>(
    store: &CasInner<K>,
    key: &K,
    contains: bool,
    stage: OpStage<K, bool>,
    other: K,
)
    requires
        call_ensures(CasInner::<K>::contains_key, (store, key), contains),
        call_ensures(CasInner::<K>::remove, (store, key), stage),
    ensures
        removes(stage, other) <==> contains && other == *key,
        match stage {
            OpStage::Log(pending) => {
                &&& contains
                &&& pending.answer
                &&& pending.op is Remove
                &&& pending.op->Remove_keys@.len() == 1
            },
            OpStage::Done(answer) => !contains && !answer,
        },
{
    if contains {
        let keys = stage->Log_0.op->Remove_keys@;
        assert(keys == seq![*key]);
        assert(keys[0] == *key);
    }
}

/// A removal of a range removes what both the removal from its start on and that
/// up to its end remove. The first of these has the known keys that are greater
/// than the start, and the start itself where it is included; the second those
/// that are smaller than the end, and the end itself where it is included.
pub proof fn law_remove_range_ends<K: Ord + Clone>(
    store: &CasInner<K>,
    start: &KeyBound<K>,
    end: &KeyBound<K>,
    stage: OpStage<K, usize>,
    from_start: OpStage<K, usize>,
    to_end: OpStage<K, usize>,
    key: K,
    contains: bool,
)
    requires
        lawful_key::<K>(),
        call_ensures(CasInner::<K>::remove_range, (store, start, end), stage),
        call_ensures(
            CasInner::<K>::remove_range,
            (store, start, &KeyBound::Unbounded),
            from_start,
        ),
        call_ensures(CasInner::<K>::remove_range, (store, &KeyBound::Unbounded, end), to_end),
        call_ensures(CasInner::<K>::contains_key, (store, &key), contains),
    ensures
        removes(stage, key) <==> removes(from_start, key) && removes(to_end, key),
        removes(from_start, key) <==> contains && (match *start {
            KeyBound::Included(bound) => key == bound || bound.cmp_spec(&key) == Ordering::Less,
            KeyBound::Excluded(bound) => bound.cmp_spec(&key) == Ordering::Less,
            KeyBound::Unbounded => true,
        }),
        removes(to_end, key) <==> contains && (match *end {
            KeyBound::Included(bound) => key == bound || key.cmp_spec(&bound) == Ordering::Less,
            KeyBound::Excluded(bound) => key.cmp_spec(&bound) == Ordering::Less,
            KeyBound::Unbounded => true,
        }),
{
    law_range_ends_count_apart(key, *start, *end);
    law_range_ends_count_apart(key, *start, KeyBound::Unbounded);
    law_range_ends_count_apart(key, KeyBound::Unbounded, *end);
    match *start {
        KeyBound::Included(bound) => law_range_start(key, bound),
        KeyBound::Excluded(bound) => law_range_start(key, bound),
        KeyBound::Unbounded => {},
    }
    match *end {
        KeyBound::Included(bound) => law_range_end(key, bound),
        KeyBound::Excluded(bound) => law_range_end(key, bound),
        KeyBound::Unbounded => {},
    }
    lemma_range_stage(store, start, end, stage, key);
    lemma_range_stage(store, start, &KeyBound::Unbounded, from_start, key);
    lemma_range_stage(store, &KeyBound::Unbounded, end, to_end, key);
}

proof fn lemma_range_stage<K: Ord + Clone>(
    store: &CasInner<K>,
    start: &KeyBound<K>,
    end: &KeyBound<K>,
    stage: OpStage<K, usize>,
    key: K,
)
    requires
        call_ensures(CasInner::<K>::remove_range, (store, start, end), stage),
    ensures
        removes(stage, key) <==> store@.contains_key(key) && in_range(key, *start, *end),
{
    if let OpStage::Log(pending) = stage {
        let keys = pending.op->Remove_keys@;
        assert(keys.contains(key) <==> store@.contains_key(key) && in_range(key, *start, *end));
    } else if store@.contains_key(key) {
        assert(!in_range(key, *start, *end));
    }
}

/// The answer to a removal of a range is the number of keys that it removes: they
/// are all different, in ascending order and known. Where it removes none, there
/// is nothing to log.
pub proof fn law_remove_range_answers_the_number<K: Ord + Clone>(
    store: &CasInner<K>,
    start: &KeyBound<K>,
    end: &KeyBound<K>,
    stage: OpStage<K, usize>,
    key: K,
)
    requires
        lawful_key::<K>(),
        call_ensures(CasInner::<K>::remove_range, (store, start, end), stage),
    ensures
        stage matches OpStage::Done(answer) ==> answer == 0 && !removes(stage, key),
        stage matches OpStage::Log(pending) ==> {
            &&& pending.op is Remove
            &&& pending.answer == pending.op->Remove_keys@.len()
            &&& pending.answer > 0
            &&& pending.op->Remove_keys@.no_duplicates()
            &&& forall|i: int, j: int|
                #![trigger pending.op->Remove_keys@[i], pending.op->Remove_keys@[j]]
                0 <= i < j < pending.answer ==> pending.op->Remove_keys@[i].cmp_spec(
                    &pending.op->Remove_keys@[j],
                ) == Ordering::Less
        },
        removes(stage, key) ==> store@.contains_key(key),
{
    lemma_range_stage(store, start, end, stage, key);
    if let OpStage::Log(pending) = stage {
        lemma_ascending_keys_distinct(pending.op->Remove_keys@);
    }
}

/// Once the removal of a range is logged, no key is left that lies between its
/// ends, the keys that do not are as they were, and as many are gone as the
/// answer says.
pub proof fn law_removed_range_is_gone<K: Ord + Clone>(
    store: &mut CasInner<K>,
    start: &KeyBound<K>,
    end: &KeyBound<K>,
    pending: PendingOp<K, usize>,
    result: Result<PendingDeletion<usize>, LibError<K>>,
    key: &K,
    before: Option<BlobHash>,
    after: Option<BlobHash>,
)
    requires
        lawful_key::<K>(),
        old(store)@.dom().finite(),
        call_ensures(
            CasInner::<K>::remove_range,
            (&*old(store), start, end),
            OpStage::Log(pending),
        ),
        call_ensures(PendingOp::<K, usize>::logged, (pending, store, Ok(())), result),
        call_ensures(CasInner::<K>::get_hash_for_key, (&*old(store), key), before),
        call_ensures(CasInner::<K>::get_hash_for_key, (&*final(store), key), after),
    ensures
        ({
            let behind_start = match *start {
                KeyBound::Included(bound) => bound.cmp_spec(key) != Ordering::Greater,
                KeyBound::Excluded(bound) => bound.cmp_spec(key) == Ordering::Less,
                KeyBound::Unbounded => true,
            };
            let before_end = match *end {
                KeyBound::Included(bound) => key.cmp_spec(&bound) != Ordering::Greater,
                KeyBound::Excluded(bound) => key.cmp_spec(&bound) == Ordering::Less,
                KeyBound::Unbounded => true,
            };
            after == (if behind_start && before_end {
                None
            } else {
                before
            })
        }),
        result is Ok,
        result->Ok_0.answer == pending.answer,
        final(store)@.dom().len() + result->Ok_0.answer == old(store)@.dom().len(),
{
    let stage = OpStage::<K, usize>::Log(pending);
    lemma_range_stage(&*old(store), start, end, stage, *key);
    law_range_ends_count_apart(*key, *start, *end);
    match *start {
        KeyBound::Included(bound) => {
            law_range_start(*key, bound);
            lemma_key_order(*key, bound);
        },
        KeyBound::Excluded(bound) => law_range_start(*key, bound),
        KeyBound::Unbounded => {},
    }
    match *end {
        KeyBound::Included(bound) => {
            law_range_end(*key, bound);
            lemma_key_order(*key, bound);
        },
        KeyBound::Excluded(bound) => law_range_end(*key, bound),
        KeyBound::Unbounded => {},
    }
    crate::store_laws::law_remove_range_counts(
        old(store)@,
        pending.op->Remove_keys,
        *start,
        *end,
    );
}

/// A put that is logged gives its key the blob in the store, every other key
/// keeps what it had, and the answer is handed on.
pub proof fn law_logged_put<K: Ord + Clone, A>(
    store: &mut CasInner<K>,
    key: K,
    hash: BlobHash,
    answer: A,
    result: Result<PendingDeletion<A>, LibError<K>>,
    other: &K,
    before: Option<BlobHash>,
    after: Option<BlobHash>,
)
    requires
        call_ensures(
            PendingOp::<K, A>::logged,
            (PendingOp { op: WalOp::Put { key, hash }, answer }, store, Ok(())),
            result,
        ),
        call_ensures(CasInner::<K>::get_hash_for_key, (&*old(store), other), before),
        call_ensures(CasInner::<K>::get_hash_for_key, (&*final(store), other), after),
    ensures
        result is Ok,
        result->Ok_0.answer == answer,
        *other == key ==> after == Some(hash),
        *other != key ==> after == before,
{
}

/// A removal that is logged takes its keys out of the store, every other key
/// keeps what it had, and the answer is handed on.
pub proof fn law_logged_remove<K: Ord + Clone, A>(
    store: &mut CasInner<K>,
    keys: Vec<K>,
    answer: A,
    result: Result<PendingDeletion<A>, LibError<K>>,
    other: &K,
    before: Option<BlobHash>,
    after: Option<BlobHash>,
)
    requires
        call_ensures(
            PendingOp::<K, A>::logged,
            (PendingOp { op: WalOp::Remove { keys }, answer }, store, Ok(())),
            result,
        ),
        call_ensures(CasInner::<K>::get_hash_for_key, (&*old(store), other), before),
        call_ensures(CasInner::<K>::get_hash_for_key, (&*final(store), other), after),
    ensures
        result is Ok,
        result->Ok_0.answer == answer,
        keys@.contains(*other) ==> after is None,
        !keys@.contains(*other) ==> after == before,
{
}

/// Whatever is logged, or could not be, the blobs to delete are exactly those that
/// some key of the store had before and none has after, each once, and new blobs
/// are flushed as before.
pub proof fn law_logged_op_deletes_what_has_no_key<K: Ord + Clone, A, F>(
    store: &mut CasInner<K>,
    pending: PendingOp<K, A>,
    outcome: Result<(), IndexError<K>>,
    result: Result<PendingDeletion<A>, LibError<K>>,
    before: BTreeMap<K, BlobHash>,
    after: BTreeMap<K, BlobHash>,
    hash: BlobHash,
    file: F,
    flush_before: SyncStage<F>,
    flush_after: SyncStage<F>,
)
    requires
        call_ensures(PendingOp::<K, A>::logged, (pending, store, outcome), result),
        call_ensures(CasInner::<K>::index_snapshot, (&*old(store),), before),
        call_ensures(CasInner::<K>::index_snapshot, (&*final(store),), after),
        call_ensures(CasInner::<K>::fdatasync::<F>, (&*old(store), file), flush_before),
        call_ensures(CasInner::<K>::fdatasync::<F>, (&*final(store), file), flush_after),
    ensures
        flush_after == flush_before,
        outcome matches Err(error) ==> after@ == before@ && result == Err::<
            PendingDeletion<A>,
            LibError<K>,
        >(LibError::Index(error)),
        outcome is Ok ==> {
            &&& result is Ok
            &&& result->Ok_0.hashes@.no_duplicates()
            &&& result->Ok_0.hashes@.contains(hash) <==> (exists|k: K| #[trigger]
                before@.contains_key(k) && before@[k] == hash) && !(exists|k: K| #[trigger]
                after@.contains_key(k) && after@[k] == hash)
        },
{
    if outcome is Ok {
        let hashes = result->Ok_0.hashes@;
        let set = before@.values().difference(after@.values());
        crate::order_laws::law_listed_hashes_ascend(hashes, set);
        crate::hash_list::law_hashes_listed_once(hashes, set);
        lemma_values(before@, hash);
        lemma_values(after@, hash);
        assert(hashes.contains(hash) <==> set.contains(hash));
    }
}

/// Once the files are deleted, whichever were there, the answer is given; an
/// error of the deletion comes out as it is. A checkpoint hands its error on.
pub proof fn law_endings<K: Ord + Clone, A>(
    store: &CasInner<K>,
    pending: PendingDeletion<A>,
    deletion: Result<Vec<BlobHash>, CasManagerError>,
    deleted: Result<A, LibError<K>>,
    written: Result<(), IndexError<K>>,
    checkpoint: Result<(), LibError<K>>,
)
    requires
        call_ensures(PendingDeletion::<A>::deleted::<K>, (pending, deletion), deleted),
        call_ensures(CasInner::<K>::checkpoint, (store, written), checkpoint),
    ensures
        deletion is Ok ==> deleted == Ok::<A, LibError<K>>(pending.answer),
        deletion matches Err(error) ==> deleted == Err::<A, LibError<K>>(LibError::Cas(error)),
        written is Ok ==> checkpoint == Ok::<(), LibError<K>>(()),
        written matches Err(error) ==> checkpoint == Err::<(), LibError<K>>(
            LibError::Index(error),
        ),
{
}

// Transactions.

/// A transaction that starts has its key and nothing written, and the store hands
/// it on with its file.
pub proof fn law_new_transaction_is_empty<K: Ord + Clone, F, G>(
    store: &CasInner<K>,
    key: K,
    start: StagingCreate<K>,
    file: F,
    created: Result<(StagingReopen<K>, F), TransactionError>,
    open_file: G,
    reopened: Result<(Transaction<K>, G), TransactionError>,
    result: Result<(Transaction<K>, G), LibError<K>>,
    count: u64,
)
    requires
        call_ensures(Transaction::<K>::new, (key,), start),
        call_ensures(StagingCreate::<K>::created::<F>, (start, Ok(file)), created),
        created is Ok ==> call_ensures(
            StagingReopen::<K>::reopened::<G>,
            (created->Ok_0.0, Ok(open_file)),
            reopened,
        ),
        call_ensures(CasInner::<K>::put::<G>, (store, reopened), result),
        result is Ok ==> call_ensures(
            Transaction::<K>::bytes_written,
            (&result->Ok_0.0,),
            count,
        ),
    ensures
        created is Ok,
        created->Ok_0.1 == file,
        reopened is Ok,
        result is Ok,
        result->Ok_0.0.key() == key,
        result->Ok_0.0.written() == Seq::<u8>::empty(),
        result->Ok_0.1 == open_file,
        count == 0,
{
}

/// A step of starting a transaction that fails ends it with the step and the
/// reason, and the store says so in its own terms.
pub proof fn law_failed_start_reported<K: Ord + Clone, F>(
    store: &CasInner<K>,
    create: StagingCreate<K>,
    reopen: StagingReopen<K>,
    operation: StagingFileOp,
    path: StorePath,
    source: IoFailure,
    created: Result<(StagingReopen<K>, F), TransactionError>,
    reopened: Result<(Transaction<K>, F), TransactionError>,
    put: Result<(Transaction<K>, F), LibError<K>>,
)
    requires
        call_ensures(StagingCreate::<K>::created::<F>, (create, Err(source)), created),
        call_ensures(StagingReopen::<K>::reopened::<F>, (reopen, Err(source)), reopened),
        call_ensures(
            CasInner::<K>::put::<F>,
            (store, Err(TransactionError::StagingFileIo { operation, path, source })),
            put,
        ),
    ensures
        created == Err::<(StagingReopen<K>, F), TransactionError>(
            TransactionError::StagingFileIo {
                operation: StagingFileOp::Create,
                path: StorePath::StagingRoot,
                source,
            },
        ),
        reopened == Err::<(Transaction<K>, F), TransactionError>(
            TransactionError::StagingFileIo {
                operation: StagingFileOp::Create,
                path: StorePath::StagedFile,
                source,
            },
        ),
        operation == StagingFileOp::Create ==> put == Err::<(Transaction<K>, F), LibError<K>>(
            LibError::Io {
                operation: LibIoOperation::CreateStagingFile,
                path: Some(path),
                source,
            },
        ),
        operation == StagingFileOp::Write ==> put == Err::<(Transaction<K>, F), LibError<K>>(
            LibError::Io {
                operation: LibIoOperation::WriteStagingFile,
                path: Some(path),
                source,
            },
        ),
{
}

/// A write adds its bytes behind those that were written before, whether or not
/// the file took them; where it did not, the reason comes out.
pub proof fn law_write_appends<K>(
    transaction: &mut Transaction<K>,
    data: &[u8],
    outcome: Result<(), IoFailure>,
    result: Result<(), TransactionError>,
    before: u64,
    after: u64,
)
    requires
        call_ensures(Transaction::<K>::write, (transaction, data, outcome), result),
        call_ensures(Transaction::<K>::bytes_written, (&*old(transaction),), before),
        call_ensures(Transaction::<K>::bytes_written, (&*final(transaction),), after),
    ensures
        final(transaction).key() == old(transaction).key(),
        after == before + data@.len(),
        final(transaction).written().len() == old(transaction).written().len() + data@.len(),
        final(transaction).written().take(old(transaction).written().len() as int) == old(transaction).written(),
        forall|i: int|
            0 <= i < data@.len() ==> final(transaction).written()[old(transaction).written().len()
                + i] == #[trigger] data@[i],
        outcome is Ok <==> result is Ok,
        outcome matches Err(source) ==> result->Err_0 == (TransactionError::StagingFileIo {
            operation: StagingFileOp::Write,
            path: StorePath::StagedFile,
            source,
        }),
{
}

/// A transaction whose steps all succeed ends in the operation that puts its key
/// to the blob with all that was written, under the same hash that the content
/// has as a whole.
pub proof fn law_finished_transaction_puts_its_blob<K, F>(
    transaction: Transaction<K>,
    handle: Result<CommitHandle<K>, LibError<K>>,
    file: F,
    sync: Result<(CommitSync<K>, F), LibError<K>>,
    blob: Result<CommitBlob<K>, LibError<K, F>>,
    path: StorePath,
    result: Result<PendingOp<K, ()>, LibError<K>>,
    content: &[u8],
    whole: BlobHash,
)
    requires
        call_ensures(Transaction::<K>::finish, (transaction, Ok(())), handle),
        handle is Ok ==> call_ensures(
            CommitHandle::<K>::handle_cloned::<F>,
            (handle->Ok_0, Ok(file)),
            sync,
        ),
        sync is Ok ==> call_ensures(CommitSync::<K>::synced::<F>, (sync->Ok_0.0, Ok(())), blob),
        blob is Ok ==> call_ensures(CommitBlob::<K>::stored, (blob->Ok_0, Ok(path)), result),
        call_ensures(calculate_blob_hash, (content,), whole),
        content@ == transaction.written(),
    ensures
        handle is Ok,
        sync is Ok,
        sync->Ok_0.1 == file,
        blob is Ok,
        blob->Ok_0.hash == whole,
        result is Ok,
        result->Ok_0.op == (WalOp::Put { key: transaction.key(), hash: whole }),
{
    lemma_hash_extensional(blob->Ok_0.hash, whole);
}

/// A step of finishing a transaction that fails ends it with the step and the
/// reason, and nothing is put.
pub proof fn law_failed_finish_reported<K, F>(
    transaction: Transaction<K>,
    handle: CommitHandle<K>,
    sync: CommitSync<K>,
    blob: CommitBlob<K>,
    source: IoFailure,
    error: LibError<K, F>,
    cas_error: CasManagerError,
    finished: Result<CommitHandle<K>, LibError<K>>,
    cloned_handle: Result<(CommitSync<K>, F), LibError<K>>,
    synced: Result<CommitBlob<K>, LibError<K, F>>,
    stored: Result<PendingOp<K, ()>, LibError<K>>,
)
    requires
        call_ensures(Transaction::<K>::finish, (transaction, Err(source)), finished),
        call_ensures(
            CommitHandle::<K>::handle_cloned::<F>,
            (handle, Err(source)),
            cloned_handle,
        ),
        call_ensures(CommitSync::<K>::synced::<F>, (sync, Err(error)), synced),
        call_ensures(CommitBlob::<K>::stored, (blob, Err(cas_error)), stored),
    ensures
        finished == Err::<CommitHandle<K>, LibError<K>>(
            LibError::Io {
                operation: LibIoOperation::CommitFlushWriter,
                path: None,
                source,
            },
        ),
        cloned_handle == Err::<(CommitSync<K>, F), LibError<K>>(
            LibError::Io {
                operation: LibIoOperation::CommitCloneHandle,
                path: None,
                source,
            },
        ),
        synced == Err::<CommitBlob<K>, LibError<K, F>>(error),
        stored == Err::<PendingOp<K, ()>, LibError<K>>(LibError::Cas(cas_error)),
{
}

/// A file that was sent or flushed is done with. One that could not be sent comes
/// back in the error, and one that could not be flushed gives the reason.
pub proof fn law_flush_reported<K, F>(
    send: SyncSend,
    flush: SyncFlush,
    sending: Result<(), F>,
    flushing: Result<(), IoFailure>,
    sent: Result<(), LibError<K, F>>,
    flushed: Result<(), LibError<K, F>>,
)
    requires
        call_ensures(SyncSend::sent::<K, F>, (send, sending), sent),
        call_ensures(SyncFlush::flushed::<K, F>, (flush, flushing), flushed),
    ensures
        sending is Ok ==> sent == Ok::<(), LibError<K, F>>(()),
        sending matches Err(file) ==> sent == Err::<(), LibError<K, F>>(
            LibError::CommitFdatasyncSend(file),
        ),
        flushing is Ok ==> flushed == Ok::<(), LibError<K, F>>(()),
        flushing matches Err(source) ==> flushed == Err::<(), LibError<K, F>>(
            LibError::CommitFdatasyncIo(source),
        ),
{
}

/// What was written to a transaction is read back under its key, once the
/// transaction is finished and logged and the file of its blob holds it.
pub proof fn law_written_content_is_read_back<
    K: Ord + Clone,
    F,
    P,
    L,
    G: FnOnce(&BlobHash) -> Result<bytes::Bytes, CasManagerError>,
>(
    transaction: Transaction<K>,
    handle: Result<CommitHandle<K>, LibError<K>>,
    file: F,
    sync: Result<(CommitSync<K>, F), LibError<K>>,
    blob: Result<CommitBlob<K>, LibError<K, F>>,
    path: StorePath,
    pending: Result<PendingOp<K, ()>, LibError<K>>,
    store: &mut CasInner<K>,
    logged: Result<PendingDeletion<()>, LibError<K>>,
    manager: &CasManager<P, L>,
    content: Vec<u8>,
    read_blob: G,
    result: Result<Option<bytes::Bytes>, LibError<K>>,
)
    requires
        call_ensures(Transaction::<K>::finish, (transaction, Ok(())), handle),
        handle is Ok ==> call_ensures(
            CommitHandle::<K>::handle_cloned::<F>,
            (handle->Ok_0, Ok(file)),
            sync,
        ),
        sync is Ok ==> call_ensures(CommitSync::<K>::synced::<F>, (sync->Ok_0.0, Ok(())), blob),
        blob is Ok ==> call_ensures(CommitBlob::<K>::stored, (blob->Ok_0, Ok(path)), pending),
        pending is Ok ==> call_ensures(
            PendingOp::<K, ()>::logged,
            (pending->Ok_0, store, Ok(())),
            logged,
        ),
        content@ == transaction.written(),
        blob is Ok ==> forall|outcome: Result<bytes::Bytes, CasManagerError>| #[trigger]
            call_ensures(read_blob, (&blob->Ok_0.hash,), outcome) ==> call_ensures(
                CasManager::<P, L>::read_blob,
                (manager, &blob->Ok_0.hash, Ok(content)),
                outcome,
            ),
        call_ensures(
            CasInner::<K>::get::<G>,
            (&*final(store), &transaction.key(), read_blob),
            result,
        ),
    ensures
        logged is Ok,
        result matches Ok(Some(answer)) && bytes_content(answer) == transaction.written(),
{
    let key = transaction.key();
    let hash = blob->Ok_0.hash;
    let after = final(store)@;
    assert(after.contains_key(key) && after[key] == hash);
    let outcome = choose|outcome: Result<bytes::Bytes, CasManagerError>| #[trigger]
        call_ensures(read_blob, (&after[key],), outcome) && result == blob_result(
            key,
            after[key],
            false,
            outcome,
        );
    assert(call_ensures(read_blob, (&hash,), outcome));
}

} // verus!
