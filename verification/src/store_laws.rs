//! What holds of the store as a whole.

use vstd::prelude::*;

use crate::blob_bytes::bytes_content;
use crate::cas_manager::{
    blob_read, smaller, CasManagerError, CommitCheck, CommitPlacement, DeletionStage, RangeFill,
    RangeMeasure, RangeStage,
};
use crate::digest::blake3_digest;
use crate::index::{
    after_op, in_range, keys_ascend, lawful_key, lemma_ascending_keys_distinct, released, KeyBound,
};
use crate::store::blob_result;
use crate::transaction::{CommitBlob, Transaction};
use crate::types::{lemma_hash_extensional, BlobHash, IoErrorKind, IoFailure, WalOp};

verus! {

// The index.

/// A key maps to the blob that was last put under it, and a put changes what no
/// other key maps to.
pub proof fn law_put_sets_one_key<K>(index: Map<K, BlobHash>, key: K, hash: BlobHash, other: K)
    ensures
        ({
            let after = after_op(index, WalOp::Put { key, hash });
            &&& after.contains_key(key)
            &&& after[key] == hash
            &&& other != key ==> after.contains_key(other) == index.contains_key(other)
            &&& other != key && index.contains_key(other) ==> after[other] == index[other]
        }),
{
}

/// Removed keys map to nothing, and a removal changes what no other key maps to.
pub proof fn law_remove_clears_its_keys<K>(index: Map<K, BlobHash>, keys: Vec<K>, other: K)
    ensures
        ({
            let after = after_op(index, WalOp::Remove { keys });
            &&& after.contains_key(other) == (index.contains_key(other) && !keys@.contains(other))
            &&& after.contains_key(other) ==> after[other] == index[other]
        }),
{
}

/// To carry out an operation twice is to carry it out once, and the second time
/// releases nothing.
pub proof fn law_repeated_op_changes_nothing<K>(index: Map<K, BlobHash>, op: WalOp<K>)
    ensures
        ({
            let once = after_op(index, op);
            &&& after_op(once, op) == once
            &&& released(once, after_op(once, op)) == Set::<BlobHash>::empty()
        }),
{
    let once = after_op(index, op);
    assert(after_op(once, op) =~= once);
    assert(released(once, once) =~= Set::empty());
}

/// A put releases at most the blob that its key mapped to before.
pub proof fn law_put_releases_the_replaced_blob<K>(
    index: Map<K, BlobHash>,
    key: K,
    hash: BlobHash,
    blob: BlobHash,
)
    requires
        released(index, after_op(index, WalOp::Put { key, hash })).contains(blob),
    ensures
        index.contains_key(key),
        index[key] == blob,
        blob != hash,
{
    let after = after_op(index, WalOp::Put { key, hash });
    let k = choose|k: K| #[trigger] index.dom().contains(k) && index[k] == blob;
    if k != key {
        assert(after.dom().contains(k) && after[k] == blob);
        assert(after.contains_value(blob));
    }
    if blob == hash {
        assert(after.dom().contains(key) && after[key] == blob);
        assert(after.contains_value(blob));
    }
}

/// A removal of the keys of a range leaves exactly the keys outside it, and as
/// many keys are gone as were listed.
pub proof fn law_remove_range_counts<K: Ord + Clone>(
    index: Map<K, BlobHash>,
    keys: Vec<K>,
    start: KeyBound<K>,
    end: KeyBound<K>,
)
    requires
        lawful_key::<K>(),
        index.dom().finite(),
        keys_ascend(keys@),
        forall|k: K| #[trigger]
            keys@.contains(k) <==> index.contains_key(k) && in_range(k, start, end),
    ensures
        ({
            let after = after_op(index, WalOp::Remove { keys });
            &&& forall|k: K| #[trigger]
                after.contains_key(k) <==> index.contains_key(k) && !in_range(k, start, end)
            &&& forall|k: K| #[trigger] after.contains_key(k) ==> after[k] == index[k]
            &&& after.dom().len() + keys@.len() == index.dom().len()
        }),
{
    let after = after_op(index, WalOp::Remove { keys });
    assert forall|k: K| #[trigger] after.contains_key(k) <==> index.contains_key(k) && !in_range(
        k,
        start,
        end,
    ) by {
        assert(keys@.contains(k) <==> index.contains_key(k) && in_range(k, start, end));
    }
    lemma_ascending_keys_distinct(keys@);
    keys@.unique_seq_to_set();
    let gone = keys@.to_set();
    assert(gone.subset_of(index.dom())) by {
        assert forall|k: K| gone.contains(k) implies index.dom().contains(k) by {
            assert(keys@.contains(k));
        }
    }
    assert(after.dom() =~= index.dom().difference(gone));
    vstd::set_lib::lemma_set_difference_len(index.dom(), gone);
    assert(index.dom().intersect(gone) =~= gone);
}

// Deleting blobs.

/// The blobs of `hashes` whose files were removed, in their order.
pub open spec fn removed_blobs(
    hashes: Seq<BlobHash>,
    outcomes: Seq<Result<(), IoFailure>>,
) -> Seq<BlobHash>
    recommends
        hashes.len() == outcomes.len(),
    decreases outcomes.len(),
{
    if outcomes.len() == 0 {
        Seq::empty()
    } else {
        let earlier = removed_blobs(hashes.drop_last(), outcomes.drop_last());
        if outcomes.last() is Ok {
            earlier.push(hashes.last())
        } else {
            earlier
        }
    }
}

/// Whether a deletion goes from one stage to another on an attempt to remove a
/// file that had `outcome`.
pub open spec fn deletion_step(
    from: DeletionStage,
    outcome: Result<(), IoFailure>,
    to: DeletionStage,
) -> bool {
    from matches DeletionStage::Remove(pending) && pending.goes_on(outcome, Ok(to))
}

/// Whether `stages` are the stages of a deletion of `hashes` in which the
/// attempts to remove a file had `outcomes`.
pub open spec fn deletion_run(
    hashes: Seq<BlobHash>,
    outcomes: Seq<Result<(), IoFailure>>,
    stages: Seq<DeletionStage>,
) -> bool {
    &&& stages.len() == outcomes.len() + 1
    &&& stages[0].is_at(hashes, Seq::empty())
    &&& forall|i: int|
        #![trigger outcomes[i]]
        0 <= i < outcomes.len() ==> deletion_step(stages[i], outcomes[i], stages[i + 1])
}

/// A deletion takes the blobs in their order. As long as no attempt fails
/// otherwise than for want of the file it goes on, and it ends when all are
/// tried, with the blobs whose files were removed.
pub proof fn law_deletion_tries_each_blob(
    hashes: Seq<BlobHash>,
    outcomes: Seq<Result<(), IoFailure>>,
    stages: Seq<DeletionStage>,
)
    requires
        deletion_run(hashes, outcomes, stages),
    ensures
        ({
            let tried = outcomes.len() as int;
            &&& tried <= hashes.len()
            &&& stages.last().is_at(
                hashes.skip(tried),
                removed_blobs(hashes.take(tried), outcomes),
            )
            &&& stages.last() is Done <==> tried == hashes.len()
        }),
    decreases outcomes.len(),
{
    let tried = outcomes.len() as int;
    if tried == 0 {
        assert(hashes.skip(0) =~= hashes);
    } else {
        let earlier = outcomes.drop_last();
        let before = stages.drop_last();
        assert forall|i: int| #![trigger earlier[i]] 0 <= i < earlier.len() implies deletion_step(
            before[i],
            earlier[i],
            before[i + 1],
        ) by {
            assert(outcomes[i] == earlier[i]);
        }
        law_deletion_tries_each_blob(hashes, earlier, before);
        assert(deletion_step(stages[tried - 1], outcomes[tried - 1], stages[tried]));
        assert(stages[tried - 1] == before.last());
        assert(hashes.skip(tried - 1).skip(1) =~= hashes.skip(tried));
        assert(hashes.take(tried).drop_last() =~= hashes.take(tried - 1));
    }
}

/// A deletion in which a file is missed only where the disk has none, or where
/// the blob stands earlier in the list too, removes exactly the files of its
/// blobs from the disk.
pub proof fn law_deletion_clears_the_disk(
    hashes: Seq<BlobHash>,
    outcomes: Seq<Result<(), IoFailure>>,
    disk: Map<BlobHash, Seq<u8>>,
)
    requires
        hashes.len() == outcomes.len(),
        forall|i: int|
            #![trigger outcomes[i]]
            0 <= i < hashes.len() && outcomes[i] is Err ==> !disk.contains_key(hashes[i])
                || hashes.take(i).contains(hashes[i]),
    ensures
        disk.remove_keys(removed_blobs(hashes, outcomes).to_set()) == disk.remove_keys(
            hashes.to_set(),
        ),
{
    let removed = removed_blobs(hashes, outcomes);
    assert forall|h: BlobHash| disk.contains_key(h) implies removed.to_set().contains(h)
        == hashes.to_set().contains(h) by {
        lemma_removed_on_disk(hashes, outcomes, disk, h);
    }
    assert(disk.remove_keys(removed.to_set()) =~= disk.remove_keys(hashes.to_set()));
}

proof fn lemma_removed_on_disk(
    hashes: Seq<BlobHash>,
    outcomes: Seq<Result<(), IoFailure>>,
    disk: Map<BlobHash, Seq<u8>>,
    hash: BlobHash,
)
    requires
        hashes.len() == outcomes.len(),
        disk.contains_key(hash),
        forall|i: int|
            #![trigger outcomes[i]]
            0 <= i < hashes.len() && outcomes[i] is Err ==> !disk.contains_key(hashes[i])
                || hashes.take(i).contains(hashes[i]),
    ensures
        removed_blobs(hashes, outcomes).contains(hash) == hashes.contains(hash),
    decreases hashes.len(),
{
    if hashes.len() > 0 {
        let earlier_hashes = hashes.drop_last();
        let earlier_outcomes = outcomes.drop_last();
        assert forall|i: int|
            #![trigger earlier_outcomes[i]]
            0 <= i < earlier_hashes.len()
                && earlier_outcomes[i] is Err implies !disk.contains_key(earlier_hashes[i])
            || earlier_hashes.take(i).contains(earlier_hashes[i]) by {
            assert(outcomes[i] == earlier_outcomes[i]);
            assert(earlier_hashes.take(i) =~= hashes.take(i));
        }
        lemma_removed_on_disk(earlier_hashes, earlier_outcomes, disk, hash);
        let earlier = removed_blobs(earlier_hashes, earlier_outcomes);
        assert(hashes =~= earlier_hashes.push(hashes.last()));
        assert(hashes.contains(hash) <==> earlier_hashes.contains(hash) || hashes.last() == hash)
            by {
            broadcast use vstd::seq_lib::group_seq_properties;

        }
        assert(earlier.push(hashes.last()).contains(hash) <==> earlier.contains(hash)
            || hashes.last() == hash) by {
            broadcast use vstd::seq_lib::group_seq_properties;

        }
        assert(outcomes[hashes.len() - 1] == outcomes.last());
        assert(hashes.take(hashes.len() - 1) =~= earlier_hashes);
    }
}

// Reading a range.

/// The bytes of `content` from `start` up to `end`, as far as there are any.
pub open spec fn range_of(content: Seq<u8>, start: u64, end: u64) -> Seq<u8> {
    let from = if start < content.len() { start as int } else { content.len() as int };
    let to = if end < content.len() { end as int } else { content.len() as int };
    content.subrange(from, to)
}

/// A range that does not start after its end still does not once both are cut
/// to the size of a file.
pub proof fn law_cut_range_stays_in_order(start: u64, end: u64, len: u64)
    requires
        start <= end,
    ensures
        smaller(start, len) <= smaller(end, len) <= len,
{
}

/// A range that has no bytes in the file is answered with nothing.
pub proof fn law_empty_range_reads_nothing(
    measure: RangeMeasure,
    content: Seq<u8>,
    answer: bytes::Bytes,
)
    requires
        measure.start <= measure.end,
        content.len() <= u64::MAX,
        measure.stage_is(content.len() as u64, RangeStage::Done(answer)),
    ensures
        bytes_content(answer) == range_of(content, measure.start, measure.end),
{
}

/// A read that fills its buffer from the file yields the bytes of the range, and
/// one that comes short yields the first of them.
pub proof fn law_range_reads_its_bytes(
    measure: RangeMeasure,
    content: Seq<u8>,
    fill: RangeFill,
    buffer: Seq<u8>,
    bytes_read: usize,
    result: Result<bytes::Bytes, CasManagerError>,
)
    requires
        measure.start <= measure.end,
        content.len() <= usize::MAX,
        measure.stage_is(content.len() as u64, RangeStage::Fill(fill)),
        buffer.len() == fill.len,
        bytes_read <= fill.len,
        buffer.take(bytes_read as int) == content.subrange(
            fill.offset as int,
            fill.offset + bytes_read,
        ),
        fill.ends_with(buffer, Ok(bytes_read), result),
    ensures
        fill.len == range_of(content, measure.start, measure.end).len(),
        result is Ok,
        bytes_content(result->Ok_0) == range_of(content, measure.start, measure.end).take(
            bytes_read as int,
        ),
        bytes_read == fill.len ==> bytes_content(result->Ok_0) == range_of(
            content,
            measure.start,
            measure.end,
        ),
{
    let range = range_of(content, measure.start, measure.end);
    assert(content.len() as u64 == content.len());
    assert(fill.len == range.len());
    assert(content.subrange(fill.offset as int, fill.offset + bytes_read) =~= range.take(
        bytes_read as int,
    ));
    assert(range.take(range.len() as int) =~= range);
}

/// Two ranges that meet make up the range from the start of the first to the end
/// of the second.
pub proof fn law_ranges_join(content: Seq<u8>, start: u64, middle: u64, end: u64)
    requires
        start <= middle <= end,
    ensures
        range_of(content, start, middle) + range_of(content, middle, end) == range_of(
            content,
            start,
            end,
        ),
{
    assert(range_of(content, start, middle) + range_of(content, middle, end) =~= range_of(
        content,
        start,
        end,
    ));
}

/// The range from zero to the size of a blob, or past it, is the whole blob.
pub proof fn law_full_range_is_the_blob(content: Seq<u8>, end: u64)
    requires
        content.len() <= end,
    ensures
        range_of(content, 0, end) == content,
{
    assert(range_of(content, 0, end) =~= content);
}

// Writing a blob.

/// A transaction names its blob by the hash of all that was written to it,
/// however it was cut into pieces.
pub proof fn law_pieces_hash_as_the_whole<K>(
    pieces: Seq<Seq<u8>>,
    states: Seq<Transaction<K>>,
    blob: CommitBlob<K>,
    whole: BlobHash,
)
    requires
        states.len() == pieces.len() + 1,
        states[0].written() == Seq::<u8>::empty(),
        forall|i: int|
            #![trigger pieces[i]]
            0 <= i < pieces.len() ==> states[i + 1].written() == states[i].written() + pieces[i],
        blob.hash@ == blake3_digest(states.last().written()),
        whole@ == blake3_digest(pieces.flatten()),
    ensures
        states.last().written() == pieces.flatten(),
        blob.hash == whole,
{
    lemma_written_pieces(pieces, states);
    lemma_hash_extensional(blob.hash, whole);
}

proof fn lemma_written_pieces<K>(pieces: Seq<Seq<u8>>, states: Seq<Transaction<K>>)
    requires
        states.len() == pieces.len() + 1,
        states[0].written() == Seq::<u8>::empty(),
        forall|i: int|
            #![trigger pieces[i]]
            0 <= i < pieces.len() ==> states[i + 1].written() == states[i].written() + pieces[i],
    ensures
        states.last().written() == pieces.flatten(),
    decreases pieces.len(),
{
    if pieces.len() > 0 {
        let last: int = pieces.len() - 1;
        let earlier = pieces.drop_last();
        assert forall|i: int| #![trigger earlier[i]] 0 <= i < earlier.len() implies {
            states.drop_last()[i + 1].written() == states.drop_last()[i].written() + earlier[i]
        } by {
            assert(pieces[i] == earlier[i]);
        }
        lemma_written_pieces(earlier, states.drop_last());
        assert(pieces =~= earlier.push(pieces[last]));
        earlier.lemma_flatten_push(pieces[last]);
        assert(states.drop_last().last() == states[last]);
    }
}

// The store and its disk. `disk` is what the files of committed blobs hold.

/// Whether there are files for exactly the blobs that some key maps to.
pub open spec fn complete<K>(index: Map<K, BlobHash>, disk: Map<BlobHash, Seq<u8>>) -> bool {
    disk.dom() == index.values()
}

/// Whether each blob has the hash of its content as its name.
pub open spec fn content_addressed(disk: Map<BlobHash, Seq<u8>>) -> bool {
    forall|h: BlobHash| #[trigger] disk.contains_key(h) ==> h@ == blake3_digest(disk[h])
}

/// The disk once a staged file with `content` is committed as `hash`: a file
/// that was there stays.
pub open spec fn after_commit(
    disk: Map<BlobHash, Seq<u8>>,
    hash: BlobHash,
    content: Seq<u8>,
) -> Map<BlobHash, Seq<u8>> {
    if disk.contains_key(hash) {
        disk
    } else {
        disk.insert(hash, content)
    }
}

/// The disk once a staged file with `content` is placed.
pub open spec fn after_placement(
    disk: Map<BlobHash, Seq<u8>>,
    placement: CommitPlacement,
    content: Seq<u8>,
) -> Map<BlobHash, Seq<u8>> {
    match placement {
        CommitPlacement::Move(step) => disk.insert(step.hash, content),
        CommitPlacement::Discard(_) => disk,
    }
}

/// A commit overwrites no blob.
pub proof fn law_commit_overwrites_nothing(
    check: CommitCheck,
    disk: Map<BlobHash, Seq<u8>>,
    content: Seq<u8>,
)
    ensures
        after_placement(
            disk,
            check.placement(disk.contains_key(check.hash)),
            content,
        ) == after_commit(disk, check.hash, content),
{
}

/// The disk once `key` is put: the blob is committed, and what the put released
/// is deleted.
pub open spec fn disk_after_put<K>(
    index: Map<K, BlobHash>,
    disk: Map<BlobHash, Seq<u8>>,
    key: K,
    hash: BlobHash,
    content: Seq<u8>,
) -> Map<BlobHash, Seq<u8>> {
    after_commit(disk, hash, content).remove_keys(
        released(index, after_op(index, WalOp::Put { key, hash })),
    )
}

/// The disk once `keys` are removed: what that released is deleted.
pub open spec fn disk_after_remove<K>(
    index: Map<K, BlobHash>,
    disk: Map<BlobHash, Seq<u8>>,
    keys: Vec<K>,
) -> Map<BlobHash, Seq<u8>> {
    disk.remove_keys(released(index, after_op(index, WalOp::Remove { keys })))
}

/// A put leaves no file that no key needs, and none missing that some key does.
pub proof fn law_put_keeps_the_store_complete<K>(
    index: Map<K, BlobHash>,
    disk: Map<BlobHash, Seq<u8>>,
    key: K,
    hash: BlobHash,
    content: Seq<u8>,
)
    requires
        complete(index, disk),
    ensures
        complete(
            after_op(index, WalOp::Put { key, hash }),
            disk_after_put(index, disk, key, hash, content),
        ),
{
    let after = after_op(index, WalOp::Put { key, hash });
    let files = disk_after_put(index, disk, key, hash, content);
    assert forall|h: BlobHash| files.dom().contains(h) == after.values().contains(h) by {
        if h == hash {
            assert(after.dom().contains(key) && after[key] == h);
            assert(after.contains_value(h));
        } else if after.values().contains(h) {
            let k = choose|k: K| #[trigger] after.dom().contains(k) && after[k] == h;
            assert(index.dom().contains(k) && index[k] == h);
            assert(index.contains_value(h));
            assert(index.values().contains(h));
        } else if files.dom().contains(h) {
            assert(disk.dom().contains(h));
            assert(index.values().contains(h));
        }
    }
    assert(files.dom() =~= after.values());
}

/// A removal leaves no file that no key needs, and none missing that some key
/// does.
pub proof fn law_remove_keeps_the_store_complete<K>(
    index: Map<K, BlobHash>,
    disk: Map<BlobHash, Seq<u8>>,
    keys: Vec<K>,
)
    requires
        complete(index, disk),
    ensures
        complete(
            after_op(index, WalOp::Remove { keys }),
            disk_after_remove(index, disk, keys),
        ),
{
    let after = after_op(index, WalOp::Remove { keys });
    let files = disk_after_remove(index, disk, keys);
    assert forall|h: BlobHash| files.dom().contains(h) == after.values().contains(h) by {
        if after.values().contains(h) {
            let k = choose|k: K| #[trigger] after.dom().contains(k) && after[k] == h;
            assert(index.dom().contains(k) && index[k] == h);
            assert(index.contains_value(h));
            assert(index.values().contains(h));
            assert(disk.dom().contains(h));
        } else if files.dom().contains(h) {
            assert(disk.dom().contains(h));
            assert(index.values().contains(h));
        }
    }
    assert(files.dom() =~= after.values());
}

/// After any operation, whatever part of what it released is deleted, and
/// whether or not other files lie around, no blob is missing that a key maps to.
pub proof fn law_no_needed_blob_is_deleted<K>(
    index: Map<K, BlobHash>,
    disk: Map<BlobHash, Seq<u8>>,
    op: WalOp<K>,
    deleted: Set<BlobHash>,
)
    requires
        after_op(index, op).values().subset_of(disk.dom()),
        deleted.subset_of(released(index, after_op(index, op))),
    ensures
        after_op(index, op).values().subset_of(disk.remove_keys(deleted).dom()),
{
}

/// A commit takes no file away and changes none, so that what every key maps to
/// stays readable until the log has the operation.
pub proof fn law_commit_keeps_the_files(
    disk: Map<BlobHash, Seq<u8>>,
    hash: BlobHash,
    content: Seq<u8>,
)
    ensures
        after_commit(disk, hash, content).contains_key(hash),
        forall|h: BlobHash| #[trigger]
            disk.contains_key(h) ==> after_commit(disk, hash, content).contains_key(h)
                && after_commit(disk, hash, content)[h] == disk[h],
{
}

/// A commit of a blob that was not there adds its file with its content, and no
/// commit adds any other file.
pub proof fn law_commit_adds_only_its_blob(
    disk: Map<BlobHash, Seq<u8>>,
    hash: BlobHash,
    content: Seq<u8>,
    other: BlobHash,
)
    ensures
        !disk.contains_key(hash) ==> after_commit(disk, hash, content)[hash] == content,
        other != hash ==> after_commit(disk, hash, content).contains_key(other)
            == disk.contains_key(other),
{
}

/// A put keeps each blob under the hash of its content.
pub proof fn law_put_keeps_blobs_addressed<K>(
    index: Map<K, BlobHash>,
    disk: Map<BlobHash, Seq<u8>>,
    key: K,
    hash: BlobHash,
    content: Seq<u8>,
)
    requires
        content_addressed(disk),
        hash@ == blake3_digest(content),
    ensures
        content_addressed(disk_after_put(index, disk, key, hash, content)),
{
    let files = disk_after_put(index, disk, key, hash, content);
    assert forall|h: BlobHash| #[trigger] files.contains_key(h) implies h@ == blake3_digest(
        files[h],
    ) by {
        if disk.contains_key(h) {
            assert(files[h] == disk[h]);
        }
    }
}

/// A removal keeps each blob under the hash of its content.
pub proof fn law_remove_keeps_blobs_addressed<K>(
    index: Map<K, BlobHash>,
    disk: Map<BlobHash, Seq<u8>>,
    keys: Vec<K>,
)
    requires
        content_addressed(disk),
    ensures
        content_addressed(disk_after_remove(index, disk, keys)),
{
    let files = disk_after_remove(index, disk, keys);
    assert forall|h: BlobHash| #[trigger] files.contains_key(h) implies h@ == blake3_digest(
        files[h],
    ) by {
        assert(disk.contains_key(h));
    }
}

/// Whether reading the file of `hash` has an outcome that fits the disk.
pub open spec fn reads_from_disk(
    disk: Map<BlobHash, Seq<u8>>,
    hash: BlobHash,
    outcome: Result<Vec<u8>, IoFailure>,
) -> bool {
    match outcome {
        Ok(content) => disk.contains_key(hash) && content@ == disk[hash],
        Err(failure) => !disk.contains_key(hash) && failure.kind == IoErrorKind::NotFound,
    }
}

/// What was put under a key is what is read back under it. The one exception is
/// a file with other content that lay under the hash before: it stays.
pub proof fn law_get_gives_back_what_was_put<K>(
    index: Map<K, BlobHash>,
    disk: Map<BlobHash, Seq<u8>>,
    key: K,
    hash: BlobHash,
    content: Seq<u8>,
    outcome: Result<Vec<u8>, IoFailure>,
    read: Result<bytes::Bytes, CasManagerError>,
    return_err_on_missing: bool,
)
    requires
        disk.contains_key(hash) ==> disk[hash] == content,
        reads_from_disk(disk_after_put(index, disk, key, hash, content), hash, outcome),
        blob_read(hash, outcome, read),
    ensures
        after_op(index, WalOp::Put { key, hash })[key] == hash,
        ({
            let result = blob_result(key, hash, return_err_on_missing, read);
            &&& result matches Ok(Some(answer))
            &&& bytes_content(answer) == content
        }),
{
    let after = after_op(index, WalOp::Put { key, hash });
    let files = disk_after_put(index, disk, key, hash, content);
    assert(after.dom().contains(key) && after[key] == hash);
    assert(after.contains_value(hash));
    assert(files.contains_key(hash));
    assert(files[hash] == content);
}

/// A put leaves what every other key reads as it was.
pub proof fn law_put_keeps_other_reads<K>(
    index: Map<K, BlobHash>,
    disk: Map<BlobHash, Seq<u8>>,
    key: K,
    hash: BlobHash,
    content: Seq<u8>,
    other: K,
)
    requires
        index.contains_key(other),
        other != key,
        disk.contains_key(index[other]),
    ensures
        ({
            let after = after_op(index, WalOp::Put { key, hash });
            let files = disk_after_put(index, disk, key, hash, content);
            &&& after.contains_key(other)
            &&& files.contains_key(after[other])
            &&& files[after[other]] == disk[index[other]]
        }),
{
    let after = after_op(index, WalOp::Put { key, hash });
    assert(after.dom().contains(other) && after[other] == index[other]);
    assert(after.contains_value(index[other]));
}

/// A removal leaves what every other key reads as it was.
pub proof fn law_remove_keeps_other_reads<K>(
    index: Map<K, BlobHash>,
    disk: Map<BlobHash, Seq<u8>>,
    keys: Vec<K>,
    other: K,
)
    requires
        index.contains_key(other),
        !keys@.contains(other),
        disk.contains_key(index[other]),
    ensures
        ({
            let after = after_op(index, WalOp::Remove { keys });
            let files = disk_after_remove(index, disk, keys);
            &&& after.contains_key(other)
            &&& files.contains_key(after[other])
            &&& files[after[other]] == disk[index[other]]
        }),
{
    let after = after_op(index, WalOp::Remove { keys });
    assert(after.dom().contains(other) && after[other] == index[other]);
    assert(after.contains_value(index[other]));
}

/// Two keys under which the same content was put share one blob.
pub proof fn law_same_content_is_kept_once(a: BlobHash, b: BlobHash, content: Seq<u8>)
    requires
        a@ == blake3_digest(content),
        b@ == blake3_digest(content),
    ensures
        a == b,
{
    lemma_hash_extensional(a, b);
}

} // verus!
