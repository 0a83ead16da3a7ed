//! The index: which key maps to which blob.

use std::cmp::Ordering;
use std::collections::BTreeMap;
use std::collections::BTreeSet;

use vstd::laws_cmp::obeys_cmp;
use vstd::laws_eq::obeys_concrete_eq;
use vstd::prelude::*;
use vstd::std_specs::cmp::{OrdSpec, PartialEqSpec};
use vstd::std_specs::iter::IteratorSpec;

use crate::hash_list::{add_hash, lists_hashes};
use crate::serialization::SerializationError;
use crate::types::{BlobHash, IoFailure, WalOp};

verus! {

/// Whether the order of `K` is a total order in which only equal keys compare
/// as equal, and a clone of a key is that key.
pub open spec fn lawful_key<K: Ord + Clone>() -> bool {
    &&& obeys_cmp::<K>()
    &&& obeys_concrete_eq::<K>()
    &&& forall|a: K, b: K| #[trigger] cloned::<K>(a, b) ==> a == b
}

/// The index after an operation.
pub open spec fn after_op<K>(index: Map<K, BlobHash>, op: WalOp<K>) -> Map<K, BlobHash> {
    match op {
        WalOp::Put { key, hash } => index.insert(key, hash),
        WalOp::Remove { keys } => index.remove_keys(keys@.to_set()),
    }
}

/// The blobs that some key maps to before a change and none after it.
pub open spec fn released<K>(before: Map<K, BlobHash>, after: Map<K, BlobHash>) -> Set<BlobHash> {
    before.values().difference(after.values())
}

/// One end of a range of keys.
#[derive(Debug)]
pub enum KeyBound<K> {
    /// The range goes up to this key and has it.
    Included(K),
    /// The range goes up to this key and does not have it.
    Excluded(K),
    /// The range has no end on this side.
    Unbounded,
}

/// Whether `key` lies in the range from `start` to `end`.
pub open spec fn in_range<K: Ord>(key: K, start: KeyBound<K>, end: KeyBound<K>) -> bool {
    &&& match start {
        KeyBound::Included(bound) => bound.cmp_spec(&key) != Ordering::Greater,
        KeyBound::Excluded(bound) => bound.cmp_spec(&key) == Ordering::Less,
        KeyBound::Unbounded => true,
    }
    &&& match end {
        KeyBound::Included(bound) => key.cmp_spec(&bound) != Ordering::Greater,
        KeyBound::Excluded(bound) => key.cmp_spec(&bound) == Ordering::Less,
        KeyBound::Unbounded => true,
    }
}

/// Whether `keys` stand in strictly ascending order.
pub open spec fn keys_ascend<K: Ord>(keys: Seq<K>) -> bool {
    forall|i: int, j: int|
        #![trigger keys[i], keys[j]]
        0 <= i < j < keys.len() ==> keys[i].cmp_spec(&keys[j]) == Ordering::Less
}

/// Keys in ascending order are all different.
pub proof fn lemma_ascending_keys_distinct<K: Ord + Clone>(keys: Seq<K>)
    requires
        lawful_key::<K>(),
        keys_ascend(keys),
    ensures
        keys.no_duplicates(),
{
    reveal(vstd::laws_eq::obeys_concrete_eq);
    reveal(vstd::laws_cmp::obeys_cmp_partial_ord);
    reveal(vstd::laws_cmp::obeys_cmp_ord);
    assert forall|i: int, j: int| 0 <= i < j < keys.len() implies keys[i] != keys[j] by {
        assert(keys[i].cmp_spec(&keys[j]) == Ordering::Less);
        if keys[i] == keys[j] {
            assert(keys[i].eq_spec(&keys[j]));
        }
    }
}

/// Numbers can be keys.
pub proof fn lemma_u64_key_lawful()
    ensures
        lawful_key::<u64>(),
{
    broadcast use vstd::laws_cmp::group_laws_cmp;
    broadcast use vstd::laws_eq::group_laws_eq;

}

/// Why the index could not do what was asked.
#[derive(Debug)]
pub enum IndexError<K> {
    /// `key` maps to nothing.
    KeyNotFound { key: K },
    /// The log or the snapshot could not be read or written.
    Storage { failure: IoFailure },
    /// The log or the snapshot holds what cannot be read.
    Format { error: SerializationError },
}

/// Whether some key of `entries` maps to `hash`.
fn is_referenced<K: Ord + Clone>(entries: &BTreeMap<K, BlobHash>, hash: &BlobHash) -> (referenced:
    bool)
    requires
        lawful_key::<K>(),
    ensures
        referenced == entries@.values().contains(*hash),
{
    let values = entries.values();
    let ghost all = values.remaining();
    let ghost mut seen: int = 0;
    for value in iter: values
        invariant
            lawful_key::<K>(),
            iter.seq() == all,
            seen == iter.index(),
            all.unref().to_set() == entries@.values(),
            forall|j: int| 0 <= j < seen ==> *#[trigger] all[j] != *hash,
    {
        if *value == *hash {
            proof {
                assert(all.unref()[seen] == *hash);
                assert(all.unref().to_set().contains(*hash));
            }
            return true;
        }
        proof {
            seen = seen + 1;
        }
    }
    proof {
        let values = all.unref();
        if entries@.values().contains(*hash) {
            assert(values.to_set().contains(*hash));
            let j = choose|j: int| 0 <= j < values.len() && values[j] == *hash;
            assert(*all[j] == *hash);
        }
    }
    false
}

/// Whether `key` lies in the range from `start` to `end`.
fn lies_in_range<K: Ord + Clone>(key: &K, start: &KeyBound<K>, end: &KeyBound<K>) -> (inside: bool)
    requires
        lawful_key::<K>(),
    ensures
        inside == in_range(*key, *start, *end),
{
    proof {
        reveal(vstd::laws_cmp::obeys_cmp_ord);
    }
    let after_start: bool = match start {
        KeyBound::Included(bound) => match bound.cmp(key) {
            Ordering::Greater => false,
            _ => true,
        },
        KeyBound::Excluded(bound) => match bound.cmp(key) {
            Ordering::Less => true,
            _ => false,
        },
        KeyBound::Unbounded => true,
    };
    let before_end: bool = match end {
        KeyBound::Included(bound) => match key.cmp(bound) {
            Ordering::Greater => false,
            _ => true,
        },
        KeyBound::Excluded(bound) => match key.cmp(bound) {
            Ordering::Less => true,
            _ => false,
        },
        KeyBound::Unbounded => true,
    };
    after_start && before_end
}

proof fn lemma_ascending_refs<K: Ord + Clone>(keys: Seq<&K>)
    requires
        lawful_key::<K>(),
        vstd::std_specs::btree::increasing_seq(keys),
    ensures
        keys_ascend(keys.unref()),
{
    broadcast use vstd::laws_cmp::lemma_ref_obeys_cmp_spec;

    assert(obeys_cmp::<&K>());
    let plain = keys.unref();
    assert forall|i: int, j: int|
        #![trigger plain[i], plain[j]]
        0 <= i < j < plain.len() implies plain[i].cmp_spec(&plain[j]) == Ordering::Less by {
        assert(OrdSpec::cmp_spec(&keys[i], &keys[j]) is Less);
    }
}

/// Which key maps to which blob.
#[derive(Debug)]
#[verifier::reject_recursive_types(K)]
pub struct Index<K: Ord + Clone> {
    entries: BTreeMap<K, BlobHash>,
}

impl<K: Ord + Clone> View for Index<K> {
    type V = Map<K, BlobHash>;

    closed spec fn view(&self) -> Map<K, BlobHash> {
        self.entries@
    }
}

impl<K: Ord + Clone> Index<K> {
    #[verifier::type_invariant]
    spec fn keys_lawful(self) -> bool {
        lawful_key::<K>()
    }

    /// An index in which no key maps to anything.
    pub fn new() -> (index: Self)
        requires
            lawful_key::<K>(),
        ensures
            index@ == Map::<K, BlobHash>::empty(),
    {
        Index { entries: BTreeMap::new() }
    }

    /// The blob that `key` maps to.
    pub fn get_hash_for_key(&self, key: &K) -> (hash: Option<BlobHash>)
        ensures
            hash == (if self@.contains_key(*key) {
                Some(self@[*key])
            } else {
                None
            }),
    {
        proof {
            use_type_invariant(self);
        }
        match self.entries.get(key) {
            Some(hash) => Some(*hash),
            None => None,
        }
    }

    /// Whether `key` maps to a blob.
    pub fn contains_key(&self, key: &K) -> (contains: bool)
        ensures
            contains == self@.contains_key(*key),
    {
        proof {
            use_type_invariant(self);
        }
        self.entries.contains_key(key)
    }

    /// The blob that `key` maps to, or an error where there is none.
    pub fn require_hash_for_key(&self, key: &K) -> (result: Result<BlobHash, IndexError<K>>)
        ensures
            result == (if self@.contains_key(*key) {
                Ok(self@[*key])
            } else {
                Err(IndexError::KeyNotFound { key: *key })
            }),
    {
        match self.get_hash_for_key(key) {
            Some(hash) => Ok(hash),
            None => Err(IndexError::KeyNotFound { key: self.copy_key(key) }),
        }
    }

    /// A copy of a key.
    pub(crate) fn copy_key(&self, key: &K) -> (copy: K)
        ensures
            copy == *key,
    {
        proof {
            use_type_invariant(self);
        }
        let copy = key.clone();
        assert(cloned::<K>(*key, copy));
        copy
    }

    /// A copy of the whole index.
    pub fn index_snapshot(&self) -> (snapshot: BTreeMap<K, BlobHash>)
        ensures
            snapshot@ == self@,
    {
        self.entries.clone()
    }

    /// The keys that map to a blob.
    pub fn known_keys(&self) -> (keys: BTreeSet<K>)
        ensures
            keys@ == self@.dom(),
    {
        proof {
            use_type_invariant(self);
        }
        let mut known: BTreeSet<K> = BTreeSet::new();
        let keys = self.entries.keys();
        let ghost all = keys.remaining();
        let ghost mut seen: int = 0;
        for key in iter: keys
            invariant
                lawful_key::<K>(),
                iter.seq() == all,
                seen == iter.index(),
                forall|k: K|
                    known@.contains(k) <==> exists|j: int| 0 <= j < seen && *#[trigger] all[j] == k,
        {
            let copy = key.clone();
            assert(cloned::<K>(*key, copy));
            known.insert(copy);
            proof {
                seen = seen + 1;
            }
        }
        proof {
            let keys = all.unref();
            assert forall|k: K| known@.contains(k) == self@.dom().contains(k) by {
                if self@.dom().contains(k) {
                    assert(keys.to_set().contains(k));
                    let j = choose|j: int| 0 <= j < keys.len() && keys[j] == k;
                    assert(*all[j] == k);
                }
                if known@.contains(k) {
                    let j = choose|j: int| 0 <= j < seen && *#[trigger] all[j] == k;
                    assert(keys[j] == k);
                    assert(keys.to_set().contains(k));
                }
            }
            assert(known@ =~= self@.dom());
        }
        known
    }

    /// The blobs that some key maps to, in ascending order.
    pub fn known_blobs(&self) -> (blobs: Vec<BlobHash>)
        ensures
            lists_hashes(blobs@, self@.values()),
    {
        proof {
            use_type_invariant(self);
        }
        let mut known: Vec<BlobHash> = Vec::new();
        let values = self.entries.values();
        let ghost all = values.remaining();
        let ghost mut seen: int = 0;
        for value in iter: values
            invariant
                iter.seq() == all,
                seen == iter.index(),
                lists_hashes(known@, known@.to_set()),
                forall|h: BlobHash| #[trigger]
                    known@.to_set().contains(h) <==> exists|j: int|
                        0 <= j < seen && *#[trigger] all[j] == h,
        {
            add_hash(&mut known, *value);
            proof {
                seen = seen + 1;
            }
        }
        proof {
            let values = all.unref();
            assert forall|h: BlobHash| known@.to_set().contains(h) == self@.values().contains(
                h,
            ) by {
                if self@.values().contains(h) {
                    assert(values.to_set().contains(h));
                    let j = choose|j: int| 0 <= j < values.len() && values[j] == h;
                    assert(*all[j] == h);
                }
                if known@.to_set().contains(h) {
                    let j = choose|j: int| 0 <= j < seen && *#[trigger] all[j] == h;
                    assert(values[j] == h);
                    assert(values.to_set().contains(h));
                }
            }
            assert(known@.to_set() =~= self@.values());
        }
        known
    }

    /// The keys that map to a blob and lie in a range, in ascending order.
    pub fn keys_in_range(&self, start: &KeyBound<K>, end: &KeyBound<K>) -> (keys: Vec<K>)
        ensures
            keys_ascend(keys@),
            forall|k: K| #[trigger]
                keys@.contains(k) <==> self@.contains_key(k) && in_range(k, *start, *end),
    {
        proof {
            use_type_invariant(self);
        }
        let mut selected: Vec<K> = Vec::new();
        let keys = self.entries.keys();
        let ghost all = keys.remaining();
        let ghost mut seen: int = 0;
        proof {
            lemma_ascending_refs(all);
        }
        for key in iter: keys
            invariant
                lawful_key::<K>(),
                iter.seq() == all,
                seen == iter.index(),
                keys_ascend(all.unref()),
                keys_ascend(selected@),
                forall|i: int|
                    0 <= i < selected@.len() ==> exists|j: int|
                        0 <= j < seen && *#[trigger] all[j] == #[trigger] selected@[i] && in_range(
                            selected@[i],
                            *start,
                            *end,
                        ),
                forall|j: int|
                    0 <= j < seen && in_range(*#[trigger] all[j], *start, *end)
                        ==> selected@.contains(*all[j]),
        {
            let ghost earlier = selected@;
            if lies_in_range(key, start, end) {
                let copy = key.clone();
                assert(cloned::<K>(*key, copy));
                selected.push(copy);
                proof {
                    let last: int = selected@.len() - 1;
                    assert(selected@[last] == *all[seen]);
                    assert forall|i: int, j: int|
                        #![trigger selected@[i], selected@[j]]
                        0 <= i < j < selected@.len() implies selected@[i].cmp_spec(&selected@[j])
                        == Ordering::Less by {
                        assert(selected@[i] == earlier[i]);
                        if j < last {
                            assert(selected@[j] == earlier[j]);
                        } else {
                            let at = choose|at: int|
                                0 <= at < seen && *#[trigger] all[at] == earlier[i] && in_range(
                                    earlier[i],
                                    *start,
                                    *end,
                                );
                            assert(all.unref()[at].cmp_spec(&all.unref()[seen])
                                == Ordering::Less);
                        }
                    }
                }
            }
            proof {
                assert forall|j: int|
                    0 <= j < seen + 1 && in_range(
                        *#[trigger] all[j],
                        *start,
                        *end,
                    ) implies selected@.contains(*all[j]) by {
                    if j < seen {
                        let i = choose|i: int| 0 <= i < earlier.len() && earlier[i] == *all[j];
                        assert(selected@[i] == *all[j]);
                    }
                }
                seen = seen + 1;
            }
        }
        proof {
            let known = all.unref();
            assert forall|k: K| #[trigger] selected@.contains(k) <==> self@.contains_key(k)
                && in_range(k, *start, *end) by {
                if selected@.contains(k) {
                    let i = choose|i: int| 0 <= i < selected@.len() && selected@[i] == k;
                    let j = choose|j: int|
                        0 <= j < seen && *#[trigger] all[j] == selected@[i] && in_range(
                            selected@[i],
                            *start,
                            *end,
                        );
                    assert(known[j] == k);
                    assert(known.to_set().contains(k));
                }
                if self@.contains_key(k) && in_range(k, *start, *end) {
                    assert(self@.dom().contains(k));
                    assert(known.to_set().contains(k));
                    let j = choose|j: int| 0 <= j < known.len() && known[j] == k;
                    assert(*all[j] == k);
                }
            }
        }
        selected
    }

    /// Carries out an operation, once it stands in the log, and returns the
    /// blobs that no key maps to any more, in ascending order. Where the
    /// operation could not be logged, nothing changes.
    pub fn apply_wal_op(
        &mut self,
        op: &WalOp<K>,
        logged: Result<(), IndexError<K>>,
    ) -> (result: Result<Vec<BlobHash>, IndexError<K>>)
        ensures
            match logged {
                Ok(_) => {
                    &&& final(self)@ == after_op(old(self)@, *op)
                    &&& result is Ok
                    &&& lists_hashes(result->Ok_0@, released(old(self)@, final(self)@))
                },
                Err(error) => {
                    &&& final(self)@ == old(self)@
                    &&& result == Err::<Vec<BlobHash>, IndexError<K>>(error)
                },
            },
    {
        proof {
            use_type_invariant(&*self);
        }
        match logged {
            Ok(_) => {},
            Err(error) => {
                return Err(error);
            },
        }
        let mut entries: BTreeMap<K, BlobHash> = BTreeMap::new();
        std::mem::swap(&mut entries, &mut self.entries);
        let ghost before = entries@;
        let mut replaced: Vec<BlobHash> = Vec::new();
        match op {
            WalOp::Put { key, hash } => {
                let copy = key.clone();
                assert(cloned::<K>(*key, copy));
                match entries.insert(copy, *hash) {
                    Some(previous) => {
                        replaced.push(previous);
                    },
                    None => {},
                }
                proof {
                    lemma_put_replaces(before, *key, *hash, replaced@);
                }
            },
            WalOp::Remove { keys } => {
                proof {
                    assert(keys@.take(0).to_set() =~= Set::empty());
                    assert(before.remove_keys(keys@.take(0).to_set()) =~= before);
                }
                let mut i: usize = 0;
                while i < keys.len()
                    invariant
                        lawful_key::<K>(),
                        i <= keys@.len(),
                        entries@ == before.remove_keys(keys@.take(i as int).to_set()),
                        covers(before, entries@, replaced@),
                    decreases keys@.len() - i,
                {
                    let ghost middle = entries@;
                    let ghost earlier = replaced@;
                    match entries.remove(&keys[i]) {
                        Some(previous) => {
                            replaced.push(previous);
                        },
                        None => {},
                    }
                    proof {
                        let key = keys@[i as int];
                        assert(keys@.take(i + 1) =~= keys@.take(i as int).push(key));
                        keys@.take(i as int).lemma_push_to_set_commute(key);
                        assert(entries@ =~= before.remove_keys(keys@.take(i + 1).to_set()));
                        lemma_remove_covers(before, middle, key, earlier, replaced@);
                    }
                    i += 1;
                }
                assert(keys@.take(keys@.len() as int) =~= keys@);
            },
        }
        assert(entries@ == after_op(before, *op));
        assert(covers(before, entries@, replaced@));
        let mut unreferenced: Vec<BlobHash> = Vec::new();
        let mut i: usize = 0;
        while i < replaced.len()
            invariant
                lawful_key::<K>(),
                i <= replaced@.len(),
                covers(before, entries@, replaced@),
                lists_hashes(unreferenced@, unreferenced@.to_set()),
                forall|h: BlobHash| #[trigger]
                    unreferenced@.to_set().contains(h) <==> replaced@.take(i as int).contains(h)
                        && !entries@.values().contains(h),
            decreases replaced@.len() - i,
        {
            let ghost earlier = unreferenced@.to_set();
            let hash: BlobHash = replaced[i];
            if !is_referenced(&entries, &hash) {
                add_hash(&mut unreferenced, hash);
            }
            proof {
                assert(replaced@.take(i + 1) =~= replaced@.take(i as int).push(hash));
                assert forall|h: BlobHash| #[trigger]
                    unreferenced@.to_set().contains(h) <==> replaced@.take(i + 1).contains(h)
                        && !entries@.values().contains(h) by {
                    if replaced@.take(i as int).contains(h) {
                        let j = choose|j: int|
                            0 <= j < i && #[trigger] replaced@.take(i as int)[j] == h;
                        assert(replaced@.take(i + 1)[j] == h);
                    }
                    if h == hash {
                        assert(replaced@.take(i + 1)[i as int] == h);
                    }
                    assert(earlier.contains(h) <==> replaced@.take(i as int).contains(h)
                        && !entries@.values().contains(h));
                }
            }
            i += 1;
        }
        proof {
            assert(replaced@.take(replaced@.len() as int) =~= replaced@);
            assert(unreferenced@.to_set() =~= released(before, entries@));
        }
        self.entries = entries;
        Ok(unreferenced)
    }
}

/// Whether `replaced` holds only blobs that were mapped to, and all of those
/// that are mapped to no more.
spec fn covers<K>(
    before: Map<K, BlobHash>,
    after: Map<K, BlobHash>,
    replaced: Seq<BlobHash>,
) -> bool {
    &&& forall|i: int| 0 <= i < replaced.len() ==> before.values().contains(#[trigger] replaced[i])
    &&& forall|h: BlobHash| #[trigger]
        before.values().contains(h) ==> after.values().contains(h) || replaced.contains(h)
}

proof fn lemma_put_replaces<K>(
    before: Map<K, BlobHash>,
    key: K,
    hash: BlobHash,
    replaced: Seq<BlobHash>,
)
    requires
        before.contains_key(key) ==> replaced == seq![before[key]],
        !before.contains_key(key) ==> replaced == Seq::<BlobHash>::empty(),
    ensures
        covers(before, before.insert(key, hash), replaced),
{
    let after = before.insert(key, hash);
    assert forall|h: BlobHash| #[trigger] before.values().contains(h) implies after.values()
        .contains(h) || replaced.contains(h) by {
        let k = choose|k: K| #[trigger] before.contains_key(k) && before[k] == h;
        if k == key {
            assert(replaced[0] == h);
        } else {
            assert(after.contains_key(k) && after[k] == h);
        }
    }
    assert forall|i: int| 0 <= i < replaced.len() implies before.values().contains(
        #[trigger] replaced[i],
    ) by {
        assert(before.contains_key(key) && before[key] == replaced[i]);
    }
}

proof fn lemma_remove_covers<K>(
    before: Map<K, BlobHash>,
    middle: Map<K, BlobHash>,
    key: K,
    earlier: Seq<BlobHash>,
    replaced: Seq<BlobHash>,
)
    requires
        covers(before, middle, earlier),
        forall|k: K| #[trigger]
            middle.contains_key(k) ==> before.contains_key(k) && before[k] == middle[k],
        middle.contains_key(key) ==> replaced == earlier.push(middle[key]),
        !middle.contains_key(key) ==> replaced == earlier,
    ensures
        covers(before, middle.remove(key), replaced),
{
    let after = middle.remove(key);
    assert forall|h: BlobHash| #[trigger] before.values().contains(h) implies after.values()
        .contains(h) || replaced.contains(h) by {
        if earlier.contains(h) {
            let i = choose|i: int| 0 <= i < earlier.len() && earlier[i] == h;
            assert(replaced[i] == h);
        } else {
            assert(middle.values().contains(h));
            let k = choose|k: K| #[trigger] middle.contains_key(k) && middle[k] == h;
            if k == key {
                assert(replaced[earlier.len() as int] == h);
            } else {
                assert(after.contains_key(k) && after[k] == h);
            }
        }
    }
    assert forall|i: int| 0 <= i < replaced.len() implies before.values().contains(
        #[trigger] replaced[i],
    ) by {
        if i < earlier.len() {
            assert(replaced[i] == earlier[i]);
        } else {
            assert(before.contains_key(key) && before[key] == replaced[i]);
        }
    }
}

} // verus!
