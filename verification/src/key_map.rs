//! An ordered map from byte-string keys to blob hashes.

use vstd::prelude::*;

use crate::byte_order::{
    lemma_lex_asymmetric, lemma_lex_irreflexive, lemma_lex_total, lemma_lex_transitive, lex_less,
    locate_bytes, Position,
};
use crate::types::{BlobHash, HASH_SIZE};

verus! {

/// Whether the keys of `entries` stand in strictly ascending dictionary order.
pub open spec fn ascending(entries: Seq<(Seq<u8>, Seq<u8>)>) -> bool {
    forall|i: int, j: int|
        0 <= i < j < entries.len() ==> lex_less(#[trigger] entries[i].0, #[trigger] entries[j].0)
}

/// The map that results when `entries` are inserted one after the other: of two
/// entries with the same key the later one counts.
pub open spec fn entries_map(entries: Seq<(Seq<u8>, Seq<u8>)>) -> Map<Seq<u8>, Seq<u8>>
    decreases entries.len(),
{
    if entries.len() == 0 {
        Map::empty()
    } else {
        entries_map(entries.drop_last()).insert(entries.last().0, entries.last().1)
    }
}

/// Whether `entries` holds exactly the entries of `map`, in ascending order of keys.
pub open spec fn lists(entries: Seq<(Seq<u8>, Seq<u8>)>, map: Map<Seq<u8>, Seq<u8>>) -> bool {
    &&& ascending(entries)
    &&& entries_map(entries) == map
}

/// The entries of `map` in ascending order of keys.
pub open spec fn ascending_entries(map: Map<Seq<u8>, Seq<u8>>) -> Seq<(Seq<u8>, Seq<u8>)> {
    choose|entries: Seq<(Seq<u8>, Seq<u8>)>| lists(entries, map)
}

pub(crate) proof fn lemma_entries_map_keys(entries: Seq<(Seq<u8>, Seq<u8>)>, key: Seq<u8>)
    ensures
        entries_map(entries).contains_key(key) <==> exists|i: int|
            0 <= i < entries.len() && #[trigger] entries[i].0 == key,
        entries_map(entries).dom().finite(),
    decreases entries.len(),
{
    if entries.len() > 0 {
        let rest = entries.drop_last();
        lemma_entries_map_keys(rest, key);
        if entries_map(rest).contains_key(key) {
            let i = choose|i: int| 0 <= i < rest.len() && #[trigger] rest[i].0 == key;
            assert(entries[i].0 == key);
        }
        if exists|i: int| 0 <= i < entries.len() && #[trigger] entries[i].0 == key {
            let i = choose|i: int| 0 <= i < entries.len() && #[trigger] entries[i].0 == key;
            if i < rest.len() {
                assert(rest[i].0 == key);
            }
        }
    }
}

pub proof fn lemma_entries_map_value(entries: Seq<(Seq<u8>, Seq<u8>)>, i: int)
    requires
        ascending(entries),
        0 <= i < entries.len(),
    ensures
        entries_map(entries).contains_key(entries[i].0),
        entries_map(entries)[entries[i].0] == entries[i].1,
    decreases entries.len(),
{
    let rest = entries.drop_last();
    if i < rest.len() {
        assert forall|a: int, b: int| 0 <= a < b < rest.len() implies lex_less(
            #[trigger] rest[a].0,
            #[trigger] rest[b].0,
        ) by {
            assert(lex_less(entries[a].0, entries[b].0));
        }
        lemma_entries_map_value(rest, i);
        assert(rest[i] == entries[i]);
        assert(lex_less(entries[i].0, entries[entries.len() - 1].0));
        lemma_lex_asymmetric(entries[i].0, entries.last().0);
    }
}

proof fn lemma_entries_map_len(entries: Seq<(Seq<u8>, Seq<u8>)>)
    requires
        ascending(entries),
    ensures
        entries_map(entries).len() == entries.len(),
        entries_map(entries).dom().finite(),
    decreases entries.len(),
{
    if entries.len() > 0 {
        let rest = entries.drop_last();
        assert(ascending(rest));
        lemma_entries_map_len(rest);
        let key = entries.last().0;
        lemma_entries_map_keys(rest, key);
        if entries_map(rest).contains_key(key) {
            let i = choose|i: int| 0 <= i < rest.len() && #[trigger] rest[i].0 == key;
            assert(lex_less(entries[i].0, entries[entries.len() - 1].0));
            lemma_lex_irreflexive(key);
        }
    }
}

/// Ascending entries that agree with `map` on keys and values list it.
pub(crate) proof fn lemma_lists_by_lookup(entries: Seq<(Seq<u8>, Seq<u8>)>, map: Map<Seq<u8>, Seq<u8>>)
    requires
        ascending(entries),
        forall|i: int|
            0 <= i < entries.len() ==> map.contains_key(#[trigger] entries[i].0)
                && map[entries[i].0] == entries[i].1,
        forall|key: Seq<u8>| #[trigger]
            map.contains_key(key) ==> exists|i: int|
                0 <= i < entries.len() && #[trigger] entries[i].0 == key,
    ensures
        lists(entries, map),
{
    let listed = entries_map(entries);
    assert forall|key: Seq<u8>| #[trigger] listed.contains_key(key) == map.contains_key(key) by {
        lemma_entries_map_keys(entries, key);
    }
    assert forall|key: Seq<u8>| #[trigger] listed.contains_key(key) implies listed[key]
        == map[key] by {
        lemma_entries_map_keys(entries, key);
        let i = choose|i: int| 0 <= i < entries.len() && #[trigger] entries[i].0 == key;
        lemma_entries_map_value(entries, i);
    }
    assert(listed =~= map);
}

/// There is one listing of a map.
pub proof fn lemma_lists_unique(
    a: Seq<(Seq<u8>, Seq<u8>)>,
    b: Seq<(Seq<u8>, Seq<u8>)>,
    map: Map<Seq<u8>, Seq<u8>>,
)
    requires
        lists(a, map),
        lists(b, map),
    ensures
        a == b,
    decreases a.len(),
{
    lemma_entries_map_len(a);
    lemma_entries_map_len(b);
    if a.len() == 0 {
        assert(a =~= b);
    } else {
        let last = a.len() - 1;
        lemma_entries_map_value(a, last);
        lemma_entries_map_value(b, last);
        lemma_entries_map_keys(b, a[last].0);
        lemma_entries_map_keys(a, b[last].0);
        let j = choose|j: int| 0 <= j < b.len() && #[trigger] b[j].0 == a[last].0;
        let i = choose|i: int| 0 <= i < a.len() && #[trigger] a[i].0 == b[last].0;
        if j < last {
            assert(lex_less(b[j].0, b[last].0));
            if i < last {
                assert(lex_less(a[i].0, a[last].0));
                lemma_lex_asymmetric(a[i].0, a[last].0);
            } else {
                lemma_lex_irreflexive(a[last].0);
            }
        }
        assert(a[last] == b[last]);
        let key = a[last].0;
        let rest_a = a.drop_last();
        let rest_b = b.drop_last();
        assert(ascending(rest_a));
        assert(ascending(rest_b));
        lemma_entries_map_keys(rest_a, key);
        lemma_entries_map_keys(rest_b, key);
        assert(!entries_map(rest_a).contains_key(key)) by {
            if entries_map(rest_a).contains_key(key) {
                let k = choose|k: int| 0 <= k < rest_a.len() && #[trigger] rest_a[k].0 == key;
                assert(lex_less(a[k].0, a[last].0));
                lemma_lex_irreflexive(key);
            }
        }
        assert(!entries_map(rest_b).contains_key(key)) by {
            if entries_map(rest_b).contains_key(key) {
                let k = choose|k: int| 0 <= k < rest_b.len() && #[trigger] rest_b[k].0 == key;
                assert(lex_less(b[k].0, b[last].0));
                lemma_lex_irreflexive(key);
            }
        }
        assert(entries_map(rest_a) =~= map.remove(key));
        assert(entries_map(rest_b) =~= map.remove(key));
        lemma_lists_unique(rest_a, rest_b, map.remove(key));
        assert(a =~= rest_a.push(a[last]));
        assert(b =~= rest_b.push(b[last]));
    }
}

/// What lists a map is its ascending entries, as many as the map has.
pub proof fn lemma_listing(entries: Seq<(Seq<u8>, Seq<u8>)>, map: Map<Seq<u8>, Seq<u8>>)
    requires
        lists(entries, map),
    ensures
        ascending_entries(map) == entries,
        map.dom().finite(),
        map.len() == entries.len(),
{
    lemma_lists_unique(ascending_entries(map), entries, map);
    lemma_entries_map_len(entries);
}

proof fn lemma_lists_insert(
    entries: Seq<(Seq<u8>, Seq<u8>)>,
    map: Map<Seq<u8>, Seq<u8>>,
    at: int,
    key: Seq<u8>,
    value: Seq<u8>,
)
    requires
        lists(entries, map),
        0 <= at <= entries.len(),
        forall|i: int| 0 <= i < at ==> lex_less(#[trigger] entries[i].0, key),
        forall|i: int| at <= i < entries.len() ==> lex_less(key, #[trigger] entries[i].0),
    ensures
        lists(entries.insert(at, (key, value)), map.insert(key, value)),
        !map.contains_key(key),
{
    let grown = entries.insert(at, (key, value));
    let result = map.insert(key, value);
    lemma_entries_map_keys(entries, key);
    if map.contains_key(key) {
        let i = choose|i: int| 0 <= i < entries.len() && #[trigger] entries[i].0 == key;
        lemma_lex_irreflexive(key);
    }
    assert forall|i: int, j: int| 0 <= i < j < grown.len() implies lex_less(
        #[trigger] grown[i].0,
        #[trigger] grown[j].0,
    ) by {
        let old_i = if i < at { i } else { i - 1 };
        let old_j = if j < at { j } else { j - 1 };
        if i != at && j != at {
            assert(lex_less(entries[old_i].0, entries[old_j].0));
        } else if i == at {
            assert(lex_less(key, entries[old_j].0));
        } else {
            assert(lex_less(entries[old_i].0, key));
        }
    }
    assert forall|i: int| 0 <= i < grown.len() implies result.contains_key(#[trigger] grown[i].0)
        && result[grown[i].0] == grown[i].1 by {
        if i != at {
            let old_i = if i < at { i } else { i - 1 };
            assert(grown[i] == entries[old_i]);
            lemma_entries_map_value(entries, old_i);
        }
    }
    assert forall|other: Seq<u8>| #[trigger] result.contains_key(other) implies exists|i: int|
        0 <= i < grown.len() && #[trigger] grown[i].0 == other by {
        if other == key {
            assert(grown[at].0 == other);
        } else {
            lemma_entries_map_keys(entries, other);
            let i = choose|i: int| 0 <= i < entries.len() && #[trigger] entries[i].0 == other;
            let new_i = if i < at { i } else { i + 1 };
            assert(grown[new_i].0 == other);
        }
    }
    lemma_lists_by_lookup(grown, result);
}

proof fn lemma_lists_update(
    entries: Seq<(Seq<u8>, Seq<u8>)>,
    map: Map<Seq<u8>, Seq<u8>>,
    at: int,
    value: Seq<u8>,
)
    requires
        lists(entries, map),
        0 <= at < entries.len(),
    ensures
        lists(
            entries.update(at, (entries[at].0, value)),
            map.insert(entries[at].0, value),
        ),
        map.contains_key(entries[at].0),
        map[entries[at].0] == entries[at].1,
{
    let key = entries[at].0;
    let changed = entries.update(at, (key, value));
    let result = map.insert(key, value);
    lemma_entries_map_value(entries, at);
    assert forall|i: int, j: int| 0 <= i < j < changed.len() implies lex_less(
        #[trigger] changed[i].0,
        #[trigger] changed[j].0,
    ) by {
        assert(lex_less(entries[i].0, entries[j].0));
    }
    assert forall|i: int| 0 <= i < changed.len() implies result.contains_key(
        #[trigger] changed[i].0,
    ) && result[changed[i].0] == changed[i].1 by {
        lemma_entries_map_value(entries, i);
        if i < at {
            assert(lex_less(entries[i].0, entries[at].0));
            lemma_lex_asymmetric(entries[i].0, key);
        } else if at < i {
            assert(lex_less(entries[at].0, entries[i].0));
            lemma_lex_asymmetric(key, entries[i].0);
        }
    }
    assert forall|other: Seq<u8>| #[trigger] result.contains_key(other) implies exists|i: int|
        0 <= i < changed.len() && #[trigger] changed[i].0 == other by {
        if other == key {
            assert(changed[at].0 == other);
        } else {
            lemma_entries_map_keys(entries, other);
            let i = choose|i: int| 0 <= i < entries.len() && #[trigger] entries[i].0 == other;
            assert(changed[i].0 == other);
        }
    }
    lemma_lists_by_lookup(changed, result);
}

/// Where a key belongs among ascending entries that do not have it.
proof fn lemma_place(entries: Seq<(Seq<u8>, Seq<u8>)>, key: Seq<u8>) -> (at: int)
    requires
        ascending(entries),
        forall|i: int| 0 <= i < entries.len() ==> #[trigger] entries[i].0 != key,
    ensures
        0 <= at <= entries.len(),
        forall|i: int| 0 <= i < at ==> lex_less(#[trigger] entries[i].0, key),
        forall|i: int| at <= i < entries.len() ==> lex_less(key, #[trigger] entries[i].0),
    decreases entries.len(),
{
    if entries.len() == 0 {
        0
    } else {
        let last = entries.len() - 1;
        let rest = entries.drop_last();
        assert(ascending(rest));
        assert forall|i: int| 0 <= i < rest.len() implies #[trigger] rest[i].0 != key by {
            assert(entries[i].0 != key);
        }
        lemma_lex_total(entries[last].0, key);
        if lex_less(entries[last].0, key) {
            assert forall|i: int| 0 <= i < entries.len() implies lex_less(
                #[trigger] entries[i].0,
                key,
            ) by {
                if i < last {
                    lemma_lex_transitive(entries[i].0, entries[last].0, key);
                }
            }
            entries.len() as int
        } else {
            let at = lemma_place(rest, key);
            assert forall|i: int| 0 <= i < at implies lex_less(#[trigger] entries[i].0, key) by {
                assert(rest[i] == entries[i]);
            }
            assert forall|i: int| at <= i < entries.len() implies lex_less(
                key,
                #[trigger] entries[i].0,
            ) by {
                if i < last {
                    assert(rest[i] == entries[i]);
                }
            }
            at
        }
    }
}

/// Every finite map has a listing.
pub proof fn lemma_listing_exists(map: Map<Seq<u8>, Seq<u8>>)
    requires
        map.dom().finite(),
    ensures
        lists(ascending_entries(map), map),
        ascending_entries(map).len() == map.len(),
    decreases map.len(),
{
    if map.len() == 0 {
        assert(map =~= Map::empty());
        assert(lists(Seq::empty(), map));
    } else {
        assert(exists|key: Seq<u8>| map.dom().contains(key)) by {
            if forall|key: Seq<u8>| !map.dom().contains(key) {
                assert(map.dom() =~= Set::empty());
            }
        }
        let key = choose|key: Seq<u8>| map.dom().contains(key);
        let rest = map.remove(key);
        lemma_listing_exists(rest);
        let entries = ascending_entries(rest);
        assert forall|i: int| 0 <= i < entries.len() implies #[trigger] entries[i].0 != key by {
            lemma_entries_map_value(entries, i);
        }
        let at = lemma_place(entries, key);
        lemma_lists_insert(entries, rest, at, key, map[key]);
        assert(rest.insert(key, map[key]) =~= map);
        assert(lists(entries.insert(at, (key, map[key])), map));
    }
    lemma_listing(ascending_entries(map), map);
}

/// An ordered map from byte-string keys to blob hashes, kept as a vector of
/// entries in ascending order of keys.
#[derive(Debug, PartialEq, Eq)]
pub struct KeyMap {
    entries: Vec<(Vec<u8>, BlobHash)>,
}

spec fn entry_views(entries: Seq<(Vec<u8>, BlobHash)>) -> Seq<(Seq<u8>, Seq<u8>)> {
    entries.map_values(|entry: (Vec<u8>, BlobHash)| (entry.0@, entry.1@))
}

impl View for KeyMap {
    type V = Map<Seq<u8>, Seq<u8>>;

    closed spec fn view(&self) -> Map<Seq<u8>, Seq<u8>> {
        entries_map(entry_views(self.entries@))
    }
}

impl KeyMap {
    #[verifier::type_invariant]
    spec fn well_formed(self) -> bool {
        ascending(entry_views(self.entries@))
    }

    /// An empty map.
    pub fn new() -> (map: Self)
        ensures
            map@ == Map::<Seq<u8>, Seq<u8>>::empty(),
    {
        let map = KeyMap { entries: Vec::new() };
        assert(entry_views(map.entries@).len() == 0);
        map
    }

    /// Number of entries. Each has a key and a whole hash.
    pub fn len(&self) -> (len: usize)
        ensures
            len == self@.len(),
            self@.dom().finite(),
            forall|key: Seq<u8>| #[trigger]
                self@.contains_key(key) ==> self@[key].len() == HASH_SIZE,
    {
        proof {
            use_type_invariant(self);
            let views = entry_views(self.entries@);
            lemma_entries_map_len(views);
            assert forall|key: Seq<u8>| #[trigger] self@.contains_key(key) implies self@[key].len()
                == HASH_SIZE by {
                lemma_entries_map_keys(views, key);
                let i = choose|i: int| 0 <= i < views.len() && #[trigger] views[i].0 == key;
                lemma_entries_map_value(views, i);
                assert(views[i].1 == self.entries@[i].1@);
            }
        }
        self.entries.len()
    }

    /// The entry that has `i` smaller keys before it.
    pub fn entry(&self, i: usize) -> (entry: (&Vec<u8>, &BlobHash))
        requires
            i < self@.len(),
        ensures
            lists(ascending_entries(self@), self@),
            i < ascending_entries(self@).len(),
            ascending_entries(self@)[i as int] == (entry.0@, entry.1@),
    {
        proof {
            use_type_invariant(self);
            lemma_listing(entry_views(self.entries@), self@);
        }
        let entry = &self.entries[i];
        (&entry.0, &entry.1)
    }

    /// The first place whose key does not stand before `key`, and whether that
    /// key is `key` itself.
    fn find(entries: &Vec<(Vec<u8>, BlobHash)>, key: &Vec<u8>) -> (place: (usize, bool))
        requires
            ascending(entry_views(entries@)),
        ensures
            place.0 <= entries@.len(),
            forall|i: int|
                0 <= i < place.0 ==> lex_less(#[trigger] entry_views(entries@)[i].0, key@),
            place.1 ==> place.0 < entries@.len() && entries@[place.0 as int].0@ == key@,
            !place.1 ==> forall|i: int|
                place.0 <= i < entries@.len() ==> lex_less(
                    key@,
                    #[trigger] entry_views(entries@)[i].0,
                ),
    {
        let ghost views = entry_views(entries@);
        let mut low: usize = 0;
        let mut high: usize = entries.len();
        while low < high
            invariant
                low <= high <= entries@.len(),
                views == entry_views(entries@),
                ascending(views),
                forall|i: int| 0 <= i < low ==> lex_less(#[trigger] views[i].0, key@),
                forall|i: int| high <= i < entries@.len() ==> lex_less(key@, #[trigger] views[i].0),
            decreases high - low,
        {
            let middle: usize = low + (high - low) / 2;
            let ghost at = middle as int;
            assert(views[at].0 == entries@[at].0@);
            match locate_bytes(entries[middle].0.as_slice(), key.as_slice()) {
                Position::Before => {
                    proof {
                        assert forall|i: int| 0 <= i < middle + 1 implies lex_less(
                            #[trigger] views[i].0,
                            key@,
                        ) by {
                            if i < at {
                                lemma_lex_transitive(views[i].0, views[at].0, key@);
                            }
                        }
                    }
                    low = middle + 1;
                },
                Position::Same => {
                    return (middle, true);
                },
                Position::After => {
                    proof {
                        assert forall|i: int| middle <= i < entries@.len() implies lex_less(
                            key@,
                            #[trigger] views[i].0,
                        ) by {
                            if at < i {
                                lemma_lex_transitive(key@, views[at].0, views[i].0);
                            }
                        }
                    }
                    high = middle;
                },
            }
        }
        (low, false)
    }

    /// The hash under `key`.
    pub fn get(&self, key: &Vec<u8>) -> (hash: Option<BlobHash>)
        ensures
            match hash {
                Some(found) => self@.contains_key(key@) && self@[key@] == found@,
                None => !self@.contains_key(key@),
            },
    {
        proof {
            use_type_invariant(self);
        }
        let ghost views = entry_views(self.entries@);
        let (at, found) = Self::find(&self.entries, key);
        if found {
            proof {
                lemma_entries_map_value(views, at as int);
            }
            Some(self.entries[at].1)
        } else {
            proof {
                lemma_entries_map_keys(views, key@);
                lemma_lex_irreflexive(key@);
                assert forall|i: int| 0 <= i < views.len() implies #[trigger] views[i].0 != key@ by {
                    if i < at {
                        assert(lex_less(views[i].0, key@));
                    } else {
                        assert(lex_less(key@, views[i].0));
                    }
                }
            }
            None
        }
    }

    /// Puts `hash` under `key` and returns what stood there before.
    pub fn insert(&mut self, key: Vec<u8>, hash: BlobHash) -> (previous: Option<BlobHash>)
        ensures
            final(self)@ == old(self)@.insert(key@, hash@),
            match previous {
                Some(before) => old(self)@.contains_key(key@) && old(self)@[key@] == before@,
                None => !old(self)@.contains_key(key@),
            },
    {
        proof {
            use_type_invariant(&*self);
        }
        let mut entries: Vec<(Vec<u8>, BlobHash)> = Vec::new();
        assert(entry_views(entries@).len() == 0);
        std::mem::swap(&mut entries, &mut self.entries);
        let ghost before = entries@;
        let ghost map = entries_map(entry_views(before));
        let (at, found) = Self::find(&entries, &key);
        let mut previous: Option<BlobHash> = None;
        if found {
            previous = Some(entries[at].1);
            proof {
                lemma_lists_update(entry_views(before), map, at as int, hash@);
            }
            entries[at].1 = hash;
            assert(entry_views(entries@) =~= entry_views(before).update(at as int, (key@, hash@)));
        } else {
            proof {
                lemma_lists_insert(entry_views(before), map, at as int, key@, hash@);
            }
            entries.insert(at, (key, hash));
            assert(entry_views(entries@) =~= entry_views(before).insert(at as int, (key@, hash@)));
        }
        self.entries = entries;
        previous
    }
}

} // verus!
