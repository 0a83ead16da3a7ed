//! What the orders of this crate are: of byte strings, of hashes, of keys in a
//! range, and of the entries of a map.

use std::cmp::Ordering;

use vstd::prelude::*;
use vstd::std_specs::cmp::{OrdSpec, PartialEqSpec, PartialOrdSpec};

use crate::byte_order::{lemma_lex_asymmetric, lex_less, locate_bytes, Position};
use crate::hash_list::lists_hashes;
use crate::index::{in_range, lawful_key, Index, KeyBound};
use crate::key_map::{
    ascending_entries, lemma_entries_map_keys, lemma_entries_map_value, lemma_listing_exists,
    KeyMap,
};
use crate::types::{lemma_hash_extensional, BlobHash};

verus! {

// Byte strings.

/// A byte string stands before another where, behind a common start of some
/// length, it ends and the other goes on, or has the smaller byte.
pub proof fn law_first_difference_decides(a: Seq<u8>, b: Seq<u8>)
    ensures
        lex_less(a, b) <==> exists|k: int|
            #![trigger a.take(k)]
            0 <= k <= a.len() && k < b.len() && a.take(k) == b.take(k) && (k == a.len() || a[k]
                < b[k]),
    decreases a.len(),
{
    if a.len() > 0 && b.len() > 0 && a[0] == b[0] {
        let (x, y) = (a.skip(1), b.skip(1));
        law_first_difference_decides(x, y);
        if lex_less(a, b) {
            let k = choose|k: int|
                #![trigger x.take(k)]
                0 <= k <= x.len() && k < y.len() && x.take(k) == y.take(k) && (k == x.len() || x[k]
                    < y[k]);
            assert(a.take(k + 1) =~= seq![a[0]] + x.take(k));
            assert(b.take(k + 1) =~= seq![b[0]] + y.take(k));
        }
        if exists|k: int|
            #![trigger a.take(k)]
            0 <= k <= a.len() && k < b.len() && a.take(k) == b.take(k) && (k == a.len() || a[k]
                < b[k]) {
            let k = choose|k: int|
                #![trigger a.take(k)]
                0 <= k <= a.len() && k < b.len() && a.take(k) == b.take(k) && (k == a.len() || a[k]
                    < b[k]);
            assert(k > 0);
            assert(x.take(k - 1) =~= a.take(k).skip(1));
            assert(y.take(k - 1) =~= b.take(k).skip(1));
        }
    } else if b.len() > 0 {
        assert(a.take(0) =~= b.take(0));
        if exists|k: int|
            #![trigger a.take(k)]
            0 <= k <= a.len() && k < b.len() && a.take(k) == b.take(k) && (k == a.len() || a[k]
                < b[k]) {
            let k = choose|k: int|
                #![trigger a.take(k)]
                0 <= k <= a.len() && k < b.len() && a.take(k) == b.take(k) && (k == a.len() || a[k]
                    < b[k]);
            if k > 0 {
                assert(a.take(k)[0] == b.take(k)[0]);
            }
        }
    }
}

/// Two byte strings are found to be the same exactly when they are; otherwise the
/// one with the smaller byte at a place up to which they agree stands before the
/// other, and so does one that ends there.
pub proof fn law_located_by_the_first_difference(
    a: &[u8],
    b: &[u8],
    k: int,
    position: Position,
)
    requires
        call_ensures(locate_bytes, (a, b), position),
        0 <= k <= a@.len(),
        k <= b@.len(),
        a@.take(k) == b@.take(k),
    ensures
        position == Position::Same <==> a@ == b@,
        k < b@.len() && (k == a@.len() || a@[k] < b@[k]) ==> position == Position::Before,
        k < a@.len() && (k == b@.len() || b@[k] < a@[k]) ==> position == Position::After,
{
    law_first_difference_decides(a@, b@);
    law_first_difference_decides(b@, a@);
    assert(b@.take(k) == a@.take(k));
}

/// Whether `a` has the smaller byte at the first place where two hashes differ.
pub open spec fn smaller_where_they_differ(a: BlobHash, b: BlobHash) -> bool {
    exists|k: int|
        0 <= k < 32 && #[trigger] a.0[k] < b.0[k] && (forall|m: int|
            0 <= m < k ==> #[trigger] a.0[m] == b.0[m])
}

/// A list of hashes holds exactly the hashes of its set. Of two of them the
/// earlier has the smaller byte at the first place where they differ.
pub proof fn law_listed_hashes_ascend(hashes: Seq<BlobHash>, set: Set<BlobHash>)
    requires
        lists_hashes(hashes, set),
    ensures
        forall|hash: BlobHash| #[trigger] hashes.contains(hash) <==> set.contains(hash),
        forall|i: int, j: int|
            #![trigger hashes[i], hashes[j]]
            0 <= i < j < hashes.len() ==> smaller_where_they_differ(hashes[i], hashes[j]),
{
    assert forall|hash: BlobHash| #[trigger] hashes.contains(hash) <==> set.contains(hash) by {
        assert(hashes.to_set().contains(hash) == hashes.contains(hash));
    }
    assert forall|i: int, j: int|
        #![trigger hashes[i], hashes[j]]
        0 <= i < j < hashes.len() implies smaller_where_they_differ(hashes[i], hashes[j]) by {
        let (a, b) = (hashes[i].0@, hashes[j].0@);
        assert(lex_less(hashes[i]@, hashes[j]@));
        law_first_difference_decides(a, b);
        let k = choose|k: int|
            #![trigger a.take(k)]
            0 <= k <= a.len() && k < b.len() && a.take(k) == b.take(k) && (k == a.len() || a[k]
                < b[k]);
        assert(hashes[i].0[k] < hashes[j].0[k]);
        assert forall|m: int| 0 <= m < k implies #[trigger] hashes[i].0[m] == hashes[j].0[m] by {
            assert(a.take(k)[m] == b.take(k)[m]);
        }
    }
}

// Keys in a range.

/// The two ends of a range count apart from each other, and an end that is not
/// there shuts nothing out.
pub proof fn law_range_ends_count_apart<K: Ord>(key: K, start: KeyBound<K>, end: KeyBound<K>)
    ensures
        in_range(key, start, end) <==> in_range(key, start, KeyBound::Unbounded) && in_range(
            key,
            KeyBound::Unbounded,
            end,
        ),
        in_range(key, KeyBound::Unbounded, KeyBound::Unbounded),
{
}

/// A range up to a key and with it has that key and all smaller keys, whatever
/// else bounds it below; one up to a key and without it has the smaller ones.
pub proof fn law_range_end<K: Ord + Clone>(key: K, bound: K)
    requires
        lawful_key::<K>(),
    ensures
        in_range(key, KeyBound::Unbounded, KeyBound::Included(bound)) <==> key == bound
            || key.cmp_spec(&bound) == Ordering::Less,
        in_range(key, KeyBound::Unbounded, KeyBound::Excluded(bound)) <==> key.cmp_spec(&bound)
            == Ordering::Less,
{
    lemma_key_order(key, bound);
}

/// A range from a key on and with it has that key and all greater keys; one from
/// a key on and without it has the greater ones.
pub proof fn law_range_start<K: Ord + Clone>(key: K, bound: K)
    requires
        lawful_key::<K>(),
    ensures
        in_range(key, KeyBound::Included(bound), KeyBound::Unbounded) <==> key == bound
            || bound.cmp_spec(&key) == Ordering::Less,
        in_range(key, KeyBound::Excluded(bound), KeyBound::Unbounded) <==> bound.cmp_spec(&key)
            == Ordering::Less,
{
    lemma_key_order(key, bound);
}

/// Two keys compare as equal exactly when they are, and the other way round as
/// the other way round.
pub proof fn lemma_key_order<K: Ord + Clone>(a: K, b: K)
    requires
        lawful_key::<K>(),
    ensures
        a.cmp_spec(&b) == Ordering::Equal <==> a == b,
        b.cmp_spec(&a) == Ordering::Equal <==> a == b,
        a.cmp_spec(&b) == Ordering::Less <==> b.cmp_spec(&a) == Ordering::Greater,
        a.cmp_spec(&b) == Ordering::Greater <==> b.cmp_spec(&a) == Ordering::Less,
{
    reveal(vstd::laws_eq::obeys_concrete_eq);
    reveal(vstd::laws_cmp::obeys_cmp_partial_ord);
    reveal(vstd::laws_cmp::obeys_cmp_ord);
    reveal(vstd::laws_cmp::obeys_partial_cmp_spec_properties);
    assert(a.eq_spec(&b) <==> a == b);
    assert(b.eq_spec(&a) <==> b == a);
    assert(a.partial_cmp_spec(&b) == Some(a.cmp_spec(&b)));
    assert(b.partial_cmp_spec(&a) == Some(b.cmp_spec(&a)));
}

/// The keys of a range are the known keys that lie between its ends, each once,
/// the smaller before the greater.
pub proof fn law_keys_in_range_are_the_known_ones<K: Ord + Clone>(
    index: &Index<K>,
    start: &KeyBound<K>,
    end: &KeyBound<K>,
    keys: Vec<K>,
    from_start: Vec<K>,
    to_end: Vec<K>,
    key: K,
)
    requires
        lawful_key::<K>(),
        call_ensures(Index::<K>::keys_in_range, (index, start, end), keys),
        call_ensures(Index::<K>::keys_in_range, (index, start, &KeyBound::Unbounded), from_start),
        call_ensures(Index::<K>::keys_in_range, (index, &KeyBound::Unbounded, end), to_end),
    ensures
        keys@.contains(key) <==> from_start@.contains(key) && to_end@.contains(key),
        from_start@.contains(key) <==> index@.contains_key(key) && (match *start {
            KeyBound::Included(bound) => key == bound || bound.cmp_spec(&key) == Ordering::Less,
            KeyBound::Excluded(bound) => bound.cmp_spec(&key) == Ordering::Less,
            KeyBound::Unbounded => true,
        }),
        to_end@.contains(key) <==> index@.contains_key(key) && (match *end {
            KeyBound::Included(bound) => key == bound || key.cmp_spec(&bound) == Ordering::Less,
            KeyBound::Excluded(bound) => key.cmp_spec(&bound) == Ordering::Less,
            KeyBound::Unbounded => true,
        }),
        forall|i: int, j: int|
            #![trigger keys@[i], keys@[j]]
            0 <= i < j < keys@.len() ==> keys@[i].cmp_spec(&keys@[j]) == Ordering::Less
                && keys@[i] != keys@[j],
{
    law_range_ends_count_apart(key, *start, *end);
    match *start {
        KeyBound::Included(bound) => law_range_start(key, bound),
        KeyBound::Excluded(bound) => law_range_start(key, bound),
        KeyBound::Unbounded => {},
    }
    match *end {
        KeyBound::Included(bound) => law_range_end(key, bound),
        KeyBound::Excluded(bound) => law_range_end(key, bound),
        KeyBound::Unbounded => {},
    }
    assert forall|i: int, j: int|
        #![trigger keys@[i], keys@[j]]
        0 <= i < j < keys@.len() implies keys@[i].cmp_spec(&keys@[j]) == Ordering::Less && keys@[i]
        != keys@[j] by {
        lemma_key_order(keys@[i], keys@[j]);
    }
}

// Maps.

/// A new map has no key and no entry.
pub proof fn law_new_map_is_empty(map: KeyMap, key: &Vec<u8>, found: Option<BlobHash>, len: usize)
    requires
        call_ensures(KeyMap::new, (), map),
        call_ensures(KeyMap::get, (&map, key), found),
        call_ensures(KeyMap::len, (&map,), len),
    ensures
        found is None,
        len == 0,
{
}

/// After an insertion the key has the new hash, what it had before is handed
/// back, every other key has what it had, and there is one entry more exactly
/// where the key had nothing.
pub proof fn law_insertion_sets_one_key(
    map: &mut KeyMap,
    key: Vec<u8>,
    hash: BlobHash,
    previous: Option<BlobHash>,
    other: &Vec<u8>,
    before: Option<BlobHash>,
    after: Option<BlobHash>,
    len_before: usize,
    len_after: usize,
)
    requires
        call_ensures(KeyMap::insert, (map, key, hash), previous),
        call_ensures(KeyMap::get, (&*old(map), other), before),
        call_ensures(KeyMap::get, (&*final(map), other), after),
        call_ensures(KeyMap::len, (&*old(map),), len_before),
        call_ensures(KeyMap::len, (&*final(map),), len_after),
    ensures
        other@ == key@ ==> after == Some(hash) && before == previous,
        other@ != key@ ==> after == before,
        len_after == (if previous is None {
            len_before + 1
        } else {
            len_before as int
        }),
{
    if let (Some(a), Some(b)) = (before, after) {
        if a@ == b@ {
            lemma_hash_extensional(a, b);
        }
    }
    if let Some(b) = after {
        if b@ == hash@ {
            lemma_hash_extensional(b, hash);
        }
    }
    if let (Some(a), Some(b)) = (before, previous) {
        if a@ == b@ {
            lemma_hash_extensional(a, b);
        }
    }
}

/// The entries of a map come in dictionary order of their keys, each is found
/// under its key, and each key that is found has an entry.
pub proof fn law_entries_come_in_order(
    map: &KeyMap,
    i: usize,
    j: usize,
    a: (&Vec<u8>, &BlobHash),
    b: (&Vec<u8>, &BlobHash),
    key: &Vec<u8>,
    found: Option<BlobHash>,
    len: usize,
)
    requires
        i < j,
        j < len,
        call_ensures(KeyMap::len, (map,), len),
        call_ensures(KeyMap::entry, (map, i), a),
        call_ensures(KeyMap::entry, (map, j), b),
        call_ensures(KeyMap::get, (map, key), found),
    ensures
        lex_less(a.0@, b.0@),
        a.0@ != b.0@,
        key@ == a.0@ ==> found == Some(*a.1),
        key@ == b.0@ ==> found == Some(*b.1),
        found is Some ==> exists|k: int|
            0 <= k < len && #[trigger] ascending_entries(map@)[k].0 == key@,
{
    let entries = ascending_entries(map@);
    lemma_listing_exists(map@);
    assert(lex_less(entries[i as int].0, entries[j as int].0));
    lemma_lex_asymmetric(a.0@, b.0@);
    lemma_entries_map_value(entries, i as int);
    lemma_entries_map_value(entries, j as int);
    lemma_entries_map_keys(entries, key@);
    if let Some(hash) = found {
        if hash@ == a.1@ {
            lemma_hash_extensional(hash, *a.1);
        }
        if hash@ == b.1@ {
            lemma_hash_extensional(hash, *b.1);
        }
    }
}

/// What is found under a key is what the map holds for it, byte for byte.
pub proof fn law_lookup_finds_the_bytes(map: &KeyMap, key: &Vec<u8>, found: Option<BlobHash>)
    requires
        call_ensures(KeyMap::get, (map, key), found),
    ensures
        found is Some <==> map@.contains_key(key@),
        found matches Some(hash) ==> map@[key@] == hash.0@,
{
}

/// Every entry of a map, the only one too, is found under its key.
pub proof fn law_entry_is_found_under_its_key(
    map: &KeyMap,
    i: usize,
    entry: (&Vec<u8>, &BlobHash),
    key: &Vec<u8>,
    found: Option<BlobHash>,
)
    requires
        call_ensures(KeyMap::entry, (map, i), entry),
        call_ensures(KeyMap::get, (map, key), found),
        key@ == entry.0@,
    ensures
        found == Some(*entry.1),
{
    lemma_entries_map_value(ascending_entries(map@), i as int);
    if let Some(hash) = found {
        lemma_hash_extensional(hash, *entry.1);
    }
}

} // verus!
