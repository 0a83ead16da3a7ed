//! What holds between writing and reading the byte formats.

use vstd::prelude::*;

use crate::key_map::{ascending_entries, entries_map, lemma_listing_exists, lists};
use crate::serialization::{
    entries_bytes, keys_bytes, le32, le32_value, map_bytes, op_bytes, parse_map, parse_op,
    parse_put, parse_remove, prefixed, take_entries, take_entry, take_fixed, take_keys,
    take_prefixed, take_u32, SerializationError,
};
use crate::types::{RawOp, HASH_SIZE};

verus! {

/// Whether the key and the hash of an entry can be written without loss.
pub open spec fn entry_fits(entry: (Seq<u8>, Seq<u8>)) -> bool {
    &&& entry.0.len() <= u32::MAX
    &&& entry.1.len() == HASH_SIZE
}

/// Whether a map can be written without loss: its number of entries and the
/// lengths of its keys fit into 32 bits.
pub open spec fn map_fits(map: Map<Seq<u8>, Seq<u8>>) -> bool {
    &&& map.dom().finite()
    &&& map.len() <= u32::MAX
    &&& forall|key: Seq<u8>| #[trigger] map.contains_key(key) ==> entry_fits((key, map[key]))
}

/// Whether an operation can be written without loss: its number of keys and the
/// lengths of its keys fit into 32 bits.
pub open spec fn op_fits(op: RawOp) -> bool {
    match op {
        RawOp::Put { key, hash } => entry_fits((key, hash)),
        RawOp::Remove { keys } => {
            &&& keys.len() <= u32::MAX
            &&& forall|i: int| 0 <= i < keys.len() ==> #[trigger] keys[i].len() <= u32::MAX
        },
    }
}

pub(crate) proof fn lemma_le32_value(n: nat)
    requires
        n <= u32::MAX,
    ensures
        le32_value(le32(n)) == n,
{
    let a = n / 0x100;
    let b = n / 0x1_0000;
    let c = n / 0x100_0000;
    assert(b == a / 0x100);
    assert(c == b / 0x100);
    assert(c < 256);
}

pub(crate) proof fn lemma_le32_bytes(bytes: Seq<u8>)
    requires
        bytes.len() == 4,
    ensures
        le32(le32_value(bytes) as nat) == bytes,
{
    let n = le32_value(bytes) as nat;
    assert(n == bytes[0] + 0x100 * bytes[1] + 0x1_0000 * bytes[2] + 0x100_0000 * bytes[3]);
    assert(n / 0x100 == bytes[1] + 0x100 * bytes[2] + 0x1_0000 * bytes[3]);
    assert(n / 0x1_0000 == bytes[2] + 0x100 * bytes[3]);
    assert(n / 0x100_0000 == bytes[3]);
    assert(le32(n) =~= bytes);
}

pub(crate) proof fn lemma_take_u32(n: nat, tail: Seq<u8>, parsing_context: &'static str)
    requires
        n <= u32::MAX,
    ensures
        take_u32(le32(n) + tail, parsing_context) == Ok::<(u32, Seq<u8>), SerializationError>(
            (n as u32, tail),
        ),
{
    lemma_le32_value(n);
    let input = le32(n) + tail;
    assert(input.take(4) =~= le32(n));
    assert(input.skip(4) =~= tail);
}

pub(crate) proof fn lemma_take_prefixed(data: Seq<u8>, tail: Seq<u8>, parsing_context: &'static str)
    requires
        data.len() <= u32::MAX,
    ensures
        take_prefixed(prefixed(data) + tail, parsing_context) == Ok::<
            (Seq<u8>, Seq<u8>),
            SerializationError,
        >((data, tail)),
{
    assert(prefixed(data) + tail =~= le32(data.len()) + (data + tail));
    lemma_take_u32(data.len(), data + tail, parsing_context);
    assert((data + tail).take(data.len() as int) =~= data);
    assert((data + tail).skip(data.len() as int) =~= tail);
}

pub(crate) proof fn lemma_take_hash(hash: Seq<u8>, tail: Seq<u8>, parsing_context: &'static str)
    requires
        hash.len() == HASH_SIZE,
    ensures
        take_fixed(hash + tail, HASH_SIZE, parsing_context) == Ok::<
            (Seq<u8>, Seq<u8>),
            SerializationError,
        >((hash, tail)),
{
    assert((hash + tail).take(HASH_SIZE as int) =~= hash);
    assert((hash + tail).skip(HASH_SIZE as int) =~= tail);
}

pub(crate) proof fn lemma_take_entry(entry: (Seq<u8>, Seq<u8>), tail: Seq<u8>)
    requires
        entry_fits(entry),
    ensures
        take_entry(prefixed(entry.0) + entry.1 + tail) == Ok::<
            ((Seq<u8>, Seq<u8>), Seq<u8>),
            SerializationError,
        >((entry, tail)),
{
    assert(prefixed(entry.0) + entry.1 + tail =~= prefixed(entry.0) + (entry.1 + tail));
    lemma_take_prefixed(entry.0, entry.1 + tail, "BTreeMap key");
    lemma_take_hash(entry.1, tail, "BTreeMap hash");
}

proof fn lemma_take_entries_step(
    input: Seq<u8>,
    n: nat,
    entry: (Seq<u8>, Seq<u8>),
    after: Seq<u8>,
    more: Seq<(Seq<u8>, Seq<u8>)>,
    left: Seq<u8>,
)
    requires
        n > 0,
        take_entry(input) == Ok::<((Seq<u8>, Seq<u8>), Seq<u8>), SerializationError>(
            (entry, after),
        ),
        take_entries(after, (n - 1) as nat) == Ok::<
            (Seq<(Seq<u8>, Seq<u8>)>, Seq<u8>),
            SerializationError,
        >((more, left)),
    ensures
        take_entries(input, n) == Ok::<(Seq<(Seq<u8>, Seq<u8>)>, Seq<u8>), SerializationError>(
            (seq![entry] + more, left),
        ),
{
}

pub(crate) proof fn lemma_take_entries(entries: Seq<(Seq<u8>, Seq<u8>)>, tail: Seq<u8>)
    requires
        forall|i: int| 0 <= i < entries.len() ==> entry_fits(#[trigger] entries[i]),
    ensures
        take_entries(entries_bytes(entries) + tail, entries.len()) == Ok::<
            (Seq<(Seq<u8>, Seq<u8>)>, Seq<u8>),
            SerializationError,
        >((entries, tail)),
    decreases entries.len(),
{
    if entries.len() == 0 {
        assert(entries_bytes(entries) + tail =~= tail);
        assert(entries =~= Seq::empty());
    } else {
        let rest = entries.skip(1);
        assert forall|i: int| 0 <= i < rest.len() implies entry_fits(#[trigger] rest[i]) by {
            assert(rest[i] == entries[i + 1]);
        }
        lemma_take_entries(rest, tail);
        let entry = entries[0];
        let after = entries_bytes(rest) + tail;
        let input = prefixed(entry.0) + entry.1 + after;
        assert(entries_bytes(entries) + tail =~= input);
        lemma_take_entry(entry, after);
        lemma_take_entries_step(input, entries.len(), entry, after, rest, tail);
        assert(seq![entry] + rest =~= entries);
    }
}

pub(crate) proof fn lemma_take_keys(keys: Seq<Seq<u8>>, tail: Seq<u8>)
    requires
        forall|i: int| 0 <= i < keys.len() ==> #[trigger] keys[i].len() <= u32::MAX,
    ensures
        take_keys(keys_bytes(keys) + tail, keys.len()) == Ok::<
            (Seq<Seq<u8>>, Seq<u8>),
            SerializationError,
        >((keys, tail)),
    decreases keys.len(),
{
    if keys.len() == 0 {
        assert(keys_bytes(keys) + tail =~= tail);
        assert(keys =~= Seq::empty());
    } else {
        let rest = keys.skip(1);
        assert forall|i: int| 0 <= i < rest.len() implies #[trigger] rest[i].len() <= u32::MAX by {
            assert(rest[i] == keys[i + 1]);
        }
        lemma_take_keys(rest, tail);
        assert(keys_bytes(keys) + tail =~= prefixed(keys[0]) + (keys_bytes(rest) + tail));
        lemma_take_prefixed(keys[0], keys_bytes(rest) + tail, "Remove key");
        assert(seq![keys[0]] + rest =~= keys);
    }
}

proof fn lemma_entries_fit(map: Map<Seq<u8>, Seq<u8>>)
    requires
        map_fits(map),
    ensures
        lists(ascending_entries(map), map),
        ascending_entries(map).len() == map.len(),
        forall|i: int|
            0 <= i < ascending_entries(map).len() ==> entry_fits(
                #[trigger] ascending_entries(map)[i],
            ),
{
    lemma_listing_exists(map);
    let entries = ascending_entries(map);
    assert forall|i: int| 0 <= i < entries.len() implies entry_fits(#[trigger] entries[i]) by {
        crate::key_map::lemma_entries_map_value(entries, i);
    }
}

/// An index that was written is read back as it was, whatever bytes follow.
pub proof fn law_map_read_back(map: Map<Seq<u8>, Seq<u8>>, tail: Seq<u8>)
    requires
        map_fits(map),
    ensures
        parse_map(map_bytes(map) + tail) == Ok::<Map<Seq<u8>, Seq<u8>>, SerializationError>(map),
{
    let entries = ascending_entries(map);
    lemma_entries_fit(map);
    let body = entries_bytes(entries) + tail;
    assert(map_bytes(map) + tail =~= le32(map.len()) + body);
    lemma_take_u32(map.len(), body, "BTreeMap header");
    lemma_take_entries(entries, tail);
}

/// An operation that was written is read back as it was, whatever bytes follow.
pub proof fn law_op_read_back(op: RawOp, tail: Seq<u8>)
    requires
        op_fits(op),
    ensures
        parse_op(op_bytes(op) + tail) == Ok::<RawOp, SerializationError>(op),
{
    let input = op_bytes(op) + tail;
    match op {
        RawOp::Put { key, hash } => {
            let body = prefixed(key) + (hash + tail);
            assert(input =~= seq![0u8] + body);
            assert(input.skip(1) =~= body);
            lemma_take_prefixed(key, hash + tail, "WalOpRaw Put key");
            lemma_take_hash(hash, tail, "WalOpRaw Put hash");
        },
        RawOp::Remove { keys } => {
            let body = keys_bytes(keys) + tail;
            assert(input =~= seq![1u8] + (le32(keys.len()) + body));
            assert(input.skip(1) =~= le32(keys.len()) + body);
            lemma_take_u32(keys.len(), body, "Remove num_keys");
            lemma_take_keys(keys, tail);
        },
    }
}

proof fn lemma_prefixed_cut(data: Seq<u8>, n: int, parsing_context: &'static str)
    requires
        data.len() <= u32::MAX,
        0 <= n < prefixed(data).len(),
    ensures
        take_prefixed(prefixed(data).take(n), parsing_context) is Err,
{
    let input = prefixed(data).take(n);
    if n >= 4 {
        lemma_take_u32(data.len(), data.take(n - 4), parsing_context);
        assert(input =~= le32(data.len()) + data.take(n - 4));
    }
}

proof fn lemma_entry_cut(entry: (Seq<u8>, Seq<u8>), n: int)
    requires
        entry_fits(entry),
        0 <= n < (prefixed(entry.0) + entry.1).len(),
    ensures
        take_entry((prefixed(entry.0) + entry.1).take(n)) is Err,
{
    let head = prefixed(entry.0);
    let input = (head + entry.1).take(n);
    if n < head.len() {
        lemma_prefixed_cut(entry.0, n, "BTreeMap key");
        assert(input =~= head.take(n));
    } else {
        let left = entry.1.take(n - head.len());
        assert(input =~= head + left);
        lemma_take_prefixed(entry.0, left, "BTreeMap key");
    }
}

proof fn lemma_entries_cut(entries: Seq<(Seq<u8>, Seq<u8>)>, n: int)
    requires
        forall|i: int| 0 <= i < entries.len() ==> entry_fits(#[trigger] entries[i]),
        0 <= n < entries_bytes(entries).len(),
    ensures
        take_entries(entries_bytes(entries).take(n), entries.len()) is Err,
    decreases entries.len(),
{
    let rest = entries.skip(1);
    let entry = entries[0];
    let head = prefixed(entry.0) + entry.1;
    let input = entries_bytes(entries).take(n);
    if n < head.len() {
        lemma_entry_cut(entry, n);
        assert(input =~= head.take(n));
    } else {
        assert forall|i: int| 0 <= i < rest.len() implies entry_fits(#[trigger] rest[i]) by {
            assert(rest[i] == entries[i + 1]);
        }
        lemma_entries_cut(rest, n - head.len());
        let after = entries_bytes(rest).take(n - head.len());
        assert(input =~= head + after);
        lemma_take_entry(entry, after);
    }
}

proof fn lemma_keys_cut(keys: Seq<Seq<u8>>, n: int)
    requires
        forall|i: int| 0 <= i < keys.len() ==> #[trigger] keys[i].len() <= u32::MAX,
        0 <= n < keys_bytes(keys).len(),
    ensures
        take_keys(keys_bytes(keys).take(n), keys.len()) is Err,
    decreases keys.len(),
{
    let rest = keys.skip(1);
    let head = prefixed(keys[0]);
    let input = keys_bytes(keys).take(n);
    if n < head.len() {
        lemma_prefixed_cut(keys[0], n, "Remove key");
        assert(input =~= head.take(n));
    } else {
        assert forall|i: int| 0 <= i < rest.len() implies #[trigger] rest[i].len() <= u32::MAX by {
            assert(rest[i] == keys[i + 1]);
        }
        lemma_keys_cut(rest, n - head.len());
        let after = keys_bytes(rest).take(n - head.len());
        assert(input =~= head + after);
        lemma_take_prefixed(keys[0], after, "Remove key");
    }
}

/// A written index from which bytes are missing at the end is refused.
pub proof fn law_cut_map_refused(map: Map<Seq<u8>, Seq<u8>>, n: int)
    requires
        map_fits(map),
        0 <= n < map_bytes(map).len(),
    ensures
        parse_map(map_bytes(map).take(n)) is Err,
{
    let entries = ascending_entries(map);
    lemma_entries_fit(map);
    let input = map_bytes(map).take(n);
    if n >= 4 {
        let body = entries_bytes(entries).take(n - 4);
        assert(input =~= le32(map.len()) + body);
        lemma_take_u32(map.len(), body, "BTreeMap header");
        lemma_entries_cut(entries, n - 4);
    }
}

/// A written operation from which bytes are missing at the end is refused.
pub proof fn law_cut_op_refused(op: RawOp, n: int)
    requires
        op_fits(op),
        0 <= n < op_bytes(op).len(),
    ensures
        parse_op(op_bytes(op).take(n)) is Err,
{
    let input = op_bytes(op).take(n);
    if n >= 1 {
        match op {
            RawOp::Put { key, hash } => {
                let head = prefixed(key);
                let body = (head + hash).take(n - 1);
                assert(input =~= seq![0u8] + body);
                assert(input.skip(1) =~= body);
                if n - 1 < head.len() {
                    assert(body =~= head.take(n - 1));
                    lemma_prefixed_cut(key, n - 1, "WalOpRaw Put key");
                } else {
                    let left = hash.take(n - 1 - head.len());
                    assert(body =~= head + left);
                    lemma_take_prefixed(key, left, "WalOpRaw Put key");
                }
            },
            RawOp::Remove { keys } => {
                let body = (le32(keys.len()) + keys_bytes(keys)).take(n - 1);
                assert(input =~= seq![1u8] + body);
                assert(input.skip(1) =~= body);
                if n - 1 >= 4 {
                    let left = keys_bytes(keys).take(n - 5);
                    assert(body =~= le32(keys.len()) + left);
                    lemma_take_u32(keys.len(), left, "Remove num_keys");
                    lemma_keys_cut(keys, n - 5);
                }
            },
        }
    }
}

proof fn lemma_prefixed_found(input: Seq<u8>, parsing_context: &'static str)
    ensures
        take_prefixed(input, parsing_context) matches Ok((data, rest)) ==> input == prefixed(data)
            + rest && data.len() <= u32::MAX,
{
    if let Ok((data, rest)) = take_prefixed(input, parsing_context) {
        lemma_le32_bytes(input.take(4));
        assert(input =~= prefixed(data) + rest);
    }
}

proof fn lemma_keys_found(input: Seq<u8>, n: nat)
    ensures
        take_keys(input, n) matches Ok((keys, rest)) ==> {
            &&& input == keys_bytes(keys) + rest
            &&& keys.len() == n
            &&& forall|i: int| 0 <= i < keys.len() ==> #[trigger] keys[i].len() <= u32::MAX
        },
    decreases n,
{
    if n == 0 {
        assert(keys_bytes(Seq::empty()) + input =~= input);
    } else {
        lemma_prefixed_found(input, "Remove key");
        if let Ok((key, after)) = take_prefixed(input, "Remove key") {
            lemma_keys_found(after, (n - 1) as nat);
            if let Ok((more, rest)) = take_keys(after, (n - 1) as nat) {
                let keys = seq![key] + more;
                assert(keys.skip(1) =~= more);
                assert(input =~= keys_bytes(keys) + rest);
            }
        }
    }
}

proof fn lemma_put_found(body: Seq<u8>)
    ensures
        parse_put(body) matches Ok(op) ==> op_fits(op) && op_bytes(op).is_prefix_of(
            seq![0u8] + body,
        ),
{
    if let Ok(op) = parse_put(body) {
        lemma_prefixed_found(body, "WalOpRaw Put key");
        let (key, after) = take_prefixed(body, "WalOpRaw Put key")->Ok_0;
        let (hash, rest) = take_fixed(after, HASH_SIZE, "WalOpRaw Put hash")->Ok_0;
        assert(after =~= hash + rest);
        assert(seq![0u8] + body =~= op_bytes(op) + rest);
    }
}

proof fn lemma_remove_found(body: Seq<u8>)
    ensures
        parse_remove(body) matches Ok(op) ==> op_fits(op) && op_bytes(op).is_prefix_of(
            seq![1u8] + body,
        ),
{
    if let Ok(op) = parse_remove(body) {
        let (n, after) = take_u32(body, "Remove num_keys")->Ok_0;
        lemma_le32_bytes(body.take(4));
        assert(body =~= le32(n as nat) + after);
        lemma_keys_found(after, n as nat);
        let (keys, rest) = take_keys(after, n as nat)->Ok_0;
        assert(seq![1u8] + body =~= op_bytes(op) + rest);
    }
}

/// What is read as an operation starts with that operation as it is written.
pub proof fn law_read_op_was_written(input: Seq<u8>)
    ensures
        parse_op(input) matches Ok(op) ==> op_fits(op) && op_bytes(op).is_prefix_of(input),
{
    if input.len() > 0 {
        assert(input =~= seq![input[0]] + input.skip(1));
        lemma_put_found(input.skip(1));
        lemma_remove_found(input.skip(1));
    }
}

proof fn lemma_entries_found(input: Seq<u8>, n: nat)
    ensures
        take_entries(input, n) matches Ok((entries, rest)) ==> {
            &&& entries.len() == n
            &&& forall|i: int| 0 <= i < entries.len() ==> entry_fits(#[trigger] entries[i])
        },
    decreases n,
{
    if n > 0 {
        lemma_prefixed_found(input, "BTreeMap key");
        if let Ok((entry, after)) = take_entry(input) {
            lemma_entries_found(after, (n - 1) as nat);
        }
    }
}

proof fn lemma_entries_map_fits(entries: Seq<(Seq<u8>, Seq<u8>)>)
    requires
        forall|i: int| 0 <= i < entries.len() ==> entry_fits(#[trigger] entries[i]),
    ensures
        entries_map(entries).dom().finite(),
        entries_map(entries).len() <= entries.len(),
        forall|key: Seq<u8>| #[trigger]
            entries_map(entries).contains_key(key) ==> entry_fits(
                (key, entries_map(entries)[key]),
            ),
    decreases entries.len(),
{
    if entries.len() > 0 {
        let rest = entries.drop_last();
        assert forall|i: int| 0 <= i < rest.len() implies entry_fits(#[trigger] rest[i]) by {
            assert(rest[i] == entries[i]);
        }
        lemma_entries_map_fits(rest);
        let entry = entries[entries.len() - 1];
        assert(entry == (entry.0, entry.1));
        assert(entry_fits(entry));
    }
}

/// Every index that can be read can be written without loss: written again, it
/// is read as the same index.
pub proof fn law_read_map_can_be_written(input: Seq<u8>)
    ensures
        parse_map(input) matches Ok(map) ==> map_fits(map) && parse_map(map_bytes(map)) == Ok::<
            Map<Seq<u8>, Seq<u8>>,
            SerializationError,
        >(map),
{
    if let Ok(map) = parse_map(input) {
        let (n, after) = take_u32(input, "BTreeMap header")->Ok_0;
        lemma_entries_found(after, n as nat);
        let (entries, _rest) = take_entries(after, n as nat)->Ok_0;
        lemma_entries_map_fits(entries);
        law_map_read_back(map, Seq::empty());
        assert(map_bytes(map) + Seq::<u8>::empty() =~= map_bytes(map));
    }
}

} // verus!
