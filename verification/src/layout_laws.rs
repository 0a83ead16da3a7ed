//! Which byte stands where in the byte formats, and what is read from which byte.

use vstd::prelude::*;

use crate::byte_order::lex_less;
use crate::format_laws::{
    law_map_read_back, law_op_read_back, lemma_le32_bytes, lemma_take_entries, lemma_take_entry,
    lemma_take_hash, lemma_take_keys, lemma_take_prefixed, lemma_take_u32,
};
use crate::key_map::{
    ascending_entries, entries_map, lemma_entries_map_keys, lemma_entries_map_value, lemma_listing,
    lemma_listing_exists, lemma_lists_by_lookup, KeyMap,
};
use crate::serialization::{
    deserialize_btreemap_bytes_to_hash, deserialize_wal_op_raw, entries_bytes, keys_bytes, le32,
    le32_value, lemma_entries_bytes_push, lemma_keys_bytes_push, prefixed, read_bytes_with_len,
    read_fixed_bytes, read_u32, read_u8, serialize_btreemap_bytes_to_hash, serialize_wal_op_raw,
    take_entries, take_entry, take_keys, take_prefixed, SerializationError,
};
use crate::types::{lemma_hash_extensional, BlobHash, RawOp, WalOpRaw};

verus! {

/// The number that the four bytes from `at` on stand for, the lowest byte first.
pub open spec fn number_at(bytes: Seq<u8>, at: int) -> int {
    bytes[at] + 0x100 * bytes[at + 1] + 0x1_0000 * bytes[at + 2] + 0x100_0000 * bytes[at + 3]
}

proof fn lemma_number_written(n: nat)
    ensures
        le32(n).len() == 4,
        number_at(le32(n), 0) == n % 0x1_0000_0000,
{
    let a = n / 0x100;
    let b = n / 0x1_0000;
    let c = n / 0x100_0000;
    assert(b == a / 0x100);
    assert(c == b / 0x100);
    assert(c / 0x100 == n / 0x1_0000_0000);
}

proof fn lemma_number_read(bytes: Seq<u8>, at: int)
    requires
        0 <= at,
        at + 4 <= bytes.len(),
    ensures
        0 <= number_at(bytes, at) <= u32::MAX,
        le32_value(bytes.subrange(at, at + 4)) == number_at(bytes, at),
        le32(number_at(bytes, at) as nat) == bytes.subrange(at, at + 4),
{
    lemma_le32_bytes(bytes.subrange(at, at + 4));
}

// Reading the parts.

/// One byte is read off the front, and where there is none, nothing changes.
pub proof fn law_read_u8_takes_the_first_byte(
    bytes: &mut &[u8],
    parsing_context: &'static str,
    result: Result<u8, SerializationError>,
)
    requires
        call_ensures(read_u8, (bytes, parsing_context), result),
    ensures
        ({
            let before = (*old(bytes))@;
            let after = (*final(bytes))@;
            if before.len() == 0 {
                &&& result == Err::<u8, SerializationError>(
                    SerializationError::UnexpectedEof { parsing_context },
                )
                &&& after.len() == 0
            } else {
                &&& result == Ok::<u8, SerializationError>(before[0])
                &&& after.len() == before.len() - 1
                &&& forall|j: int| 0 <= j < after.len() ==> #[trigger] after[j] == before[1 + j]
            }
        }),
{
}

/// A number is read off the front, its lowest byte first, and where fewer than
/// four bytes are left, nothing changes.
pub proof fn law_read_u32_takes_four_bytes(
    bytes: &mut &[u8],
    parsing_context: &'static str,
    result: Result<u32, SerializationError>,
)
    requires
        call_ensures(read_u32, (bytes, parsing_context), result),
    ensures
        ({
            let before = (*old(bytes))@;
            let after = (*final(bytes))@;
            if before.len() < 4 {
                &&& result == Err::<u32, SerializationError>(
                    SerializationError::InsufficientData {
                        entity: "u32",
                        expected: 4,
                        found: before.len() as usize,
                        parsing_context,
                    },
                )
                &&& after == before
            } else {
                &&& result matches Ok(value)
                &&& value == before[0] + 0x100 * before[1] + 0x1_0000 * before[2] + 0x100_0000
                    * before[3]
                &&& after.len() == before.len() - 4
                &&& forall|j: int| 0 <= j < after.len() ==> #[trigger] after[j] == before[4 + j]
            }
        }),
{
}

/// `N` bytes are read off the front, and where fewer are left, nothing changes.
pub proof fn law_read_fixed_bytes_takes_the_first_bytes<const N: usize>(
    bytes: &mut &[u8],
    parsing_context: &'static str,
    result: Result<[u8; N], SerializationError>,
)
    requires
        call_ensures(read_fixed_bytes::<N>, (bytes, parsing_context), result),
    ensures
        ({
            let before = (*old(bytes))@;
            let after = (*final(bytes))@;
            if before.len() < N {
                &&& result == Err::<[u8; N], SerializationError>(
                    SerializationError::InsufficientData {
                        entity: "fixed bytes",
                        expected: N,
                        found: before.len() as usize,
                        parsing_context,
                    },
                )
                &&& after == before
            } else {
                &&& result matches Ok(value)
                &&& forall|j: int| 0 <= j < N ==> #[trigger] value[j] == before[j]
                &&& after.len() == before.len() - N
                &&& forall|j: int| 0 <= j < after.len() ==> #[trigger] after[j] == before[N + j]
            }
        }),
{
    let before = (*old(bytes))@;
    if before.len() >= N {
        let value = result->Ok_0;
        assert forall|j: int| 0 <= j < N implies #[trigger] value[j] == before[j] by {
            assert(value@[j] == before.take(N as int)[j]);
        }
    }
}

/// A byte string is read off the front behind its length. Where it is too short,
/// the length is gone; where there is no length, nothing changes.
pub proof fn law_read_bytes_with_len_takes_as_many_as_it_says(
    bytes: &mut &[u8],
    parsing_context: &'static str,
    result: Result<Vec<u8>, SerializationError>,
)
    requires
        call_ensures(read_bytes_with_len, (bytes, parsing_context), result),
    ensures
        ({
            let before = (*old(bytes))@;
            let after = (*final(bytes))@;
            let len = number_at(before, 0);
            if before.len() < 4 {
                &&& result == Err::<Vec<u8>, SerializationError>(
                    SerializationError::InsufficientData {
                        entity: "u32",
                        expected: 4,
                        found: before.len() as usize,
                        parsing_context,
                    },
                )
                &&& after == before
            } else if before.len() < 4 + len {
                &&& result == Err::<Vec<u8>, SerializationError>(
                    SerializationError::InsufficientData {
                        entity: "variable-length bytes",
                        expected: len as usize,
                        found: (before.len() - 4) as usize,
                        parsing_context,
                    },
                )
                &&& after.len() == before.len() - 4
                &&& forall|j: int| 0 <= j < after.len() ==> #[trigger] after[j] == before[4 + j]
            } else {
                &&& result matches Ok(value)
                &&& value@.len() == len
                &&& forall|j: int| 0 <= j < len ==> #[trigger] value@[j] == before[4 + j]
                &&& after.len() == before.len() - 4 - len
                &&& forall|j: int|
                    0 <= j < after.len() ==> #[trigger] after[j] == before[4 + len + j]
            }
        }),
{
    let before = (*old(bytes))@;
    if before.len() >= 4 {
        lemma_number_read(before, 0);
        assert(before.take(4) =~= before.subrange(0, 4));
        let rest = before.skip(4);
        assert(rest.len() == before.len() - 4);
    }
}

// Log operations.

/// A put is written as the tag 0, the length of the key, the key and the hash,
/// each byte as it is.
pub proof fn law_put_layout(
    key_bytes: Vec<u8>,
    hash: BlobHash,
    result: Result<Vec<u8>, SerializationError>,
)
    requires
        call_ensures(serialize_wal_op_raw, (&WalOpRaw::Put { key_bytes, hash },), result),
    ensures
        result is Ok,
        ({
            let bytes = result->Ok_0@;
            let len = key_bytes@.len() as int;
            &&& bytes.len() == 5 + len + 32
            &&& bytes[0] == 0
            &&& bytes[1] + 0x100 * bytes[2] + 0x1_0000 * bytes[3] + 0x100_0000 * bytes[4] == len
                % 0x1_0000_0000
            &&& forall|j: int| 0 <= j < len ==> bytes[5 + j] == #[trigger] key_bytes@[j]
            &&& forall|j: int| 0 <= j < 32 ==> bytes[5 + len + j] == #[trigger] hash.0[j]
        }),
{
    let bytes = result->Ok_0@;
    let len = key_bytes@.len();
    lemma_number_written(len);
    let parts = seq![0u8] + (le32(len) + key_bytes@) + hash.0@;
    assert(bytes == parts);
    assert(forall|j: int| 0 <= j < 4 ==> bytes[1 + j] == #[trigger] le32(len)[j]);
    assert forall|j: int| 0 <= j < 32 implies bytes[5 + len + j] == #[trigger] hash.0[j] by {
        assert(parts[5 + len + j] == hash.0@[j]);
    }
}

/// Bytes that start with the tag 0, a length, that many bytes and 32 more are
/// read as the put of those bytes and that hash, whatever follows.
pub proof fn law_put_read(bytes: &[u8], result: Result<WalOpRaw, SerializationError>)
    requires
        call_ensures(deserialize_wal_op_raw, (bytes,), result),
        bytes@.len() >= 5,
        bytes@[0] == 0,
        bytes@.len() >= 5 + number_at(bytes@, 1) + 32,
    ensures
        ({
            let len = number_at(bytes@, 1);
            &&& result matches Ok(WalOpRaw::Put { key_bytes, hash })
            &&& key_bytes@.len() == len
            &&& forall|j: int| 0 <= j < len ==> #[trigger] key_bytes@[j] == bytes@[5 + j]
            &&& forall|j: int| 0 <= j < 32 ==> #[trigger] hash.0[j] == bytes@[5 + len + j]
        }),
{
    let input = bytes@;
    let len = number_at(input, 1);
    lemma_number_read(input, 1);
    let key = input.subrange(5, 5 + len);
    let hash = input.subrange(5 + len, 5 + len + 32);
    let tail = input.skip(5 + len + 32);
    assert(input.skip(1) =~= prefixed(key) + (hash + tail));
    lemma_take_prefixed(key, hash + tail, "WalOpRaw Put key");
    lemma_take_hash(hash, tail, "WalOpRaw Put hash");
    match result {
        Ok(WalOpRaw::Put { key_bytes, hash: found }) => {
            assert(key_bytes@ == key);
            assert(found@ == hash);
            assert forall|j: int| 0 <= j < 32 implies #[trigger] found.0[j] == input[5 + len
                + j] by {
                assert(found@[j] == hash[j]);
            }
        },
        _ => {},
    }
}

/// A put that ends too early is refused, and the error says what was missing.
pub proof fn law_short_put_refused(bytes: &[u8], result: Result<WalOpRaw, SerializationError>)
    requires
        call_ensures(deserialize_wal_op_raw, (bytes,), result),
        bytes@.len() >= 1,
        bytes@[0] == 0,
        bytes@.len() < 5 || bytes@.len() < 5 + number_at(bytes@, 1) + 32,
    ensures
        ({
            let len = number_at(bytes@, 1);
            result == Err::<WalOpRaw, SerializationError>(
                if bytes@.len() < 5 {
                    SerializationError::InsufficientData {
                        entity: "u32",
                        expected: 4,
                        found: (bytes@.len() - 1) as usize,
                        parsing_context: "WalOpRaw Put key",
                    }
                } else if bytes@.len() < 5 + len {
                    SerializationError::InsufficientData {
                        entity: "variable-length bytes",
                        expected: len as usize,
                        found: (bytes@.len() - 5) as usize,
                        parsing_context: "WalOpRaw Put key",
                    }
                } else {
                    SerializationError::InsufficientData {
                        entity: "fixed bytes",
                        expected: 32,
                        found: (bytes@.len() - 5 - len) as usize,
                        parsing_context: "WalOpRaw Put hash",
                    }
                },
            )
        }),
{
    let input = bytes@;
    if input.len() >= 5 {
        lemma_number_read(input, 1);
        assert(input.skip(1).take(4) =~= input.subrange(1, 5));
    }
}

/// Nothing is no operation, and a tag other than 0 and 1 stands for none.
pub proof fn law_unknown_op_refused(bytes: &[u8], result: Result<WalOpRaw, SerializationError>)
    requires
        call_ensures(deserialize_wal_op_raw, (bytes,), result),
        bytes@.len() == 0 || bytes@[0] > 1,
    ensures
        result == Err::<WalOpRaw, SerializationError>(
            if bytes@.len() == 0 {
                SerializationError::UnexpectedEof { parsing_context: "WalOpRaw variant" }
            } else {
                SerializationError::InvalidVariantTag {
                    tag: bytes@[0],
                    enum_name: "WalOpRaw",
                    parsing_context: "WalOpRaw deserialization",
                }
            },
        ),
{
}

/// How many bytes `keys` take, each behind its length.
pub open spec fn keys_size(keys: Seq<Seq<u8>>) -> int
    decreases keys.len(),
{
    if keys.len() == 0 {
        0
    } else {
        keys_size(keys.drop_last()) + 4 + keys.last().len()
    }
}

/// Whether `key` stands in `bytes` from `at` on, behind its length.
pub open spec fn key_stands_at(bytes: Seq<u8>, at: int, key: Seq<u8>) -> bool {
    &&& at + 4 + key.len() <= bytes.len()
    &&& number_at(bytes, at) == key.len() % 0x1_0000_0000
    &&& forall|j: int| 0 <= j < key.len() ==> bytes[at + 4 + j] == #[trigger] key[j]
}

/// Whether `keys` stand in `bytes` one after the other from `from` on, each
/// behind its length.
pub open spec fn keys_stand_at(bytes: Seq<u8>, from: int, keys: Seq<Seq<u8>>) -> bool {
    &&& from + keys_size(keys) <= bytes.len()
    &&& forall|i: int|
        #![trigger keys[i]]
        0 <= i < keys.len() ==> key_stands_at(bytes, from + keys_size(keys.take(i)), keys[i])
}

proof fn lemma_key_written(bytes: Seq<u8>, at: int, key: Seq<u8>)
    requires
        0 <= at,
        at + 4 + key.len() <= bytes.len(),
        bytes.subrange(at, at + 4 + key.len()) == prefixed(key),
    ensures
        key_stands_at(bytes, at, key),
{
    lemma_number_written(key.len());
    let part = bytes.subrange(at, at + 4 + key.len());
    assert(bytes[at] == part[0] == le32(key.len())[0]);
    assert(bytes[at + 1] == part[1] == le32(key.len())[1]);
    assert(bytes[at + 2] == part[2] == le32(key.len())[2]);
    assert(bytes[at + 3] == part[3] == le32(key.len())[3]);
    assert forall|j: int| 0 <= j < key.len() implies bytes[at + 4 + j] == #[trigger] key[j] by {
        assert(part[4 + j] == key[j]);
    }
}

proof fn lemma_key_stands(bytes: Seq<u8>, at: int, key: Seq<u8>)
    requires
        0 <= at,
        key.len() <= u32::MAX,
        key_stands_at(bytes, at, key),
    ensures
        bytes.subrange(at, at + 4 + key.len()) == prefixed(key),
{
    lemma_number_read(bytes, at);
    let part = bytes.subrange(at, at + 4 + key.len());
    assert forall|j: int| 0 <= j < part.len() implies part[j] == prefixed(key)[j] by {
        if j < 4 {
            assert(bytes.subrange(at, at + 4)[j] == le32(key.len())[j]);
        } else {
            assert(bytes[at + 4 + (j - 4)] == key[j - 4]);
        }
    }
    assert(part =~= prefixed(key));
}

proof fn lemma_keys_size(keys: Seq<Seq<u8>>)
    ensures
        keys_bytes(keys).len() == keys_size(keys) >= 0,
    decreases keys.len(),
{
    if keys.len() > 0 {
        lemma_keys_size(keys.drop_last());
        assert(keys =~= keys.drop_last().push(keys.last()));
        lemma_keys_bytes_push(keys.drop_last(), keys.last());
        lemma_number_written(keys.last().len());
    }
}

proof fn lemma_keys_written(keys: Seq<Seq<u8>>, i: int)
    requires
        0 <= i < keys.len(),
    ensures
        ({
            let at = keys_size(keys.take(i));
            &&& 0 <= at
            &&& at + 4 + keys[i].len() <= keys_bytes(keys).len()
            &&& keys_bytes(keys).subrange(at, at + 4 + keys[i].len()) == prefixed(keys[i])
        }),
    decreases keys.len(),
{
    let rest = keys.drop_last();
    let last = keys.last();
    let whole = keys_bytes(keys);
    assert(keys =~= rest.push(last));
    lemma_keys_bytes_push(rest, last);
    lemma_keys_size(rest);
    lemma_number_written(last.len());
    if i == rest.len() {
        assert(keys.take(i) =~= rest);
        let at = keys_size(rest);
        assert(whole.subrange(at, at + 4 + last.len()) =~= prefixed(last));
    } else {
        lemma_keys_written(rest, i);
        assert(keys.take(i) =~= rest.take(i));
        assert(rest[i] == keys[i]);
        let at = keys_size(keys.take(i));
        let end = at + 4 + keys[i].len();
        assert(whole.subrange(at, end) =~= keys_bytes(rest).subrange(at, end));
    }
}

/// A removal is written as the tag 1, the number of keys and the keys, in their
/// order and each behind its length.
pub proof fn law_remove_layout(
    keys_bytes: Vec<Vec<u8>>,
    keys: Seq<Seq<u8>>,
    result: Result<Vec<u8>, SerializationError>,
)
    requires
        call_ensures(serialize_wal_op_raw, (&WalOpRaw::Remove { keys_bytes },), result),
        keys.len() == keys_bytes@.len(),
        forall|i: int| 0 <= i < keys.len() ==> #[trigger] keys[i] == keys_bytes@[i]@,
    ensures
        result is Ok,
        ({
            let bytes = result->Ok_0@;
            &&& bytes.len() == 5 + keys_size(keys)
            &&& bytes[0] == 1
            &&& number_at(bytes, 1) == keys.len() % 0x1_0000_0000
            &&& keys_stand_at(bytes, 5, keys)
        }),
{
    let bytes = result->Ok_0@;
    let body = crate::serialization::keys_bytes(keys);
    assert(keys_bytes@.map_values(|key: Vec<u8>| key@) =~= keys);
    assert(bytes == seq![1u8] + le32(keys.len()) + body);
    lemma_number_written(keys.len());
    lemma_keys_size(keys);
    assert(forall|j: int| 0 <= j < 4 ==> bytes[1 + j] == #[trigger] le32(keys.len())[j]);
    assert forall|i: int| #![trigger keys[i]] 0 <= i < keys.len() implies key_stands_at(
        bytes,
        5 + keys_size(keys.take(i)),
        keys[i],
    ) by {
        let at = keys_size(keys.take(i));
        let end = at + 4 + keys[i].len();
        lemma_keys_written(keys, i);
        assert(bytes.subrange(5 + at, 5 + end) =~= body.subrange(at, end));
        lemma_key_written(bytes, 5 + at, keys[i]);
    }
}

proof fn lemma_keys_stand(bytes: Seq<u8>, from: int, keys: Seq<Seq<u8>>)
    requires
        0 <= from,
        keys_stand_at(bytes, from, keys),
        forall|i: int| 0 <= i < keys.len() ==> #[trigger] keys[i].len() <= u32::MAX,
    ensures
        0 <= keys_size(keys),
        bytes.subrange(from, from + keys_size(keys)) == keys_bytes(keys),
    decreases keys.len(),
{
    lemma_keys_size(keys);
    if keys.len() == 0 {
        assert(bytes.subrange(from, from) =~= keys_bytes(keys));
    } else {
        let rest = keys.drop_last();
        let last = keys.last();
        lemma_keys_size(rest);
        assert forall|i: int| #![trigger rest[i]] 0 <= i < rest.len() implies key_stands_at(
            bytes,
            from + keys_size(rest.take(i)),
            rest[i],
        ) by {
            assert(keys[i] == rest[i]);
            assert(rest.take(i) =~= keys.take(i));
        }
        lemma_keys_stand(bytes, from, rest);
        let at = from + keys_size(rest);
        assert(keys[rest.len() as int] == last);
        assert(keys.take(rest.len() as int) =~= rest);
        lemma_key_stands(bytes, at, last);
        assert(keys =~= rest.push(last));
        lemma_keys_bytes_push(rest, last);
        assert(bytes.subrange(from, from + keys_size(keys)) =~= bytes.subrange(from, at)
            + bytes.subrange(at, at + 4 + last.len()));
    }
}

/// Bytes that start with the tag 1, a number and that many keys, each behind its
/// length, are read as the removal of those keys, whatever follows.
pub proof fn law_remove_read(
    bytes: &[u8],
    keys: Seq<Seq<u8>>,
    result: Result<WalOpRaw, SerializationError>,
)
    requires
        call_ensures(deserialize_wal_op_raw, (bytes,), result),
        bytes@.len() >= 5,
        bytes@[0] == 1,
        number_at(bytes@, 1) == keys.len(),
        keys_stand_at(bytes@, 5, keys),
        forall|i: int| 0 <= i < keys.len() ==> #[trigger] keys[i].len() <= u32::MAX,
    ensures
        ({
            &&& result matches Ok(WalOpRaw::Remove { keys_bytes })
            &&& keys_bytes@.len() == keys.len()
            &&& forall|i: int| 0 <= i < keys.len() ==> #[trigger] keys_bytes@[i]@ == keys[i]
        }),
{
    let input = bytes@;
    lemma_number_read(input, 1);
    lemma_keys_stand(input, 5, keys);
    let body = crate::serialization::keys_bytes(keys);
    let tail = input.skip(5 + keys_size(keys));
    assert(input.skip(1) =~= le32(keys.len()) + (body + tail));
    lemma_take_u32(keys.len(), body + tail, "Remove num_keys");
    lemma_take_keys(keys, tail);
    match result {
        Ok(WalOpRaw::Remove { keys_bytes }) => {
            let found = keys_bytes@.map_values(|key: Vec<u8>| key@);
            assert(found == keys);
            assert forall|i: int| 0 <= i < keys.len() implies #[trigger] keys_bytes@[i]@
                == keys[i] by {
                assert(found[i] == keys_bytes@[i]@);
            }
        },
        _ => {},
    }
}

proof fn lemma_take_keys_fails(keys: Seq<Seq<u8>>, tail: Seq<u8>, n: nat)
    requires
        keys.len() < n,
        forall|i: int| 0 <= i < keys.len() ==> #[trigger] keys[i].len() <= u32::MAX,
        take_prefixed(tail, "Remove key") is Err,
    ensures
        take_keys(keys_bytes(keys) + tail, n) == Err::<(Seq<Seq<u8>>, Seq<u8>), SerializationError>(
            take_prefixed(tail, "Remove key")->Err_0,
        ),
    decreases keys.len(),
{
    if keys.len() == 0 {
        assert(keys_bytes(keys) + tail =~= tail);
    } else {
        let rest = keys.skip(1);
        assert forall|i: int| 0 <= i < rest.len() implies #[trigger] rest[i].len() <= u32::MAX by {
            assert(rest[i] == keys[i + 1]);
        }
        lemma_take_keys_fails(rest, tail, (n - 1) as nat);
        assert(keys_bytes(keys) + tail =~= prefixed(keys[0]) + (keys_bytes(rest) + tail));
        lemma_take_prefixed(keys[0], keys_bytes(rest) + tail, "Remove key");
    }
}

/// A removal that ends too early is refused, and the error says what was missing:
/// the number of keys, or the length or the bytes of the first key that is not
/// there. `keys` are those before it.
pub proof fn law_short_remove_refused(
    bytes: &[u8],
    keys: Seq<Seq<u8>>,
    result: Result<WalOpRaw, SerializationError>,
)
    requires
        call_ensures(deserialize_wal_op_raw, (bytes,), result),
        bytes@.len() >= 1,
        bytes@[0] == 1,
        bytes@.len() >= 5 ==> {
            let at = 5 + keys_size(keys);
            &&& keys.len() < number_at(bytes@, 1)
            &&& keys_stand_at(bytes@, 5, keys)
            &&& forall|i: int| 0 <= i < keys.len() ==> #[trigger] keys[i].len() <= u32::MAX
            &&& bytes@.len() < at + 4 || bytes@.len() < at + 4 + number_at(bytes@, at)
        },
    ensures
        ({
            let at = 5 + keys_size(keys);
            result == Err::<WalOpRaw, SerializationError>(
                if bytes@.len() < 5 {
                    SerializationError::InsufficientData {
                        entity: "u32",
                        expected: 4,
                        found: (bytes@.len() - 1) as usize,
                        parsing_context: "Remove num_keys",
                    }
                } else if bytes@.len() < at + 4 {
                    SerializationError::InsufficientData {
                        entity: "u32",
                        expected: 4,
                        found: (bytes@.len() - at) as usize,
                        parsing_context: "Remove key",
                    }
                } else {
                    SerializationError::InsufficientData {
                        entity: "variable-length bytes",
                        expected: number_at(bytes@, at) as usize,
                        found: (bytes@.len() - at - 4) as usize,
                        parsing_context: "Remove key",
                    }
                },
            )
        }),
{
    let input = bytes@;
    if input.len() >= 5 {
        let at = 5 + keys_size(keys);
        let n = number_at(input, 1) as nat;
        lemma_number_read(input, 1);
        lemma_keys_stand(input, 5, keys);
        let body = keys_bytes(keys);
        let tail = input.skip(at);
        assert(input.skip(1) =~= le32(n) + (body + tail));
        lemma_take_u32(n, body + tail, "Remove num_keys");
        if input.len() >= at + 4 {
            lemma_number_read(input, at);
            assert(tail.take(4) =~= input.subrange(at, at + 4));
        }
        lemma_take_keys_fails(keys, tail, n);
    }
}

// The index.

/// How many bytes `entries` take, each key behind its length and before its hash.
pub open spec fn entries_size(entries: Seq<(Seq<u8>, Seq<u8>)>) -> int
    decreases entries.len(),
{
    if entries.len() == 0 {
        0
    } else {
        entries_size(entries.drop_last()) + 4 + entries.last().0.len() + entries.last().1.len()
    }
}

/// Whether an entry stands in `bytes` from `at` on: its key behind its length, and
/// then its hash.
pub open spec fn entry_stands_at(bytes: Seq<u8>, at: int, entry: (Seq<u8>, Seq<u8>)) -> bool {
    let (key, hash) = entry;
    &&& at + 4 + key.len() + hash.len() <= bytes.len()
    &&& key_stands_at(bytes, at, key)
    &&& forall|j: int| 0 <= j < hash.len() ==> bytes[at + 4 + key.len() + j] == #[trigger] hash[j]
}

/// Whether `entries` stand in `bytes` one after the other from `from` on.
pub open spec fn entries_stand_at(
    bytes: Seq<u8>,
    from: int,
    entries: Seq<(Seq<u8>, Seq<u8>)>,
) -> bool {
    &&& from + entries_size(entries) <= bytes.len()
    &&& forall|i: int|
        #![trigger entries[i]]
        0 <= i < entries.len() ==> entry_stands_at(
            bytes,
            from + entries_size(entries.take(i)),
            entries[i],
        )
}

proof fn lemma_entry_written(bytes: Seq<u8>, at: int, entry: (Seq<u8>, Seq<u8>))
    requires
        0 <= at,
        at + 4 + entry.0.len() + entry.1.len() <= bytes.len(),
        bytes.subrange(at, at + 4 + entry.0.len() + entry.1.len()) == prefixed(entry.0) + entry.1,
    ensures
        entry_stands_at(bytes, at, entry),
{
    let (key, hash) = entry;
    let part = bytes.subrange(at, at + 4 + key.len() + hash.len());
    lemma_number_written(key.len());
    assert(bytes.subrange(at, at + 4 + key.len()) =~= part.take(4int + key.len()));
    assert(part.take(4int + key.len()) =~= prefixed(key));
    lemma_key_written(bytes, at, key);
    assert forall|j: int| 0 <= j < hash.len() implies bytes[at + 4 + key.len() + j]
        == #[trigger] hash[j] by {
        assert(part[4 + key.len() + j] == hash[j]);
    }
}

proof fn lemma_entry_stands(bytes: Seq<u8>, at: int, entry: (Seq<u8>, Seq<u8>))
    requires
        0 <= at,
        entry.0.len() <= u32::MAX,
        entry_stands_at(bytes, at, entry),
    ensures
        bytes.subrange(at, at + 4 + entry.0.len() + entry.1.len()) == prefixed(entry.0) + entry.1,
{
    let (key, hash) = entry;
    lemma_key_stands(bytes, at, key);
    lemma_number_written(key.len());
    let middle = at + 4 + key.len();
    assert forall|j: int| 0 <= j < hash.len() implies bytes.subrange(
        middle,
        middle + hash.len(),
    )[j] == hash[j] by {
        assert(bytes[at + 4 + key.len() + j] == hash[j]);
    }
    assert(bytes.subrange(middle, middle + hash.len()) =~= hash);
    assert(bytes.subrange(at, middle + hash.len()) =~= bytes.subrange(at, middle)
        + bytes.subrange(middle, middle + hash.len()));
}

proof fn lemma_entries_size(entries: Seq<(Seq<u8>, Seq<u8>)>)
    ensures
        entries_bytes(entries).len() == entries_size(entries) >= 0,
    decreases entries.len(),
{
    if entries.len() > 0 {
        lemma_entries_size(entries.drop_last());
        assert(entries =~= entries.drop_last().push(entries.last()));
        lemma_entries_bytes_push(entries.drop_last(), entries.last());
        lemma_number_written(entries.last().0.len());
    }
}

proof fn lemma_entries_written(entries: Seq<(Seq<u8>, Seq<u8>)>, i: int)
    requires
        0 <= i < entries.len(),
    ensures
        ({
            let at = entries_size(entries.take(i));
            let end = at + 4 + entries[i].0.len() + entries[i].1.len();
            &&& 0 <= at
            &&& end <= entries_bytes(entries).len()
            &&& entries_bytes(entries).subrange(at, end) == prefixed(entries[i].0) + entries[i].1
        }),
    decreases entries.len(),
{
    let rest = entries.drop_last();
    let last = entries.last();
    let whole = entries_bytes(entries);
    assert(entries =~= rest.push(last));
    lemma_entries_bytes_push(rest, last);
    lemma_entries_size(rest);
    lemma_number_written(last.0.len());
    if i == rest.len() {
        assert(entries.take(i) =~= rest);
        let at = entries_size(rest);
        let end = at + 4 + last.0.len() + last.1.len();
        assert(whole.subrange(at, end) =~= prefixed(last.0) + last.1);
    } else {
        lemma_entries_written(rest, i);
        assert(entries.take(i) =~= rest.take(i));
        assert(rest[i] == entries[i]);
        let at = entries_size(entries.take(i));
        let end = at + 4 + entries[i].0.len() + entries[i].1.len();
        assert(whole.subrange(at, end) =~= entries_bytes(rest).subrange(at, end));
    }
}

/// An index is written as the number of its entries and the entries, in
/// dictionary order of their keys, each key behind its length and before its
/// hash, each byte as it is.
pub proof fn law_map_layout(
    map: &KeyMap,
    entries: Seq<(Seq<u8>, Seq<u8>)>,
    result: Result<Vec<u8>, SerializationError>,
)
    requires
        call_ensures(serialize_btreemap_bytes_to_hash, (map,), result),
        forall|i: int, j: int|
            0 <= i < j < entries.len() ==> lex_less(
                #[trigger] entries[i].0,
                #[trigger] entries[j].0,
            ),
        forall|i: int|
            0 <= i < entries.len() ==> map@.contains_key(#[trigger] entries[i].0)
                && map@[entries[i].0] == entries[i].1,
        forall|key: Seq<u8>| #[trigger]
            map@.contains_key(key) ==> exists|i: int|
                0 <= i < entries.len() && #[trigger] entries[i].0 == key,
    ensures
        result is Ok,
        ({
            let bytes = result->Ok_0@;
            &&& bytes.len() == 4 + entries_size(entries)
            &&& number_at(bytes, 0) == entries.len() % 0x1_0000_0000
            &&& entries_stand_at(bytes, 4, entries)
        }),
{
    let bytes = result->Ok_0@;
    lemma_lists_by_lookup(entries, map@);
    lemma_listing(entries, map@);
    let body = entries_bytes(entries);
    assert(bytes == le32(entries.len()) + body);
    lemma_number_written(entries.len());
    lemma_entries_size(entries);
    assert(forall|j: int| 0 <= j < 4 ==> bytes[j] == #[trigger] le32(entries.len())[j]);
    assert forall|i: int| #![trigger entries[i]] 0 <= i < entries.len() implies entry_stands_at(
        bytes,
        4 + entries_size(entries.take(i)),
        entries[i],
    ) by {
        let at = entries_size(entries.take(i));
        let end = at + 4 + entries[i].0.len() + entries[i].1.len();
        lemma_entries_written(entries, i);
        assert(bytes.subrange(4 + at, 4 + end) =~= body.subrange(at, end));
        lemma_entry_written(bytes, 4 + at, entries[i]);
    }
}

proof fn lemma_entries_stand(bytes: Seq<u8>, from: int, entries: Seq<(Seq<u8>, Seq<u8>)>)
    requires
        0 <= from,
        entries_stand_at(bytes, from, entries),
        forall|i: int|
            #![trigger entries[i]]
            0 <= i < entries.len() ==> entries[i].0.len() <= u32::MAX,
    ensures
        0 <= entries_size(entries),
        bytes.subrange(from, from + entries_size(entries)) == entries_bytes(entries),
    decreases entries.len(),
{
    lemma_entries_size(entries);
    if entries.len() == 0 {
        assert(bytes.subrange(from, from) =~= entries_bytes(entries));
    } else {
        let rest = entries.drop_last();
        let (key, hash) = entries.last();
        lemma_entries_size(rest);
        assert forall|i: int| #![trigger rest[i]] 0 <= i < rest.len() implies entry_stands_at(
            bytes,
            from + entries_size(rest.take(i)),
            rest[i],
        ) by {
            assert(entries[i] == rest[i]);
            assert(rest.take(i) =~= entries.take(i));
        }
        assert forall|i: int| #![trigger rest[i]] 0 <= i < rest.len() implies rest[i].0.len()
            <= u32::MAX by {
            assert(entries[i] == rest[i]);
        }
        lemma_entries_stand(bytes, from, rest);
        let at = from + entries_size(rest);
        let end = at + 4 + key.len() + hash.len();
        assert(entries[rest.len() as int] == (key, hash));
        assert(entries.take(rest.len() as int) =~= rest);
        lemma_entry_stands(bytes, at, (key, hash));
        assert(entries =~= rest.push((key, hash)));
        lemma_entries_bytes_push(rest, (key, hash));
        assert(bytes.subrange(from, from + entries_size(entries)) =~= bytes.subrange(from, at)
            + bytes.subrange(at, end));
        assert(entries_bytes(rest) + (prefixed(key) + hash) =~= entries_bytes(rest) + prefixed(key)
            + hash);
    }
}

/// What entries that are inserted one after the other make: each key that occurs,
/// with the hash of the last entry that has it.
pub proof fn law_later_entries_count(
    entries: Seq<(Seq<u8>, Seq<u8>)>,
    key: Seq<u8>,
    last: int,
)
    ensures
        entries_map(entries).contains_key(key) <==> exists|i: int|
            0 <= i < entries.len() && #[trigger] entries[i].0 == key,
        0 <= last < entries.len() && entries[last].0 == key && (forall|i: int|
            last < i < entries.len() ==> #[trigger] entries[i].0 != key) ==> entries_map(
            entries,
        )[key] == entries[last].1,
    decreases entries.len(),
{
    lemma_entries_map_keys(entries, key);
    if 0 <= last < entries.len() - 1 {
        let rest = entries.drop_last();
        if forall|i: int| last < i < entries.len() ==> #[trigger] entries[i].0 != key {
            assert forall|i: int| last < i < rest.len() implies #[trigger] rest[i].0 != key by {
                assert(entries[i].0 != key);
            }
            assert(entries[entries.len() - 1].0 != key);
            assert(rest[last] == entries[last]);
        }
        law_later_entries_count(rest, key, last);
    }
}

/// Bytes that start with a number and that many entries, each key behind its
/// length and before its 32 bytes of hash, are read as the index that has those
/// keys, each with the last hash that stands there for it, whatever follows.
pub proof fn law_map_read(
    bytes: &[u8],
    entries: Seq<(Seq<u8>, Seq<u8>)>,
    result: Result<KeyMap, SerializationError>,
)
    requires
        call_ensures(deserialize_btreemap_bytes_to_hash, (bytes,), result),
        bytes@.len() >= 4,
        number_at(bytes@, 0) == entries.len(),
        entries_stand_at(bytes@, 4, entries),
        forall|i: int|
            #![trigger entries[i]]
            0 <= i < entries.len() ==> entries[i].0.len() <= u32::MAX && entries[i].1.len() == 32,
    ensures
        result is Ok,
        forall|key: Seq<u8>| #[trigger]
            result->Ok_0@.contains_key(key) <==> exists|i: int|
                0 <= i < entries.len() && #[trigger] entries[i].0 == key,
        forall|last: int|
            #![trigger entries[last]]
            0 <= last < entries.len() && (forall|i: int|
                last < i < entries.len() ==> #[trigger] entries[i].0 != entries[last].0)
                ==> result->Ok_0@[entries[last].0] == entries[last].1,
{
    let input = bytes@;
    lemma_number_read(input, 0);
    lemma_entries_stand(input, 4, entries);
    let tail = input.skip(4 + entries_size(entries));
    assert(input =~= le32(entries.len()) + (entries_bytes(entries) + tail));
    lemma_take_u32(entries.len(), entries_bytes(entries) + tail, "BTreeMap header");
    lemma_take_entries(entries, tail);
    let map = result->Ok_0@;
    assert forall|key: Seq<u8>| #[trigger] map.contains_key(key) <==> exists|i: int|
        0 <= i < entries.len() && #[trigger] entries[i].0 == key by {
        law_later_entries_count(entries, key, 0);
    }
    assert forall|last: int|
        #![trigger entries[last]]
        0 <= last < entries.len() && (forall|i: int|
            last < i < entries.len() ==> #[trigger] entries[i].0
                != entries[last].0) implies map[entries[last].0] == entries[last].1 by {
        law_later_entries_count(entries, entries[last].0, last);
    }
}

proof fn lemma_take_entries_fails(entries: Seq<(Seq<u8>, Seq<u8>)>, tail: Seq<u8>, n: nat)
    requires
        entries.len() < n,
        forall|i: int|
            #![trigger entries[i]]
            0 <= i < entries.len() ==> entries[i].0.len() <= u32::MAX && entries[i].1.len() == 32,
        take_entry(tail) is Err,
    ensures
        take_entries(entries_bytes(entries) + tail, n) == Err::<
            (Seq<(Seq<u8>, Seq<u8>)>, Seq<u8>),
            SerializationError,
        >(take_entry(tail)->Err_0),
    decreases entries.len(),
{
    if entries.len() == 0 {
        assert(entries_bytes(entries) + tail =~= tail);
    } else {
        let rest = entries.skip(1);
        assert forall|i: int| #![trigger rest[i]] 0 <= i < rest.len() implies rest[i].0.len()
            <= u32::MAX && rest[i].1.len() == 32 by {
            assert(rest[i] == entries[i + 1]);
        }
        lemma_take_entries_fails(rest, tail, (n - 1) as nat);
        let entry = entries[0];
        let after = entries_bytes(rest) + tail;
        assert(entries_bytes(entries) + tail =~= prefixed(entry.0) + entry.1 + after);
        lemma_take_entry(entry, after);
    }
}

/// An index that ends too early is refused, and the error says what was missing:
/// the number of entries, or the length, the key or the hash of the first entry
/// that is not there. `entries` are those before it.
pub proof fn law_short_map_refused(
    bytes: &[u8],
    entries: Seq<(Seq<u8>, Seq<u8>)>,
    result: Result<KeyMap, SerializationError>,
)
    requires
        call_ensures(deserialize_btreemap_bytes_to_hash, (bytes,), result),
        bytes@.len() >= 4 ==> {
            let at = 4 + entries_size(entries);
            &&& entries.len() < number_at(bytes@, 0)
            &&& entries_stand_at(bytes@, 4, entries)
            &&& forall|i: int|
                #![trigger entries[i]]
                0 <= i < entries.len() ==> entries[i].0.len() <= u32::MAX && entries[i].1.len()
                    == 32
            &&& bytes@.len() < at + 4 || bytes@.len() < at + 4 + number_at(bytes@, at) + 32
        },
    ensures
        ({
            let at = 4 + entries_size(entries);
            let len = number_at(bytes@, at);
            result == Err::<KeyMap, SerializationError>(
                if bytes@.len() < 4 {
                    SerializationError::InsufficientData {
                        entity: "u32",
                        expected: 4,
                        found: bytes@.len() as usize,
                        parsing_context: "BTreeMap header",
                    }
                } else if bytes@.len() < at + 4 {
                    SerializationError::InsufficientData {
                        entity: "u32",
                        expected: 4,
                        found: (bytes@.len() - at) as usize,
                        parsing_context: "BTreeMap key",
                    }
                } else if bytes@.len() < at + 4 + len {
                    SerializationError::InsufficientData {
                        entity: "variable-length bytes",
                        expected: len as usize,
                        found: (bytes@.len() - at - 4) as usize,
                        parsing_context: "BTreeMap key",
                    }
                } else {
                    SerializationError::InsufficientData {
                        entity: "fixed bytes",
                        expected: 32,
                        found: (bytes@.len() - at - 4 - len) as usize,
                        parsing_context: "BTreeMap hash",
                    }
                },
            )
        }),
{
    let input = bytes@;
    if input.len() >= 4 {
        let at = 4 + entries_size(entries);
        let n = number_at(input, 0) as nat;
        lemma_number_read(input, 0);
        lemma_entries_stand(input, 4, entries);
        let body = entries_bytes(entries);
        let tail = input.skip(at);
        assert(input =~= le32(n) + (body + tail));
        lemma_take_u32(n, body + tail, "BTreeMap header");
        if input.len() >= at + 4 {
            lemma_number_read(input, at);
            assert(tail.take(4) =~= input.subrange(at, at + 4));
        }
        lemma_take_entries_fails(entries, tail, n);
    }
}

// Writing and reading in terms of each other.

/// A removal of no key is the tag 1 and four zeros. With one key more at the end
/// the bytes behind the number of keys stay as they are, and the length of that
/// key and its bytes follow.
pub proof fn law_one_key_more_to_remove(
    fewer: Vec<Vec<u8>>,
    more: Vec<Vec<u8>>,
    key: Vec<u8>,
    short: Result<Vec<u8>, SerializationError>,
    long: Result<Vec<u8>, SerializationError>,
)
    requires
        call_ensures(serialize_wal_op_raw, (&WalOpRaw::Remove { keys_bytes: fewer },), short),
        call_ensures(serialize_wal_op_raw, (&WalOpRaw::Remove { keys_bytes: more },), long),
        more@ == fewer@.push(key),
    ensures
        short is Ok,
        long is Ok,
        fewer@.len() == 0 ==> short->Ok_0@ == seq![1u8, 0, 0, 0, 0],
        ({
            let (a, b) = (short->Ok_0@, long->Ok_0@);
            let at = a.len() as int;
            &&& at >= 5
            &&& b.len() == at + 4 + key@.len()
            &&& b[0] == 1
            &&& b[1] + 0x100 * b[2] + 0x1_0000 * b[3] + 0x100_0000 * b[4] == more@.len()
                % 0x1_0000_0000
            &&& forall|j: int| 5 <= j < at ==> #[trigger] b[j] == a[j]
            &&& b[at] + 0x100 * b[at + 1] + 0x1_0000 * b[at + 2] + 0x100_0000 * b[at + 3]
                == key@.len() % 0x1_0000_0000
            &&& forall|j: int| 0 <= j < key@.len() ==> b[at + 4 + j] == #[trigger] key@[j]
        }),
{
    let view = |key: Vec<u8>| key@;
    let (x, y) = (fewer@.map_values(view), more@.map_values(view));
    let (a, b) = (short->Ok_0@, long->Ok_0@);
    assert(y =~= x.push(key@));
    lemma_keys_bytes_push(x, key@);
    lemma_number_written(x.len());
    lemma_number_written(y.len());
    lemma_number_written(key@.len());
    assert(a == seq![1u8] + le32(x.len()) + keys_bytes(x));
    assert(b == seq![1u8] + le32(y.len()) + (keys_bytes(x) + (le32(key@.len()) + key@)));
    let at = a.len() as int;
    assert(forall|j: int| 0 <= j < 4 ==> b[1 + j] == #[trigger] le32(y.len())[j]);
    assert(forall|j: int| 0 <= j < 4 ==> b[at + j] == #[trigger] le32(key@.len())[j]);
    if fewer@.len() == 0 {
        assert(a =~= seq![1u8, 0, 0, 0, 0]);
    }
}

/// An index without entries is four zeros. With one entry more, whose key stands
/// behind all others, the bytes behind the number of entries stay as they are,
/// and the length of that key, its bytes and those of its hash follow.
pub proof fn law_one_entry_more(
    fewer: &KeyMap,
    more: &mut KeyMap,
    key: Vec<u8>,
    hash: BlobHash,
    previous: Option<BlobHash>,
    short: Result<Vec<u8>, SerializationError>,
    long: Result<Vec<u8>, SerializationError>,
)
    requires
        fewer@.dom().finite(),
        *fewer == *old(more),
        call_ensures(KeyMap::insert, (more, key, hash), previous),
        forall|k: Seq<u8>| #[trigger] fewer@.contains_key(k) ==> lex_less(k, key@),
        call_ensures(serialize_btreemap_bytes_to_hash, (fewer,), short),
        call_ensures(serialize_btreemap_bytes_to_hash, (&*final(more),), long),
    ensures
        short is Ok,
        long is Ok,
        fewer@.len() == 0 ==> short->Ok_0@ == seq![0u8, 0, 0, 0],
        ({
            let (a, b) = (short->Ok_0@, long->Ok_0@);
            let at = a.len() as int;
            &&& at >= 4
            &&& b.len() == at + 4 + key@.len() + 32
            &&& b[0] + 0x100 * b[1] + 0x1_0000 * b[2] + 0x100_0000 * b[3] == (fewer@.len() + 1)
                % 0x1_0000_0000
            &&& forall|j: int| 4 <= j < at ==> #[trigger] b[j] == a[j]
            &&& b[at] + 0x100 * b[at + 1] + 0x1_0000 * b[at + 2] + 0x100_0000 * b[at + 3]
                == key@.len() % 0x1_0000_0000
            &&& forall|j: int| 0 <= j < key@.len() ==> b[at + 4 + j] == #[trigger] key@[j]
            &&& forall|j: int|
                0 <= j < 32 ==> b[at + 4 + key@.len() + j] == #[trigger] hash.0[j]
        }),
{
    let entries = ascending_entries(fewer@);
    let entry = (key@, hash@);
    let grown = entries.push(entry);
    lemma_listing_exists(fewer@);
    assert(grown.drop_last() =~= entries);
    assert forall|i: int, j: int| 0 <= i < j < grown.len() implies lex_less(
        #[trigger] grown[i].0,
        #[trigger] grown[j].0,
    ) by {
        lemma_entries_map_value(entries, i);
        if j < entries.len() {
            assert(lex_less(entries[i].0, entries[j].0));
        }
    }
    assert(entries_map(grown) == fewer@.insert(key@, hash@));
    lemma_listing(grown, final(more)@);
    lemma_entries_bytes_push(entries, entry);
    lemma_number_written(entries.len());
    lemma_number_written(grown.len());
    lemma_number_written(key@.len());
    let (a, b) = (short->Ok_0@, long->Ok_0@);
    let at = a.len() as int;
    let body = entries_bytes(entries);
    assert(a == le32(entries.len()) + body);
    assert(b == le32(grown.len()) + (body + (le32(key@.len()) + key@) + hash.0@));
    assert(forall|j: int| 0 <= j < 4 ==> b[j] == #[trigger] le32(grown.len())[j]);
    assert(forall|j: int| 0 <= j < 4 ==> b[at + j] == #[trigger] le32(key@.len())[j]);
    assert forall|j: int| 0 <= j < 32 implies b[at + 4 + key@.len() + j]
        == #[trigger] hash.0[j] by {
        assert(b[at + 4 + key@.len() + j] == hash.0@[j]);
    }
    if fewer@.len() == 0 {
        assert(a =~= seq![0u8, 0, 0, 0]);
    }
}

/// A put that is written is read back with the same key and the same hash,
/// whatever bytes follow.
pub proof fn law_written_put_reads_back(
    key: Vec<u8>,
    hash: BlobHash,
    written: Result<Vec<u8>, SerializationError>,
    input: &[u8],
    tail: Seq<u8>,
    result: Result<WalOpRaw, SerializationError>,
)
    requires
        key@.len() <= u32::MAX,
        call_ensures(serialize_wal_op_raw, (&WalOpRaw::Put { key_bytes: key, hash },), written),
        written is Ok ==> input@ == written->Ok_0@ + tail,
        call_ensures(deserialize_wal_op_raw, (input,), result),
    ensures
        written is Ok,
        result matches Ok(WalOpRaw::Put { key_bytes, hash: found }) && key_bytes@ == key@ && found
            == hash,
{
    law_op_read_back(RawOp::Put { key: key@, hash: hash@ }, tail);
    if let Ok(WalOpRaw::Put { key_bytes, hash: found }) = result {
        lemma_hash_extensional(found, hash);
    }
}

/// A removal that is written is read back with the same keys in the same order,
/// whatever bytes follow.
pub proof fn law_written_remove_reads_back(
    keys: Vec<Vec<u8>>,
    written: Result<Vec<u8>, SerializationError>,
    input: &[u8],
    tail: Seq<u8>,
    result: Result<WalOpRaw, SerializationError>,
)
    requires
        keys@.len() <= u32::MAX,
        forall|i: int| 0 <= i < keys@.len() ==> #[trigger] keys@[i]@.len() <= u32::MAX,
        call_ensures(serialize_wal_op_raw, (&WalOpRaw::Remove { keys_bytes: keys },), written),
        written is Ok ==> input@ == written->Ok_0@ + tail,
        call_ensures(deserialize_wal_op_raw, (input,), result),
    ensures
        written is Ok,
        result matches Ok(WalOpRaw::Remove { keys_bytes }) && keys_bytes@.len() == keys@.len()
            && forall|i: int| 0 <= i < keys@.len() ==> #[trigger] keys_bytes@[i]@ == keys@[i]@,
{
    let views = keys@.map_values(|key: Vec<u8>| key@);
    assert forall|i: int| 0 <= i < views.len() implies #[trigger] views[i].len() <= u32::MAX by {
        assert(views[i] == keys@[i]@);
    }
    law_op_read_back(RawOp::Remove { keys: views }, tail);
    if let Ok(WalOpRaw::Remove { keys_bytes }) = result {
        let found = keys_bytes@.map_values(|key: Vec<u8>| key@);
        assert(found == views);
        assert forall|i: int| 0 <= i < keys@.len() implies #[trigger] keys_bytes@[i]@
            == keys@[i]@ by {
            assert(found[i] == views[i]);
        }
    }
}

/// An index that is written is read back with the same hash under each key and
/// nothing under the others, whatever bytes follow.
pub proof fn law_written_map_reads_back(
    map: &KeyMap,
    len: usize,
    written: Result<Vec<u8>, SerializationError>,
    input: &[u8],
    tail: Seq<u8>,
    result: Result<KeyMap, SerializationError>,
    key: &Vec<u8>,
    before: Option<BlobHash>,
    after: Option<BlobHash>,
)
    requires
        call_ensures(KeyMap::len, (map,), len),
        len <= u32::MAX,
        forall|k: Seq<u8>| #[trigger] map@.contains_key(k) ==> k.len() <= u32::MAX,
        call_ensures(serialize_btreemap_bytes_to_hash, (map,), written),
        written is Ok ==> input@ == written->Ok_0@ + tail,
        call_ensures(deserialize_btreemap_bytes_to_hash, (input,), result),
        call_ensures(KeyMap::get, (map, key), before),
        result is Ok ==> call_ensures(KeyMap::get, (&result->Ok_0, key), after),
    ensures
        written is Ok,
        result is Ok,
        after == before,
{
    law_map_read_back(map@, tail);
    if let (Some(a), Some(b)) = (before, after) {
        lemma_hash_extensional(a, b);
    }
}

} // verus!
