//! The byte formats of the index snapshot and of write-ahead log operations.
//!
//! All lengths and counts are 32-bit little-endian numbers.
//!
//! * Index: `[count]` and then, for each key in ascending order,
//!   `[key length][key][hash]`.
//! * Put: `[0][key length][key][hash]`.
//! * Remove: `[1][count]` and then, for each key, `[key length][key]`.

use vstd::prelude::*;
use vstd::slice::slice_subrange;
use vstd::slice::slice_to_vec;

use crate::key_map::{ascending_entries, entries_map, lemma_listing_exists, KeyMap};
use crate::types::{BlobHash, RawOp, WalOpRaw, HASH_SIZE};

verus! {

/// Why bytes could not be read back.
#[derive(Debug)]
pub enum SerializationError {
    /// The data ended where a tag should stand.
    UnexpectedEof { parsing_context: &'static str },
    /// `entity` takes `expected` bytes, and only `found` were left.
    InsufficientData {
        entity: &'static str,
        expected: usize,
        found: usize,
        parsing_context: &'static str,
    },
    /// `tag` stands for no variant of `enum_name`.
    InvalidVariantTag { tag: u8, enum_name: &'static str, parsing_context: &'static str },
}

// What is written.

/// The four little-endian bytes of the low 32 bits of `n`.
pub open spec fn le32(n: nat) -> Seq<u8> {
    seq![
        (n % 256) as u8,
        (n / 0x100 % 256) as u8,
        (n / 0x1_0000 % 256) as u8,
        (n / 0x100_0000 % 256) as u8,
    ]
}

/// A byte string behind its length.
pub open spec fn prefixed(data: Seq<u8>) -> Seq<u8> {
    le32(data.len()) + data
}

/// The byte strings `keys`, each behind its length.
pub open spec fn keys_bytes(keys: Seq<Seq<u8>>) -> Seq<u8>
    decreases keys.len(),
{
    if keys.len() == 0 {
        Seq::empty()
    } else {
        prefixed(keys[0]) + keys_bytes(keys.skip(1))
    }
}

/// The entries one after the other: each key behind its length, then the hash.
pub open spec fn entries_bytes(entries: Seq<(Seq<u8>, Seq<u8>)>) -> Seq<u8>
    decreases entries.len(),
{
    if entries.len() == 0 {
        Seq::empty()
    } else {
        prefixed(entries[0].0) + entries[0].1 + entries_bytes(entries.skip(1))
    }
}

/// The index format.
pub open spec fn map_bytes(map: Map<Seq<u8>, Seq<u8>>) -> Seq<u8> {
    le32(map.len()) + entries_bytes(ascending_entries(map))
}

/// The format of a log operation.
pub open spec fn op_bytes(op: RawOp) -> Seq<u8> {
    match op {
        RawOp::Put { key, hash } => seq![0u8] + prefixed(key) + hash,
        RawOp::Remove { keys } => seq![1u8] + le32(keys.len()) + keys_bytes(keys),
    }
}

// What is read.

/// The number that four little-endian bytes stand for.
pub open spec fn le32_value(bytes: Seq<u8>) -> u32 {
    (bytes[0] + 0x100 * bytes[1] + 0x1_0000 * bytes[2] + 0x100_0000 * bytes[3]) as u32
}

/// Reads one byte: what it is and what is left.
pub open spec fn take_u8(input: Seq<u8>, parsing_context: &'static str) -> Result<
    (u8, Seq<u8>),
    SerializationError,
> {
    if input.len() == 0 {
        Err(SerializationError::UnexpectedEof { parsing_context })
    } else {
        Ok((input[0], input.skip(1)))
    }
}

/// Reads a 32-bit number: what it is and what is left.
pub open spec fn take_u32(input: Seq<u8>, parsing_context: &'static str) -> Result<
    (u32, Seq<u8>),
    SerializationError,
> {
    if input.len() < 4 {
        Err(
            SerializationError::InsufficientData {
                entity: "u32",
                expected: 4,
                found: input.len() as usize,
                parsing_context,
            },
        )
    } else {
        Ok((le32_value(input.take(4)), input.skip(4)))
    }
}

/// Reads `n` bytes: what they are and what is left.
pub open spec fn take_fixed(input: Seq<u8>, n: usize, parsing_context: &'static str) -> Result<
    (Seq<u8>, Seq<u8>),
    SerializationError,
> {
    if input.len() < n {
        Err(
            SerializationError::InsufficientData {
                entity: "fixed bytes",
                expected: n,
                found: input.len() as usize,
                parsing_context,
            },
        )
    } else {
        Ok((input.take(n as int), input.skip(n as int)))
    }
}

/// Reads a byte string behind its length: what it is and what is left.
pub open spec fn take_prefixed(input: Seq<u8>, parsing_context: &'static str) -> Result<
    (Seq<u8>, Seq<u8>),
    SerializationError,
> {
    match take_u32(input, parsing_context) {
        Err(error) => Err(error),
        Ok((len, rest)) => if rest.len() < len {
            Err(
                SerializationError::InsufficientData {
                    entity: "variable-length bytes",
                    expected: len as usize,
                    found: rest.len() as usize,
                    parsing_context,
                },
            )
        } else {
            Ok((rest.take(len as int), rest.skip(len as int)))
        },
    }
}

/// Reads `n` byte strings: what they are and what is left.
pub open spec fn take_keys(input: Seq<u8>, n: nat) -> Result<
    (Seq<Seq<u8>>, Seq<u8>),
    SerializationError,
>
    decreases n,
{
    if n == 0 {
        Ok((Seq::empty(), input))
    } else {
        match take_prefixed(input, "Remove key") {
            Err(error) => Err(error),
            Ok((key, rest)) => match take_keys(rest, (n - 1) as nat) {
                Err(error) => Err(error),
                Ok((keys, rest)) => Ok((seq![key] + keys, rest)),
            },
        }
    }
}

/// Reads one index entry: key, hash and what is left.
pub open spec fn take_entry(input: Seq<u8>) -> Result<
    ((Seq<u8>, Seq<u8>), Seq<u8>),
    SerializationError,
> {
    match take_prefixed(input, "BTreeMap key") {
        Err(error) => Err(error),
        Ok((key, rest)) => match take_fixed(rest, HASH_SIZE, "BTreeMap hash") {
            Err(error) => Err(error),
            Ok((hash, rest)) => Ok(((key, hash), rest)),
        },
    }
}

/// Reads `n` index entries: what they are and what is left.
pub open spec fn take_entries(input: Seq<u8>, n: nat) -> Result<
    (Seq<(Seq<u8>, Seq<u8>)>, Seq<u8>),
    SerializationError,
>
    decreases n,
{
    if n == 0 {
        Ok((Seq::empty(), input))
    } else {
        match take_entry(input) {
            Err(error) => Err(error),
            Ok((entry, rest)) => match take_entries(rest, (n - 1) as nat) {
                Err(error) => Err(error),
                Ok((entries, rest)) => Ok((seq![entry] + entries, rest)),
            },
        }
    }
}

/// Reads the index format. What follows the last entry is not looked at.
pub open spec fn parse_map(input: Seq<u8>) -> Result<Map<Seq<u8>, Seq<u8>>, SerializationError> {
    match take_u32(input, "BTreeMap header") {
        Err(error) => Err(error),
        Ok((n, rest)) => match take_entries(rest, n as nat) {
            Err(error) => Err(error),
            Ok((entries, _)) => Ok(entries_map(entries)),
        },
    }
}

/// Reads the format of a put operation behind its tag.
pub open spec fn parse_put(input: Seq<u8>) -> Result<RawOp, SerializationError> {
    match take_prefixed(input, "WalOpRaw Put key") {
        Err(error) => Err(error),
        Ok((key, rest)) => match take_fixed(rest, HASH_SIZE, "WalOpRaw Put hash") {
            Err(error) => Err(error),
            Ok((hash, _)) => Ok(RawOp::Put { key, hash }),
        },
    }
}

/// Reads the format of a remove operation behind its tag.
pub open spec fn parse_remove(input: Seq<u8>) -> Result<RawOp, SerializationError> {
    match take_u32(input, "Remove num_keys") {
        Err(error) => Err(error),
        Ok((n, rest)) => match take_keys(rest, n as nat) {
            Err(error) => Err(error),
            Ok((keys, _)) => Ok(RawOp::Remove { keys }),
        },
    }
}

/// Reads the format of a log operation. What follows it is not looked at.
pub open spec fn parse_op(input: Seq<u8>) -> Result<RawOp, SerializationError> {
    match take_u8(input, "WalOpRaw variant") {
        Err(error) => Err(error),
        Ok((tag, rest)) => if tag == 0 {
            parse_put(rest)
        } else if tag == 1 {
            parse_remove(rest)
        } else {
            Err(
                SerializationError::InvalidVariantTag {
                    tag,
                    enum_name: "WalOpRaw",
                    parsing_context: "WalOpRaw deserialization",
                },
            )
        },
    }
}

// Reading.

/// Reads one byte off the front of `bytes`.
pub fn read_u8(bytes: &mut &[u8], parsing_context: &'static str) -> (result: Result<
    u8,
    SerializationError,
>)
    ensures
        match take_u8((*old(bytes))@, parsing_context) {
            Ok((value, rest)) => result == Ok::<u8, SerializationError>(value)
                && (*final(bytes))@ == rest,
            Err(error) => result == Err::<u8, SerializationError>(error)
                && *final(bytes) == *old(bytes),
        },
{
    let input: &[u8] = *bytes;
    if input.is_empty() {
        return Err(SerializationError::UnexpectedEof { parsing_context });
    }
    let value: u8 = input[0];
    *bytes = slice_subrange(input, 1, input.len());
    Ok(value)
}

/// Reads a 32-bit number off the front of `bytes`.
pub fn read_u32(bytes: &mut &[u8], parsing_context: &'static str) -> (result: Result<
    u32,
    SerializationError,
>)
    ensures
        match take_u32((*old(bytes))@, parsing_context) {
            Ok((value, rest)) => result == Ok::<u32, SerializationError>(value)
                && (*final(bytes))@ == rest,
            Err(error) => result == Err::<u32, SerializationError>(error)
                && *final(bytes) == *old(bytes),
        },
{
    let input: &[u8] = *bytes;
    if input.len() < 4 {
        return Err(
            SerializationError::InsufficientData {
                entity: "u32",
                expected: 4,
                found: input.len(),
                parsing_context,
            },
        );
    }
    let value: u32 = input[0] as u32 + 0x100 * (input[1] as u32) + 0x1_0000 * (input[2] as u32)
        + 0x100_0000 * (input[3] as u32);
    *bytes = slice_subrange(input, 4, input.len());
    Ok(value)
}

/// Reads `N` bytes off the front of `bytes`.
pub fn read_fixed_bytes<const N: usize>(
    bytes: &mut &[u8],
    parsing_context: &'static str,
) -> (result: Result<[u8; N], SerializationError>)
    ensures
        match take_fixed((*old(bytes))@, N, parsing_context) {
            Ok((value, rest)) => result is Ok && result->Ok_0@ == value && (*final(bytes))@ == rest,
            Err(error) => result == Err::<[u8; N], SerializationError>(error)
                && *final(bytes) == *old(bytes),
        },
{
    let input: &[u8] = *bytes;
    if input.len() < N {
        return Err(
            SerializationError::InsufficientData {
                entity: "fixed bytes",
                expected: N,
                found: input.len(),
                parsing_context,
            },
        );
    }
    let mut array: [u8; N] = [0u8; N];
    let mut i: usize = 0;
    while i < N
        invariant
            i <= N <= input@.len(),
            forall|j: int| 0 <= j < i ==> array@[j] == input@[j],
        decreases N - i,
    {
        array[i] = input[i];
        i += 1;
    }
    assert(array@ =~= input@.take(N as int));
    *bytes = slice_subrange(input, N, input.len());
    Ok(array)
}

/// Reads a byte string behind its length off the front of `bytes`. Where the
/// length could be read and the byte string is too short, the length is gone.
pub fn read_bytes_with_len(bytes: &mut &[u8], parsing_context: &'static str) -> (result: Result<
    Vec<u8>,
    SerializationError,
>)
    ensures
        match take_prefixed((*old(bytes))@, parsing_context) {
            Ok((value, rest)) => result is Ok && result->Ok_0@ == value && (*final(bytes))@ == rest,
            Err(error) => result == Err::<Vec<u8>, SerializationError>(error)
                && (*final(bytes))@ == (if (*old(bytes))@.len() < 4 {
                (*old(bytes))@
            } else {
                (*old(bytes))@.skip(4)
            }),
        },
{
    let len: usize = match read_u32(bytes, parsing_context) {
        Ok(len) => len as usize,
        Err(error) => {
            return Err(error);
        },
    };
    let input: &[u8] = *bytes;
    if input.len() < len {
        return Err(
            SerializationError::InsufficientData {
                entity: "variable-length bytes",
                expected: len,
                found: input.len(),
                parsing_context,
            },
        );
    }
    let data = slice_to_vec(slice_subrange(input, 0, len));
    *bytes = slice_subrange(input, len, input.len());
    Ok(data)
}

// Writing.

fn push_bytes(out: &mut Vec<u8>, data: &[u8])
    ensures
        final(out)@ == old(out)@ + data@,
{
    out.extend_from_slice(data);
    assert(out@ =~= old(out)@ + data@);
}

fn push_le32(out: &mut Vec<u8>, n: usize)
    ensures
        final(out)@ == old(out)@ + le32(n as nat),
{
    out.push((n % 256) as u8);
    out.push((n / 0x100 % 256) as u8);
    out.push((n / 0x1_0000 % 256) as u8);
    out.push((n / 0x100_0000 % 256) as u8);
    assert(out@ =~= old(out)@ + le32(n as nat));
}

fn push_prefixed(out: &mut Vec<u8>, data: &[u8])
    ensures
        final(out)@ == old(out)@ + prefixed(data@),
{
    push_le32(out, data.len());
    push_bytes(out, data);
    assert(out@ =~= old(out)@ + prefixed(data@));
}

pub(crate) proof fn lemma_entries_bytes_push(
    entries: Seq<(Seq<u8>, Seq<u8>)>,
    entry: (Seq<u8>, Seq<u8>),
)
    ensures
        entries_bytes(entries.push(entry)) == entries_bytes(entries) + prefixed(entry.0) + entry.1,
    decreases entries.len(),
{
    let grown = entries.push(entry);
    if entries.len() == 0 {
        assert(grown.skip(1) =~= entries);
        assert(entries_bytes(entries) =~= Seq::empty());
        assert(entries_bytes(grown) =~= entries_bytes(entries) + prefixed(entry.0) + entry.1);
    } else {
        lemma_entries_bytes_push(entries.skip(1), entry);
        assert(grown.skip(1) =~= entries.skip(1).push(entry));
        assert(entries_bytes(grown) =~= entries_bytes(entries) + prefixed(entry.0) + entry.1);
    }
}

pub(crate) proof fn lemma_keys_bytes_push(keys: Seq<Seq<u8>>, key: Seq<u8>)
    ensures
        keys_bytes(keys.push(key)) == keys_bytes(keys) + prefixed(key),
    decreases keys.len(),
{
    let grown = keys.push(key);
    if keys.len() == 0 {
        assert(grown.skip(1) =~= keys);
        assert(keys_bytes(keys) =~= Seq::empty());
        assert(keys_bytes(grown) =~= keys_bytes(keys) + prefixed(key));
    } else {
        lemma_keys_bytes_push(keys.skip(1), key);
        assert(grown.skip(1) =~= keys.skip(1).push(key));
        assert(keys_bytes(grown) =~= keys_bytes(keys) + prefixed(key));
    }
}

/// Writes an index. A length or count that does not fit into 32 bits is
/// written by its low 32 bits.
pub fn serialize_btreemap_bytes_to_hash(map: &KeyMap) -> (result: Result<
    Vec<u8>,
    SerializationError,
>)
    ensures
        result is Ok,
        result->Ok_0@ == map_bytes(map@),
{
    let mut out: Vec<u8> = Vec::new();
    let count: usize = map.len();
    push_le32(&mut out, count);
    let ghost entries = ascending_entries(map@);
    proof {
        lemma_listing_exists(map@);
        assert(entries.take(0) =~= Seq::empty());
        assert(out@ =~= le32(map@.len()) + entries_bytes(entries.take(0)));
    }
    let mut i: usize = 0;
    while i < count
        invariant
            i <= count,
            count == map@.len() == entries.len(),
            entries == ascending_entries(map@),
            out@ == le32(map@.len()) + entries_bytes(entries.take(i as int)),
        decreases count - i,
    {
        let (key, hash) = map.entry(i);
        push_prefixed(&mut out, key.as_slice());
        push_bytes(&mut out, hash.as_bytes().as_slice());
        proof {
            let entry = entries[i as int];
            assert(entries.take(i + 1) =~= entries.take(i as int).push(entry));
            lemma_entries_bytes_push(entries.take(i as int), entry);
            assert(out@ =~= le32(map@.len()) + entries_bytes(entries.take(i + 1)));
        }
        i += 1;
    }
    assert(entries.take(count as int) =~= entries);
    Ok(out)
}

/// Writes a log operation. A length or count that does not fit into 32 bits is
/// written by its low 32 bits.
pub fn serialize_wal_op_raw(op: &WalOpRaw) -> (result: Result<Vec<u8>, SerializationError>)
    ensures
        result is Ok,
        result->Ok_0@ == op_bytes(op@),
{
    let mut out: Vec<u8> = Vec::new();
    match op {
        WalOpRaw::Put { key_bytes, hash } => {
            out.push(0);
            push_prefixed(&mut out, key_bytes.as_slice());
            push_bytes(&mut out, hash.as_bytes().as_slice());
            assert(out@ =~= op_bytes(op@));
        },
        WalOpRaw::Remove { keys_bytes: all_keys } => {
            let ghost keys = all_keys@.map_values(|key: Vec<u8>| key@);
            out.push(1);
            push_le32(&mut out, all_keys.len());
            let ghost head = seq![1u8] + le32(keys.len());
            assert(keys.take(0) =~= Seq::empty());
            assert(out@ =~= head + keys_bytes(keys.take(0)));
            let mut i: usize = 0;
            while i < all_keys.len()
                invariant
                    i <= all_keys@.len(),
                    keys == all_keys@.map_values(|key: Vec<u8>| key@),
                    out@ == head + keys_bytes(keys.take(i as int)),
                decreases all_keys@.len() - i,
            {
                push_prefixed(&mut out, all_keys[i].as_slice());
                proof {
                    assert(keys.take(i + 1) =~= keys.take(i as int).push(keys[i as int]));
                    lemma_keys_bytes_push(keys.take(i as int), keys[i as int]);
                    assert(out@ =~= head + keys_bytes(keys.take(i + 1)));
                }
                i += 1;
            }
            assert(keys.take(keys.len() as int) =~= keys);
        },
    }
    Ok(out)
}

/// Reads an index back. Of two entries with the same key the later one counts.
pub fn deserialize_btreemap_bytes_to_hash(bytes: &[u8]) -> (result: Result<
    KeyMap,
    SerializationError,
>)
    ensures
        match parse_map(bytes@) {
            Ok(map) => result is Ok && result->Ok_0@ == map,
            Err(error) => result == Err::<KeyMap, SerializationError>(error),
        },
{
    let mut rest: &[u8] = bytes;
    let count: u32 = match read_u32(&mut rest, "BTreeMap header") {
        Ok(count) => count,
        Err(error) => {
            return Err(error);
        },
    };
    let ghost body = rest@;
    let ghost mut done: Seq<(Seq<u8>, Seq<u8>)> = Seq::empty();
    let mut map = KeyMap::new();
    let mut i: u32 = 0;
    while i < count
        invariant
            i <= count,
            done.len() == i,
            map@ == entries_map(done),
            match take_entries(rest@, (count - i) as nat) {
                Err(error) => take_entries(body, count as nat) == Err::<
                    (Seq<(Seq<u8>, Seq<u8>)>, Seq<u8>),
                    SerializationError,
                >(error),
                Ok((more, left)) => take_entries(body, count as nat) == Ok::<
                    (Seq<(Seq<u8>, Seq<u8>)>, Seq<u8>),
                    SerializationError,
                >((done + more, left)),
            },
            parse_map(bytes@) == (match take_entries(body, count as nat) {
                Err(error) => Err::<Map<Seq<u8>, Seq<u8>>, SerializationError>(error),
                Ok((entries, _)) => Ok(entries_map(entries)),
            }),
        decreases count - i,
    {
        let ghost start = rest@;
        let key = match read_bytes_with_len(&mut rest, "BTreeMap key") {
            Ok(key) => key,
            Err(error) => {
                return Err(error);
            },
        };
        let hash = match read_fixed_bytes::<32>(&mut rest, "BTreeMap hash") {
            Ok(hash) => BlobHash::from_bytes(hash),
            Err(error) => {
                return Err(error);
            },
        };
        proof {
            let entry = (key@, hash@);
            assert(take_entry(start) == Ok::<((Seq<u8>, Seq<u8>), Seq<u8>), SerializationError>(
                (entry, rest@),
            ));
            assert(done.push(entry).drop_last() =~= done);
            match take_entries(rest@, (count - i - 1) as nat) {
                Ok((more, left)) => {
                    assert(done + (seq![entry] + more) =~= done.push(entry) + more);
                },
                Err(_) => {},
            }
            done = done.push(entry);
        }
        map.insert(key, hash);
        i += 1;
    }
    assert(done + Seq::<(Seq<u8>, Seq<u8>)>::empty() =~= done);
    Ok(map)
}

/// Reads a log operation back.
pub fn deserialize_wal_op_raw(bytes: &[u8]) -> (result: Result<WalOpRaw, SerializationError>)
    ensures
        match parse_op(bytes@) {
            Ok(op) => result is Ok && result->Ok_0@ == op,
            Err(error) => result == Err::<WalOpRaw, SerializationError>(error),
        },
{
    let mut rest: &[u8] = bytes;
    let tag: u8 = match read_u8(&mut rest, "WalOpRaw variant") {
        Ok(tag) => tag,
        Err(error) => {
            return Err(error);
        },
    };
    match tag {
        0 => {
            let key_bytes = match read_bytes_with_len(&mut rest, "WalOpRaw Put key") {
                Ok(key_bytes) => key_bytes,
                Err(error) => {
                    return Err(error);
                },
            };
            match read_fixed_bytes::<32>(&mut rest, "WalOpRaw Put hash") {
                Ok(hash) => Ok(WalOpRaw::Put { key_bytes, hash: BlobHash::from_bytes(hash) }),
                Err(error) => Err(error),
            }
        },
        1 => {
            let count: u32 = match read_u32(&mut rest, "Remove num_keys") {
                Ok(count) => count,
                Err(error) => {
                    return Err(error);
                },
            };
            let ghost body = rest@;
            let mut keys: Vec<Vec<u8>> = Vec::new();
            let ghost mut done: Seq<Seq<u8>> = Seq::empty();
            let mut i: u32 = 0;
            assert(keys@.map_values(|key: Vec<u8>| key@) =~= done);
            while i < count
                invariant
                    i <= count,
                    done.len() == i,
                    keys@.map_values(|key: Vec<u8>| key@) == done,
                    match take_keys(rest@, (count - i) as nat) {
                        Err(error) => take_keys(body, count as nat) == Err::<
                            (Seq<Seq<u8>>, Seq<u8>),
                            SerializationError,
                        >(error),
                        Ok((more, left)) => take_keys(body, count as nat) == Ok::<
                            (Seq<Seq<u8>>, Seq<u8>),
                            SerializationError,
                        >((done + more, left)),
                    },
                    parse_op(bytes@) == (match take_keys(body, count as nat) {
                        Err(error) => Err::<RawOp, SerializationError>(error),
                        Ok((found, _)) => Ok(RawOp::Remove { keys: found }),
                    }),
                decreases count - i,
            {
                let key = match read_bytes_with_len(&mut rest, "Remove key") {
                    Ok(key) => key,
                    Err(error) => {
                        return Err(error);
                    },
                };
                proof {
                    match take_keys(rest@, (count - i - 1) as nat) {
                        Ok((more, left)) => {
                            assert(done + (seq![key@] + more) =~= done.push(key@) + more);
                        },
                        Err(_) => {},
                    }
                    done = done.push(key@);
                }
                keys.push(key);
                assert(keys@.map_values(|key: Vec<u8>| key@) =~= done);
                i += 1;
            }
            assert(done + Seq::<Seq<u8>>::empty() =~= done);
            Ok(WalOpRaw::Remove { keys_bytes: keys })
        },
        _ => Err(
            SerializationError::InvalidVariantTag {
                tag,
                enum_name: "WalOpRaw",
                parsing_context: "WalOpRaw deserialization",
            },
        ),
    }
}

} // verus!
