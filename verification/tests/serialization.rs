use cas::key_map::KeyMap;
use cas::serialization::{
    deserialize_btreemap_bytes_to_hash, deserialize_wal_op_raw, read_bytes_with_len,
    read_fixed_bytes, read_u32, read_u8, serialize_btreemap_bytes_to_hash, serialize_wal_op_raw,
    SerializationError,
};
use cas::types::{BlobHash, WalOpRaw, HASH_SIZE};

fn make_test_hash(byte: u8) -> BlobHash {
    let mut bytes = [0u8; HASH_SIZE];
    bytes[0] = byte;
    BlobHash::from_bytes(bytes)
}

#[test]
fn test_btreemap_serialization_empty() {
    let map: KeyMap = KeyMap::new();
    let serialized = serialize_btreemap_bytes_to_hash(&map).unwrap();
    let deserialized = deserialize_btreemap_bytes_to_hash(&serialized).unwrap();
    assert_eq!(map, deserialized);
}

#[test]
fn test_btreemap_serialization_single_empty_key() {
    let mut map = KeyMap::new();
    map.insert(vec![], make_test_hash(1));
    let serialized = serialize_btreemap_bytes_to_hash(&map).unwrap();
    let deserialized = deserialize_btreemap_bytes_to_hash(&serialized).unwrap();
    assert_eq!(map, deserialized);
}

#[test]
fn test_btreemap_serialization_multiple_keys() {
    let mut map = KeyMap::new();
    map.insert(vec![], make_test_hash(1)); // empty key
    map.insert(vec![1, 2, 3], make_test_hash(2)); // small key
    map.insert(vec![255; 1000], make_test_hash(3)); // large key
    map.insert(vec![0], make_test_hash(4)); // single byte key

    let serialized = serialize_btreemap_bytes_to_hash(&map).unwrap();
    let deserialized = deserialize_btreemap_bytes_to_hash(&serialized).unwrap();
    assert_eq!(map, deserialized);
}

#[test]
fn test_wal_op_put_empty_key() {
    let op = WalOpRaw::Put { key_bytes: vec![], hash: make_test_hash(42) };
    let serialized = serialize_wal_op_raw(&op).unwrap();
    let deserialized = deserialize_wal_op_raw(&serialized).unwrap();

    match deserialized {
        WalOpRaw::Put { key_bytes, hash } => {
            assert_eq!(key_bytes, vec![]);
            assert_eq!(hash, make_test_hash(42));
        }
        WalOpRaw::Remove { .. } => panic!("Wrong variant"),
    }
}

#[test]
fn test_wal_op_put_large_key() {
    let large_key = vec![0xAB; 10000];
    let op = WalOpRaw::Put { key_bytes: large_key.clone(), hash: make_test_hash(99) };
    let serialized = serialize_wal_op_raw(&op).unwrap();
    let deserialized = deserialize_wal_op_raw(&serialized).unwrap();

    match deserialized {
        WalOpRaw::Put { key_bytes, hash } => {
            assert_eq!(key_bytes, large_key);
            assert_eq!(hash, make_test_hash(99));
        }
        WalOpRaw::Remove { .. } => panic!("Wrong variant"),
    }
}

#[test]
fn test_wal_op_remove_empty() {
    // empty list of keys
    let op = WalOpRaw::Remove { keys_bytes: vec![] };
    let serialized = serialize_wal_op_raw(&op).unwrap();
    let deserialized = deserialize_wal_op_raw(&serialized).unwrap();

    match deserialized {
        WalOpRaw::Remove { keys_bytes } => {
            assert_eq!(keys_bytes.len(), 0);
        }
        WalOpRaw::Put { .. } => panic!("Wrong variant"),
    }
}

#[test]
fn test_wal_op_remove_single_empty_key() {
    // single empty key
    let op = WalOpRaw::Remove { keys_bytes: vec![b"".to_vec()] };
    let serialized = serialize_wal_op_raw(&op).unwrap();
    let deserialized = deserialize_wal_op_raw(&serialized).unwrap();

    match deserialized {
        WalOpRaw::Remove { keys_bytes } => {
            assert_eq!(keys_bytes.len(), 1);
            assert_eq!(keys_bytes[0], b"");
        }
        WalOpRaw::Put { .. } => panic!("Wrong variant"),
    }
}

#[test]
fn test_wal_op_remove_mixed_keys() {
    // multiple keys of different sizes including empty
    let large_key = vec![0xFF; 1000];
    let op = WalOpRaw::Remove {
        keys_bytes: vec![
            b"".to_vec(),      // empty key
            b"hello".to_vec(), // small key
            large_key.clone(), // large key
        ],
    };
    let serialized = serialize_wal_op_raw(&op).unwrap();
    let deserialized = deserialize_wal_op_raw(&serialized).unwrap();

    match deserialized {
        WalOpRaw::Remove { keys_bytes } => {
            assert_eq!(keys_bytes.len(), 3);
            assert_eq!(keys_bytes[0], b"");
            assert_eq!(keys_bytes[1], b"hello");
            assert_eq!(keys_bytes[2], large_key);
        }
        WalOpRaw::Put { .. } => panic!("Wrong variant"),
    }
}

#[test]
fn test_btreemap_invalid_data() {
    // test with invalid data that's too short
    let invalid_data = vec![1, 2, 3]; // not enough bytes for even a header
    let result = deserialize_btreemap_bytes_to_hash(&invalid_data);
    assert!(result.is_err());

    // test with valid header but invalid entry
    let mut invalid_data = Vec::new();
    invalid_data.extend_from_slice(&1u32.to_le_bytes()); // 1 entry
    invalid_data.extend_from_slice(&4u32.to_le_bytes()); // key len = 4
    invalid_data.extend_from_slice(b"hi"); // but only 2 bytes provided
    let result = deserialize_btreemap_bytes_to_hash(&invalid_data);
    assert!(result.is_err());
}

#[test]
fn test_wal_op_invalid_data() {
    // test with empty data
    let result = deserialize_wal_op_raw(&[]);
    assert!(result.is_err());

    // test with invalid variant tag
    let result = deserialize_wal_op_raw(&[99]); // invalid tag
    assert!(result.is_err());

    // test with valid tag but invalid data
    let mut invalid_data = vec![0]; // Put variant
    invalid_data.extend_from_slice(&4u32.to_le_bytes()); // key len = 4
    invalid_data.extend_from_slice(b"hi"); // but only 2 bytes
    let result = deserialize_wal_op_raw(&invalid_data);
    assert!(result.is_err());
}

#[test]
fn test_helper_functions() {
    let data = [42, 1, 0, 0, 0, 5, 6, 7, 8, 9];
    let mut slice = &data[..];

    // test read_u8
    assert_eq!(read_u8(&mut slice, "test").unwrap(), 42);

    // test read_u32
    assert_eq!(read_u32(&mut slice, "test").unwrap(), 1);

    // test read_fixed_bytes
    let fixed: [u8; 3] = read_fixed_bytes(&mut slice, "test").unwrap();
    assert_eq!(fixed, [5, 6, 7]);

    // test read_bytes_with_len (remaining 2 bytes should be interpreted as len=2056 which
    // should fail)
    let result = read_bytes_with_len(&mut slice, "test");
    assert!(result.is_err());
}

#[test]
fn test_helper_functions_errors() {
    // test read_u8 with empty data
    let mut empty = &[][..];
    assert!(read_u8(&mut empty, "test").is_err());

    // test read_u32 with insufficient data
    let mut short = &[1, 2][..];
    assert!(read_u32(&mut short, "test").is_err());

    // test read_fixed_bytes with insufficient data
    let mut short = &[1, 2][..];
    let result: Result<[u8; 5], _> = read_fixed_bytes(&mut short, "test");
    assert!(result.is_err());

    // test read_bytes_with_len with insufficient data
    let mut data = &[5u8, 0, 0, 0, 1, 2][..]; // len=5 but only 2 bytes follow
    assert!(read_bytes_with_len(&mut data, "test").is_err());
}

fn raw_put(key: &[u8], byte: u8) -> WalOpRaw {
    WalOpRaw::Put { key_bytes: key.to_vec(), hash: make_test_hash(byte) }
}

#[test]
fn map_bytes_are_exact() {
    let mut map = KeyMap::new();
    assert_eq!(map.insert(vec![2], make_test_hash(7)), None);
    assert_eq!(map.insert(vec![], make_test_hash(8)), None);
    let mut expected: Vec<u8> = vec![2, 0, 0, 0];
    expected.extend_from_slice(&[0, 0, 0, 0, 8]);
    expected.extend_from_slice(&[0; 31]);
    expected.extend_from_slice(&[1, 0, 0, 0, 2, 7]);
    expected.extend_from_slice(&[0; 31]);
    assert_eq!(serialize_btreemap_bytes_to_hash(&map).unwrap(), expected);
}

#[test]
fn op_bytes_are_exact() {
    let mut expected: Vec<u8> = vec![0, 2, 0, 0, 0, b'h', b'i', 42];
    expected.extend_from_slice(&[0; 31]);
    assert_eq!(serialize_wal_op_raw(&raw_put(b"hi", 42)).unwrap(), expected);

    let op = WalOpRaw::Remove { keys_bytes: vec![b"hi".to_vec(), vec![]] };
    assert_eq!(
        serialize_wal_op_raw(&op).unwrap(),
        vec![1, 2, 0, 0, 0, 2, 0, 0, 0, b'h', b'i', 0, 0, 0, 0]
    );
}

#[test]
fn long_lengths_use_all_four_bytes() {
    let key = vec![1u8; 0x1_0203];
    let bytes = serialize_wal_op_raw(&raw_put(&key, 1)).unwrap();
    assert_eq!(&bytes[..5], &[0, 0x03, 0x02, 0x01, 0x00]);
    let mut slice = &[0x04u8, 0x03, 0x02, 0x81][..];
    assert_eq!(read_u32(&mut slice, "test").unwrap(), 0x8102_0304);
    assert!(slice.is_empty());
}

#[test]
fn map_is_read_in_any_order_and_the_last_entry_wins() {
    let mut bytes: Vec<u8> = vec![3, 0, 0, 0];
    for (key, byte) in [(9u8, 1u8), (3, 2), (9, 3)] {
        bytes.extend_from_slice(&[1, 0, 0, 0, key, byte]);
        bytes.extend_from_slice(&[0; 31]);
    }
    let map = deserialize_btreemap_bytes_to_hash(&bytes).unwrap();
    assert_eq!(map.len(), 2);
    assert_eq!(map.get(&vec![9]), Some(make_test_hash(3)));
    assert_eq!(map.get(&vec![3]), Some(make_test_hash(2)));
    assert_eq!(map.get(&vec![]), None);
    assert_eq!(map.entry(0), (&vec![3], &make_test_hash(2)));
    assert_eq!(map.entry(1), (&vec![9], &make_test_hash(3)));
}

#[test]
fn trailing_bytes_are_passed_over() {
    let mut map = KeyMap::new();
    map.insert(vec![5, 6], make_test_hash(1));
    let mut bytes = serialize_btreemap_bytes_to_hash(&map).unwrap();
    bytes.extend_from_slice(b"rest");
    assert_eq!(deserialize_btreemap_bytes_to_hash(&bytes).unwrap(), map);

    let mut bytes = serialize_wal_op_raw(&raw_put(b"k", 3)).unwrap();
    bytes.push(77);
    match deserialize_wal_op_raw(&bytes).unwrap() {
        WalOpRaw::Put { key_bytes, hash } => {
            assert_eq!(key_bytes, b"k");
            assert_eq!(hash, make_test_hash(3));
        }
        WalOpRaw::Remove { .. } => panic!("Wrong variant"),
    }
}

#[test]
fn every_cut_is_refused() {
    let mut map = KeyMap::new();
    map.insert(vec![5, 6], make_test_hash(1));
    map.insert(vec![7], make_test_hash(2));
    let bytes = serialize_btreemap_bytes_to_hash(&map).unwrap();
    for n in 0..bytes.len() {
        assert!(deserialize_btreemap_bytes_to_hash(&bytes[..n]).is_err());
    }
    let remove = WalOpRaw::Remove { keys_bytes: vec![vec![1], vec![], vec![2, 3]] };
    for op in [raw_put(b"key", 4), remove] {
        let bytes = serialize_wal_op_raw(&op).unwrap();
        for n in 0..bytes.len() {
            assert!(deserialize_wal_op_raw(&bytes[..n]).is_err());
        }
    }
}

#[test]
fn errors_say_what_is_missing() {
    let mut empty = &[][..];
    assert!(matches!(
        read_u8(&mut empty, "here"),
        Err(SerializationError::UnexpectedEof { parsing_context: "here" })
    ));
    let mut short = &[1u8, 2][..];
    assert!(matches!(
        read_u32(&mut short, "here"),
        Err(SerializationError::InsufficientData {
            entity: "u32",
            expected: 4,
            found: 2,
            parsing_context: "here",
        })
    ));
    assert_eq!(short, &[1, 2]);
    let result: Result<[u8; 5], SerializationError> = read_fixed_bytes(&mut short, "here");
    assert!(matches!(
        result,
        Err(SerializationError::InsufficientData { expected: 5, found: 2, .. })
    ));
    assert_eq!(short, &[1, 2]);
    let mut cut = &[5u8, 0, 0, 0, 1, 2][..];
    assert!(matches!(
        read_bytes_with_len(&mut cut, "here"),
        Err(SerializationError::InsufficientData {
            entity: "variable-length bytes",
            expected: 5,
            found: 2,
            parsing_context: "here",
        })
    ));
    assert_eq!(cut, &[1, 2]);
    assert!(matches!(
        deserialize_wal_op_raw(&[99]),
        Err(SerializationError::InvalidVariantTag { tag: 99, .. })
    ));
}

#[test]
fn read_ops_write_the_same_bytes() {
    let bytes: Vec<u8> = vec![1, 2, 0, 0, 0, 0, 0, 0, 0, 1, 0, 0, 0, 250];
    let op = deserialize_wal_op_raw(&bytes).unwrap();
    assert_eq!(serialize_wal_op_raw(&op).unwrap(), bytes);
}
