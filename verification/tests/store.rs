use std::collections::{BTreeMap, BTreeSet};

use cas::cas_manager::{
    clamp_range, CasIoOperation, CasManager, CasManagerError, CommitPlacement, DeletionStage,
    RangeStage,
};
use cas::index::{Index, IndexError, KeyBound};
use cas::serialization::SerializationError;
use cas::store::{OpStage, PendingOp, SyncStage};
use cas::transaction::{CommitSync, StagingFileOp, TransactionError};
use cas::types::{IoErrorKind, IoFailure, StorePath};
use cas::{
    calculate_blob_hash, BlobHash, CasInner, LibError, LibIoOperation, SyncMode, Transaction,
    WalOp,
};

type Disk = BTreeMap<BlobHash, Vec<u8>>;

fn not_found() -> IoFailure {
    IoFailure {
        kind: IoErrorKind::NotFound,
        error: std::io::Error::new(std::io::ErrorKind::NotFound, "no such file"),
    }
}

fn broken() -> IoFailure {
    IoFailure { kind: IoErrorKind::Other, error: std::io::Error::other("broken") }
}

fn manager() -> CasManager<(), ()> {
    CasManager::new((), ())
}

fn open(sync_mode: SyncMode) -> CasInner<u64> {
    let (store, log) = CasInner::<u64>::new(sync_mode)
        .created::<u64>(Ok(()))
        .unwrap()
        .created::<u64>(Ok(()))
        .unwrap()
        .loaded(Ok((Index::<u64>::new(), "log")))
        .unwrap();
    assert_eq!(log, "log");
    store
}

fn begin(key: u64) -> Transaction<u64> {
    let (stage, file) = Transaction::new(key).created(Ok("file")).unwrap();
    assert_eq!(file, "file");
    let (transaction, file) = stage.reopened(Ok("open file")).unwrap();
    assert_eq!(file, "open file");
    transaction
}

fn finish(transaction: Transaction<u64>) -> CommitSync<u64> {
    let (stage, file) = transaction.finish(Ok(())).unwrap().handle_cloned(Ok("clone")).unwrap();
    assert_eq!(file, "clone");
    stage
}

fn hash_of(byte: u8) -> BlobHash {
    let mut bytes = [0u8; 32];
    bytes[31] = byte;
    BlobHash::from_bytes(bytes)
}

fn hex(hash: &BlobHash) -> String {
    hash.as_bytes().iter().map(|byte| format!("{:02x}", byte)).collect()
}

fn commit(disk: &mut Disk, hash: &BlobHash, content: Vec<u8>) -> StorePath {
    let check = manager().commit_blob(hash).created(Ok(())).unwrap();
    match check.checked(disk.contains_key(hash)) {
        CommitPlacement::Move(step) => {
            disk.insert(*hash, content);
            step.moved(Ok(())).unwrap()
        }
        CommitPlacement::Discard(step) => step.discarded(Ok(())).unwrap(),
    }
}

fn delete(disk: &mut Disk, hashes: &Vec<BlobHash>) -> Vec<BlobHash> {
    let mut stage = manager().delete_blobs(hashes);
    loop {
        match stage {
            DeletionStage::Done(deleted) => return deleted,
            DeletionStage::Remove(pending) => {
                let outcome = match disk.remove(&pending.hash()) {
                    Some(_) => Ok(()),
                    None => Err(not_found()),
                };
                stage = pending.removed(outcome).unwrap();
            }
        }
    }
}

fn carry_out<A>(store: &mut CasInner<u64>, disk: &mut Disk, pending: PendingOp<u64, A>) -> A {
    let deletion = pending.logged(store, Ok(())).unwrap();
    let deleted = delete(disk, &deletion.hashes);
    deletion.deleted::<u64>(Ok(deleted)).unwrap()
}

fn put(store: &mut CasInner<u64>, disk: &mut Disk, key: u64, pieces: &[&[u8]]) -> BlobHash {
    let (mut transaction, ()) = store.put(Ok((begin(key), ()))).unwrap();
    let mut content = Vec::new();
    for piece in pieces {
        transaction.write(piece, Ok(())).unwrap();
        content.extend_from_slice(piece);
    }
    let synced = match store.fdatasync("file") {
        SyncStage::Send("file", step) => step.sent::<u64, &str>(Ok(())),
        SyncStage::Flush("file", step) => step.flushed(Ok(())),
        _ => panic!("another file"),
    };
    let blob = finish(transaction).synced(synced).unwrap();
    let hash = blob.hash;
    let path = commit(disk, &hash, content);
    let pending = blob.stored(Ok(path)).unwrap();
    carry_out(store, disk, pending);
    hash
}

fn remove(store: &mut CasInner<u64>, disk: &mut Disk, key: u64) -> bool {
    match store.remove(&key) {
        OpStage::Done(answer) => answer,
        OpStage::Log(pending) => carry_out(store, disk, pending),
    }
}

fn remove_range(
    store: &mut CasInner<u64>,
    disk: &mut Disk,
    start: KeyBound<u64>,
    end: KeyBound<u64>,
) -> usize {
    match store.remove_range(&start, &end) {
        OpStage::Done(answer) => answer,
        OpStage::Log(pending) => carry_out(store, disk, pending),
    }
}

fn read(disk: &Disk, hash: &BlobHash) -> Result<Vec<u8>, IoFailure> {
    disk.get(hash).cloned().ok_or_else(not_found)
}

fn get(store: &CasInner<u64>, disk: &Disk, key: u64) -> Option<Vec<u8>> {
    store
        .get(&key, |hash: &BlobHash| manager().read_blob(hash, read(disk, hash)))
        .unwrap()
        .map(|bytes| bytes.to_vec())
}

fn read_range(
    disk: &Disk,
    hash: &BlobHash,
    start: u64,
    end: u64,
) -> Result<bytes::Bytes, CasManagerError> {
    let open = manager().read_blob_range(hash, start, end)?;
    let found = disk.get(hash);
    let (measure, content) = open.opened(match found {
        Some(content) => Ok(content),
        None => Err(not_found()),
    })?;
    match measure.measured(Ok(content.len() as u64))? {
        RangeStage::Done(bytes) => Ok(bytes),
        RangeStage::Fill(fill) => {
            let mut buffer = fill.buffer();
            assert_eq!(buffer, vec![0; fill.len]);
            let from = fill.offset as usize;
            buffer.copy_from_slice(&content[from..from + fill.len]);
            let filled = buffer.len();
            fill.filled(buffer, Ok(filled))
        }
    }
}

fn get_range(
    store: &CasInner<u64>,
    disk: &Disk,
    key: u64,
    start: u64,
    end: u64,
) -> Result<Option<bytes::Bytes>, LibError<u64>> {
    store.get_range(&key, start, end, |hash: &BlobHash, from: u64, to: u64| {
        read_range(disk, hash, from, to)
    })
}

fn assert_complete(store: &CasInner<u64>, disk: &Disk) {
    let files: Vec<BlobHash> = disk.keys().cloned().collect();
    assert_eq!(store.known_blobs(), files);
}

#[test]
fn hashes_are_blake3() {
    assert_eq!(
        hex(&calculate_blob_hash(b"")),
        "af1349b9f5f9a1a6a0404dea36dcc9499bcb25c9adc112b7cc9a93cae41f3262"
    );
    assert_eq!(
        hex(&calculate_blob_hash(b"abc")),
        "6437b3ac38465133ffb63b75273a8db548c558465d79db03fd359c6cd5bd9d85"
    );
    let large: Vec<u8> = (0..100_000u32).map(|i| (i % 251) as u8).collect();
    assert_eq!(calculate_blob_hash(&large).as_bytes(), blake3::hash(&large).as_bytes());
}

#[test]
fn pieces_hash_as_the_whole() {
    let large: Vec<u8> = (0..5000u32).map(|i| (i % 251) as u8).collect();
    for cut in [0, 1, 1023, 1024, 1025, 4999, 5000] {
        let mut transaction = begin(1);
        transaction.write(&large[..cut], Ok(())).unwrap();
        transaction.write(&large[cut..], Ok(())).unwrap();
        assert_eq!(transaction.bytes_written(), 5000);
        assert_eq!(finish(transaction).synced::<()>(Ok(())).unwrap().hash, calculate_blob_hash(&large));
    }
    assert_eq!(finish(begin(1)).synced::<()>(Ok(())).unwrap().hash, calculate_blob_hash(b""));
}

#[test]
fn what_was_put_is_read_back() {
    for sync_mode in [SyncMode::Sync, SyncMode::Async] {
        let mut store = open(sync_mode);
        let mut disk = Disk::new();
        assert_eq!(get(&store, &disk, 1), None);
        let hash = put(&mut store, &mut disk, 1, &[b"hello ", b"world"]);
        put(&mut store, &mut disk, 2, &[b"other"]);
        assert_eq!(hash, calculate_blob_hash(b"hello world"));
        assert_eq!(get(&store, &disk, 1), Some(b"hello world".to_vec()));
        assert_eq!(get(&store, &disk, 2), Some(b"other".to_vec()));
        assert_eq!(get(&store, &disk, 3), None);
        assert_eq!(store.get_hash_for_key(&1), Some(hash));
        assert_eq!(store.get_hash_for_key(&3), None);
        assert!(store.contains_key(&2));
        assert!(!store.contains_key(&3));
        assert_complete(&store, &disk);
    }
}

#[test]
fn a_replaced_blob_is_deleted() {
    let mut store = open(SyncMode::Sync);
    let mut disk = Disk::new();
    let first = put(&mut store, &mut disk, 1, &[b"first"]);
    let second = put(&mut store, &mut disk, 1, &[b"second"]);
    assert_eq!(get(&store, &disk, 1), Some(b"second".to_vec()));
    assert!(!disk.contains_key(&first));
    assert!(disk.contains_key(&second));
    assert_complete(&store, &disk);
}

#[test]
fn a_shared_blob_lives_as_long_as_a_key_has_it() {
    let mut store = open(SyncMode::Sync);
    let mut disk = Disk::new();
    let a = put(&mut store, &mut disk, 1, &[b"same"]);
    let b = put(&mut store, &mut disk, 2, &[b"sa", b"me"]);
    assert_eq!(a, b);
    assert_eq!(disk.len(), 1);
    assert!(remove(&mut store, &mut disk, 1));
    assert_eq!(get(&store, &disk, 1), None);
    assert_eq!(get(&store, &disk, 2), Some(b"same".to_vec()));
    assert_complete(&store, &disk);
    put(&mut store, &mut disk, 2, &[b"same"]);
    assert_eq!(get(&store, &disk, 2), Some(b"same".to_vec()));
    assert!(remove(&mut store, &mut disk, 2));
    assert!(disk.is_empty());
}

#[test]
fn removing_twice_finds_nothing() {
    let mut store = open(SyncMode::Sync);
    let mut disk = Disk::new();
    put(&mut store, &mut disk, 1, &[b"x"]);
    put(&mut store, &mut disk, 2, &[b"y"]);
    assert!(remove(&mut store, &mut disk, 1));
    assert!(!remove(&mut store, &mut disk, 1));
    assert!(!remove(&mut store, &mut disk, 9));
    assert_eq!(get(&store, &disk, 2), Some(b"y".to_vec()));
    assert_complete(&store, &disk);
}

#[test]
fn a_repeated_op_releases_nothing() {
    let mut index = Index::<u64>::new();
    let op = WalOp::Put { key: 4, hash: hash_of(1) };
    assert_eq!(index.apply_wal_op(&op, Ok(())).unwrap(), vec![]);
    assert_eq!(index.apply_wal_op(&op, Ok(())).unwrap(), vec![]);
    let op = WalOp::Remove { keys: vec![4, 4, 5] };
    assert_eq!(index.apply_wal_op(&op, Ok(())).unwrap(), vec![hash_of(1)]);
    assert_eq!(index.apply_wal_op(&op, Ok(())).unwrap(), vec![]);
    assert!(!index.contains_key(&4));
}

#[test]
fn released_blobs_come_in_order_and_once() {
    let mut index = Index::<u64>::new();
    for (key, byte) in [(1, 9), (2, 3), (3, 9), (4, 5), (5, 3)] {
        index.apply_wal_op(&WalOp::Put { key, hash: hash_of(byte) }, Ok(())).unwrap();
    }
    assert_eq!(index.known_blobs(), vec![hash_of(3), hash_of(5), hash_of(9)]);
    let released = index.apply_wal_op(&WalOp::Remove { keys: vec![3, 1, 2, 4] }, Ok(())).unwrap();
    assert_eq!(released, vec![hash_of(5), hash_of(9)]);
    assert_eq!(index.known_blobs(), vec![hash_of(3)]);
}

#[test]
fn ranges_of_keys_are_removed_and_counted() {
    for (start, end, left) in [
        (KeyBound::Included(2), KeyBound::Included(4), vec![1, 5]),
        (KeyBound::Included(2), KeyBound::Excluded(4), vec![1, 4, 5]),
        (KeyBound::Excluded(2), KeyBound::Included(4), vec![1, 2, 5]),
        (KeyBound::Unbounded, KeyBound::Excluded(3), vec![3, 4, 5]),
        (KeyBound::Included(3), KeyBound::Unbounded, vec![1, 2]),
        (KeyBound::Unbounded, KeyBound::Unbounded, vec![]),
        (KeyBound::Included(6), KeyBound::Unbounded, vec![1, 2, 3, 4, 5]),
        (KeyBound::Included(4), KeyBound::Included(2), vec![1, 2, 3, 4, 5]),
    ] {
        let mut store = open(SyncMode::Sync);
        let mut disk = Disk::new();
        for key in 1..6u64 {
            put(&mut store, &mut disk, key, &[&[key as u8]]);
        }
        let expected: BTreeSet<u64> = left.iter().cloned().collect();
        assert_eq!(remove_range(&mut store, &mut disk, start, end), 5 - left.len());
        assert_eq!(store.known_keys(), expected);
        assert_complete(&store, &disk);
    }
}

#[test]
fn the_keys_of_a_range_are_logged_in_order() {
    let mut store = open(SyncMode::Sync);
    let mut disk = Disk::new();
    for key in [8u64, 3, 5] {
        put(&mut store, &mut disk, key, &[b"z"]);
    }
    match store.remove_range(&KeyBound::Unbounded, &KeyBound::Unbounded) {
        OpStage::Log(PendingOp { op: WalOp::Remove { keys }, answer }) => {
            assert_eq!(keys, vec![3, 5, 8]);
            assert_eq!(answer, 3);
        }
        _ => panic!("nothing to log"),
    }
}

#[test]
fn snapshots_hold_the_whole_index() {
    let mut store = open(SyncMode::Sync);
    let mut disk = Disk::new();
    let a = put(&mut store, &mut disk, 7, &[b"a"]);
    let b = put(&mut store, &mut disk, 6, &[b"b"]);
    let snapshot: Vec<(u64, BlobHash)> = store.index_snapshot().into_iter().collect();
    assert_eq!(snapshot, vec![(6, b), (7, a)]);
    assert_eq!(store.known_keys(), BTreeSet::from([6, 7]));
}

#[test]
fn ranges_are_cut_to_the_blob() {
    let mut store = open(SyncMode::Sync);
    let mut disk = Disk::new();
    put(&mut store, &mut disk, 1, &[b"0123456789"]);
    let cases: [(u64, u64, &[u8]); 8] = [
        (0, 10, b"0123456789"),
        (0, u64::MAX, b"0123456789"),
        (2, 5, b"234"),
        (8, 20, b"89"),
        (10, 10, b""),
        (10, 30, b""),
        (50, 60, b""),
        (4, 4, b""),
    ];
    for (start, end, expected) in cases {
        let bytes = get_range(&store, &disk, 1, start, end).unwrap().unwrap();
        assert_eq!(&bytes[..], expected);
    }
    for middle in 0..12 {
        let first = get_range(&store, &disk, 1, 0, middle).unwrap().unwrap();
        let second = get_range(&store, &disk, 1, middle, 12).unwrap().unwrap();
        assert_eq!([&first[..], &second[..]].concat(), b"0123456789");
    }
}

#[test]
fn a_range_that_ends_before_its_start_is_refused() {
    let mut store = open(SyncMode::Sync);
    let mut disk = Disk::new();
    put(&mut store, &mut disk, 1, &[b"0123456789"]);
    assert!(matches!(
        get_range(&store, &disk, 1, 5, 4),
        Err(LibError::Cas(CasManagerError::InvalidRangeStartEnd { start: 5, end: 4 }))
    ));
    assert!(matches!(get_range(&store, &disk, 2, 5, 4), Ok(None)));
    assert!(matches!(clamp_range(3, 9, 5), Ok((3, 5))));
    assert!(matches!(
        clamp_range(4, 2, 9),
        Err(CasManagerError::InvalidCalculatedRangeStartEnd { start: 4, end: 2 })
    ));
}

#[test]
fn a_short_read_yields_what_was_read() {
    let hash = hash_of(1);
    let (measure, ()) = manager().read_blob_range(&hash, 0, 4).unwrap().opened(Ok(())).unwrap();
    let fill = match measure.measured(Ok(9)).unwrap() {
        RangeStage::Fill(fill) => fill,
        RangeStage::Done(_) => panic!("nothing to read"),
    };
    assert_eq!((fill.offset, fill.len), (0, 4));
    assert_eq!(&fill.filled(vec![1, 2, 3, 4], Ok(3)).unwrap()[..], &[1, 2, 3]);
}

#[test]
fn failures_of_range_reads_name_their_step() {
    let hash = hash_of(1);
    let open = || manager().read_blob_range(&hash, 1, 3).unwrap();
    assert!(matches!(
        open().opened::<()>(Err(broken())),
        Err(CasManagerError::FileOperation {
            operation: CasIoOperation::OpenRangeRead,
            path: StorePath::Blob(at),
            ..
        }) if at == hash
    ));
    assert!(matches!(
        open().opened(Ok(())).unwrap().0.measured(Err(broken())),
        Err(CasManagerError::FileOperation { operation: CasIoOperation::ReadMetadata, .. })
    ));
    match open().opened(Ok(())).unwrap().0.measured(Ok(9)).unwrap() {
        RangeStage::Fill(fill) => assert!(matches!(
            fill.filled(vec![0; 2], Err(broken())),
            Err(CasManagerError::FileOperation { operation: CasIoOperation::ReadRange, .. })
        )),
        RangeStage::Done(_) => panic!("nothing to read"),
    }
}

#[test]
fn sizes_and_readers_come_from_the_file() {
    let mut store = open(SyncMode::Sync);
    let mut disk = Disk::new();
    let hash = put(&mut store, &mut disk, 1, &[b"12345"]);
    let size = store.size(&1, |at: &BlobHash| {
        assert_eq!(*at, hash);
        manager().blob_size(at, Ok(5))
    });
    assert!(matches!(size, Ok(Some(5))));
    assert!(matches!(
        store.size(&1, |at: &BlobHash| manager().blob_size(at, Err(not_found()))),
        Ok(None)
    ));
    assert!(matches!(
        store.size(&1, |at: &BlobHash| manager().blob_size(at, Err(broken()))),
        Err(LibError::Cas(CasManagerError::FileOperation {
            operation: CasIoOperation::ReadMetadata,
            ..
        }))
    ));
    let reader = store.raw_bufreader(&1, |at: &BlobHash| manager().blob_bufreader(at, Ok("r")));
    assert!(matches!(reader, Ok("r")));
    let reader: Result<u8, LibError<u64>> =
        store.raw_bufreader(&1, |at: &BlobHash| manager().blob_bufreader(at, Err(not_found())));
    assert!(matches!(
        reader,
        Err(LibError::Cas(CasManagerError::FileOperation {
            operation: CasIoOperation::OpenBuffered,
            ..
        }))
    ));
    let reader: Result<u8, LibError<u64>> =
        store.raw_bufreader(&2, |at: &BlobHash| manager().blob_bufreader(at, Ok(0)));
    assert!(matches!(reader, Err(LibError::Index(IndexError::KeyNotFound { key: 2 }))));
}

#[test]
fn a_missing_file_is_no_answer_or_an_error() {
    let mut store = open(SyncMode::Sync);
    let mut disk = Disk::new();
    let hash = put(&mut store, &mut disk, 1, &[b"gone"]);
    disk.clear();
    assert_eq!(get(&store, &disk, 1), None);
    assert!(matches!(get_range(&store, &disk, 1, 0, 2), Ok(None)));
    let read_blob = |at: &BlobHash| manager().read_blob(at, Err(not_found()));
    assert!(matches!(store.with_blob_hash(&1, false, read_blob), Ok(None)));
    assert!(matches!(
        store.with_blob_hash(&1, true, read_blob),
        Err(LibError::BlobDataMissing { key: 1, hash: at }) if at == hash
    ));
    assert!(matches!(store.with_blob_hash(&2, false, read_blob), Ok(None)));
    assert!(matches!(
        store.with_blob_hash(&2, true, read_blob),
        Err(LibError::Index(IndexError::KeyNotFound { key: 2 }))
    ));
    assert!(matches!(
        store.get(&1, |at: &BlobHash| manager().read_blob(at, Err(broken()))),
        Err(LibError::Cas(CasManagerError::FileOperation {
            operation: CasIoOperation::ReadContent,
            path: StorePath::Blob(at),
            ..
        })) if at == hash
    ));
}

#[test]
fn deletions_pass_over_missing_files() {
    let mut disk = Disk::new();
    disk.insert(hash_of(1), vec![1]);
    disk.insert(hash_of(3), vec![3]);
    disk.insert(hash_of(4), vec![4]);
    let deleted = delete(&mut disk, &vec![hash_of(3), hash_of(2), hash_of(1)]);
    assert_eq!(deleted, vec![hash_of(3), hash_of(1)]);
    assert_eq!(disk.keys().cloned().collect::<Vec<BlobHash>>(), vec![hash_of(4)]);
    assert_eq!(delete(&mut disk, &vec![]), vec![]);
}

#[test]
fn a_blob_listed_twice_is_deleted_once() {
    let mut disk = Disk::new();
    disk.insert(hash_of(1), vec![1]);
    disk.insert(hash_of(2), vec![2]);
    let deleted = delete(&mut disk, &vec![hash_of(1), hash_of(3), hash_of(1)]);
    assert_eq!(deleted, vec![hash_of(1)]);
    assert_eq!(disk.keys().cloned().collect::<Vec<BlobHash>>(), vec![hash_of(2)]);
}

#[test]
fn a_failed_removal_ends_a_deletion() {
    let pending = match manager().delete_blobs(&vec![hash_of(1), hash_of(2), hash_of(3)]) {
        DeletionStage::Remove(pending) => pending,
        DeletionStage::Done(_) => panic!("nothing to remove"),
    };
    assert_eq!(pending.hash(), hash_of(1));
    let pending = match pending.removed(Ok(())).unwrap() {
        DeletionStage::Remove(pending) => pending,
        DeletionStage::Done(_) => panic!("nothing to remove"),
    };
    assert_eq!(pending.hash(), hash_of(2));
    assert!(matches!(
        pending.removed(Err(broken())),
        Err(CasManagerError::FileOperation {
            operation: CasIoOperation::RemoveFile,
            path: StorePath::Blob(at),
            ..
        }) if at == hash_of(2)
    ));
}

#[test]
fn commits_place_or_discard_the_staged_file() {
    let mut disk = Disk::new();
    let hash = hash_of(5);
    assert!(matches!(commit(&mut disk, &hash, vec![1]), StorePath::Blob(at) if at == hash));
    assert!(matches!(commit(&mut disk, &hash, vec![2]), StorePath::Blob(at) if at == hash));
    assert_eq!(disk[&hash], vec![1]);
}

#[test]
fn failures_of_commits_name_their_step() {
    let hash = hash_of(5);
    assert!(matches!(
        manager().commit_blob(&hash).created(Err(broken())),
        Err(CasManagerError::FileOperation {
            operation: CasIoOperation::CreateSubdir,
            path: StorePath::Blob(at),
            ..
        }) if at == hash
    ));
    match manager().commit_blob(&hash).created(Ok(())).unwrap().checked(false) {
        CommitPlacement::Move(step) => assert!(matches!(
            step.moved(Err(broken())),
            Err(CasManagerError::FileOperation {
                operation: CasIoOperation::MoveStaged,
                path: StorePath::Blob(at),
                ..
            }) if at == hash
        )),
        CommitPlacement::Discard(_) => panic!("discarded"),
    }
    match manager().commit_blob(&hash).created(Ok(())).unwrap().checked(true) {
        CommitPlacement::Discard(step) => assert!(matches!(
            step.discarded(Err(broken())),
            Err(CasManagerError::FileOperation {
                operation: CasIoOperation::RemoveStaged,
                path: StorePath::StagedFile,
                ..
            })
        )),
        CommitPlacement::Move(_) => panic!("moved"),
    }
}

#[test]
fn failures_of_transactions_name_their_step() {
    let store = open(SyncMode::Sync);
    let no_file = Transaction::new(1u64).created::<()>(Err(broken())).err().unwrap();
    assert!(matches!(
        no_file,
        TransactionError::StagingFileIo {
            operation: StagingFileOp::Create,
            path: StorePath::StagingRoot,
            ..
        }
    ));
    assert!(matches!(
        store.put::<()>(Err(no_file)),
        Err(LibError::Io {
            operation: LibIoOperation::CreateStagingFile,
            path: Some(StorePath::StagingRoot),
            ..
        })
    ));
    let not_opened = Transaction::new(1u64).created(Ok(())).unwrap().0.reopened::<()>(Err(broken()));
    assert!(matches!(
        store.put(not_opened),
        Err(LibError::Io {
            operation: LibIoOperation::CreateStagingFile,
            path: Some(StorePath::StagedFile),
            ..
        })
    ));
    let mut transaction = begin(1);
    let not_written = transaction.write(b"abc", Err(broken())).err().unwrap();
    assert!(matches!(
        store.put::<()>(Err(not_written)),
        Err(LibError::Io {
            operation: LibIoOperation::WriteStagingFile,
            path: Some(StorePath::StagedFile),
            ..
        })
    ));
    assert_eq!(transaction.bytes_written(), 3);
    let blob = finish(transaction).synced::<()>(Ok(())).unwrap();
    assert_eq!(blob.hash, calculate_blob_hash(b"abc"));
}

#[test]
fn failures_of_finishing_name_their_step() {
    assert!(matches!(
        begin(1).finish(Err(broken())),
        Err(LibError::Io { operation: LibIoOperation::CommitFlushWriter, path: None, .. })
    ));
    assert!(matches!(
        begin(1).finish(Ok(())).unwrap().handle_cloned::<()>(Err(broken())),
        Err(LibError::Io { operation: LibIoOperation::CommitCloneHandle, path: None, .. })
    ));
    let sent = match open(SyncMode::Async).fdatasync("file") {
        SyncStage::Send(file, step) => step.sent(Err(file)),
        SyncStage::Flush(..) => panic!("flushed at once"),
    };
    assert!(matches!(
        finish(begin(1)).synced(sent),
        Err(LibError::CommitFdatasyncSend("file"))
    ));
    let flushed = match open(SyncMode::Sync).fdatasync("file") {
        SyncStage::Flush("file", step) => step.flushed::<u64, &str>(Err(broken())),
        _ => panic!("sent to the worker"),
    };
    assert!(matches!(
        finish(begin(1)).synced(flushed),
        Err(LibError::CommitFdatasyncIo(_))
    ));
    let blob = finish(begin(1)).synced::<()>(Ok(())).unwrap();
    let error = CasManagerError::InvalidRangeStartEnd { start: 1, end: 0 };
    assert!(matches!(blob.stored(Err(error)), Err(LibError::Cas(_))));
}

#[test]
fn a_failed_log_changes_nothing() {
    let mut store = open(SyncMode::Sync);
    let mut disk = Disk::new();
    put(&mut store, &mut disk, 1, &[b"kept"]);
    let before = store.index_snapshot();
    let pending = PendingOp { op: WalOp::Put { key: 1, hash: hash_of(9) }, answer: () };
    let failed = pending.logged(&mut store, Err(IndexError::Storage { failure: broken() }));
    assert!(matches!(failed, Err(LibError::Index(IndexError::Storage { .. }))));
    assert_eq!(store.index_snapshot(), before);
    assert_eq!(get(&store, &disk, 1), Some(b"kept".to_vec()));
    let pending = match store.remove(&1) {
        OpStage::Log(pending) => pending,
        OpStage::Done(_) => panic!("nothing to log"),
    };
    let deletion = pending.logged(&mut store, Ok(())).unwrap();
    let error = CasManagerError::InvalidRangeStartEnd { start: 1, end: 0 };
    assert!(matches!(deletion.deleted::<u64>(Err(error)), Err(LibError::Cas(_))));
    assert!(!store.contains_key(&1));
}

#[test]
fn failures_of_opening_name_their_step() {
    assert!(matches!(
        CasInner::<u64>::new(SyncMode::Sync).created::<u64>(Err(broken())),
        Err(LibError::Io {
            operation: LibIoOperation::CreateStagingDir,
            path: Some(StorePath::StagingRoot),
            ..
        })
    ));
    let next = CasInner::<u64>::new(SyncMode::Sync).created::<u64>(Ok(())).unwrap();
    assert!(matches!(
        next.created::<u64>(Err(broken())),
        Err(LibError::Io {
            operation: LibIoOperation::CreateCasDir,
            path: Some(StorePath::CasRoot),
            ..
        })
    ));
    let next = CasInner::<u64>::new(SyncMode::Sync).created::<u64>(Ok(())).unwrap();
    let error = SerializationError::UnexpectedEof { parsing_context: "snapshot" };
    let loaded: Result<(CasInner<u64>, ()), LibError<u64>> =
        next.created::<u64>(Ok(())).unwrap().loaded(Err(IndexError::Format { error }));
    assert!(matches!(loaded, Err(LibError::Index(IndexError::Format { .. }))));
}

#[test]
fn checkpoints_hand_failures_on() {
    let store = open(SyncMode::Sync);
    assert!(store.checkpoint(Ok(())).is_ok());
    assert!(matches!(
        store.checkpoint(Err(IndexError::Storage { failure: broken() })),
        Err(LibError::Index(IndexError::Storage { .. }))
    ));
}

#[test]
fn indexes_require_their_keys() {
    let mut index = Index::<u64>::new();
    index.apply_wal_op(&WalOp::Put { key: 2, hash: hash_of(2) }, Ok(())).unwrap();
    assert!(matches!(index.require_hash_for_key(&2), Ok(hash) if hash == hash_of(2)));
    assert!(matches!(
        index.require_hash_for_key(&3),
        Err(IndexError::KeyNotFound { key: 3 })
    ));
}
