use rings_core::did::{Did, DID_BYTES};
use rings_core::ring::PeerRing;
use rings_core::snapshot::{decode, encode, RestoreError, Snapshot};
use rings_core::storage::{
    predecessor_key, read_snapshot, same_bytes, successors_key, MemStorage, Storage, StorageError,
};

fn did_n(n: u128) -> Did {
    Did::from_u128(n)
}

/// A store whose medium has failed.
struct Broken;

impl Storage for Broken {
    fn get(&self, _key: &[u8]) -> Option<Vec<u8>> {
        None
    }

    fn put(&mut self, _key: &[u8], _value: &[u8]) -> Result<(), StorageError> {
        Err(StorageError::Io)
    }

    fn remove(&mut self, _key: &[u8]) -> Result<(), StorageError> {
        Err(StorageError::Io)
    }

    fn list_keys(&self) -> Vec<Vec<u8>> {
        vec![]
    }
}

#[test]
fn did_is_written_lowest_byte_first() {
    let d = Did::new(0x0403_0201, 0x100f_0e0d_0c0b_0a09_0807_0605_0403_0201);
    let bytes = d.to_bytes();
    assert_eq!(bytes.len(), DID_BYTES);
    assert_eq!(
        bytes,
        vec![1u8, 2, 3, 4, 5, 6, 7, 8, 9, 10, 11, 12, 13, 14, 15, 16, 1, 2, 3, 4]
    );
    assert_eq!(Did::from_bytes(&bytes), Some(d));
}

#[test]
fn did_is_read_from_twenty_bytes_only() {
    assert_eq!(Did::from_bytes(&[0u8; 19]), None);
    assert_eq!(Did::from_bytes(&[0u8; 21]), None);
    assert_eq!(Did::from_bytes(&[]), None);
    assert_eq!(Did::from_bytes(&[0u8; 20]), Some(did_n(0)));
    let mut one = [0u8; 20];
    one[0] = 1;
    assert_eq!(Did::from_bytes(&one), Some(did_n(1)));
    let mut high = [0u8; 20];
    high[16] = 1;
    assert_eq!(Did::from_bytes(&high), Some(Did::new(1, 0)));
}

#[test]
fn list_of_identifiers_survives_writing_and_reading() {
    let ids = vec![did_n(7), Did::new(9, 12), Did::new(u32::MAX, u128::MAX), did_n(0)];
    let bytes = encode(&ids);
    assert_eq!(bytes.len(), 80);
    assert_eq!(&bytes[0..20], did_n(7).to_bytes().as_slice());
    assert_eq!(&bytes[20..40], Did::new(9, 12).to_bytes().as_slice());
    assert_eq!(decode(&bytes), Some(ids));
    assert_eq!(encode(&vec![]), Vec::<u8>::new());
    assert_eq!(decode(&[]), Some(vec![]));
}

#[test]
fn bytes_that_are_no_whole_identifiers_are_not_read() {
    assert_eq!(decode(&[0u8; 1]), None);
    assert_eq!(decode(&[0u8; 39]), None);
    assert_eq!(decode(&[0u8; 41]), None);
}

#[test]
fn ring_survives_writing_and_reading() {
    let mut ring = PeerRing::new(did_n(100), 3);
    ring.join_all(&vec![did_n(50), did_n(150), did_n(120)]);
    ring.notify(did_n(50)).unwrap();
    let written = ring.snapshot();
    assert_eq!(written.successors, encode(&vec![did_n(120), did_n(150), did_n(50)]));
    assert_eq!(written.predecessor, did_n(50).to_bytes());
    let back = PeerRing::from_snapshot(did_n(100), 3, &written).unwrap();
    assert_eq!(back.did(), did_n(100));
    assert_eq!(back.capacity(), 3);
    assert_eq!(back.successor_list(), ring.successor_list());
    assert_eq!(back.predecessor(), ring.predecessor());
}

#[test]
fn ring_without_predecessor_writes_none() {
    let ring = PeerRing::new(did_n(100), 3);
    let written = ring.snapshot();
    assert_eq!(written, Snapshot { successors: vec![], predecessor: vec![] });
    let back = PeerRing::from_snapshot(did_n(100), 3, &written).unwrap();
    assert_eq!(back.successor_list(), Vec::<Did>::new());
    assert_eq!(back.predecessor(), None);
}

#[test]
fn unreadable_snapshot_is_refused() {
    let odd = Snapshot { successors: vec![0u8; 21], predecessor: vec![] };
    assert_eq!(
        PeerRing::from_snapshot(did_n(1), 3, &odd).map(|r| r.successor_list()),
        Err(RestoreError::Corrupt)
    );
    let two = Snapshot { successors: vec![], predecessor: vec![0u8; 40] };
    assert_eq!(
        PeerRing::from_snapshot(did_n(1), 3, &two).map(|r| r.successor_list()),
        Err(RestoreError::Corrupt)
    );
    let short = Snapshot { successors: vec![], predecessor: vec![0u8; 3] };
    assert_eq!(
        PeerRing::from_snapshot(did_n(1), 3, &short).map(|r| r.successor_list()),
        Err(RestoreError::Corrupt)
    );
}

#[test]
fn snapshot_out_of_order_is_put_in_order() {
    // written by somebody else: unordered, with the node itself and a peer twice
    let written = Snapshot {
        successors: encode(&vec![did_n(50), did_n(100), did_n(150), did_n(120), did_n(150), did_n(110)]),
        predecessor: did_n(100).to_bytes(),
    };
    let ring = PeerRing::from_snapshot(did_n(100), 3, &written).unwrap();
    assert_eq!(ring.successor_list(), vec![did_n(110), did_n(120), did_n(150)]);
    assert_eq!(ring.predecessor(), None);
}

#[test]
fn same_bytes_compares_content() {
    assert!(same_bytes(&[], &[]));
    assert!(same_bytes(&[1, 2, 3], &[1, 2, 3]));
    assert!(!same_bytes(&[1, 2, 3], &[1, 2]));
    assert!(!same_bytes(&[1, 2, 3], &[1, 2, 4]));
}

#[test]
fn mem_storage_keeps_what_is_put() {
    let mut store = MemStorage::new();
    assert_eq!(store.len(), 0);
    assert_eq!(store.get(b"a"), None);
    assert_eq!(store.put(b"a", b"one"), Ok(()));
    assert_eq!(store.put(b"b", b"two"), Ok(()));
    assert_eq!(store.get(b"a"), Some(b"one".to_vec()));
    assert_eq!(store.get(b"b"), Some(b"two".to_vec()));
    assert_eq!(store.get(b"c"), None);
    assert_eq!(store.len(), 2);
    assert_eq!(store.list_keys(), vec![b"a".to_vec(), b"b".to_vec()]);
}

#[test]
fn mem_storage_put_replaces() {
    let mut store = MemStorage::new();
    store.put(b"a", b"one").unwrap();
    store.put(b"b", b"two").unwrap();
    store.put(b"a", b"three").unwrap();
    assert_eq!(store.get(b"a"), Some(b"three".to_vec()));
    assert_eq!(store.get(b"b"), Some(b"two".to_vec()));
    assert_eq!(store.len(), 2);
}

#[test]
fn mem_storage_remove_forgets() {
    let mut store = MemStorage::new();
    store.put(b"a", b"one").unwrap();
    store.put(b"b", b"two").unwrap();
    store.put(b"c", b"three").unwrap();
    assert_eq!(store.remove(b"b"), Ok(()));
    assert_eq!(store.get(b"b"), None);
    assert_eq!(store.get(b"a"), Some(b"one".to_vec()));
    assert_eq!(store.get(b"c"), Some(b"three".to_vec()));
    assert_eq!(store.list_keys(), vec![b"a".to_vec(), b"c".to_vec()]);
    // removing what is not there is no failure
    assert_eq!(store.remove(b"b"), Ok(()));
    assert_eq!(store.len(), 2);
}

#[test]
fn ring_is_flushed_and_restored() {
    let mut ring = PeerRing::new(did_n(100), 3);
    ring.join_all(&vec![did_n(50), did_n(150), did_n(120)]);
    ring.notify(did_n(90)).unwrap();
    let mut store = MemStorage::new();
    assert_eq!(ring.flush(&mut store), Ok(()));
    assert_eq!(store.len(), 2);
    assert_eq!(store.get(&successors_key()), Some(ring.snapshot().successors));
    assert_eq!(store.get(&predecessor_key()), Some(did_n(90).to_bytes()));
    assert_eq!(read_snapshot(&store), ring.snapshot());
    let back = PeerRing::restore(did_n(100), 3, &store).unwrap();
    assert_eq!(back.successor_list(), ring.successor_list());
    assert_eq!(back.predecessor(), Some(did_n(90)));
    // a later flush replaces the earlier one
    ring.remove(did_n(120));
    ring.remove(did_n(90));
    ring.flush(&mut store).unwrap();
    let again = PeerRing::restore(did_n(100), 3, &store).unwrap();
    assert_eq!(again.successor_list(), vec![did_n(150), did_n(50)]);
    assert_eq!(again.predecessor(), None);
}

#[test]
fn empty_store_restores_an_empty_ring() {
    let store = MemStorage::new();
    let ring = PeerRing::restore(did_n(100), 3, &store).unwrap();
    assert_eq!(ring.did(), did_n(100));
    assert_eq!(ring.successor_list(), Vec::<Did>::new());
    assert_eq!(ring.predecessor(), None);
}

#[test]
fn corrupt_store_stops_the_restore() {
    let mut store = MemStorage::new();
    store.put(&successors_key(), &[1, 2, 3]).unwrap();
    assert!(matches!(PeerRing::restore(did_n(100), 3, &store), Err(RestoreError::Corrupt)));
}

#[test]
fn failing_store_does_not_touch_the_ring() {
    let mut ring = PeerRing::new(did_n(100), 3);
    ring.join(did_n(120)).unwrap();
    let mut broken = Broken;
    assert_eq!(ring.flush(&mut broken), Err(StorageError::Io));
    assert_eq!(ring.successor_list(), vec![did_n(120)]);
}

#[test]
fn keys_are_the_names_of_what_they_hold() {
    assert_eq!(successors_key(), b"successors".to_vec());
    assert_eq!(predecessor_key(), b"predecessor".to_vec());
}

#[test]
fn flush_leaves_other_keys_alone() {
    let mut store = MemStorage::new();
    store.put(b"other", b"value").unwrap();
    let mut ring = PeerRing::new(did_n(100), 3);
    ring.join(did_n(120)).unwrap();
    ring.flush(&mut store).unwrap();
    assert_eq!(store.get(b"other"), Some(b"value".to_vec()));
    assert_eq!(store.len(), 3);
    assert_eq!(store.get(&predecessor_key()), Some(vec![]));
}
