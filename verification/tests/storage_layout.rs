use hypercore::common::HypercoreError;
use hypercore::storage::{
    bitfield_entry_offset, bitfield_entry_size, bitfield_offset, create_bitfield_header,
    create_tree_header, data_offset, data_offset_nodes, find_node, get_signature, initial_writes,
    next_signature, node_offset, not_zeroes, put_data_offset, read_partial_keypair,
    signature_offset, tree_index, SignatureSearch, Store,
};
use hypercore::Node;

#[test]
fn should_detect_zeroes() {
    let nums = vec![0; 10];
    assert!(!not_zeroes(&nums));

    let nums = vec![1; 10];
    assert!(not_zeroes(&nums));
}

#[test]
fn zeroes_with_one_byte_set() {
    assert!(!not_zeroes(&[]));
    let mut bytes = vec![0u8; 64];
    bytes[63] = 1;
    assert!(not_zeroes(&bytes));
}

#[test]
fn offsets_of_records() {
    assert_eq!(tree_index(0), 0);
    assert_eq!(tree_index(21), 42);
    assert_eq!(node_offset(0), 32);
    assert_eq!(node_offset(3), 32 + 120);
    assert_eq!(signature_offset(2), 32 + 128);
    assert_eq!(bitfield_offset(10), Some(42));
    assert_eq!(bitfield_offset(u64::MAX - 31), None);
    assert_eq!(bitfield_entry_offset(3, 3328), Some(32 + 3 * 3328));
    assert_eq!(bitfield_entry_offset(u64::MAX, 2), None);
}

#[test]
fn segment_names() {
    assert_eq!(Store::Tree.name(), "tree");
    assert_eq!(Store::Data.name(), "data");
    assert_eq!(Store::Bitfield.name(), "bitfield");
    assert_eq!(Store::Oplog.name(), "oplog");
}

#[test]
fn segment_headers() {
    let mut tree = vec![5u8, 2, 87, 2, 0, 0, 40, 7];
    tree.extend_from_slice(b"BLAKE2b");
    tree.resize(32, 0);
    assert_eq!(create_tree_header(), tree);
    let mut bitfield = vec![5u8, 2, 87, 0, 0, 0x0d, 0x00, 0];
    bitfield.resize(32, 0);
    assert_eq!(create_bitfield_header(), bitfield);
    assert_eq!(bitfield_entry_size(&bitfield).unwrap(), 3328);
    assert_eq!(bitfield_entry_size(&tree).unwrap(), 40);
    bitfield[0] = 4;
    assert!(matches!(bitfield_entry_size(&bitfield), Err(HypercoreError::CorruptHeader)));
    assert!(matches!(bitfield_entry_size(&tree[..31]), Err(HypercoreError::CorruptHeader)));
    tree[8] = b'b';
    assert!(matches!(bitfield_entry_size(&tree), Err(HypercoreError::CorruptHeader)));
}

#[test]
fn fresh_segments_get_their_headers() {
    let writes = initial_writes(false, 0, 0);
    assert_eq!(
        writes.iter().map(|write| (write.store, write.offset)).collect::<Vec<(Store, u64)>>(),
        vec![(Store::Oplog, 0), (Store::Bitfield, 0), (Store::Tree, 0)]
    );
    assert_eq!(writes[0].data, vec![0u8]);
    assert_eq!(writes[1].data, create_bitfield_header());
    assert_eq!(writes[2].data, create_tree_header());
    assert_eq!(initial_writes(true, 100, 100).len(), 3);
    assert!(initial_writes(false, 100, 100).is_empty());
    let writes = initial_writes(false, 0, 100);
    assert_eq!(writes.iter().map(|write| write.store).collect::<Vec<Store>>(), vec![Store::Tree]);
    let writes = initial_writes(false, 100, 0);
    assert_eq!(
        writes.iter().map(|write| write.store).collect::<Vec<Store>>(),
        vec![Store::Oplog, Store::Bitfield]
    );
}

fn stored_node(index: u64, length: u64) -> Node {
    Node::new(index, vec![0u8; 32], length)
}

#[test]
fn first_node_with_an_index_is_found() {
    let nodes = vec![stored_node(4, 1), stored_node(9, 2), stored_node(4, 3)];
    assert_eq!(find_node(&nodes, 4).unwrap().length, 1);
    assert_eq!(find_node(&nodes, 9).unwrap().length, 2);
    assert!(find_node(&nodes, 5).is_none());
    assert!(find_node(&[], 0).is_none());
}

#[test]
fn block_lies_behind_the_full_roots_to_its_left() {
    assert_eq!(data_offset_nodes(0, &[]), vec![0]);
    assert_eq!(data_offset_nodes(5, &[]), vec![3, 8, 10]);
    assert_eq!(data_offset_nodes(5, &[stored_node(10, 7)]), vec![3, 8]);
    assert_eq!(data_offset_nodes(8, &[]), vec![7, 16]);

    let stored = vec![stored_node(3, 100), stored_node(8, 20), stored_node(10, 7)];
    assert_eq!(data_offset(5, &[], &stored).unwrap(), 120..127);
    assert_eq!(data_offset(5, &[stored_node(10, 9)], &stored[..2]).unwrap(), 120..129);
    assert_eq!(data_offset(0, &[], &[stored_node(0, 5)]).unwrap(), 0..5);
    assert!(matches!(data_offset(5, &[], &stored[..2]), Err(HypercoreError::CorruptTree)));
    let wrong = vec![stored_node(3, 100), stored_node(9, 20), stored_node(10, 7)];
    assert!(matches!(data_offset(5, &[], &wrong), Err(HypercoreError::CorruptTree)));
    let long = vec![stored_node(3, u64::MAX), stored_node(8, 20), stored_node(10, 7)];
    assert!(matches!(data_offset(5, &[], &long), Err(HypercoreError::CorruptTree)));
}

#[test]
fn data_is_put_where_its_block_lies() {
    let stored = vec![stored_node(3, 100), stored_node(8, 20), stored_node(10, 7)];
    assert_eq!(put_data_offset(5, b"", &[], &[]).unwrap(), None);
    assert_eq!(put_data_offset(5, b"1234567", &[], &stored).unwrap(), Some(120));
    assert!(matches!(put_data_offset(5, b"123456", &[], &stored), Err(HypercoreError::InvalidProof)));
    assert!(matches!(put_data_offset(5, b"1234567", &[], &stored[..1]), Err(HypercoreError::CorruptTree)));
}

#[test]
fn search_for_a_signature_skips_empty_records() {
    assert!(matches!(next_signature(3, &[0u8; 64]), SignatureSearch::Continue(4)));
    let mut record = vec![0u8; 64];
    record[10] = 9;
    assert!(matches!(next_signature(3, &record), SignatureSearch::Found(found) if found == record));
    assert_eq!(get_signature(&record).unwrap(), record);
    assert!(matches!(get_signature(&[0u8; 64]), Err(HypercoreError::InvalidSignature)));
}

#[test]
fn keys_from_what_was_read() {
    let secret = ed25519_dalek::SecretKey::from_bytes(&[2u8; 32]).unwrap();
    let public = ed25519_dalek::PublicKey::from(&secret).as_bytes().to_vec();
    let no_key = (0u8..=255)
        .map(|byte| vec![byte; 32])
        .find(|bytes| ed25519_dalek::PublicKey::from_bytes(bytes).is_err())
        .unwrap();
    assert!(read_partial_keypair(None, Some(vec![2u8; 32])).is_none());
    assert!(read_partial_keypair(Some(public[..31].to_vec()), None).is_none());
    assert!(read_partial_keypair(Some(no_key), Some(vec![2u8; 32])).is_none());
    let pair = read_partial_keypair(Some(public.clone()), None).unwrap();
    assert_eq!(pair.public.as_bytes(), &public);
    assert!(pair.secret.is_none());
    let pair = read_partial_keypair(Some(public.clone()), Some(vec![2u8; 32])).unwrap();
    assert_eq!(pair.secret.unwrap().as_bytes(), &vec![2u8; 32]);
    let pair = read_partial_keypair(Some(public), Some(vec![2u8; 5])).unwrap();
    assert!(pair.secret.is_none());
}

#[test]
fn node_record_is_hash_then_length() {
    let node = Node::new(6, (0u8..32).collect(), 0x0102);
    let record = node.to_bytes().unwrap();
    assert_eq!(record.len(), 40);
    assert_eq!(&record[..32], &(0u8..32).collect::<Vec<u8>>()[..]);
    assert_eq!(&record[32..], &[2, 1, 0, 0, 0, 0, 0, 0]);
    let read = Node::from_bytes(6, &record).unwrap();
    assert_eq!((read.index(), read.len(), read.hash().clone(), read.is_empty()), (6, 0x0102, node.hash.clone(), false));
    assert!(matches!(Node::from_bytes(6, &record[..39]), Err(HypercoreError::CorruptTree)));
    assert!(matches!(Node::new(6, vec![0u8; 31], 1).to_bytes(), Err(HypercoreError::CorruptTree)));
    assert!(Node::new(0, vec![0u8; 32], 0).is_empty());
}

#[test]
fn errors_describe_themselves() {
    assert_eq!(HypercoreError::NoSecret.describe(), "no secret key");
    assert_eq!(HypercoreError::BackendIo("disk full".to_string()).describe(), "disk full");
    assert_eq!(HypercoreError::TornEntry.describe(), "torn entry");
}
