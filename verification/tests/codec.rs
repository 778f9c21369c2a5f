use hypercore::common::{CodecErrorKind, HypercoreError};
use hypercore::crypto::{PublicKey, SecretKey};
use hypercore::encoding::HypercoreState;
use hypercore::messages::{
    DataBlock, DataHash, DataSeek, DataUpgrade, RequestBlock, RequestSeek, RequestUpgrade,
};
use hypercore::oplog::entry::{Entry, EntryBitfieldUpdate, EntryTreeUpgrade};
use hypercore::oplog::header::{Header, UserData};
use hypercore::oplog::{read_entries, read_entry, read_frame, read_slot, write_entry, write_frame, write_slot, Slot};
use hypercore::Node;

fn sample_node(index: u64) -> Node {
    Node::new(index, vec![index as u8; 32], 1000 * index)
}

fn encode_uint(value: u64) -> Vec<u8> {
    let mut sizing = HypercoreState::new();
    let size = sizing.preencode_uint(value).unwrap();
    let (mut state, mut buffer) = HypercoreState::new_with_size(size);
    assert_eq!(state.encode_uint(value, &mut buffer).unwrap(), size);
    buffer
}

#[test]
fn integers_take_one_three_five_or_nine_bytes() {
    assert_eq!(encode_uint(0), vec![0]);
    assert_eq!(encode_uint(42), vec![42]);
    assert_eq!(encode_uint(252), vec![252]);
    assert_eq!(encode_uint(253), vec![0xfd, 0xfd, 0x00]);
    assert_eq!(encode_uint(0x1234), vec![0xfd, 0x34, 0x12]);
    assert_eq!(encode_uint(0xffff), vec![0xfd, 0xff, 0xff]);
    assert_eq!(encode_uint(0x1_0000), vec![0xfe, 0x00, 0x00, 0x01, 0x00]);
    assert_eq!(encode_uint(0xffff_ffff), vec![0xfe, 0xff, 0xff, 0xff, 0xff]);
    assert_eq!(
        encode_uint(0x0102_0304_0506_0708),
        vec![0xff, 0x08, 0x07, 0x06, 0x05, 0x04, 0x03, 0x02, 0x01]
    );
}

#[test]
fn integers_are_read_back() {
    for value in [0u64, 1, 252, 253, 254, 255, 256, 0xffff, 0x1_0000, 0xffff_ffff, 0x1_0000_0000, u64::MAX] {
        let buffer = encode_uint(value);
        let mut state = HypercoreState::from_buffer(&buffer);
        assert_eq!(state.decode_uint(&buffer).unwrap(), value);
        assert_eq!(state.start(), buffer.len());
    }
}

#[test]
fn integer_that_is_cut_short_is_refused() {
    let buffer = vec![0xfe, 0x01, 0x02];
    let mut state = HypercoreState::from_buffer(&buffer);
    assert!(state.decode_uint(&buffer).is_err());
    let mut empty = HypercoreState::from_buffer(&[]);
    assert!(empty.decode_uint(&[]).is_err());
}

#[test]
fn writing_stays_before_the_end_position() {
    let mut buffer = vec![0u8; 8];
    let mut state = HypercoreState::new_with_start_and_end(2, 4);
    assert!(state.encode_uint(0x1234, &mut buffer).is_err());
    let mut state = HypercoreState::new_with_start_and_end(2, 5);
    assert_eq!(state.encode_uint(0x1234, &mut buffer).unwrap(), 5);
    assert_eq!(buffer, vec![0, 0, 0xfd, 0x34, 0x12, 0, 0, 0]);
    let mut state = HypercoreState::new_with_start_and_end(6, 20);
    assert!(state.encode_uint(0x1234, &mut buffer).is_err());
}

#[test]
fn reading_stays_before_the_end_position() {
    let buffer = vec![0xfd, 0x34, 0x12, 7];
    let mut state = HypercoreState::new_with_start_and_end(0, 2);
    assert!(state.decode_uint(&buffer).is_err());
    let mut state = HypercoreState::new_with_start_and_end(0, 3);
    assert_eq!(state.decode_uint(&buffer).unwrap(), 0x1234);
    assert_eq!(state.start(), 3);
    assert_eq!(state.end(), 3);
}

#[test]
fn cursor_constructors() {
    let state = HypercoreState::new();
    assert_eq!((state.start(), state.end()), (0, 0));
    let (state, buffer) = HypercoreState::new_with_size(5);
    assert_eq!((state.start(), state.end()), (0, 5));
    assert_eq!(buffer, vec![0u8; 5]);
    let state = HypercoreState::new_with_start_and_end(3, 9);
    assert_eq!((state.start(), state.end()), (3, 9));
    let state = HypercoreState::from_buffer(&[1, 2, 3]);
    assert_eq!((state.start(), state.end()), (0, 3));
}

#[test]
fn byte_strings_and_texts() {
    let mut sizing = HypercoreState::new();
    sizing.preencode_bytes(b"abc").unwrap();
    sizing.preencode_string(&"hé".to_string()).unwrap();
    sizing.preencode_fixed_32().unwrap();
    assert_eq!(sizing.end(), 4 + 4 + 32);
    let (mut state, mut buffer) = HypercoreState::new_with_size(sizing.end());
    state.encode_bytes(b"abc", &mut buffer).unwrap();
    state.encode_string(&"hé".to_string(), &mut buffer).unwrap();
    state.encode_fixed_32(&[9u8; 32], &mut buffer).unwrap();
    assert_eq!(&buffer[..8], &[3, b'a', b'b', b'c', 3, b'h', 0xc3, 0xa9]);
    let mut state = HypercoreState::from_buffer(&buffer);
    assert_eq!(state.decode_bytes(&buffer).unwrap(), b"abc".to_vec());
    assert_eq!(state.decode_string(&buffer).unwrap(), "hé");
    assert_eq!(state.decode_fixed_32(&buffer).unwrap(), vec![9u8; 32]);
    assert!(state.decode_fixed_32(&buffer).is_err());
}

#[test]
fn text_that_is_not_utf8_is_refused() {
    let buffer = vec![2, 0xff, 0xfe];
    let mut state = HypercoreState::from_buffer(&buffer);
    let error = state.decode_string(&buffer).unwrap_err();
    assert_eq!(error.kind, CodecErrorKind::InvalidData);
    let mut state = HypercoreState::from_buffer(&buffer);
    assert_eq!(state.decode_bytes(&buffer).unwrap(), vec![0xff, 0xfe]);
}

#[test]
fn node_on_the_wire() {
    let node = Node::new(300, vec![7u8; 32], 5);
    let mut sizing = HypercoreState::new();
    assert_eq!(sizing.preencode_node(&node).unwrap(), 3 + 1 + 32);
    let (mut state, mut buffer) = HypercoreState::new_with_size(36);
    state.encode_node(&node, &mut buffer).unwrap();
    let mut expected = vec![0xfd, 0x2c, 0x01, 5];
    expected.extend_from_slice(&[7u8; 32]);
    assert_eq!(buffer, expected);
    let mut state = HypercoreState::from_buffer(&buffer);
    let decoded = state.decode_node(&buffer).unwrap();
    assert_eq!((decoded.index, decoded.length, decoded.hash), (300, 5, vec![7u8; 32]));
}

#[test]
fn requests_are_read_back() {
    let block = RequestBlock { index: 7, nodes: 300 };
    let seek = RequestSeek { bytes: 70000 };
    let upgrade = RequestUpgrade { start: 1, length: u64::MAX };
    let mut sizing = HypercoreState::new();
    sizing.preencode_request_block(&block).unwrap();
    sizing.preencode_request_seek(&seek).unwrap();
    sizing.preencode_request_upgrade(&upgrade).unwrap();
    assert_eq!(sizing.end(), (1 + 3) + 5 + (1 + 9));
    let (mut state, mut buffer) = HypercoreState::new_with_size(sizing.end());
    state.encode_request_block(&block, &mut buffer).unwrap();
    state.encode_request_seek(&seek, &mut buffer).unwrap();
    state.encode_request_upgrade(&upgrade, &mut buffer).unwrap();
    let mut state = HypercoreState::from_buffer(&buffer);
    assert_eq!(state.decode_request_block(&buffer).unwrap(), block);
    assert_eq!(state.decode_request_seek(&buffer).unwrap(), seek);
    assert_eq!(state.decode_request_upgrade(&buffer).unwrap(), upgrade);
    assert!(state.decode_request_seek(&buffer).is_err());
}

#[test]
fn data_messages_are_read_back() {
    let block = DataBlock { index: 3, value: b"value".to_vec(), nodes: vec![sample_node(4), sample_node(1)] };
    let hash = DataHash { index: 9, nodes: vec![sample_node(9)] };
    let seek = DataSeek { bytes: 12345, nodes: vec![] };
    let upgrade = DataUpgrade {
        start: 2,
        length: 5,
        nodes: vec![sample_node(3), sample_node(9), sample_node(12)],
        additional_nodes: vec![sample_node(5)],
        signature: vec![1u8; 64],
    };
    let mut sizing = HypercoreState::new();
    sizing.preencode_data_block(&block).unwrap();
    sizing.preencode_data_hash(&hash).unwrap();
    sizing.preencode_data_seek(&seek).unwrap();
    sizing.preencode_data_upgrade(&upgrade).unwrap();
    let (mut state, mut buffer) = HypercoreState::new_with_size(sizing.end());
    state.encode_data_block(&block, &mut buffer).unwrap();
    state.encode_data_hash(&hash, &mut buffer).unwrap();
    state.encode_data_seek(&seek, &mut buffer).unwrap();
    assert_eq!(state.encode_data_upgrade(&upgrade, &mut buffer).unwrap(), buffer.len());

    let mut state = HypercoreState::from_buffer(&buffer);
    let read = state.decode_data_block(&buffer).unwrap();
    assert_eq!((read.index, read.value, read.nodes.len()), (3, b"value".to_vec(), 2));
    assert_eq!((read.nodes[1].index, read.nodes[1].length), (1, 1000));
    let read = state.decode_data_hash(&buffer).unwrap();
    assert_eq!((read.index, read.nodes[0].hash.clone()), (9, vec![9u8; 32]));
    let read = state.decode_data_seek(&buffer).unwrap();
    assert_eq!((read.bytes, read.nodes.len()), (12345, 0));
    let read = state.decode_data_upgrade(&buffer).unwrap();
    assert_eq!((read.start, read.length, read.signature), (2, 5, vec![1u8; 64]));
    assert_eq!(read.nodes.iter().map(|node| node.index).collect::<Vec<u64>>(), vec![3, 9, 12]);
    assert_eq!(read.additional_nodes[0].index, 5);
    assert_eq!(state.start(), buffer.len());
}

#[test]
fn array_that_claims_more_nodes_than_follow_is_refused() {
    let mut buffer = vec![0xff];
    buffer.extend_from_slice(&u64::MAX.to_le_bytes());
    buffer.extend_from_slice(&[0u8; 40]);
    let mut state = HypercoreState::from_buffer(&buffer);
    assert!(state.decode_nodes(&buffer).is_err());
}

fn sample_public_key() -> PublicKey {
    let secret = ed25519_dalek::SecretKey::from_bytes(&[6u8; 32]).unwrap();
    PublicKey::from_bytes(ed25519_dalek::PublicKey::from(&secret).as_bytes()).unwrap()
}

fn bytes_that_are_no_key() -> Vec<u8> {
    (0u8..=255)
        .map(|byte| vec![byte; 32])
        .find(|bytes| ed25519_dalek::PublicKey::from_bytes(bytes).is_err())
        .unwrap()
}

fn sample_header() -> Header {
    let mut header = Header::new_from_keys(
        sample_public_key(),
        Some(SecretKey::from_bytes(&[6u8; 32]).unwrap()),
    );
    header.tree.fork = 1;
    header.tree.length = 0;
    header.contiguous_length = 70000;
    header.hints.reorgs = vec!["first".to_string(), "".to_string()];
    header.user_data = vec![
        UserData { key: "name".to_string(), value: vec![1, 2, 3] },
        UserData { key: "".to_string(), value: vec![] },
    ];
    header
}

#[test]
fn header_record_is_read_back() {
    let header = sample_header();
    let mut sizing = HypercoreState::new();
    let size = sizing.preencode_header(&header).unwrap();
    let (mut state, mut buffer) = HypercoreState::new_with_size(size);
    assert_eq!(state.encode_header(&header, &mut buffer).unwrap(), size);
    let mut start = vec![0u8, 7];
    start.extend_from_slice(b"blake2b");
    start.push(3);
    start.extend_from_slice(b"raw");
    start.push(7);
    start.extend_from_slice(b"ed25519");
    start.extend_from_slice(&[1, 0]);
    assert_eq!(&buffer[..start.len()], &start[..]);

    let mut state = HypercoreState::from_buffer(&buffer);
    let read = state.decode_header(&buffer).unwrap();
    assert_eq!(state.start(), size);
    assert_eq!(read.types.tree, "blake2b");
    assert_eq!(read.types.bitfield, "raw");
    assert_eq!(read.types.signer, "ed25519");
    assert_eq!((read.tree.fork, read.tree.length), (1, 0));
    assert_eq!(read.tree.root_hash, vec![0u8; 32]);
    assert_eq!(read.tree.signature, vec![0u8; 64]);
    assert_eq!(read.signer.public_key.as_bytes(), sample_public_key().as_bytes());
    assert_eq!(read.signer.secret_key.unwrap().as_bytes(), &vec![6u8; 32]);
    assert_eq!(read.hints.reorgs, vec!["first".to_string(), "".to_string()]);
    assert_eq!(read.contiguous_length, 70000);
    assert_eq!(read.user_data.len(), 2);
    assert_eq!((read.user_data[0].key.as_str(), read.user_data[0].value.clone()), ("name", vec![1, 2, 3]));
}

#[test]
fn header_without_secret_key_records_one_zero_byte() {
    let header = Header::new_from_keys(sample_public_key(), None);
    let mut sizing = HypercoreState::new();
    let with_none = sizing.preencode_header(&header).unwrap();
    let mut sizing = HypercoreState::new();
    let with_some = sizing.preencode_header(&sample_header()).unwrap();
    assert_eq!(with_none, 1 + 8 + 4 + 8 + 2 + 32 + 64 + 32 + 1 + 1 + 1 + 1);
    assert!(with_some > with_none + 64);
    let (mut state, mut buffer) = HypercoreState::new_with_size(with_none);
    state.encode_header(&header, &mut buffer).unwrap();
    let mut state = HypercoreState::from_buffer(&buffer);
    assert!(state.decode_header(&buffer).unwrap().signer.secret_key.is_none());
}

#[test]
fn header_of_another_version_is_refused() {
    let header = sample_header();
    let mut sizing = HypercoreState::new();
    let size = sizing.preencode_header(&header).unwrap();
    let (mut state, mut buffer) = HypercoreState::new_with_size(size);
    state.encode_header(&header, &mut buffer).unwrap();
    buffer[0] = 1;
    let mut state = HypercoreState::from_buffer(&buffer);
    assert_eq!(state.decode_header(&buffer).unwrap_err().kind, CodecErrorKind::InvalidData);
}

#[test]
fn secret_key_of_another_public_key_is_refused() {
    let header = sample_header();
    let mut sizing = HypercoreState::new();
    let size = sizing.preencode_header(&header).unwrap();
    let (mut state, mut buffer) = HypercoreState::new_with_size(size);
    state.encode_header(&header, &mut buffer).unwrap();
    // the last byte of the public key that follows the secret key
    let place = 1 + 8 + 4 + 8 + 2 + 32 + 64 + 32 + 1 + 63;
    assert_eq!(buffer[place], sample_public_key().as_bytes()[31]);
    buffer[place] ^= 1;
    let mut state = HypercoreState::from_buffer(&buffer);
    assert_eq!(state.decode_header(&buffer).unwrap_err().kind, CodecErrorKind::InvalidData);
}

#[test]
fn frame_carries_length_kind_and_crc32c() {
    let frame = write_frame(2, b"123456789");
    assert_eq!(&frame[..4], &[9, 0, 0, 0x80]);
    assert_eq!(&frame[4..8], &0xe306_9283u32.to_le_bytes());
    assert_eq!(&frame[8..], b"123456789");
    assert_eq!(read_frame(&frame, 0), Some((2, 8, 17)));
    let mut spoiled = frame.clone();
    spoiled[10] ^= 1;
    assert_eq!(read_frame(&spoiled, 0), None);
    assert_eq!(read_frame(&frame[..16], 0), None);
    assert_eq!(read_frame(&frame, 1), None);
}

fn sample_entry() -> Entry {
    Entry {
        tree_upgrade: Some(EntryTreeUpgrade {
            fork: 0,
            ancestors: 2,
            length: 3,
            signature: vec![8u8; 64],
            nodes: vec![sample_node(4)],
        }),
        bitfield_update: Some(EntryBitfieldUpdate { drop: true, start: 2, length: 1 }),
    }
}

#[test]
fn entries_are_read_back_up_to_a_torn_frame() {
    let first = write_entry(&sample_entry()).unwrap();
    let second = write_entry(&Entry {
        tree_upgrade: None,
        bitfield_update: Some(EntryBitfieldUpdate { drop: false, start: 9, length: 300 }),
    })
    .unwrap();
    assert_eq!(first[3] >> 6, 3);
    assert_eq!(second[3] >> 6, 2);
    let mut body = first.clone();
    body.extend_from_slice(&second);
    let (entries, end) = read_entries(&body);
    assert_eq!((entries.len(), end), (2, body.len()));
    let upgrade = entries[0].tree_upgrade.as_ref().unwrap();
    assert_eq!((upgrade.fork, upgrade.ancestors, upgrade.length), (0, 2, 3));
    assert_eq!(upgrade.signature, vec![8u8; 64]);
    assert_eq!(upgrade.nodes[0].index, 4);
    assert_eq!(entries[0].bitfield_update, Some(EntryBitfieldUpdate { drop: true, start: 2, length: 1 }));
    assert!(entries[1].tree_upgrade.is_none());
    assert_eq!(entries[1].bitfield_update, Some(EntryBitfieldUpdate { drop: false, start: 9, length: 300 }));

    for cut in first.len()..body.len() {
        let (entries, end) = read_entries(&body[..cut]);
        assert_eq!((entries.len(), end), (1, first.len()));
    }
    for cut in 0..first.len() {
        let (entries, end) = read_entries(&body[..cut]);
        assert_eq!((entries.len(), end), (0, 0));
    }
    assert!(matches!(read_entry(&body[..first.len() - 1], 0), Err(HypercoreError::TornEntry)));
    assert!(matches!(read_entry(&body, first.len()), Ok((_, end)) if end == body.len()));
}

#[test]
fn end_mark_ends_the_entries() {
    let mut body = write_entry(&sample_entry()).unwrap();
    let end = body.len();
    body.extend_from_slice(&[0u8; 8]);
    body.extend_from_slice(&write_entry(&sample_entry()).unwrap());
    let (entries, stopped) = read_entries(&body);
    assert_eq!((entries.len(), stopped), (1, end));
}

#[test]
fn entry_that_holds_nothing_is_not_written() {
    let nothing = Entry { tree_upgrade: None, bitfield_update: None };
    assert!(matches!(write_entry(&nothing), Err(HypercoreError::Encoding(_))));
}

#[test]
fn slot_holds_header_and_sequence_number() {
    let header = sample_header();
    let frame = write_slot(&header, 4).unwrap();
    let mut file = vec![0u8; 4096];
    file[..frame.len()].copy_from_slice(&frame);
    match read_slot(&file, 0) {
        Slot::Valid(read, sequence) => {
            assert_eq!(sequence, 4);
            assert_eq!(read.contiguous_length, 70000);
            assert_eq!(read.hints.reorgs.len(), 2);
        }
        other => panic!("slot should be valid, got {:?}", other),
    }
    assert!(matches!(read_slot(&file, 1), Slot::Blank));
    // a sequence number of the other slot's parity
    let mut other = vec![0u8; 8192];
    other[4096..4096 + frame.len()].copy_from_slice(&frame);
    assert!(matches!(read_slot(&other, 1), Slot::Corrupt));
    // a slot of zeros was never written
    assert!(matches!(read_slot(&other, 0), Slot::Blank));
    other[4096 + 20] ^= 1;
    assert!(matches!(read_slot(&other, 1), Slot::Blank));
}

#[test]
fn header_that_does_not_fit_its_slot_is_not_written() {
    let mut header = sample_header();
    header.user_data.push(UserData { key: "large".to_string(), value: vec![0u8; 4096] });
    assert!(matches!(write_slot(&header, 1), Err(HypercoreError::Encoding(_))));
}

#[test]
fn header_with_a_public_key_that_is_no_key_is_refused() {
    let header = sample_header();
    let mut sizing = HypercoreState::new();
    let size = sizing.preencode_header(&header).unwrap();
    let (mut state, mut buffer) = HypercoreState::new_with_size(size);
    state.encode_header(&header, &mut buffer).unwrap();
    let mut state = HypercoreState::from_buffer(&buffer);
    assert!(state.decode_header(&buffer).is_ok());

    // version, three names, fork, length, root hash, signature, then the key
    let key = 1 + 8 + 4 + 8 + 1 + 1 + 32 + 64;
    assert_eq!(&buffer[key..key + 32], &header.signer.public_key.as_bytes()[..]);
    let spoiled = bytes_that_are_no_key();
    buffer[key..key + 32].copy_from_slice(&spoiled);
    // the secret key's record repeats the public key
    let repeated = key + 32 + 1 + 32;
    buffer[repeated..repeated + 32].copy_from_slice(&spoiled);
    let mut state = HypercoreState::from_buffer(&buffer);
    assert!(state.decode_header(&buffer).is_err());

    let mut other_version = buffer.clone();
    other_version[0] = 1;
    let mut state = HypercoreState::from_buffer(&other_version);
    assert!(state.decode_header(&other_version).is_err());
}
