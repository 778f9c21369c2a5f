use blake2::digest::consts::U32;
use blake2::{Blake2b, Digest};
use hypercore::common::{HypercoreError, Slice};
use hypercore::controller::{AppendOutcome, AppendStep, Hypercore};
use hypercore::crypto::{PartialKeypair, PublicKey, SecretKey};
use hypercore::oplog::{read_frame, write_frame, BODY_OFFSET, HEADER_SLOT_SIZE};
use hypercore::storage::StoreWrite;

struct Segments {
    oplog: Vec<u8>,
    tree: Vec<u8>,
    data: Vec<u8>,
}

fn empty_segments() -> Segments {
    Segments { oplog: Vec::new(), tree: Vec::new(), data: Vec::new() }
}

fn seed_key_pair() -> PartialKeypair {
    let secret = ed25519_dalek::SecretKey::from_bytes(&[7u8; 32]).unwrap();
    let public = ed25519_dalek::PublicKey::from(&secret);
    PartialKeypair {
        public: PublicKey::from_bytes(public.as_bytes()).unwrap(),
        secret: Some(SecretKey::from_bytes(secret.as_bytes()).unwrap()),
    }
}

fn write_at(segment: &mut Vec<u8>, offset: u64, data: &[u8]) {
    let end = offset as usize + data.len();
    if segment.len() < end {
        segment.resize(end, 0);
    }
    segment[offset as usize..end].copy_from_slice(data);
}

fn read_at(segment: &[u8], offset: u64, len: u64) -> Vec<u8> {
    let start = (offset as usize).min(segment.len());
    let end = (start + len as usize).min(segment.len());
    segment[start..end].to_vec()
}

fn write_slices(segment: &mut Vec<u8>, slices: &[Slice]) {
    for slice in slices {
        write_at(segment, slice.offset, &slice.data);
    }
}

fn write_tree(segment: &mut Vec<u8>, writes: &[StoreWrite]) {
    for write in writes {
        write_at(segment, write.offset, &write.data);
    }
}

fn open_log(segments: &mut Segments) -> Result<Hypercore, HypercoreError> {
    let opening = Hypercore::new_with_key_pair(seed_key_pair(), &segments.oplog)?;
    let slices: Vec<Slice> = opening
        .slices_to_flush()
        .iter()
        .map(|slice| Slice { offset: slice.offset, data: slice.data.clone() })
        .collect();
    write_slices(&mut segments.oplog, &slices);
    let records: Vec<Vec<u8>> = opening
        .tree_reads()
        .iter()
        .map(|read| read_at(&segments.tree, read.offset, read.len))
        .collect();
    opening.finish(&records)
}

fn append(log: &mut Hypercore, segments: &mut Segments, batch: &[&[u8]]) -> AppendOutcome {
    match log.append_batch(batch).unwrap() {
        AppendStep::Done(outcome) => outcome,
        AppendStep::Flush(pending) => {
            write_at(&mut segments.data, pending.data.offset, &pending.data.data);
            write_slices(&mut segments.oplog, &pending.oplog);
            log.commit_append(pending).unwrap()
        }
    }
}

fn flush(log: &mut Hypercore, segments: &mut Segments) {
    let plan = log.flush().unwrap();
    write_tree(&mut segments.tree, &plan.tree);
    write_slices(&mut segments.oplog, &plan.oplog);
}

fn get(log: &Hypercore, segments: &Segments, index: u64) -> Vec<u8> {
    let stored: Vec<hypercore::Node> = log
        .get_reads(index)
        .iter()
        .map(|flat| {
            let offset = hypercore::storage::node_offset(*flat);
            hypercore::Node::from_bytes(*flat, &read_at(&segments.tree, offset, 40)).unwrap()
        })
        .collect();
    let range = log.get_range(index, &stored).unwrap();
    read_at(&segments.data, range.start, range.end - range.start)
}

fn blake2b(parts: &[&[u8]]) -> Vec<u8> {
    let mut hasher = Blake2b::<U32>::new();
    for part in parts {
        hasher.update(part);
    }
    hasher.finalize().to_vec()
}

fn expected_leaf(data: &[u8]) -> Vec<u8> {
    blake2b(&[&[0u8], &(data.len() as u64).to_le_bytes(), data])
}

fn expected_parent(length: u64, left: &[u8], right: &[u8]) -> Vec<u8> {
    blake2b(&[&[1u8], &length.to_le_bytes(), left, right])
}

#[test]
fn single_block() {
    let mut segments = empty_segments();
    let mut log = open_log(&mut segments).unwrap();
    let outcome = append(&mut log, &mut segments, &[b"hello"]);
    assert_eq!(outcome, AppendOutcome { length: 1, byte_length: 5 });
    assert_eq!(log.tree.roots.len(), 1);
    assert_eq!(log.tree.roots[0].index, 0);
    assert_eq!(log.tree.roots[0].length, 5);
    assert_eq!(log.tree.roots[0].hash, expected_leaf(b"hello"));

    let reopened = open_log(&mut segments).unwrap();
    assert_eq!(reopened.tree.length, 1);
    assert_eq!(reopened.tree.byte_length, 5);
    assert_eq!(reopened.tree.fork, log.tree.fork);
    assert_eq!(reopened.tree.signature, log.tree.signature);
    assert_eq!(reopened.tree.roots.len(), 1);
    assert_eq!(reopened.tree.roots[0].index, 0);
    assert_eq!(reopened.tree.roots[0].length, 5);
    assert_eq!(reopened.tree.roots[0].hash, log.tree.roots[0].hash);
}

#[test]
fn batch_of_two() {
    let mut segments = empty_segments();
    let mut log = open_log(&mut segments).unwrap();
    let outcome = append(&mut log, &mut segments, &[b"ab", b"cde"]);
    assert_eq!(outcome, AppendOutcome { length: 2, byte_length: 5 });
    assert_eq!(log.tree.roots.len(), 1);
    assert_eq!(log.tree.roots[0].index, 1);
    assert_eq!(log.tree.roots[0].length, 5);
    assert_eq!(
        log.tree.roots[0].hash,
        expected_parent(5, &expected_leaf(b"ab"), &expected_leaf(b"cde"))
    );
}

#[test]
fn odd_count() {
    let mut segments = empty_segments();
    let mut log = open_log(&mut segments).unwrap();
    append(&mut log, &mut segments, &[b"x"]);
    append(&mut log, &mut segments, &[b"x"]);
    let outcome = append(&mut log, &mut segments, &[b"x"]);
    assert_eq!(outcome, AppendOutcome { length: 3, byte_length: 3 });
    let cover: Vec<(u64, u64)> = log.tree.roots.iter().map(|root| (root.index, root.length)).collect();
    assert_eq!(cover, vec![(1, 2), (4, 1)]);
}

#[test]
fn torn_tail() {
    let mut segments = empty_segments();
    let mut log = open_log(&mut segments).unwrap();
    append(&mut log, &mut segments, &[b"first", b"second"]);
    let len = segments.oplog.len();
    segments.oplog.truncate(len - 3);
    let reopened = open_log(&mut segments).unwrap();
    assert_eq!(reopened.tree.length, 2);
    assert_eq!(reopened.tree.byte_length, 11);
    assert_eq!(reopened.tree.roots[0].hash, log.tree.roots[0].hash);
}

#[test]
fn torn_entry_keeps_the_entries_before_it() {
    let mut segments = empty_segments();
    let mut log = open_log(&mut segments).unwrap();
    append(&mut log, &mut segments, &[b"first"]);
    let committed = segments.oplog.len();
    append(&mut log, &mut segments, &[b"second"]);
    for cut in [committed - 8 + 1, committed, committed + 20, segments.oplog.len() - 9] {
        let mut torn = Segments {
            oplog: segments.oplog[..cut].to_vec(),
            tree: segments.tree.clone(),
            data: segments.data.clone(),
        };
        let reopened = open_log(&mut torn).unwrap();
        assert_eq!(reopened.tree.length, 1);
        assert_eq!(reopened.tree.byte_length, 5);
    }
}

#[test]
fn header_alternation() {
    let mut segments = empty_segments();
    let mut log = open_log(&mut segments).unwrap();
    assert_eq!(log.oplog.sequence, 0);
    for round in 1..=5u64 {
        append(&mut log, &mut segments, &[b"block"]);
        let plan = log.flush().unwrap();
        assert_eq!(plan.oplog[0].offset, (round % 2) * HEADER_SLOT_SIZE as u64);
        write_tree(&mut segments.tree, &plan.tree);
        write_slices(&mut segments.oplog, &plan.oplog);
        assert_eq!(log.oplog.sequence, round);

        let opening = Hypercore::new_with_key_pair(seed_key_pair(), &segments.oplog).unwrap();
        assert_eq!(opening.outcome.oplog.sequence, round);
        assert_eq!(opening.outcome.header.tree.length, round);
        assert!(opening.outcome.entries.is_empty());
        let reopened = open_log(&mut segments).unwrap();
        assert_eq!(reopened.tree.length, round);
        assert_eq!(reopened.tree.byte_length, 5 * round);
    }
}

fn spoil_signature(oplog: &mut Vec<u8>, slot: usize) {
    let from = slot * HEADER_SLOT_SIZE;
    let (bits, start, end) = read_frame(&oplog[from..from + HEADER_SLOT_SIZE], 0).unwrap();
    let mut payload = oplog[from + start..from + end].to_vec();
    // version, three names, fork, length, root hash, then the signature
    let signature = 1 + 8 + 4 + 8 + 1 + 1 + 32;
    payload[signature] ^= 1;
    let frame = write_frame(bits, &payload);
    write_at(oplog, from as u64, &frame);
}

#[test]
fn bad_signature() {
    let mut segments = empty_segments();
    let mut log = open_log(&mut segments).unwrap();
    append(&mut log, &mut segments, &[b"one"]);
    flush(&mut log, &mut segments);
    append(&mut log, &mut segments, &[b"two"]);
    flush(&mut log, &mut segments);

    // the newer header, in slot A, no longer verifies: slot B wins
    let mut one_spoiled = Segments {
        oplog: segments.oplog.clone(),
        tree: segments.tree.clone(),
        data: segments.data.clone(),
    };
    spoil_signature(&mut one_spoiled.oplog, 0);
    let fallback = open_log(&mut one_spoiled).unwrap();
    assert_eq!(fallback.oplog.sequence, 1);
    assert_eq!(fallback.tree.length, 1);

    let mut both_spoiled = Segments {
        oplog: segments.oplog.clone(),
        tree: segments.tree.clone(),
        data: segments.data.clone(),
    };
    spoil_signature(&mut both_spoiled.oplog, 0);
    spoil_signature(&mut both_spoiled.oplog, 1);
    assert!(matches!(open_log(&mut both_spoiled), Err(HypercoreError::CorruptHeader)));
}

#[test]
fn broken_checksum_falls_back_to_the_other_slot() {
    let mut segments = empty_segments();
    let mut log = open_log(&mut segments).unwrap();
    append(&mut log, &mut segments, &[b"one"]);
    flush(&mut log, &mut segments);
    append(&mut log, &mut segments, &[b"two"]);
    flush(&mut log, &mut segments);
    segments.oplog[40] ^= 0xff;
    let reopened = open_log(&mut segments).unwrap();
    assert_eq!(reopened.oplog.sequence, 1);
    assert_eq!(reopened.tree.length, 1);
}

#[test]
fn get_returns_what_was_appended() {
    let mut segments = empty_segments();
    let mut log = open_log(&mut segments).unwrap();
    let blocks: Vec<Vec<u8>> = (0..11u8).map(|i| vec![i; (i as usize * 3) % 7 + 1]).collect();
    append(&mut log, &mut segments, &[&blocks[0], &blocks[1], &blocks[2]]);
    flush(&mut log, &mut segments);
    for block in &blocks[3..] {
        append(&mut log, &mut segments, &[block]);
    }
    for (index, block) in blocks.iter().enumerate() {
        assert_eq!(&get(&log, &segments, index as u64), block);
    }
    flush(&mut log, &mut segments);
    let reopened = open_log(&mut segments).unwrap();
    for (index, block) in blocks.iter().enumerate() {
        assert_eq!(&get(&reopened, &segments, index as u64), block);
    }
    assert!(matches!(reopened.get_range(11, &[]), Err(HypercoreError::CorruptTree)));
}

#[test]
fn lengths_add_up_over_batches() {
    let mut segments = empty_segments();
    let mut log = open_log(&mut segments).unwrap();
    let batches: Vec<Vec<&[u8]>> =
        vec![vec![b"a", b"bc"], vec![b"def"], vec![], vec![b"", b"ghij", b"k"]];
    let mut length = 0;
    let mut byte_length = 0;
    for batch in &batches {
        let outcome = append(&mut log, &mut segments, batch);
        length += batch.len() as u64;
        byte_length += batch.iter().map(|block| block.len() as u64).sum::<u64>();
        assert_eq!(outcome, AppendOutcome { length, byte_length });
    }
    assert_eq!(log.info().length, 6);
    assert_eq!(log.info().byte_length, 11);
}

#[test]
fn every_committed_state_is_signed() {
    let mut segments = empty_segments();
    let mut log = open_log(&mut segments).unwrap();
    let public = ed25519_dalek::PublicKey::from_bytes(seed_key_pair().public.as_bytes()).unwrap();
    for round in 1..=4u64 {
        append(&mut log, &mut segments, &[b"block"]);
        let mut signed = vec![2u8];
        signed.extend_from_slice(&round.to_le_bytes());
        signed.extend_from_slice(&0u64.to_le_bytes());
        for root in &log.tree.roots {
            signed.extend_from_slice(&root.hash);
        }
        let hash = blake2b(&[&signed]);
        let signature =
            ed25519_dalek::Signature::from_bytes(log.tree.signature.as_ref().unwrap()).unwrap();
        assert!(ed25519_dalek::Verifier::verify(&public, &hash, &signature).is_ok());
    }
}

#[test]
fn append_without_secret_key_fails() {
    let mut segments = empty_segments();
    let mut log = open_log(&mut segments).unwrap();
    log.key_pair.secret = None;
    assert!(matches!(log.append_batch(&[b"hello"]), Err(HypercoreError::NoSecret)));
    assert_eq!(log.tree.length, 0);
}

#[test]
fn append_with_foreign_secret_key_fails() {
    let mut segments = empty_segments();
    let mut log = open_log(&mut segments).unwrap();
    log.key_pair.secret = Some(SecretKey::from_bytes(&[9u8; 32]).unwrap());
    assert!(matches!(log.append_batch(&[b"hello"]), Err(HypercoreError::InvalidSignature)));
    assert_eq!(log.oplog.entries_length, 0);
}

#[test]
fn staged_append_changes_nothing_until_it_is_committed() {
    let mut segments = empty_segments();
    let mut log = open_log(&mut segments).unwrap();
    append(&mut log, &mut segments, &[b"zero"]);
    let unflushed = log.tree.unflushed.len();

    // staged, and given up: the writes failed
    let given_up = log.append_batch(&[b"lost"]).unwrap();
    assert_eq!((log.info().length, log.info().byte_length), (1, 4));
    assert_eq!(log.oplog.header.tree.length, 1);
    drop(given_up);

    // the next append stands on the log as it was
    let first = match log.append_batch(&[b"one"]).unwrap() {
        AppendStep::Flush(pending) => pending,
        AppendStep::Done(_) => panic!("a batch of one block is to be flushed"),
    };
    let second = match log.append_batch(&[b"two"]).unwrap() {
        AppendStep::Flush(pending) => pending,
        AppendStep::Done(_) => panic!("a batch of one block is to be flushed"),
    };
    assert_eq!(first.oplog[0].offset, second.oplog[0].offset);
    let entries_length = log.oplog.entries_length;
    let signature = first.changeset.signature.clone();
    let frame = first.oplog[0].data.len() as u64 - 8;
    write_at(&mut segments.data, first.data.offset, &first.data.data);
    write_slices(&mut segments.oplog, &first.oplog);
    let outcome = log.commit_append(first).unwrap();
    assert_eq!((outcome.length, outcome.byte_length), (2, 7));
    assert_eq!(log.tree.signature, signature);
    assert_eq!(log.oplog.header.tree.length, 2);
    assert_eq!(log.oplog.header.tree.signature, signature.unwrap());
    assert_eq!(log.oplog.entries_length, entries_length + frame);
    assert!(log.tree.unflushed.len() > unflushed);

    // what was staged on the earlier state is refused, and changes nothing
    assert!(matches!(log.commit_append(second), Err(HypercoreError::NonMonotonicUpgrade)));
    assert_eq!(log.info().length, 2);
    assert_eq!(log.oplog.entries_length, entries_length + frame);

    let reopened = open_log(&mut segments).unwrap();
    assert_eq!((reopened.tree.length, reopened.tree.byte_length), (2, 7));
}

#[test]
fn flush_keeps_the_keys_and_the_tree() {
    let mut segments = empty_segments();
    let mut log = open_log(&mut segments).unwrap();
    append(&mut log, &mut segments, &[b"one", b"two", b"three"]);
    let roots: Vec<(u64, Vec<u8>, u64)> =
        log.tree.roots.iter().map(|node| (node.index, node.hash.clone(), node.length)).collect();
    let signature = log.tree.signature.clone();
    assert!(!log.tree.unflushed.is_empty());
    flush(&mut log, &mut segments);
    assert!(log.tree.unflushed.is_empty());
    assert!(log.key_pair.secret.is_some());
    assert_eq!(log.key_pair.public.as_bytes(), seed_key_pair().public.as_bytes());
    let after: Vec<(u64, Vec<u8>, u64)> =
        log.tree.roots.iter().map(|node| (node.index, node.hash.clone(), node.length)).collect();
    assert_eq!(after, roots);
    assert_eq!(log.tree.signature, signature);
    assert_eq!((log.tree.length, log.tree.byte_length, log.tree.fork), (3, 11, 0));
    append(&mut log, &mut segments, &[b"four"]);
    assert_eq!(log.info().length, 4);
}

#[test]
fn fresh_log_writes_the_first_slot_alone() {
    for bytes in [vec![], vec![0u8], vec![0u8; BODY_OFFSET]] {
        let opening = Hypercore::new_with_key_pair(seed_key_pair(), &bytes).unwrap();
        let slices = opening.slices_to_flush();
        assert_eq!(slices.len(), 1);
        assert_eq!(slices[0].offset, 0);
        let (bits, start, end) = read_frame(&slices[0].data, 0).unwrap();
        assert_eq!((bits, start, end), (0, 8, slices[0].data.len()));
    }
    let opening = Hypercore::new_with_key_pair(seed_key_pair(), &[]).unwrap();
    assert_eq!(opening.outcome.header.types.tree, "blake2b");
    assert_eq!(opening.outcome.header.types.bitfield, "raw");
    assert_eq!(opening.outcome.header.types.signer, "ed25519");
    assert_eq!(opening.outcome.header.tree.length, 0);
    assert_eq!(opening.outcome.header.contiguous_length, 0);
}

#[test]
fn fresh_log_over_a_stale_body_writes_an_end_mark_too() {
    // a body that no header answers for: entries written under a header
    // whose slots were lost since
    let mut segments = empty_segments();
    let mut log = open_log(&mut segments).unwrap();
    append(&mut log, &mut segments, &[b"one"]);
    assert!(segments.oplog.len() > BODY_OFFSET);
    for byte in segments.oplog[..2 * HEADER_SLOT_SIZE].iter_mut() {
        *byte = 0;
    }
    let opening = Hypercore::new_with_key_pair(seed_key_pair(), &segments.oplog).unwrap();
    let slices: Vec<Slice> = opening
        .slices_to_flush()
        .iter()
        .map(|slice| Slice { offset: slice.offset, data: slice.data.clone() })
        .collect();
    assert_eq!(slices.len(), 2);
    assert_eq!(slices[0].offset, 0);
    assert_eq!(slices[1].offset, BODY_OFFSET as u64);
    assert_eq!(slices[1].data, vec![0u8; 8]);
    assert!(opening.outcome.entries.is_empty());
    write_slices(&mut segments.oplog, &slices);
    let reopened = Hypercore::new_with_key_pair(seed_key_pair(), &segments.oplog).unwrap();
    assert!(reopened.outcome.entries.is_empty());
    assert_eq!(reopened.outcome.header.tree.length, 0);
}

#[test]
fn log_of_another_key_is_refused() {
    let mut segments = empty_segments();
    let mut log = open_log(&mut segments).unwrap();
    append(&mut log, &mut segments, &[b"one"]);
    let secret = ed25519_dalek::SecretKey::from_bytes(&[3u8; 32]).unwrap();
    let other = PartialKeypair {
        public: PublicKey::from_bytes(ed25519_dalek::PublicKey::from(&secret).as_bytes()).unwrap(),
        secret: None,
    };
    assert!(matches!(
        Hypercore::new_with_key_pair(other, &segments.oplog),
        Err(HypercoreError::InvalidSignature)
    ));
}

#[test]
fn log_with_drawn_keys() {
    let mut segments = empty_segments();
    let opening = Hypercore::new(&segments.oplog).unwrap();
    let keys = PartialKeypair {
        public: opening.key_pair.public.clone(),
        secret: opening.key_pair.secret.clone(),
    };
    let slices: Vec<Slice> = opening
        .slices_to_flush()
        .iter()
        .map(|slice| Slice { offset: slice.offset, data: slice.data.clone() })
        .collect();
    write_slices(&mut segments.oplog, &slices);
    assert!(opening.tree_reads().is_empty());
    let mut log = opening.finish(&[]).unwrap();
    append(&mut log, &mut segments, &[b"hello", b"world"]);
    assert_eq!(log.info().public_key, keys.public.as_bytes().clone());

    let reopened = Hypercore::new_with_key_pair(keys, &segments.oplog).unwrap().finish(&[]).unwrap();
    assert_eq!((reopened.tree.length, reopened.tree.byte_length), (2, 10));
    assert!(matches!(
        Hypercore::new(&segments.oplog),
        Err(HypercoreError::InvalidSignature)
    ));
}

#[test]
fn drawn_keys_open_a_file_without_a_header_and_no_corrupt_one() {
    // no header at all, or two slots whose checksums fail: a fresh log
    assert_eq!(Hypercore::new(&[]).unwrap().slices_to_flush().len(), 1);
    let blank = vec![0u8; BODY_OFFSET + 16];
    let opening = Hypercore::new(&blank).unwrap();
    assert_eq!(opening.outcome.header.tree.length, 0);
    assert_eq!(
        opening.outcome.header.signer.public_key.as_bytes(),
        opening.key_pair.public.as_bytes()
    );
    assert_eq!(opening.slices_to_flush().len(), 2);
    // the first slot's frame: eight bytes before a record of 220 bytes
    assert_eq!(opening.slices_to_flush()[0].data.len(), 228);

    let mut segments = empty_segments();
    let mut log = open_log(&mut segments).unwrap();
    append(&mut log, &mut segments, &[b"one"]);
    flush(&mut log, &mut segments);
    append(&mut log, &mut segments, &[b"two"]);
    flush(&mut log, &mut segments);
    spoil_signature(&mut segments.oplog, 0);
    spoil_signature(&mut segments.oplog, 1);
    assert!(matches!(Hypercore::new(&segments.oplog), Err(HypercoreError::CorruptHeader)));
}

#[test]
fn header_keeps_what_it_does_not_interpret() {
    let mut segments = empty_segments();
    let mut log = open_log(&mut segments).unwrap();
    log.oplog.header.user_data.push(hypercore::oplog::header::UserData {
        key: "name".to_string(),
        value: vec![1, 2, 3],
    });
    log.oplog.header.hints.reorgs.push("reorg".to_string());
    append(&mut log, &mut segments, &[b"one"]);
    flush(&mut log, &mut segments);
    let opening = Hypercore::new_with_key_pair(seed_key_pair(), &segments.oplog).unwrap();
    let header = &opening.outcome.header;
    assert_eq!(header.user_data.len(), 1);
    assert_eq!(header.user_data[0].key, "name");
    assert_eq!(header.user_data[0].value, vec![1, 2, 3]);
    assert_eq!(header.hints.reorgs, vec!["reorg".to_string()]);
    assert_eq!(header.tree.length, 1);
    assert_eq!(header.tree.signature, log.tree.signature.clone().unwrap());
    assert_eq!(header.signer.public_key.as_bytes(), seed_key_pair().public.as_bytes());
}

#[test]
fn stale_entries_behind_a_rewritten_header_are_skipped() {
    let mut segments = empty_segments();
    let mut log = open_log(&mut segments).unwrap();
    append(&mut log, &mut segments, &[b"one"]);
    append(&mut log, &mut segments, &[b"two"]);
    // the header is rewritten, and the end mark at the start of the body is lost
    let plan = log.flush().unwrap();
    write_tree(&mut segments.tree, &plan.tree);
    write_slices(&mut segments.oplog, &plan.oplog[..1]);
    let reopened = open_log(&mut segments).unwrap();
    assert_eq!(reopened.oplog.sequence, 1);
    assert_eq!((reopened.tree.length, reopened.tree.byte_length), (2, 6));
}

#[test]
fn flush_is_due_when_the_body_has_grown() {
    let mut segments = empty_segments();
    let mut log = open_log(&mut segments).unwrap();
    assert!(!log.should_flush());
    let block = vec![7u8; 100];
    let mut rounds = 0;
    while !log.should_flush() {
        append(&mut log, &mut segments, &[&block]);
        rounds += 1;
        assert!(rounds < 1000);
    }
    assert!(log.oplog.entries_length >= 65536);
    flush(&mut log, &mut segments);
    assert!(!log.should_flush());
    assert_eq!(log.oplog.entries_length, 0);
    let reopened = open_log(&mut segments).unwrap();
    assert_eq!(reopened.tree.length, rounds);
    assert_eq!(get(&reopened, &segments, rounds - 1), block);
}

#[test]
fn bitfield_update_of_an_entry_extends_the_contiguous_blocks() {
    let mut segments = empty_segments();
    let mut log = open_log(&mut segments).unwrap();
    for round in 1..=3u64 {
        let mut changeset = log.tree.changeset();
        changeset.append(b"block");
        changeset.hash_and_sign(&log.key_pair.public, log.key_pair.secret.as_ref().unwrap());
        let slices = log.oplog.append_changeset(&changeset, true).unwrap();
        write_slices(&mut segments.oplog, &slices);
        log.tree.commit(changeset, &log.key_pair.public).unwrap();
        assert_eq!(log.oplog.header.contiguous_length, round);
    }
    let reopened = open_log(&mut segments).unwrap();
    assert_eq!(reopened.tree.length, 3);
    assert_eq!(reopened.oplog.header.contiguous_length, 3);
    assert_eq!(reopened.oplog.header.tree.length, 3);
    assert_eq!(reopened.oplog.header.tree.signature, log.tree.signature.clone().unwrap());
    assert_eq!(reopened.oplog.header.tree.root_hash, log.oplog.header.tree.root_hash);
    assert_eq!(reopened.oplog.entries_length, log.oplog.entries_length);
}

#[test]
fn crash_at_any_offset_leaves_a_committed_prefix() {
    let mut segments = empty_segments();
    let mut log = open_log(&mut segments).unwrap();
    let mut committed = vec![(0u64, 0u64, 0usize)];
    let batches: Vec<Vec<&[u8]>> = vec![vec![b"a"], vec![b"bc", b"def"], vec![b"ghij"]];
    for batch in &batches {
        let outcome = append(&mut log, &mut segments, batch);
        committed.push((outcome.length, outcome.byte_length, segments.oplog.len() - 8));
    }
    let mut reached = 0;
    for cut in 0..=segments.oplog.len() {
        let mut crashed = Segments {
            oplog: segments.oplog[..cut].to_vec(),
            tree: segments.tree.clone(),
            data: segments.data.clone(),
        };
        let reopened = open_log(&mut crashed).unwrap();
        let state = (reopened.tree.length, reopened.tree.byte_length);
        let place = committed.iter().position(|known| (known.0, known.1) == state).unwrap();
        // the state is the last one whose entry lies before the cut
        let expected = committed.iter().rposition(|known| known.2 <= cut.max(8192)).unwrap_or(0);
        assert_eq!(place, if cut < 8192 { 0 } else { expected });
        assert!(place >= reached || cut <= 8192);
        reached = place;
        // every block of the state is in the data segment
        for index in 0..reopened.tree.length {
            let range = reopened.get_range(index, &[]).unwrap();
            assert!(range.end as usize <= segments.data.len());
        }
    }
    assert_eq!(reached, 3);
}
