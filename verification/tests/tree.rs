use hypercore::common::HypercoreError;
use hypercore::crypto::{generate_keypair, leaf_hash, parent_hash, root_hash, sign, verify, PartialKeypair, PublicKey, SecretKey};
use hypercore::messages::{DataBlock, DataHash, DataSeek, DataUpgrade};
use hypercore::oplog::entry::EntryTreeUpgrade;
use hypercore::oplog::header::HeaderTree;
use hypercore::proofs::Proof;
use hypercore::tree::{MerkleTree, MerkleTreeChangeset};
use hypercore::Node;

fn tree_key_pair() -> PartialKeypair {
    let secret = ed25519_dalek::SecretKey::from_bytes(&[11u8; 32]).unwrap();
    let public = ed25519_dalek::PublicKey::from(&secret);
    PartialKeypair {
        public: PublicKey::from_bytes(public.as_bytes()).unwrap(),
        secret: Some(SecretKey::from_bytes(secret.as_bytes()).unwrap()),
    }
}

fn grown_tree(blocks: &[&[u8]]) -> (MerkleTree, PartialKeypair) {
    let keys = tree_key_pair();
    let mut tree = MerkleTree::new(0);
    for block in blocks {
        let mut changeset = tree.changeset();
        changeset.append(block);
        changeset.hash_and_sign(&keys.public, keys.secret.as_ref().unwrap());
        tree.commit(changeset, &keys.public).unwrap();
    }
    (tree, keys)
}

#[test]
fn roots_stand_at_the_canonical_cover() {
    let keys = tree_key_pair();
    let mut tree = MerkleTree::new(0);
    for count in 1..=40u64 {
        let mut changeset = tree.changeset();
        assert_eq!(changeset.append(&vec![1u8; count as usize]), count as usize);
        changeset.hash_and_sign(&keys.public, keys.secret.as_ref().unwrap());
        tree.commit(changeset, &keys.public).unwrap();
        let mut cover = Vec::new();
        flat_tree::full_roots(2 * count, &mut cover);
        assert_eq!(tree.roots.iter().map(|root| root.index).collect::<Vec<u64>>(), cover);
        assert_eq!(tree.roots.len() as u32, count.count_ones());
        assert_eq!(tree.length, count);
        assert_eq!(tree.byte_length, count * (count + 1) / 2);
        assert_eq!(tree.roots.iter().map(|root| root.length).sum::<u64>(), tree.byte_length);
    }
}

#[test]
fn changeset_records_every_new_node() {
    let (tree, _) = grown_tree(&[b"a", b"b", b"c"]);
    let mut changeset = tree.changeset();
    changeset.append(b"d");
    assert_eq!(changeset.nodes.iter().map(|node| node.index).collect::<Vec<u64>>(), vec![6, 5, 3]);
    assert_eq!(changeset.roots.iter().map(|node| node.index).collect::<Vec<u64>>(), vec![3]);
    assert_eq!((changeset.length, changeset.ancestors, changeset.batch_length), (4, 3, 1));
    assert_eq!(changeset.byte_length, 4);
    let five = parent_hash(2, &leaf_hash(b"c"), &leaf_hash(b"d"));
    let one = parent_hash(2, &leaf_hash(b"a"), &leaf_hash(b"b"));
    assert_eq!(changeset.nodes[1].hash, five);
    assert_eq!(changeset.roots[0].hash, parent_hash(4, &one, &five));
    assert_eq!(changeset.hash(), root_hash(4, 0, &changeset.roots[0].hash));
}

#[test]
fn commit_takes_only_a_signed_changeset_that_stands_on_the_tree() {
    let (mut tree, keys) = grown_tree(&[b"a"]);
    let mut unsigned = tree.changeset();
    unsigned.append(b"b");
    assert!(matches!(tree.commit(unsigned, &keys.public), Err(HypercoreError::InvalidSignature)));

    let mut stale = MerkleTree::new(0).changeset();
    stale.append(b"b");
    stale.hash_and_sign(&keys.public, keys.secret.as_ref().unwrap());
    assert!(matches!(tree.commit(stale, &keys.public), Err(HypercoreError::NonMonotonicUpgrade)));

    let mut forked = tree.changeset();
    forked.fork = 1;
    forked.append(b"b");
    forked.hash_and_sign(&keys.public, keys.secret.as_ref().unwrap());
    assert!(matches!(tree.commit(forked, &keys.public), Err(HypercoreError::NonMonotonicUpgrade)));

    let mut foreign = tree.changeset();
    foreign.append(b"b");
    foreign.hash_and_sign(&keys.public, &SecretKey::from_bytes(&[1u8; 32]).unwrap());
    assert!(matches!(tree.commit(foreign, &keys.public), Err(HypercoreError::InvalidSignature)));
    assert_eq!(tree.length, 1);
}

#[test]
fn signature_made_elsewhere_is_taken_only_where_it_verifies() {
    let (tree, keys) = grown_tree(&[b"a"]);
    let mut changeset = tree.changeset();
    changeset.append(b"b");
    let signature = sign(&keys.public, keys.secret.as_ref().unwrap(), &changeset.hash()).unwrap();
    let mut spoiled = signature.clone();
    spoiled[3] ^= 1;
    assert!(matches!(
        changeset.verify_and_set_signature(&spoiled, &keys.public),
        Err(HypercoreError::InvalidSignature)
    ));
    assert!(changeset.signature.is_none());
    changeset.verify_and_set_signature(&signature, &keys.public).unwrap();
    assert_eq!(changeset.signature, Some(signature));
}

#[test]
fn generated_keys_sign_and_verify() {
    let keys = generate_keypair();
    let other = generate_keypair();
    assert_ne!(keys.public.as_bytes(), other.public.as_bytes());
    let signature = sign(&keys.public, keys.secret.as_ref().unwrap(), b"message").unwrap();
    assert_eq!(signature.len(), 64);
    assert!(verify(&keys.public, b"message", &signature));
    assert!(!verify(&keys.public, b"massage", &signature));
    assert!(!verify(&other.public, b"message", &signature));
    assert!(!verify(&keys.public, b"message", &signature[..63]));
    assert!(PublicKey::from_bytes(&[0u8; 31]).is_none());
    assert!(SecretKey::from_bytes(&[0u8; 33]).is_none());
}

#[test]
fn public_key_is_taken_only_from_a_point_of_the_curve() {
    let mut refused = 0;
    for byte in 0u8..=255 {
        let bytes = [byte; 32];
        let parses = ed25519_dalek::PublicKey::from_bytes(&bytes).is_ok();
        assert_eq!(PublicKey::from_bytes(&bytes).is_some(), parses);
        if !parses {
            refused += 1;
        }
        assert!(SecretKey::from_bytes(&bytes).is_some());
    }
    assert!(refused > 0);
    let drawn = generate_keypair();
    assert!(PublicKey::from_bytes(drawn.public.as_bytes()).is_some());
}

fn records_of(tree: &MerkleTree, nodes: &[Node]) -> Vec<Vec<u8>> {
    let header = HeaderTree { fork: 0, length: tree.length, root_hash: vec![], signature: vec![] };
    MerkleTree::get_slice_instructions_to_read(&header)
        .iter()
        .map(|read| {
            assert_eq!(read.len, 40);
            let index = (read.offset - 32) / 40;
            nodes.iter().find(|node| node.index == index).unwrap().to_bytes().unwrap()
        })
        .collect()
}

fn header_of(tree: &MerkleTree) -> HeaderTree {
    let mut hashes = Vec::new();
    for root in &tree.roots {
        hashes.extend_from_slice(&root.hash);
    }
    HeaderTree {
        fork: tree.fork,
        length: tree.length,
        root_hash: root_hash(tree.length, tree.fork, &hashes),
        signature: tree.signature.clone().unwrap(),
    }
}

#[test]
fn tree_opens_from_its_records() {
    let (tree, keys) = grown_tree(&[b"a", b"bb", b"ccc", b"dddd", b"eeeee", b"f", b"gg"]);
    let nodes = tree.unflushed.clone();
    let header = header_of(&tree);
    let reads = MerkleTree::get_slice_instructions_to_read(&header);
    // roots 3, 9 and 12: the two internal ones with their children
    assert_eq!(
        reads.iter().map(|read| (read.offset - 32) / 40).collect::<Vec<u64>>(),
        vec![3, 1, 5, 9, 8, 10, 12]
    );
    let records = records_of(&tree, &nodes);
    let opened = MerkleTree::open(&header, &keys.public, &records).unwrap();
    assert_eq!(opened.length, 7);
    assert_eq!(opened.byte_length, 18);
    assert_eq!(opened.signature, tree.signature);
    assert_eq!(opened.roots.len(), 3);
    for (read, held) in opened.roots.iter().zip(tree.roots.iter()) {
        assert_eq!((read.index, read.length, &read.hash), (held.index, held.length, &held.hash));
    }

    assert!(matches!(
        MerkleTree::open(&header, &keys.public, &records[..6]),
        Err(HypercoreError::CorruptTree)
    ));
    let mut spoiled = records.clone();
    spoiled[1][0] ^= 1;
    assert!(matches!(MerkleTree::open(&header, &keys.public, &spoiled), Err(HypercoreError::CorruptTree)));
    let mut spoiled = records.clone();
    spoiled[3][39] ^= 1;
    assert!(matches!(MerkleTree::open(&header, &keys.public, &spoiled), Err(HypercoreError::CorruptTree)));
    let mut spoiled = records.clone();
    spoiled[6][0] ^= 1;
    assert!(matches!(MerkleTree::open(&header, &keys.public, &spoiled), Err(HypercoreError::CorruptTree)));
    let mut extra = records.clone();
    extra.push(records[0].clone());
    assert!(matches!(MerkleTree::open(&header, &keys.public, &extra), Err(HypercoreError::CorruptTree)));
    let mut resigned = header_of(&tree);
    resigned.signature[0] ^= 1;
    assert!(matches!(
        MerkleTree::open(&resigned, &keys.public, &records),
        Err(HypercoreError::InvalidSignature)
    ));
    let empty = HeaderTree { fork: 0, length: 0, root_hash: vec![0; 32], signature: vec![0; 64] };
    assert_eq!(MerkleTree::open(&empty, &keys.public, &[]).unwrap().length, 0);
}

#[test]
fn upgrade_of_an_entry_brings_the_tree_forward() {
    let (longer, keys) = grown_tree(&[b"a", b"bb", b"ccc"]);
    let (mut tree, _) = grown_tree(&[b"a", b"bb"]);
    let mut changeset = tree.changeset();
    changeset.append(b"ccc");
    changeset.hash_and_sign(&keys.public, keys.secret.as_ref().unwrap());
    let upgrade = EntryTreeUpgrade {
        fork: 0,
        ancestors: 2,
        length: 3,
        signature: changeset.signature.clone().unwrap(),
        nodes: changeset.nodes.clone(),
    };
    let mut spoiled = EntryTreeUpgrade { signature: vec![0u8; 64], nodes: changeset.nodes.clone(), ..upgrade };
    assert!(matches!(tree.upgrade(&spoiled, &keys.public), Err(HypercoreError::InvalidSignature)));
    spoiled.signature = changeset.signature.clone().unwrap();
    spoiled.nodes.clear();
    assert!(matches!(tree.upgrade(&spoiled, &keys.public), Err(HypercoreError::CorruptTree)));
    spoiled.ancestors = 1;
    assert!(matches!(tree.upgrade(&spoiled, &keys.public), Err(HypercoreError::NonMonotonicUpgrade)));
    assert_eq!(tree.length, 2);

    let upgrade = EntryTreeUpgrade {
        fork: 0,
        ancestors: 2,
        length: 3,
        signature: changeset.signature.clone().unwrap(),
        nodes: changeset.nodes.clone(),
    };
    tree.upgrade(&upgrade, &keys.public).unwrap();
    assert_eq!((tree.length, tree.byte_length), (3, 6));
    assert_eq!(
        tree.roots.iter().map(|root| (root.index, root.hash.clone())).collect::<Vec<(u64, Vec<u8>)>>(),
        longer.roots.iter().map(|root| (root.index, root.hash.clone())).collect::<Vec<(u64, Vec<u8>)>>()
    );
}

fn node_at(tree: &MerkleTree, index: u64) -> Node {
    tree.unflushed.iter().find(|node| node.index == index).unwrap().clone()
}

#[test]
fn block_proof_leads_to_a_root() {
    let (tree, keys) = grown_tree(&[b"a", b"bb", b"ccc", b"dddd", b"eeeee"]);
    assert_eq!(tree.missing_nodes_for(2), vec![6, 1]);
    assert_eq!(tree.missing_nodes_for(4), Vec::<u64>::new());
    let block = DataBlock { index: 2, value: b"ccc".to_vec(), nodes: vec![node_at(&tree, 6), node_at(&tree, 1)] };
    let proof = Proof { block: Some(block), hash: None, seek: None, upgrade: None };
    let changeset = tree.verify_and_apply(&proof, &keys.public).unwrap();
    assert_eq!(changeset.length, 5);
    assert_eq!(changeset.nodes.iter().map(|node| node.index).collect::<Vec<u64>>(), vec![4, 5, 3]);
    assert_eq!(changeset.nodes[2].hash, tree.roots[0].hash);

    let forged = DataBlock { index: 2, value: b"ccd".to_vec(), nodes: vec![node_at(&tree, 6), node_at(&tree, 1)] };
    let proof = Proof { block: Some(forged), hash: None, seek: None, upgrade: None };
    assert!(matches!(tree.verify_and_apply(&proof, &keys.public), Err(HypercoreError::InvalidProof)));
    let short = DataBlock { index: 2, value: b"ccc".to_vec(), nodes: vec![node_at(&tree, 6)] };
    let proof = Proof { block: Some(short), hash: None, seek: None, upgrade: None };
    assert!(matches!(tree.verify_and_apply(&proof, &keys.public), Err(HypercoreError::InvalidProof)));
    let wrong = DataBlock { index: 2, value: b"ccc".to_vec(), nodes: vec![node_at(&tree, 1), node_at(&tree, 6)] };
    let proof = Proof { block: Some(wrong), hash: None, seek: None, upgrade: None };
    assert!(matches!(tree.verify_and_apply(&proof, &keys.public), Err(HypercoreError::InvalidProof)));
    let last = DataBlock { index: 4, value: b"eeeee".to_vec(), nodes: vec![] };
    let proof = Proof { block: Some(last), hash: None, seek: None, upgrade: None };
    assert!(tree.verify_and_apply(&proof, &keys.public).is_ok());
}

#[test]
fn proof_of_another_state_is_accepted_where_the_root_is_shared() {
    let (shorter, keys) = grown_tree(&[b"a", b"bb", b"ccc", b"dddd"]);
    let (longer, _) = grown_tree(&[b"a", b"bb", b"ccc", b"dddd", b"eeeee", b"f"]);
    let (other, _) = grown_tree(&[b"a", b"bb", b"ccc", b"dddx", b"eeeee", b"f"]);
    let made = |tree: &MerkleTree| Proof {
        block: Some(DataBlock { index: 1, value: b"bb".to_vec(), nodes: vec![node_at(tree, 0), node_at(tree, 5)] }),
        hash: None,
        seek: None,
        upgrade: None,
    };
    assert!(longer.verify_and_apply(&made(&shorter), &keys.public).is_ok());
    assert!(shorter.verify_and_apply(&made(&longer), &keys.public).is_ok());
    assert!(matches!(
        longer.verify_and_apply(&made(&other), &keys.public),
        Err(HypercoreError::InvalidProof)
    ));
}

#[test]
fn hash_and_seek_proofs() {
    let (tree, keys) = grown_tree(&[b"a", b"bb", b"ccc", b"dddd", b"eeeee"]);
    let hash = DataHash { index: 5, nodes: vec![node_at(&tree, 5), node_at(&tree, 1)] };
    let proof = Proof { block: None, hash: Some(hash), seek: None, upgrade: None };
    assert!(tree.verify_and_apply(&proof, &keys.public).is_ok());
    let hash = DataHash { index: 4, nodes: vec![node_at(&tree, 5), node_at(&tree, 1)] };
    let proof = Proof { block: None, hash: Some(hash), seek: None, upgrade: None };
    assert!(matches!(tree.verify_and_apply(&proof, &keys.public), Err(HypercoreError::InvalidProof)));

    // block 2 holds the bytes 3, 4 and 5
    for (bytes, ok) in [(2u64, false), (3, true), (5, true), (6, false)] {
        let seek = DataSeek { bytes, nodes: vec![node_at(&tree, 4), node_at(&tree, 6), node_at(&tree, 1)] };
        let proof = Proof { block: None, hash: None, seek: Some(seek), upgrade: None };
        assert_eq!(tree.verify_and_apply(&proof, &keys.public).is_ok(), ok);
    }
    // block 4 lies behind the first root and holds the bytes 10 to 14
    for (bytes, ok) in [(9u64, false), (10, true), (14, true), (15, false)] {
        let seek = DataSeek { bytes, nodes: vec![node_at(&tree, 8)] };
        let proof = Proof { block: None, hash: None, seek: Some(seek), upgrade: None };
        assert_eq!(tree.verify_and_apply(&proof, &keys.public).is_ok(), ok);
    }
}

#[test]
fn upgrade_proof() {
    let (longer, keys) = grown_tree(&[b"a", b"bb", b"ccc"]);
    let (tree, _) = grown_tree(&[b"a", b"bb"]);
    let upgrade = |start: u64, length: u64, nodes: Vec<Node>, signature: Vec<u8>| Proof {
        block: None,
        hash: None,
        seek: None,
        upgrade: Some(DataUpgrade { start, length, nodes, additional_nodes: vec![], signature }),
    };
    let signature = longer.signature.clone().unwrap();
    let changeset = tree
        .verify_and_apply(&upgrade(2, 1, vec![node_at(&longer, 4)], signature.clone()), &keys.public)
        .unwrap();
    assert_eq!((changeset.length, changeset.ancestors, changeset.byte_length), (3, 2, 6));
    assert_eq!(changeset.roots.iter().map(|root| root.index).collect::<Vec<u64>>(), vec![1, 4]);
    let mut grown = MerkleTree::new(0);
    grown.roots = tree.roots.clone();
    grown.length = tree.length;
    grown.byte_length = tree.byte_length;
    grown.signature = tree.signature.clone();
    grown.commit(changeset, &keys.public).unwrap();
    assert_eq!(grown.length, 3);

    assert!(matches!(
        tree.verify_and_apply(&upgrade(1, 2, vec![node_at(&longer, 4)], signature.clone()), &keys.public),
        Err(HypercoreError::NonMonotonicUpgrade)
    ));
    assert!(matches!(
        tree.verify_and_apply(&upgrade(2, 0, vec![], signature.clone()), &keys.public),
        Err(HypercoreError::NonMonotonicUpgrade)
    ));
    assert!(matches!(
        tree.verify_and_apply(&upgrade(2, 1, vec![], signature.clone()), &keys.public),
        Err(HypercoreError::InvalidProof)
    ));
    assert!(matches!(
        tree.verify_and_apply(&upgrade(2, 1, vec![node_at(&longer, 4)], vec![0u8; 64]), &keys.public),
        Err(HypercoreError::InvalidSignature)
    ));
    // a block checked against the roots that the upgrade gives
    let mut with_block = upgrade(2, 1, vec![node_at(&longer, 4)], signature);
    with_block.block = Some(DataBlock { index: 2, value: b"ccc".to_vec(), nodes: vec![] });
    assert!(tree.verify_and_apply(&with_block, &keys.public).is_ok());
}

#[test]
fn ranges_come_from_cached_and_stored_nodes() {
    let (mut tree, _) = grown_tree(&[b"a", b"bb", b"ccc", b"dddd", b"eeeee", b"f"]);
    assert_eq!(tree.byte_range_nodes(5), Vec::<u64>::new());
    assert_eq!(tree.byte_range(5, &[]).unwrap(), 15..16);
    assert_eq!(tree.byte_range(2, &[]).unwrap(), 3..6);
    let nodes = tree.unflushed.clone();
    let writes = tree.flush_nodes();
    assert_eq!(writes.len(), nodes.len());
    assert_eq!(writes[1].offset, 32 + 40 * nodes[1].index);
    assert_eq!(writes[1].data, nodes[1].to_bytes().unwrap());
    assert!(tree.unflushed.is_empty());
    assert_eq!(tree.byte_range_nodes(5), vec![3, 8, 10]);
    let stored: Vec<Node> = [3u64, 8, 10].iter().map(|i| nodes.iter().find(|n| n.index == *i).unwrap().clone()).collect();
    assert_eq!(tree.byte_range(5, &stored).unwrap(), 15..16);
    assert!(matches!(tree.byte_range(5, &stored[..2]), Err(HypercoreError::CorruptTree)));
    assert!(matches!(tree.byte_range(5, &[]), Err(HypercoreError::CorruptTree)));
    assert!(matches!(tree.byte_range(6, &stored), Err(HypercoreError::CorruptTree)));
}

#[test]
fn staged_changeset_is_new() {
    let changeset = MerkleTreeChangeset::new(0, 0, 3, Vec::new());
    assert_eq!((changeset.length, changeset.ancestors, changeset.fork, changeset.batch_length), (0, 0, 3, 0));
    assert!(changeset.hash.is_none() && changeset.signature.is_none() && changeset.nodes.is_empty());
}

#[test]
fn replay_goes_by_the_leaves_of_an_entry() {
    let (longer, keys) = grown_tree(&[b"a", b"bb", b"ccc", b"dddd"]);
    let (mut tree, _) = grown_tree(&[b"a"]);
    let mut changeset = tree.changeset();
    changeset.append(b"bb");
    changeset.append(b"ccc");
    changeset.append(b"dddd");
    changeset.hash_and_sign(&keys.public, keys.secret.as_ref().unwrap());
    assert_eq!(changeset.nodes.iter().map(|node| node.index).collect::<Vec<u64>>(), vec![2, 1, 4, 6, 5, 3]);
    let entry = |nodes: Vec<Node>| EntryTreeUpgrade {
        fork: 0,
        ancestors: 1,
        length: 4,
        signature: changeset.signature.clone().unwrap(),
        nodes,
    };
    let leaves: Vec<Node> = changeset.nodes.iter().filter(|node| node.index % 2 == 0).cloned().collect();

    let mut out_of_order = leaves.clone();
    out_of_order.swap(0, 1);
    assert!(matches!(tree.upgrade(&entry(out_of_order), &keys.public), Err(HypercoreError::CorruptTree)));
    assert!(matches!(tree.upgrade(&entry(leaves[..2].to_vec()), &keys.public), Err(HypercoreError::CorruptTree)));
    let mut too_many = leaves.clone();
    too_many.push(Node::new(8, vec![0u8; 32], 1));
    assert!(matches!(tree.upgrade(&entry(too_many), &keys.public), Err(HypercoreError::CorruptTree)));
    let mut forged = leaves.clone();
    forged[1].hash[0] ^= 1;
    assert!(matches!(tree.upgrade(&entry(forged), &keys.public), Err(HypercoreError::InvalidSignature)));
    assert_eq!((tree.length, tree.unflushed.len()), (1, 1));

    // the parents are derived again from the leaves
    tree.upgrade(&entry(leaves), &keys.public).unwrap();
    assert_eq!((tree.length, tree.byte_length), (4, 10));
    assert_eq!(tree.roots[0].hash, longer.roots[0].hash);
    assert_eq!(
        tree.unflushed.iter().map(|node| (node.index, node.hash.clone())).collect::<Vec<(u64, Vec<u8>)>>(),
        longer.unflushed.iter().map(|node| (node.index, node.hash.clone())).collect::<Vec<(u64, Vec<u8>)>>()
    );
}
