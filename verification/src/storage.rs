//! Layout of the storage segments: where a node, a signature or a block
//! lies, which records a lookup needs, and what a fresh segment starts with.

use std::ops::Range;
use vstd::prelude::*;

use crate::common::{append_bytes, HypercoreError};
use crate::crypto::{ed25519_public_key, PartialKeypair, PublicKey, SecretKey};
use crate::flat::{root_cover, MAX_INDEX};
use crate::node::{
    lemma_total_length_push, node_indices, node_views, total_length, Node, NodeView,
};

verus! {

/// Number of bytes before the first record of a segment.
pub const HEADER_OFFSET: u64 = 32;

/// Number of bytes of a node's record.
pub const NODE_RECORD_SIZE: u64 = 40;

/// Number of bytes of a signature's record.
pub const SIGNATURE_RECORD_SIZE: u64 = 64;

/// Largest block index whose flat index the arithmetic of this module holds.
pub const MAX_BLOCK_INDEX: u64 = 0x00ff_ffff_ffff_ffff;

/// The storage segments of a log.
#[derive(Debug, Clone, Copy, PartialEq, Eq, Structural)]
pub enum Store {
    /// Records of the Merkle tree's nodes.
    Tree,
    /// The blocks, one after the other.
    Data,
    /// Which blocks are held.
    Bitfield,
    /// The operation log.
    Oplog,
}

impl Store {
    /// File name of the segment in a directory on disk.
    pub fn name(&self) -> (name: &'static str)
        ensures
            name@ == (match self {
                Store::Tree => "tree"@,
                Store::Data => "data"@,
                Store::Bitfield => "bitfield"@,
                Store::Oplog => "oplog"@,
            }),
    {
        match self {
            Store::Tree => "tree",
            Store::Data => "data",
            Store::Bitfield => "bitfield",
            Store::Oplog => "oplog",
        }
    }
}

/// Bytes to write at an offset of a segment.
#[derive(Debug)]
pub struct StoreWrite {
    /// The segment.
    pub store: Store,
    /// Offset of the first byte.
    pub offset: u64,
    /// The bytes.
    pub data: Vec<u8>,
}

/// The 32 bytes that start a tree segment: magic number, file type 2,
/// version 0, entry size 40, and the name of the hash, `BLAKE2b`.
pub open spec fn tree_header() -> Seq<u8> {
    seq![5u8, 2, 87, 2, 0, 0, 40, 7, 66, 76, 65, 75, 69, 50, 98] + Seq::new(17, |i: int| 0u8)
}

/// The 32 bytes that start a bitfield segment: magic number, file type 0,
/// version 0, entry size 3328, and no hash name.
pub open spec fn bitfield_header() -> Seq<u8> {
    seq![5u8, 2, 87, 0, 0, 13, 0, 0] + Seq::new(24, |i: int| 0u8)
}

/// Whether a byte string names a hash that a segment header may carry:
/// `BLAKE2b`, `Ed25519` or nothing.
pub open spec fn algorithm_known(name: Seq<u8>) -> bool {
    ||| name == seq![66u8, 76, 65, 75, 69, 50, 98]
    ||| name == seq![69u8, 100, 50, 53, 53, 49, 57]
    ||| name.len() == 0
}

/// Whether 32 bytes are a segment header: the magic number, a known file
/// type, version 0, and a known hash name of at most 24 bytes.
pub open spec fn segment_header_ok(header: Seq<u8>) -> bool {
    &&& header.len() == 32
    &&& header[0] == 5
    &&& header[1] == 2
    &&& header[2] == 87
    &&& header[3] <= 2
    &&& header[4] == 0
    &&& header[7] <= 24
    &&& algorithm_known(header.subrange(8, 8 + header[7] as int))
}

/// `sleep_parser::create_tree` and `Header::to_vec` give the tree header:
/// its first 15 bytes, then zeros up to the capacity that the vector got,
/// which is at least 32.
#[verifier::external_body]
fn sleep_tree_header() -> (header: Vec<u8>)
    ensures
        header@.len() >= 32,
        header@.subrange(0, 15) == tree_header().subrange(0, 15),
        forall|i: int| 15 <= i < header@.len() ==> header@[i] == 0,
{
    sleep_parser::create_tree().to_vec()
}

/// `sleep_parser::create_bitfield` and `Header::to_vec` give the bitfield
/// header: its first 8 bytes, then zeros up to the capacity that the vector
/// got, which is at least 32.
#[verifier::external_body]
fn sleep_bitfield_header() -> (header: Vec<u8>)
    ensures
        header@.len() >= 32,
        header@.subrange(0, 8) == bitfield_header().subrange(0, 8),
        forall|i: int| 8 <= i < header@.len() ==> header@[i] == 0,
{
    sleep_parser::create_bitfield().to_vec()
}

/// `sleep_parser::Header::from_vec` accepts exactly the 32 bytes that are a
/// segment header, and reads the entry size from bytes 5 and 6, big-endian.
#[verifier::external_body]
fn sleep_entry_size(header: &[u8]) -> (size: Option<u16>)
    ensures
        size is Some <==> segment_header_ok(header@),
        size matches Some(s) ==> s == header@[5] * 256 + header@[6],
{
    sleep_parser::Header::from_vec(header).ok().map(|parsed| parsed.entry_size)
}

/// The header that a fresh tree segment starts with.
pub fn create_tree_header() -> (header: Vec<u8>)
    ensures
        header@ == tree_header(),
{
    let mut header = sleep_tree_header();
    header.truncate(32);
    assert(header@ =~= tree_header()) by {
        assert forall|i: int| 0 <= i < 15 implies header@[i] == tree_header()[i] by {
            assert(header@[i] == header@.subrange(0, 15)[i]);
            assert(tree_header()[i] == tree_header().subrange(0, 15)[i]);
        }
    }
    header
}

/// The header that a fresh bitfield segment starts with.
pub fn create_bitfield_header() -> (header: Vec<u8>)
    ensures
        header@ == bitfield_header(),
{
    let mut header = sleep_bitfield_header();
    header.truncate(32);
    assert(header@ =~= bitfield_header()) by {
        assert forall|i: int| 0 <= i < 8 implies header@[i] == bitfield_header()[i] by {
            assert(header@[i] == header@.subrange(0, 8)[i]);
            assert(bitfield_header()[i] == bitfield_header().subrange(0, 8)[i]);
        }
    }
    header
}

/// What opening the segments writes first, given whether to overwrite and
/// how long the tree and bitfield segments are.
pub open spec fn initial_writes_spec(overwrite: bool, tree_len: u64, bitfield_len: u64) -> Seq<
    (Store, u64, Seq<u8>),
> {
    let first = if overwrite || bitfield_len == 0 {
        seq![(Store::Oplog, 0u64, seq![0u8]), (Store::Bitfield, 0u64, bitfield_header())]
    } else {
        Seq::empty()
    };
    let second = if overwrite || tree_len == 0 {
        seq![(Store::Tree, 0u64, tree_header())]
    } else {
        Seq::empty()
    };
    first + second
}

/// The writes of a sequence as mathematical values.
pub open spec fn write_views(writes: Seq<StoreWrite>) -> Seq<(Store, u64, Seq<u8>)> {
    writes.map_values(|write: StoreWrite| (write.store, write.offset, write.data@))
}

/// The writes that open the segments: an empty or overwritten bitfield
/// segment gets its header and resets the operation log to a single zero
/// byte; an empty or overwritten tree segment gets its header.
pub fn initial_writes(overwrite: bool, tree_len: u64, bitfield_len: u64) -> (writes: Vec<StoreWrite>)
    ensures
        write_views(writes@) == initial_writes_spec(overwrite, tree_len, bitfield_len),
{
    let mut writes: Vec<StoreWrite> = Vec::new();
    if overwrite || bitfield_len == 0 {
        let mut zero: Vec<u8> = Vec::new();
        zero.push(0u8);
        writes.push(StoreWrite { store: Store::Oplog, offset: 0, data: zero });
        writes.push(StoreWrite { store: Store::Bitfield, offset: 0, data: create_bitfield_header() });
    }
    if overwrite || tree_len == 0 {
        writes.push(StoreWrite { store: Store::Tree, offset: 0, data: create_tree_header() });
    }
    assert(write_views(writes@) =~= initial_writes_spec(overwrite, tree_len, bitfield_len));
    writes
}

/// Size of an entry of the bitfield segment, read from its header;
/// `CorruptHeader` where the 32 bytes are no segment header.
pub fn bitfield_entry_size(header: &[u8]) -> (size: Result<u64, HypercoreError>)
    ensures
        size is Ok <==> segment_header_ok(header@),
        size matches Ok(s) ==> s == header@[5] * 256 + header@[6],
        size matches Err(e) ==> e is CorruptHeader,
{
    match sleep_entry_size(header) {
        Some(size) => Ok(size as u64),
        None => Err(HypercoreError::CorruptHeader),
    }
}

/// Offset of entry `index` of the bitfield segment, for entries of
/// `entry_size` bytes; `None` where it does not fit in 64 bits.
pub fn bitfield_entry_offset(index: u64, entry_size: u64) -> (offset: Option<u64>)
    ensures
        offset is Some <==> HEADER_OFFSET + index * entry_size <= u64::MAX,
        offset matches Some(o) ==> o == HEADER_OFFSET + index * entry_size,
{
    match index.checked_mul(entry_size) {
        Some(product) => HEADER_OFFSET.checked_add(product),
        None => {
            assert(index * entry_size >= 0) by (nonlinear_arith);
            None
        },
    }
}

/// Offset in the bitfield segment of the byte at `offset` behind its header.
pub fn bitfield_offset(offset: u64) -> (position: Option<u64>)
    ensures
        position is Some <==> HEADER_OFFSET + offset <= u64::MAX,
        position matches Some(p) ==> p == HEADER_OFFSET + offset,
{
    HEADER_OFFSET.checked_add(offset)
}

/// Flat index of the leaf of block `index`.
pub fn tree_index(index: u64) -> (flat: u64)
    requires
        index <= MAX_BLOCK_INDEX,
    ensures
        flat == 2 * index,
{
    2 * index
}

/// Offset of the record of node `index` in the tree segment.
pub fn node_offset(index: u64) -> (offset: u64)
    requires
        index <= 2 * MAX_INDEX,
    ensures
        offset == HEADER_OFFSET + NODE_RECORD_SIZE * index,
{
    HEADER_OFFSET + NODE_RECORD_SIZE * index
}

/// Offset of the record of signature `index` in a signature segment.
pub fn signature_offset(index: u64) -> (offset: u64)
    requires
        index <= MAX_INDEX,
    ensures
        offset == HEADER_OFFSET + SIGNATURE_RECORD_SIZE * index,
{
    HEADER_OFFSET + SIGNATURE_RECORD_SIZE * index
}

/// What the record of a signature tells a search for the next signature.
#[derive(Debug)]
pub enum SignatureSearch {
    /// The record holds a signature.
    Found(Vec<u8>),
    /// The record is empty: the search goes on at the given index.
    Continue(u64),
}

/// One step of the search for the next signature from `index` on: a record
/// that is not all zeros holds the signature, else the search goes on at
/// the next index.
pub fn next_signature(index: u64, record: &[u8]) -> (step: SignatureSearch)
    requires
        index < MAX_INDEX,
    ensures
        match step {
            SignatureSearch::Found(signature) => signature@ == record@ && exists|i: int|
                0 <= i < record@.len() && record@[i] != 0,
            SignatureSearch::Continue(next) => next == index + 1 && forall|i: int|
                0 <= i < record@.len() ==> record@[i] == 0,
        },
{
    if not_zeroes(record) {
        let mut signature: Vec<u8> = Vec::new();
        append_bytes(&mut signature, record);
        SignatureSearch::Found(signature)
    } else {
        SignatureSearch::Continue(index + 1)
    }
}

/// The signature that a record holds; `InvalidSignature` where the record
/// is all zeros.
pub fn get_signature(record: &[u8]) -> (signature: Result<Vec<u8>, HypercoreError>)
    ensures
        signature is Ok <==> exists|i: int| 0 <= i < record@.len() && record@[i] != 0,
        signature matches Ok(bytes) ==> bytes@ == record@,
        signature matches Err(e) ==> e is InvalidSignature,
{
    if not_zeroes(record) {
        let mut signature: Vec<u8> = Vec::new();
        append_bytes(&mut signature, record);
        Ok(signature)
    } else {
        Err(HypercoreError::InvalidSignature)
    }
}

/// The keys that a key segment holds, from what was read of it: nothing
/// without a public key of 32 bytes that parses, and the secret key only
/// where it was read with 32 bytes.
pub fn read_partial_keypair(public: Option<Vec<u8>>, secret: Option<Vec<u8>>) -> (keys: Option<
    PartialKeypair,
>)
    ensures
        keys is Some <==> (public matches Some(bytes) && bytes@.len() == 32 && ed25519_public_key(
            bytes@,
        )),
        keys matches Some(pair) ==> {
            &&& pair.public@ == public->0@
            &&& pair.secret is Some <==> (secret matches Some(bytes) && bytes@.len() == 32)
            &&& pair.secret matches Some(key) ==> key@ == secret->0@
        },
{
    let public = match public {
        Some(bytes) => match PublicKey::from_bytes(bytes.as_slice()) {
            Some(key) => key,
            None => {
                return None;
            },
        },
        None => {
            return None;
        },
    };
    let secret = match secret {
        Some(bytes) => SecretKey::from_bytes(bytes.as_slice()),
        None => None,
    };
    Some(PartialKeypair { public, secret })
}

/// Position of the first node from `from` on that has the given flat index.
pub open spec fn position_of(nodes: Seq<NodeView>, index: u64, from: int) -> Option<int>
    decreases nodes.len() - from,
{
    if from < 0 || from >= nodes.len() {
        None
    } else if nodes[from].index == index {
        Some(from)
    } else {
        position_of(nodes, index, from + 1)
    }
}

/// A position that is found lies in the sequence, not before `from`, and
/// holds a node with the index looked for.
pub proof fn lemma_position_of(nodes: Seq<NodeView>, index: u64, from: int)
    requires
        position_of(nodes, index, from) is Some,
    ensures
        from <= position_of(nodes, index, from)->0 < nodes.len(),
        0 <= from,
        nodes[position_of(nodes, index, from)->0].index == index,
    decreases nodes.len() - from,
{
    if nodes[from].index != index {
        lemma_position_of(nodes, index, from + 1);
    }
}

/// The first node with the given flat index, if there is one.
pub fn find_node(nodes: &[Node], index: u64) -> (found: Option<&Node>)
    ensures
        found is Some <==> position_of(node_views(nodes@), index, 0) is Some,
        found matches Some(node) ==> *node == nodes@[position_of(node_views(nodes@), index, 0)->0],
{
    let mut i: usize = 0;
    while i < nodes.len()
        invariant
            i <= nodes@.len(),
            position_of(node_views(nodes@), index, 0) == position_of(
                node_views(nodes@),
                index,
                i as int,
            ),
        decreases nodes@.len() - i,
    {
        if nodes[i].index() == index {
            return Some(&nodes[i]);
        }
        i += 1;
    }
    None
}

/// Whether some byte is not zero.
pub fn not_zeroes(bytes: &[u8]) -> (found: bool)
    ensures
        found == exists|i: int| 0 <= i < bytes@.len() && bytes@[i] != 0,
{
    let mut i: usize = 0;
    while i < bytes.len()
        invariant
            i <= bytes@.len(),
            forall|j: int| 0 <= j < i ==> bytes@[j] == 0,
        decreases bytes@.len() - i,
    {
        if bytes[i] != 0 {
            return true;
        }
        i += 1;
    }
    false
}

/// Whether the cache holds the leaf of block `index`.
pub open spec fn leaf_cached(index: u64, cached: Seq<NodeView>) -> bool {
    position_of(cached, (2 * index) as u64, 0) is Some
}

/// Flat indices of the records that locate block `index`: the roots of the
/// full subtrees to its left, then its own leaf unless the cache holds it.
pub open spec fn offset_nodes(index: u64, cached: Seq<NodeView>) -> Seq<u64> {
    if leaf_cached(index, cached) {
        root_cover(index as nat)
    } else {
        root_cover(index as nat).push((2 * index) as u64)
    }
}

/// The leaf of block `index`: from the cache where it holds one, else the
/// last of the records read.
pub open spec fn offset_leaf(index: u64, cached: Seq<NodeView>, stored: Seq<NodeView>) -> NodeView {
    if leaf_cached(index, cached) {
        cached[position_of(cached, (2 * index) as u64, 0)->0]
    } else {
        stored.last()
    }
}

/// Whether `stored` holds the records that locate block `index`, and the
/// block ends within 64 bits.
pub open spec fn offset_known(index: u64, cached: Seq<NodeView>, stored: Seq<NodeView>) -> bool {
    &&& node_indices(stored) == offset_nodes(index, cached)
    &&& total_length(stored.take(root_cover(index as nat).len() as int)) + offset_leaf(
        index,
        cached,
        stored,
    ).length <= u64::MAX
}

/// The flat indices of the records to read from the tree segment before
/// block `index` can be located.
pub fn data_offset_nodes(index: u64, cached_nodes: &[Node]) -> (indices: Vec<u64>)
    requires
        index <= MAX_BLOCK_INDEX,
    ensures
        indices@ == offset_nodes(index, node_views(cached_nodes@)),
{
    let block_index = tree_index(index);
    let mut indices: Vec<u64> = Vec::new();
    flat_tree::full_roots(block_index, &mut indices);
    assert(indices@ == root_cover(index as nat));
    if find_node(cached_nodes, block_index).is_none() {
        indices.push(block_index);
    }
    indices
}

/// The byte range of block `index` in the data segment, from the records
/// that `data_offset_nodes` named, read in that order: it starts behind the
/// bytes under the roots to the block's left and is as long as its leaf
/// says. `CorruptTree` where other records are given or the range does not
/// end within 64 bits.
pub fn data_offset(index: u64, cached_nodes: &[Node], stored: &[Node]) -> (range: Result<
    Range<u64>,
    HypercoreError,
>)
    requires
        index <= MAX_BLOCK_INDEX,
    ensures
        range is Ok <==> offset_known(index, node_views(cached_nodes@), node_views(stored@)),
        range matches Ok(r) ==> {
            &&& r.start == total_length(
                node_views(stored@).take(root_cover(index as nat).len() as int),
            )
            &&& r.end == r.start + offset_leaf(
                index,
                node_views(cached_nodes@),
                node_views(stored@),
            ).length
        },
        range matches Err(e) ==> e is CorruptTree,
{
    let ghost cached = node_views(cached_nodes@);
    let ghost views = node_views(stored@);
    let wanted = data_offset_nodes(index, cached_nodes);
    if stored.len() != wanted.len() {
        assert(node_indices(views).len() == views.len());
        return Err(HypercoreError::CorruptTree);
    }
    let block_index = tree_index(index);
    let leaf = find_node(cached_nodes, block_index);
    let roots: usize = if leaf.is_some() {
        wanted.len()
    } else {
        wanted.len() - 1
    };
    assert(roots == root_cover(index as nat).len());
    let mut i: usize = 0;
    while i < stored.len()
        invariant
            i <= stored@.len(),
            stored@.len() == wanted@.len(),
            views == node_views(stored@),
            cached == node_views(cached_nodes@),
            wanted@ == offset_nodes(index, cached),
            forall|j: int| 0 <= j < i ==> views[j].index == wanted@[j],
        decreases stored@.len() - i,
    {
        if stored[i].index() != wanted[i] {
            assert(node_indices(views)[i as int] != wanted@[i as int]);
            return Err(HypercoreError::CorruptTree);
        }
        i += 1;
    }
    assert(node_indices(views) =~= wanted@);
    let mut offset: u64 = 0;
    let mut k: usize = 0;
    while k < roots
        invariant
            k <= roots <= stored@.len(),
            views == node_views(stored@),
            cached == node_views(cached_nodes@),
            roots == root_cover(index as nat).len(),
            node_indices(views) == offset_nodes(index, cached),
            offset == total_length(views.take(k as int)),
            total_length(views.take(k as int)) <= u64::MAX,
        decreases roots - k,
    {
        proof {
            assert(views.take(k + 1) == views.take(k as int).push(views[k as int]));
            lemma_total_length_push(views.take(k as int), views[k as int]);
            lemma_total_length_prefix(views.take(roots as int), k + 1);
            assert(views.take(roots as int).take(k + 1) == views.take(k + 1));
        }
        match offset.checked_add(stored[k].len()) {
            Some(sum) => {
                offset = sum;
            },
            None => {
                return Err(HypercoreError::CorruptTree);
            },
        }
        k += 1;
    }
    let length = match leaf {
        Some(node) => {
            proof {
                lemma_position_of(cached, block_index, 0);
            }
            assert(node@ == cached[position_of(cached, block_index, 0)->0]);
            node.len()
        },
        None => {
            assert(views.last() == stored@[roots as int]@);
            stored[roots].len()
        },
    };
    assert(length == offset_leaf(index, cached, views).length);
    match offset.checked_add(length) {
        Some(end) => Ok(offset..end),
        None => Err(HypercoreError::CorruptTree),
    }
}

/// The nodes of a prefix are no longer in total than all of them.
pub proof fn lemma_total_length_prefix(nodes: Seq<NodeView>, count: int)
    requires
        0 <= count <= nodes.len(),
    ensures
        total_length(nodes.take(count)) <= total_length(nodes),
    decreases nodes.len(),
{
    if count == nodes.len() {
        assert(nodes.take(count) == nodes);
    } else {
        lemma_total_length_prefix(nodes.drop_last(), count);
        assert(nodes.drop_last().take(count) == nodes.take(count));
    }
}

/// Where to write the bytes of block `index`: nowhere for an empty block,
/// else at the start of the block's range, which must be as long as the
/// bytes. `InvalidProof` where the lengths differ, `CorruptTree` where the
/// range is not known.
pub fn put_data_offset(index: u64, data: &[u8], cached_nodes: &[Node], stored: &[Node]) -> (offset: Result<
    Option<u64>,
    HypercoreError,
>)
    requires
        index <= MAX_BLOCK_INDEX,
    ensures
        data@.len() == 0 ==> offset == Ok::<Option<u64>, HypercoreError>(None),
        data@.len() > 0 ==> {
            let known = offset_known(index, node_views(cached_nodes@), node_views(stored@));
            let leaf = offset_leaf(index, node_views(cached_nodes@), node_views(stored@));
            &&& offset is Ok <==> known && leaf.length == data@.len()
            &&& offset matches Ok(o) ==> o == Some(
                total_length(
                    node_views(stored@).take(root_cover(index as nat).len() as int),
                ) as u64,
            )
            &&& offset matches Err(e) ==> if known {
                e is InvalidProof
            } else {
                e is CorruptTree
            }
        },
{
    if data.len() == 0 {
        return Ok(None);
    }
    match data_offset(index, cached_nodes, stored) {
        Ok(range) => {
            if range.end - range.start == data.len() as u64 {
                Ok(Some(range.start))
            } else {
                Err(HypercoreError::InvalidProof)
            }
        },
        Err(error) => Err(error),
    }
}

} // verus!
