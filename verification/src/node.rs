//! Nodes of the Merkle tree and their fixed-size record in the tree store.

use vstd::bytes::{
    lemma_auto_spec_u64_to_from_le_bytes, spec_u64_from_le_bytes, spec_u64_to_le_bytes,
    u64_from_le_bytes, u64_to_le_bytes,
};
use vstd::prelude::*;
use vstd::slice::slice_subrange;

use crate::common::{append_bytes, copy_range, HypercoreError};

verus! {

/// Size in bytes of a node's record in the tree store.
pub const NODE_SIZE: usize = 40;

/// A node of the Merkle tree.
#[derive(Debug)]
pub struct Node {
    /// Flat index of the node.
    pub index: u64,
    /// Hash of the subtree below the node: 32 bytes.
    pub hash: Vec<u8>,
    /// Sum of the byte lengths of the blocks below the node.
    pub length: u64,
}

/// A node as a mathematical value.
pub struct NodeView {
    /// Flat index of the node.
    pub index: u64,
    /// Hash of the subtree below the node.
    pub hash: Seq<u8>,
    /// Sum of the byte lengths of the blocks below the node.
    pub length: u64,
}

impl View for Node {
    type V = NodeView;

    open spec fn view(&self) -> NodeView {
        NodeView { index: self.index, hash: self.hash@, length: self.length }
    }
}

/// The nodes of a sequence as mathematical values.
pub open spec fn node_views(nodes: Seq<Node>) -> Seq<NodeView> {
    nodes.map_values(|node: Node| node@)
}

/// The flat indices of a sequence of nodes.
pub open spec fn node_indices(nodes: Seq<NodeView>) -> Seq<u64> {
    nodes.map_values(|node: NodeView| node.index)
}

/// Sum of the byte lengths of a sequence of nodes.
pub open spec fn total_length(nodes: Seq<NodeView>) -> nat
    decreases nodes.len(),
{
    if nodes.len() == 0 {
        0
    } else {
        total_length(nodes.drop_last()) + nodes.last().length as nat
    }
}

/// The hashes of a sequence of nodes, one after the other.
pub open spec fn concat_hashes(nodes: Seq<NodeView>) -> Seq<u8>
    decreases nodes.len(),
{
    if nodes.len() == 0 {
        Seq::empty()
    } else {
        concat_hashes(nodes.drop_last()) + nodes.last().hash
    }
}

/// The record of a node in the tree store: its hash, then its length in
/// eight little-endian bytes.
pub open spec fn node_record(node: NodeView) -> Seq<u8> {
    node.hash + spec_u64_to_le_bytes(node.length)
}

/// The node that a record of 40 bytes holds for a flat index.
pub open spec fn node_of_record(index: u64, record: Seq<u8>) -> NodeView {
    NodeView {
        index,
        hash: record.subrange(0, 32),
        length: spec_u64_from_le_bytes(record.subrange(32, 40)),
    }
}

impl Node {
    /// Creates a node from its parts.
    pub fn new(index: u64, hash: Vec<u8>, length: u64) -> (node: Node)
        ensures
            node@ == (NodeView { index, hash: hash@, length }),
    {
        Node { index, hash, length }
    }

    /// Flat index of the node.
    pub fn index(&self) -> (index: u64)
        ensures
            index == self.index,
    {
        self.index
    }

    /// Hash of the subtree below the node.
    pub fn hash(&self) -> (hash: &Vec<u8>)
        ensures
            hash@ == self.hash@,
    {
        &self.hash
    }

    /// Sum of the byte lengths of the blocks below the node.
    pub fn len(&self) -> (length: u64)
        ensures
            length == self.length,
    {
        self.length
    }

    /// Whether no byte lies below the node.
    pub fn is_empty(&self) -> (empty: bool)
        ensures
            empty == (self.length == 0),
    {
        self.length == 0
    }

    /// The node's record for the tree store; `CorruptTree` where the hash is
    /// not 32 bytes long.
    pub fn to_bytes(&self) -> (record: Result<Vec<u8>, HypercoreError>)
        ensures
            record is Ok <==> self.hash@.len() == 32,
            record matches Ok(bytes) ==> bytes@ == node_record(self@) && bytes@.len() == 40,
            record matches Err(e) ==> e is CorruptTree,
    {
        if self.hash.len() != 32 {
            return Err(HypercoreError::CorruptTree);
        }
        let mut bytes: Vec<u8> = Vec::new();
        append_bytes(&mut bytes, self.hash.as_slice());
        let length = u64_to_le_bytes(self.length);
        append_bytes(&mut bytes, length.as_slice());
        proof {
            lemma_auto_spec_u64_to_from_le_bytes();
        }
        Ok(bytes)
    }

    /// The node that `buffer` records for flat index `index`; `CorruptTree`
    /// where the buffer is not 40 bytes long.
    pub fn from_bytes(index: u64, buffer: &[u8]) -> (node: Result<Node, HypercoreError>)
        ensures
            node is Ok <==> buffer@.len() == 40,
            node matches Ok(n) ==> n@ == node_of_record(index, buffer@),
            node matches Err(e) ==> e is CorruptTree,
    {
        if buffer.len() != NODE_SIZE {
            return Err(HypercoreError::CorruptTree);
        }
        let hash = copy_range(buffer, 0, 32);
        let length = u64_from_le_bytes(slice_subrange(buffer, 32, 40));
        Ok(Node { index, hash, length })
    }
}

impl Clone for Node {
    fn clone(&self) -> (copy: Node)
        ensures
            copy@ == self@,
    {
        let mut hash: Vec<u8> = Vec::new();
        append_bytes(&mut hash, self.hash.as_slice());
        Node { index: self.index, hash, length: self.length }
    }
}

/// Copies a sequence of nodes.
pub fn clone_nodes(nodes: &[Node]) -> (copy: Vec<Node>)
    ensures
        node_views(copy@) == node_views(nodes@),
{
    let mut copy: Vec<Node> = Vec::new();
    let mut i: usize = 0;
    while i < nodes.len()
        invariant
            i <= nodes@.len(),
            copy@.len() == i,
            forall|j: int| 0 <= j < i ==> copy@[j]@ == nodes@[j]@,
        decreases nodes@.len() - i,
    {
        copy.push(nodes[i].clone());
        i += 1;
    }
    assert(node_views(copy@) =~= node_views(nodes@));
    copy
}

/// Reading back the record of a node with a hash of 32 bytes gives the node.
pub proof fn lemma_record_round_trip(node: NodeView)
    requires
        node.hash.len() == 32,
    ensures
        node_record(node).len() == 40,
        node_of_record(node.index, node_record(node)) == node,
{
    lemma_auto_spec_u64_to_from_le_bytes();
    let record = node_record(node);
    assert(record.subrange(0, 32) == node.hash);
    assert(record.subrange(32, 40) == spec_u64_to_le_bytes(node.length));
}

/// Adding a node adds its length to the total.
pub proof fn lemma_total_length_push(nodes: Seq<NodeView>, node: NodeView)
    ensures
        total_length(nodes.push(node)) == total_length(nodes) + node.length,
{
    assert(nodes.push(node).drop_last() == nodes);
}

/// Adding a node adds its hash to the concatenation.
pub proof fn lemma_concat_hashes_push(nodes: Seq<NodeView>, node: NodeView)
    ensures
        concat_hashes(nodes.push(node)) == concat_hashes(nodes) + node.hash,
{
    assert(nodes.push(node).drop_last() == nodes);
}

} // verus!
