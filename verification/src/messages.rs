//! The messages by which blocks, hashes, seeks and upgrades are requested
//! and shipped, with their compact encoding.

use vstd::prelude::*;

use crate::common::CodecError;
use crate::encoding::{
    bytes_at, bytes_wire, encoded, fixed_at, holds, lemma_encoded_join, lemma_fixed_reads_back,
    lemma_holds_split, lemma_list_at_none, lemma_list_at_step, lemma_list_reads_back,
    lemma_list_wire_count, lemma_list_wire_prefix, lemma_list_wire_step, lemma_uint_reads_back,
    lemma_uint_wire_len, list_at, list_wire, preencoded, reads_back, uint_at, uint_width,
    uint_wire, window, HypercoreState,
};
use crate::node::{node_views, Node, NodeView};

verus! {

/// Request of a block, with the number of tree nodes the peer already has.
#[derive(Debug, Clone, Copy, PartialEq, Eq, Structural)]
pub struct RequestBlock {
    /// Index of the block.
    pub index: u64,
    /// Number of nodes that need not be sent.
    pub nodes: u64,
}

/// Request of the block that holds a byte offset.
#[derive(Debug, Clone, Copy, PartialEq, Eq, Structural)]
pub struct RequestSeek {
    /// The byte offset.
    pub bytes: u64,
}

/// Request of a proof that the log grew.
#[derive(Debug, Clone, Copy, PartialEq, Eq, Structural)]
pub struct RequestUpgrade {
    /// Length that the peer has.
    pub start: u64,
    /// Number of blocks it asks for.
    pub length: u64,
}

/// A block with the nodes that prove it.
#[derive(Debug)]
pub struct DataBlock {
    /// Index of the block.
    pub index: u64,
    /// The block.
    pub value: Vec<u8>,
    /// Siblings on the path from the block to a root.
    pub nodes: Vec<Node>,
}

/// The nodes that prove a hash.
#[derive(Debug)]
pub struct DataHash {
    /// Flat index of the hash.
    pub index: u64,
    /// Siblings on the path from the hash to a root.
    pub nodes: Vec<Node>,
}

/// The nodes that locate a byte offset.
#[derive(Debug)]
pub struct DataSeek {
    /// The byte offset.
    pub bytes: u64,
    /// Nodes on the path to the block that holds it.
    pub nodes: Vec<Node>,
}

/// Proof that the log grew.
#[derive(Debug)]
pub struct DataUpgrade {
    /// Length before the upgrade.
    pub start: u64,
    /// Number of blocks it adds.
    pub length: u64,
    /// Nodes that lead to the new roots.
    pub nodes: Vec<Node>,
    /// Further nodes for a peer that is behind.
    pub additional_nodes: Vec<Node>,
    /// Signature over the new roots.
    pub signature: Vec<u8>,
}

/// A hash of 32 bytes is what makes a node well formed.
pub open spec fn node_ok(node: NodeView) -> bool {
    node.hash.len() == 32
}

/// Whether every node of a sequence is well formed.
pub open spec fn nodes_ok(nodes: Seq<NodeView>) -> bool {
    forall|i: int| 0 <= i < nodes.len() ==> node_ok(#[trigger] nodes[i])
}

/// A node on the wire: index, length, hash.
pub open spec fn node_wire(node: NodeView) -> Seq<u8> {
    uint_wire(node.index) + uint_wire(node.length) + node.hash
}

/// How a node is written, as a function.
pub open spec fn node_wire_fn() -> spec_fn(NodeView) -> Seq<u8> {
    |node: NodeView| node_wire(node)
}

/// How a node is read, as a function.
pub open spec fn node_at_fn() -> spec_fn(Seq<u8>, int) -> Option<(NodeView, int)> {
    |window: Seq<u8>, start: int| node_at(window, start)
}

/// An array of nodes on the wire: their number, then the nodes.
pub open spec fn nodes_wire(nodes: Seq<NodeView>) -> Seq<u8> {
    uint_wire(nodes.len() as u64) + list_wire(nodes, node_wire_fn())
}

/// The node that starts at `start`, with the position after it.
pub open spec fn node_at(window: Seq<u8>, start: int) -> Option<(NodeView, int)> {
    match uint_at(window, start) {
        Some((index, a)) => match uint_at(window, a) {
            Some((length, b)) => match fixed_at(window, b, 32) {
                Some((hash, c)) => Some((NodeView { index, hash, length }, c)),
                None => None,
            },
            None => None,
        },
        None => None,
    }
}

/// The array of nodes that starts at `start`, with the position after it.
pub open spec fn nodes_at(window: Seq<u8>, start: int) -> Option<(Seq<NodeView>, int)> {
    match uint_at(window, start) {
        Some((count, next)) => list_at(window, next, count as nat, node_at_fn()),
        None => None,
    }
}

/// A block request on the wire.
pub open spec fn request_block_wire(value: RequestBlock) -> Seq<u8> {
    uint_wire(value.index) + uint_wire(value.nodes)
}

/// The block request that starts at `start`.
pub open spec fn request_block_at(window: Seq<u8>, start: int) -> Option<(RequestBlock, int)> {
    match uint_at(window, start) {
        Some((index, a)) => match uint_at(window, a) {
            Some((nodes, b)) => Some((RequestBlock { index, nodes }, b)),
            None => None,
        },
        None => None,
    }
}

/// A seek request on the wire.
pub open spec fn request_seek_wire(value: RequestSeek) -> Seq<u8> {
    uint_wire(value.bytes)
}

/// The seek request that starts at `start`.
pub open spec fn request_seek_at(window: Seq<u8>, start: int) -> Option<(RequestSeek, int)> {
    match uint_at(window, start) {
        Some((bytes, a)) => Some((RequestSeek { bytes }, a)),
        None => None,
    }
}

/// An upgrade request on the wire.
pub open spec fn request_upgrade_wire(value: RequestUpgrade) -> Seq<u8> {
    uint_wire(value.start) + uint_wire(value.length)
}

/// The upgrade request that starts at `start`.
pub open spec fn request_upgrade_at(window: Seq<u8>, start: int) -> Option<(RequestUpgrade, int)> {
    match uint_at(window, start) {
        Some((first, a)) => match uint_at(window, a) {
            Some((length, b)) => Some((RequestUpgrade { start: first, length }, b)),
            None => None,
        },
        None => None,
    }
}

/// A block with its proof as a mathematical value.
pub struct DataBlockView {
    /// Index of the block.
    pub index: u64,
    /// The block.
    pub value: Seq<u8>,
    /// Siblings on the path from the block to a root.
    pub nodes: Seq<NodeView>,
}

impl View for DataBlock {
    type V = DataBlockView;

    open spec fn view(&self) -> DataBlockView {
        DataBlockView { index: self.index, value: self.value@, nodes: node_views(self.nodes@) }
    }
}

/// The proof of a hash as a mathematical value.
pub struct DataHashView {
    /// Flat index of the hash.
    pub index: u64,
    /// Siblings on the path from the hash to a root.
    pub nodes: Seq<NodeView>,
}

impl View for DataHash {
    type V = DataHashView;

    open spec fn view(&self) -> DataHashView {
        DataHashView { index: self.index, nodes: node_views(self.nodes@) }
    }
}

/// The answer to a seek as a mathematical value.
pub struct DataSeekView {
    /// The byte offset.
    pub bytes: u64,
    /// Nodes on the path to the block that holds it.
    pub nodes: Seq<NodeView>,
}

impl View for DataSeek {
    type V = DataSeekView;

    open spec fn view(&self) -> DataSeekView {
        DataSeekView { bytes: self.bytes, nodes: node_views(self.nodes@) }
    }
}

/// The proof of an upgrade as a mathematical value.
pub struct DataUpgradeView {
    /// Length before the upgrade.
    pub start: u64,
    /// Number of blocks it adds.
    pub length: u64,
    /// Nodes that lead to the new roots.
    pub nodes: Seq<NodeView>,
    /// Further nodes for a peer that is behind.
    pub additional_nodes: Seq<NodeView>,
    /// Signature over the new roots.
    pub signature: Seq<u8>,
}

impl View for DataUpgrade {
    type V = DataUpgradeView;

    open spec fn view(&self) -> DataUpgradeView {
        DataUpgradeView {
            start: self.start,
            length: self.length,
            nodes: node_views(self.nodes@),
            additional_nodes: node_views(self.additional_nodes@),
            signature: self.signature@,
        }
    }
}

/// A block with its proof on the wire.
pub open spec fn data_block_wire(value: DataBlockView) -> Seq<u8> {
    uint_wire(value.index) + bytes_wire(value.value) + nodes_wire(value.nodes)
}

/// The block with its proof that starts at `start`.
pub open spec fn data_block_at(window: Seq<u8>, start: int) -> Option<(DataBlockView, int)> {
    match uint_at(window, start) {
        Some((index, a)) => match bytes_at(window, a) {
            Some((value, b)) => match nodes_at(window, b) {
                Some((nodes, c)) => Some((DataBlockView { index, value, nodes }, c)),
                None => None,
            },
            None => None,
        },
        None => None,
    }
}

/// The proof of a hash on the wire.
pub open spec fn data_hash_wire(value: DataHashView) -> Seq<u8> {
    uint_wire(value.index) + nodes_wire(value.nodes)
}

/// The proof of a hash that starts at `start`.
pub open spec fn data_hash_at(window: Seq<u8>, start: int) -> Option<(DataHashView, int)> {
    match uint_at(window, start) {
        Some((index, a)) => match nodes_at(window, a) {
            Some((nodes, b)) => Some((DataHashView { index, nodes }, b)),
            None => None,
        },
        None => None,
    }
}

/// The answer to a seek on the wire.
pub open spec fn data_seek_wire(value: DataSeekView) -> Seq<u8> {
    uint_wire(value.bytes) + nodes_wire(value.nodes)
}

/// The answer to a seek that starts at `start`.
pub open spec fn data_seek_at(window: Seq<u8>, start: int) -> Option<(DataSeekView, int)> {
    match uint_at(window, start) {
        Some((bytes, a)) => match nodes_at(window, a) {
            Some((nodes, b)) => Some((DataSeekView { bytes, nodes }, b)),
            None => None,
        },
        None => None,
    }
}

/// The proof of an upgrade on the wire.
pub open spec fn data_upgrade_wire(value: DataUpgradeView) -> Seq<u8> {
    uint_wire(value.start) + uint_wire(value.length) + nodes_wire(value.nodes) + nodes_wire(
        value.additional_nodes,
    ) + bytes_wire(value.signature)
}

/// The proof of an upgrade that starts at `start`.
pub open spec fn data_upgrade_at(window: Seq<u8>, start: int) -> Option<(DataUpgradeView, int)> {
    match uint_at(window, start) {
        Some((first, a)) => match uint_at(window, a) {
            Some((length, b)) => match nodes_at(window, b) {
                Some((nodes, c)) => match nodes_at(window, c) {
                    Some((additional_nodes, d)) => match bytes_at(window, d) {
                        Some((signature, e)) => Some(
                            (
                                DataUpgradeView {
                                    start: first,
                                    length,
                                    nodes,
                                    additional_nodes,
                                    signature,
                                },
                                e,
                            ),
                        ),
                        None => None,
                    },
                    None => None,
                },
                None => None,
            },
            None => None,
        },
        None => None,
    }
}

impl HypercoreState {
    /// Reserves room for a node.
    pub fn preencode_node(&mut self, value: &Node) -> (result: Result<usize, CodecError>)
        requires
            node_ok(value@),
        ensures
            preencoded(*old(self), *final(self), node_wire(value@).len(), result),
    {
        proof {
            lemma_uint_wire_len(value.index);
            lemma_uint_wire_len(value.length);
        }
        self.preencode_uint(value.index)?;
        self.preencode_uint(value.length)?;
        self.preencode_fixed_32()
    }

    /// Writes a node.
    pub fn encode_node(&mut self, value: &Node, buffer: &mut Vec<u8>) -> (result: Result<
        usize,
        CodecError,
    >)
        requires
            node_ok(value@),
        ensures
            encoded(*old(self), *final(self), old(buffer)@, final(buffer)@, node_wire(value@), result),
    {
        let ghost pre = *self;
        let ghost before = buffer@;
        self.encode_uint(value.index, buffer)?;
        let ghost first = *self;
        let ghost b1 = buffer@;
        self.encode_uint(value.length, buffer)?;
        let ghost second = *self;
        let ghost b2 = buffer@;
        let result = self.encode_fixed_32(value.hash.as_slice(), buffer);
        proof {
            lemma_encoded_join(
                pre,
                first,
                second,
                before,
                b1,
                b2,
                uint_wire(value.index),
                uint_wire(value.length),
                Ok(second.start),
            );
            lemma_encoded_join(
                pre,
                second,
                *self,
                before,
                b2,
                buffer@,
                uint_wire(value.index) + uint_wire(value.length),
                value.hash@,
                result,
            );
        }
        result
    }

    /// Reads a node.
    pub fn decode_node(&mut self, buffer: &[u8]) -> (result: Result<Node, CodecError>)
        ensures
            result is Ok <==> node_at(window(buffer@, old(self).end), old(self).start as int) is Some,
            result matches Ok(value) ==> final(self).end == old(self).end && node_at(
                window(buffer@, old(self).end),
                old(self).start as int,
            ) == Some((value@, final(self).start as int)),
    {
        let index = self.decode_uint(buffer)?;
        let length = self.decode_uint(buffer)?;
        let hash = self.decode_fixed_32(buffer)?;
        Ok(Node::new(index, hash, length))
    }

    /// Reserves room for an array of nodes.
    pub fn preencode_nodes(&mut self, value: &Vec<Node>) -> (result: Result<usize, CodecError>)
        requires
            nodes_ok(node_views(value@)),
        ensures
            preencoded(*old(self), *final(self), nodes_wire(node_views(value@)).len(), result),
    {
        let ghost pre = *self;
        let ghost views = node_views(value@);
        proof {
            lemma_uint_wire_len(value.len() as u64);
            lemma_list_wire_prefix(views, node_wire_fn(), 0);
        }
        self.preencode_uint(value.len() as u64)?;
        let mut i: usize = 0;
        proof {
            assert(views.take(0) == Seq::<NodeView>::empty());
        }
        while i < value.len()
            invariant
                i <= value@.len(),
                views == node_views(value@),
                nodes_ok(views),
                pre == *old(self),
                preencoded(
                    pre,
                    *self,
                    uint_width(value@.len() as u64) + list_wire(views.take(i as int), node_wire_fn()).len(),
                    Ok(self.end),
                ),
            decreases value@.len() - i,
        {
            proof {
                lemma_uint_wire_len(value@.len() as u64);
                lemma_list_wire_step(views, node_wire_fn(), i as int);
                lemma_list_wire_prefix(views, node_wire_fn(), i + 1);
                assert(views[i as int] == value@[i as int]@);
                assert(nodes_wire(views).len() == uint_width(value@.len() as u64) + list_wire(views, node_wire_fn()).len());
            }
            self.preencode_node(&value[i])?;
            i += 1;
        }
        proof {
            lemma_uint_wire_len(value@.len() as u64);
            assert(views.take(i as int) == views);
        }
        Ok(self.end())
    }

    /// Writes an array of nodes.
    pub fn encode_nodes(&mut self, value: &Vec<Node>, buffer: &mut Vec<u8>) -> (result: Result<
        usize,
        CodecError,
    >)
        requires
            nodes_ok(node_views(value@)),
        ensures
            encoded(
                *old(self),
                *final(self),
                old(buffer)@,
                final(buffer)@,
                nodes_wire(node_views(value@)),
                result,
            ),
    {
        let ghost pre = *self;
        let ghost before = buffer@;
        let ghost views = node_views(value@);
        proof {
            lemma_list_wire_prefix(views, node_wire_fn(), 0);
        }
        self.encode_uint(value.len() as u64, buffer)?;
        let mut i: usize = 0;
        proof {
            assert(views.take(0) == Seq::<NodeView>::empty());
            assert(uint_wire(value@.len() as u64) + Seq::<u8>::empty() == uint_wire(
                value@.len() as u64,
            ));
        }
        while i < value.len()
            invariant
                i <= value@.len(),
                views == node_views(value@),
                nodes_ok(views),
                pre == *old(self),
                before == old(buffer)@,
                encoded(
                    pre,
                    *self,
                    before,
                    buffer@,
                    uint_wire(value@.len() as u64) + list_wire(views.take(i as int), node_wire_fn()),
                    Ok(self.start),
                ),
            decreases value@.len() - i,
        {
            let ghost mid = *self;
            let ghost between = buffer@;
            proof {
                lemma_list_wire_step(views, node_wire_fn(), i as int);
                lemma_list_wire_prefix(views, node_wire_fn(), i + 1);
                assert(views[i as int] == value@[i as int]@);
            }
            let step = self.encode_node(&value[i], buffer);
            proof {
                lemma_encoded_join(
                    pre,
                    mid,
                    *self,
                    before,
                    between,
                    buffer@,
                    uint_wire(value@.len() as u64) + list_wire(views.take(i as int), node_wire_fn()),
                    node_wire(views[i as int]),
                    step,
                );
                assert(uint_wire(value@.len() as u64) + list_wire(views.take(i as int), node_wire_fn())
                    + node_wire(views[i as int]) == uint_wire(value@.len() as u64) + list_wire(views.take(i + 1), node_wire_fn()));
                assert((uint_wire(value@.len() as u64) + list_wire(views.take(i + 1), node_wire_fn())).len()
                    <= nodes_wire(views).len());
            }
            match step {
                Ok(_) => {},
                Err(error) => {
                    return Err(error);
                },
            }
            i += 1;
        }
        proof {
            assert(views.take(i as int) == views);
        }
        Ok(self.start())
    }

    /// Reads an array of nodes.
    pub fn decode_nodes(&mut self, buffer: &[u8]) -> (result: Result<Vec<Node>, CodecError>)
        ensures
            result is Ok <==> nodes_at(window(buffer@, old(self).end), old(self).start as int) is Some,
            result matches Ok(value) ==> final(self).end == old(self).end && nodes_at(
                window(buffer@, old(self).end),
                old(self).start as int,
            ) == Some((node_views(value@), final(self).start as int)),
    {
        let ghost range = window(buffer@, self.end);
        let count = self.decode_uint(buffer)?;
        let ghost first = self.start as int;
        let mut value: Vec<Node> = Vec::new();
        let mut i: u64 = 0;
        proof {
            assert(node_views(value@) == Seq::<NodeView>::empty());
        }
        while i < count
            invariant
                i <= count,
                self.end == old(self).end,
                range == window(buffer@, self.end),
                uint_at(range, old(self).start as int) == Some((count, first)),
                list_at(range, first, i as nat, node_at_fn()) == Some((node_views(value@), self.start as int)),
            decreases count - i,
        {
            proof {
                lemma_list_at_step(
                    range,
                    first,
                    i as nat,
                    node_at_fn(),
                    node_views(value@),
                    self.start as int,
                );
            }
            let ghost done = node_views(value@);
            match self.decode_node(buffer) {
                Ok(node) => {
                    value.push(node);
                    proof {
                        assert(node_views(value@) == done.push(node@));
                    }
                },
                Err(error) => {
                    proof {
                        lemma_list_at_none(range, first, i as nat, count as nat, node_at_fn());
                    }
                    return Err(error);
                },
            }
            i += 1;
        }
        Ok(value)
    }
}

impl HypercoreState {
    /// Reserves room for a block request.
    pub fn preencode_request_block(&mut self, value: &RequestBlock) -> (result: Result<usize, CodecError>)
        ensures
            preencoded(*old(self), *final(self), request_block_wire(*value).len(), result),
    {
        proof {
            lemma_uint_wire_len(value.index);
            lemma_uint_wire_len(value.nodes);
        }
        self.preencode_uint(value.index)?;
        self.preencode_uint(value.nodes)
    }

    /// Writes a block request.
    pub fn encode_request_block(&mut self, value: &RequestBlock, buffer: &mut Vec<u8>) -> (result: Result<
        usize,
        CodecError,
    >)
        ensures
            encoded(
                *old(self),
                *final(self),
                old(buffer)@,
                final(buffer)@,
                request_block_wire(*value),
                result,
            ),
    {
        let ghost pre = *self;
        let ghost before = buffer@;
        self.encode_uint(value.index, buffer)?;
        let ghost s0 = *self;
        let ghost b0 = buffer@;
        let result = self.encode_uint(value.nodes, buffer);
        proof {
            lemma_encoded_join(
                pre,
                s0,
                *self,
                before,
                b0,
                buffer@,
                uint_wire(value.index),
                uint_wire(value.nodes),
                result,
            );
        }
        result
    }

    /// Reads a block request.
    pub fn decode_request_block(&mut self, buffer: &[u8]) -> (result: Result<RequestBlock, CodecError>)
        ensures
            result is Ok <==> request_block_at(window(buffer@, old(self).end), old(self).start as int) is Some,
            result matches Ok(value) ==> final(self).end == old(self).end && request_block_at(
                window(buffer@, old(self).end),
                old(self).start as int,
            ) == Some((value, final(self).start as int)),
    {
        let index = self.decode_uint(buffer)?;
        let nodes = self.decode_uint(buffer)?;
        Ok(RequestBlock { index, nodes })
    }

    /// Reserves room for a seek request.
    pub fn preencode_request_seek(&mut self, value: &RequestSeek) -> (result: Result<usize, CodecError>)
        ensures
            preencoded(*old(self), *final(self), request_seek_wire(*value).len(), result),
    {
        proof {
            lemma_uint_wire_len(value.bytes);
        }
        self.preencode_uint(value.bytes)
    }

    /// Writes a seek request.
    pub fn encode_request_seek(&mut self, value: &RequestSeek, buffer: &mut Vec<u8>) -> (result: Result<
        usize,
        CodecError,
    >)
        ensures
            encoded(
                *old(self),
                *final(self),
                old(buffer)@,
                final(buffer)@,
                request_seek_wire(*value),
                result,
            ),
    {
        self.encode_uint(value.bytes, buffer)
    }

    /// Reads a seek request.
    pub fn decode_request_seek(&mut self, buffer: &[u8]) -> (result: Result<RequestSeek, CodecError>)
        ensures
            result is Ok <==> request_seek_at(window(buffer@, old(self).end), old(self).start as int) is Some,
            result matches Ok(value) ==> final(self).end == old(self).end && request_seek_at(
                window(buffer@, old(self).end),
                old(self).start as int,
            ) == Some((value, final(self).start as int)),
    {
        let bytes = self.decode_uint(buffer)?;
        Ok(RequestSeek { bytes })
    }

    /// Reserves room for an upgrade request.
    pub fn preencode_request_upgrade(&mut self, value: &RequestUpgrade) -> (result: Result<usize, CodecError>)
        ensures
            preencoded(*old(self), *final(self), request_upgrade_wire(*value).len(), result),
    {
        proof {
            lemma_uint_wire_len(value.start);
            lemma_uint_wire_len(value.length);
        }
        self.preencode_uint(value.start)?;
        self.preencode_uint(value.length)
    }

    /// Writes an upgrade request.
    pub fn encode_request_upgrade(&mut self, value: &RequestUpgrade, buffer: &mut Vec<u8>) -> (result: Result<
        usize,
        CodecError,
    >)
        ensures
            encoded(
                *old(self),
                *final(self),
                old(buffer)@,
                final(buffer)@,
                request_upgrade_wire(*value),
                result,
            ),
    {
        let ghost pre = *self;
        let ghost before = buffer@;
        self.encode_uint(value.start, buffer)?;
        let ghost s0 = *self;
        let ghost b0 = buffer@;
        let result = self.encode_uint(value.length, buffer);
        proof {
            lemma_encoded_join(
                pre,
                s0,
                *self,
                before,
                b0,
                buffer@,
                uint_wire(value.start),
                uint_wire(value.length),
                result,
            );
        }
        result
    }

    /// Reads an upgrade request.
    pub fn decode_request_upgrade(&mut self, buffer: &[u8]) -> (result: Result<RequestUpgrade, CodecError>)
        ensures
            result is Ok <==> request_upgrade_at(window(buffer@, old(self).end), old(self).start as int) is Some,
            result matches Ok(value) ==> final(self).end == old(self).end && request_upgrade_at(
                window(buffer@, old(self).end),
                old(self).start as int,
            ) == Some((value, final(self).start as int)),
    {
        let start = self.decode_uint(buffer)?;
        let length = self.decode_uint(buffer)?;
        Ok(RequestUpgrade { start, length })
    }

    /// Reserves room for a block with its proof.
    pub fn preencode_data_block(&mut self, value: &DataBlock) -> (result: Result<usize, CodecError>)
        requires
            nodes_ok(node_views(value.nodes@)),
        ensures
            preencoded(*old(self), *final(self), data_block_wire(value@).len(), result),
    {
        proof {
            lemma_uint_wire_len(value.index);
        }
        self.preencode_uint(value.index)?;
        self.preencode_bytes(value.value.as_slice())?;
        self.preencode_nodes(&value.nodes)
    }

    /// Writes a block with its proof.
    pub fn encode_data_block(&mut self, value: &DataBlock, buffer: &mut Vec<u8>) -> (result: Result<
        usize,
        CodecError,
    >)
        requires
            nodes_ok(node_views(value.nodes@)),
        ensures
            encoded(
                *old(self),
                *final(self),
                old(buffer)@,
                final(buffer)@,
                data_block_wire(value@),
                result,
            ),
    {
        let ghost pre = *self;
        let ghost before = buffer@;
        self.encode_uint(value.index, buffer)?;
        let ghost s0 = *self;
        let ghost b0 = buffer@;
        self.encode_bytes(value.value.as_slice(), buffer)?;
        let ghost s1 = *self;
        let ghost b1 = buffer@;
        proof {
            lemma_encoded_join(
                pre,
                s0,
                s1,
                before,
                b0,
                b1,
                uint_wire(value.index),
                bytes_wire(value.value@),
                Ok(s1.start),
            );
        }
        let result = self.encode_nodes(&value.nodes, buffer);
        proof {
            lemma_encoded_join(
                pre,
                s1,
                *self,
                before,
                b1,
                buffer@,
                uint_wire(value.index) + bytes_wire(value.value@),
                nodes_wire(node_views(value.nodes@)),
                result,
            );
        }
        result
    }

    /// Reads a block with its proof.
    pub fn decode_data_block(&mut self, buffer: &[u8]) -> (result: Result<DataBlock, CodecError>)
        ensures
            result is Ok <==> data_block_at(window(buffer@, old(self).end), old(self).start as int) is Some,
            result matches Ok(value) ==> final(self).end == old(self).end && data_block_at(
                window(buffer@, old(self).end),
                old(self).start as int,
            ) == Some((value@, final(self).start as int)),
    {
        let index = self.decode_uint(buffer)?;
        let value = self.decode_bytes(buffer)?;
        let nodes = self.decode_nodes(buffer)?;
        Ok(DataBlock { index, value, nodes })
    }

    /// Reserves room for the proof of a hash.
    pub fn preencode_data_hash(&mut self, value: &DataHash) -> (result: Result<usize, CodecError>)
        requires
            nodes_ok(node_views(value.nodes@)),
        ensures
            preencoded(*old(self), *final(self), data_hash_wire(value@).len(), result),
    {
        proof {
            lemma_uint_wire_len(value.index);
        }
        self.preencode_uint(value.index)?;
        self.preencode_nodes(&value.nodes)
    }

    /// Writes the proof of a hash.
    pub fn encode_data_hash(&mut self, value: &DataHash, buffer: &mut Vec<u8>) -> (result: Result<
        usize,
        CodecError,
    >)
        requires
            nodes_ok(node_views(value.nodes@)),
        ensures
            encoded(
                *old(self),
                *final(self),
                old(buffer)@,
                final(buffer)@,
                data_hash_wire(value@),
                result,
            ),
    {
        let ghost pre = *self;
        let ghost before = buffer@;
        self.encode_uint(value.index, buffer)?;
        let ghost s0 = *self;
        let ghost b0 = buffer@;
        let result = self.encode_nodes(&value.nodes, buffer);
        proof {
            lemma_encoded_join(
                pre,
                s0,
                *self,
                before,
                b0,
                buffer@,
                uint_wire(value.index),
                nodes_wire(node_views(value.nodes@)),
                result,
            );
        }
        result
    }

    /// Reads the proof of a hash.
    pub fn decode_data_hash(&mut self, buffer: &[u8]) -> (result: Result<DataHash, CodecError>)
        ensures
            result is Ok <==> data_hash_at(window(buffer@, old(self).end), old(self).start as int) is Some,
            result matches Ok(value) ==> final(self).end == old(self).end && data_hash_at(
                window(buffer@, old(self).end),
                old(self).start as int,
            ) == Some((value@, final(self).start as int)),
    {
        let index = self.decode_uint(buffer)?;
        let nodes = self.decode_nodes(buffer)?;
        Ok(DataHash { index, nodes })
    }

    /// Reserves room for the answer to a seek.
    pub fn preencode_data_seek(&mut self, value: &DataSeek) -> (result: Result<usize, CodecError>)
        requires
            nodes_ok(node_views(value.nodes@)),
        ensures
            preencoded(*old(self), *final(self), data_seek_wire(value@).len(), result),
    {
        proof {
            lemma_uint_wire_len(value.bytes);
        }
        self.preencode_uint(value.bytes)?;
        self.preencode_nodes(&value.nodes)
    }

    /// Writes the answer to a seek.
    pub fn encode_data_seek(&mut self, value: &DataSeek, buffer: &mut Vec<u8>) -> (result: Result<
        usize,
        CodecError,
    >)
        requires
            nodes_ok(node_views(value.nodes@)),
        ensures
            encoded(
                *old(self),
                *final(self),
                old(buffer)@,
                final(buffer)@,
                data_seek_wire(value@),
                result,
            ),
    {
        let ghost pre = *self;
        let ghost before = buffer@;
        self.encode_uint(value.bytes, buffer)?;
        let ghost s0 = *self;
        let ghost b0 = buffer@;
        let result = self.encode_nodes(&value.nodes, buffer);
        proof {
            lemma_encoded_join(
                pre,
                s0,
                *self,
                before,
                b0,
                buffer@,
                uint_wire(value.bytes),
                nodes_wire(node_views(value.nodes@)),
                result,
            );
        }
        result
    }

    /// Reads the answer to a seek.
    pub fn decode_data_seek(&mut self, buffer: &[u8]) -> (result: Result<DataSeek, CodecError>)
        ensures
            result is Ok <==> data_seek_at(window(buffer@, old(self).end), old(self).start as int) is Some,
            result matches Ok(value) ==> final(self).end == old(self).end && data_seek_at(
                window(buffer@, old(self).end),
                old(self).start as int,
            ) == Some((value@, final(self).start as int)),
    {
        let bytes = self.decode_uint(buffer)?;
        let nodes = self.decode_nodes(buffer)?;
        Ok(DataSeek { bytes, nodes })
    }

    /// Reserves room for the proof of an upgrade.
    pub fn preencode_data_upgrade(&mut self, value: &DataUpgrade) -> (result: Result<usize, CodecError>)
        requires
            nodes_ok(node_views(value.nodes@)),
            nodes_ok(node_views(value.additional_nodes@)),
        ensures
            preencoded(*old(self), *final(self), data_upgrade_wire(value@).len(), result),
    {
        proof {
            lemma_uint_wire_len(value.start);
            lemma_uint_wire_len(value.length);
        }
        self.preencode_uint(value.start)?;
        self.preencode_uint(value.length)?;
        self.preencode_nodes(&value.nodes)?;
        self.preencode_nodes(&value.additional_nodes)?;
        self.preencode_bytes(value.signature.as_slice())
    }

    /// Writes the proof of an upgrade.
    pub fn encode_data_upgrade(&mut self, value: &DataUpgrade, buffer: &mut Vec<u8>) -> (result: Result<
        usize,
        CodecError,
    >)
        requires
            nodes_ok(node_views(value.nodes@)),
            nodes_ok(node_views(value.additional_nodes@)),
        ensures
            encoded(
                *old(self),
                *final(self),
                old(buffer)@,
                final(buffer)@,
                data_upgrade_wire(value@),
                result,
            ),
    {
        let ghost pre = *self;
        let ghost before = buffer@;
        self.encode_uint(value.start, buffer)?;
        let ghost s0 = *self;
        let ghost b0 = buffer@;
        self.encode_uint(value.length, buffer)?;
        let ghost s1 = *self;
        let ghost b1 = buffer@;
        proof {
            lemma_encoded_join(
                pre,
                s0,
                s1,
                before,
                b0,
                b1,
                uint_wire(value.start),
                uint_wire(value.length),
                Ok(s1.start),
            );
        }
        self.encode_nodes(&value.nodes, buffer)?;
        let ghost s2 = *self;
        let ghost b2 = buffer@;
        proof {
            lemma_encoded_join(
                pre,
                s1,
                s2,
                before,
                b1,
                b2,
                uint_wire(value.start) + uint_wire(value.length),
                nodes_wire(node_views(value.nodes@)),
                Ok(s2.start),
            );
        }
        self.encode_nodes(&value.additional_nodes, buffer)?;
        let ghost s3 = *self;
        let ghost b3 = buffer@;
        proof {
            lemma_encoded_join(
                pre,
                s2,
                s3,
                before,
                b2,
                b3,
                uint_wire(value.start) + uint_wire(value.length) + nodes_wire(node_views(value.nodes@)),
                nodes_wire(node_views(value.additional_nodes@)),
                Ok(s3.start),
            );
        }
        let result = self.encode_bytes(value.signature.as_slice(), buffer);
        proof {
            lemma_encoded_join(
                pre,
                s3,
                *self,
                before,
                b3,
                buffer@,
                uint_wire(value.start) + uint_wire(value.length) + nodes_wire(node_views(value.nodes@)) + nodes_wire(node_views(value.additional_nodes@)),
                bytes_wire(value.signature@),
                result,
            );
        }
        result
    }

    /// Reads the proof of an upgrade.
    pub fn decode_data_upgrade(&mut self, buffer: &[u8]) -> (result: Result<DataUpgrade, CodecError>)
        ensures
            result is Ok <==> data_upgrade_at(window(buffer@, old(self).end), old(self).start as int) is Some,
            result matches Ok(value) ==> final(self).end == old(self).end && data_upgrade_at(
                window(buffer@, old(self).end),
                old(self).start as int,
            ) == Some((value@, final(self).start as int)),
    {
        let start = self.decode_uint(buffer)?;
        let length = self.decode_uint(buffer)?;
        let nodes = self.decode_nodes(buffer)?;
        let additional_nodes = self.decode_nodes(buffer)?;
        let signature = self.decode_bytes(buffer)?;
        Ok(DataUpgrade { start, length, nodes, additional_nodes, signature })
    }
}

/// Nodes that were read carry hashes of 32 bytes.
pub proof fn lemma_node_list_at_ok(window: Seq<u8>, start: int, count: nat)
    ensures
        list_at(window, start, count, node_at_fn()) matches Some(found) ==> nodes_ok(found.0),
    decreases count,
{
    if count > 0 {
        match node_at(window, start) {
            Some((node, next)) => {
                lemma_node_list_at_ok(window, next, (count - 1) as nat);
            },
            None => {},
        }
    }
}

/// An array of nodes that was read carries hashes of 32 bytes.
pub proof fn lemma_nodes_at_ok(window: Seq<u8>, start: int)
    ensures
        nodes_at(window, start) matches Some(found) ==> nodes_ok(found.0),
{
    match uint_at(window, start) {
        Some((count, next)) => {
            lemma_node_list_at_ok(window, next, count as nat);
        },
        None => {},
    }
}

/// Reading back a node that a window holds gives the node.
pub proof fn lemma_node_reads_back(window: Seq<u8>, start: int, node: NodeView)
    requires
        holds(window, start, node_wire(node)),
        node_ok(node),
    ensures
        node_at(window, start) == Some((node, start + node_wire(node).len())),
{
    let first = uint_wire(node.index);
    let second = uint_wire(node.length);
    lemma_holds_split(window, start, first + second, node.hash);
    lemma_holds_split(window, start, first, second);
    lemma_uint_reads_back(window, start, node.index);
    lemma_uint_reads_back(window, start + first.len(), node.length);
    lemma_fixed_reads_back(window, start + first.len() + second.len(), node.hash);
}

/// Reading back an array of nodes that a window holds gives the nodes.
pub proof fn lemma_nodes_reads_back(window: Seq<u8>, start: int, nodes: Seq<NodeView>)
    requires
        holds(window, start, nodes_wire(nodes)),
        nodes_ok(nodes),
        nodes_wire(nodes).len() <= u64::MAX,
    ensures
        nodes_at(window, start) == Some((nodes, start + nodes_wire(nodes).len())),
{
    let count = nodes.len() as u64;
    assert forall|i: int| 0 <= i < nodes.len() implies node_wire_fn()(#[trigger] nodes[i]).len()
        >= 1 by {
        assert(node_ok(nodes[i]));
    }
    lemma_list_wire_count(nodes, node_wire_fn());
    lemma_holds_split(window, start, uint_wire(count), list_wire(nodes, node_wire_fn()));
    lemma_uint_reads_back(window, start, count);
    assert forall|i: int| 0 <= i < nodes.len() implies reads_back(
        window,
        node_wire_fn(),
        node_at_fn(),
        #[trigger] nodes[i],
    ) by {
        let node = nodes[i];
        assert(node_ok(node));
        assert forall|place: int| #[trigger]
            holds(window, place, node_wire_fn()(node)) implies node_at_fn()(window, place) == Some(
            (node, place + node_wire_fn()(node).len()),
        ) by {
            lemma_node_reads_back(window, place, node);
        }
    }
    lemma_list_reads_back(
        window,
        start + uint_wire(count).len(),
        nodes,
        node_wire_fn(),
        node_at_fn(),
    );
}

} // verus!
