//! Entries of the operation log: what one commit adds to the tree and to
//! the bitfield.

use vstd::prelude::*;

use crate::common::{invalid_data, overflow, CodecError};
use crate::encoding::{
    bytes_at, bytes_wire, encoded, holds, lemma_bytes_reads_back, lemma_encoded_join,
    lemma_holds_split, lemma_uint_reads_back, lemma_uint_wire_len, preencoded, splice, uint_at,
    uint_wire, window, HypercoreState,
};
use crate::messages::{lemma_nodes_reads_back, nodes_at, nodes_ok, nodes_wire};
use crate::node::{node_views, Node, NodeView};

verus! {

/// Bit of an entry's kind that says it holds a tree upgrade.
pub const TREE_UPGRADE_BIT: u8 = 1;

/// Bit of an entry's kind that says it holds a bitfield update.
pub const BITFIELD_UPDATE_BIT: u8 = 2;

/// What a commit adds to the tree.
#[derive(Debug)]
pub struct EntryTreeUpgrade {
    /// Fork of the log.
    pub fork: u64,
    /// Number of blocks before the commit.
    pub ancestors: u64,
    /// Number of blocks with the commit.
    pub length: u64,
    /// Signature over the roots with the commit.
    pub signature: Vec<u8>,
    /// Nodes that the commit brings into the tree.
    pub nodes: Vec<Node>,
}

/// What a commit changes in the bitfield.
#[derive(Debug, Clone, Copy, PartialEq, Eq, Structural)]
pub struct EntryBitfieldUpdate {
    /// Whether the blocks are dropped rather than added.
    pub drop: bool,
    /// First block of the range.
    pub start: u64,
    /// Number of blocks in the range.
    pub length: u64,
}

/// An entry of the operation log.
#[derive(Debug)]
pub struct Entry {
    /// What the commit adds to the tree, if anything.
    pub tree_upgrade: Option<EntryTreeUpgrade>,
    /// What the commit changes in the bitfield, if anything.
    pub bitfield_update: Option<EntryBitfieldUpdate>,
}

/// A tree upgrade as a mathematical value.
pub struct EntryTreeUpgradeView {
    /// Fork of the log.
    pub fork: u64,
    /// Number of blocks before the commit.
    pub ancestors: u64,
    /// Number of blocks with the commit.
    pub length: u64,
    /// Signature over the roots with the commit.
    pub signature: Seq<u8>,
    /// Nodes that the commit brings into the tree.
    pub nodes: Seq<NodeView>,
}

/// An entry as a mathematical value.
pub struct EntryView {
    /// What the commit adds to the tree, if anything.
    pub tree_upgrade: Option<EntryTreeUpgradeView>,
    /// What the commit changes in the bitfield, if anything.
    pub bitfield_update: Option<EntryBitfieldUpdate>,
}

impl View for EntryTreeUpgrade {
    type V = EntryTreeUpgradeView;

    open spec fn view(&self) -> EntryTreeUpgradeView {
        EntryTreeUpgradeView {
            fork: self.fork,
            ancestors: self.ancestors,
            length: self.length,
            signature: self.signature@,
            nodes: node_views(self.nodes@),
        }
    }
}

impl View for Entry {
    type V = EntryView;

    open spec fn view(&self) -> EntryView {
        EntryView {
            tree_upgrade: match self.tree_upgrade {
                Some(upgrade) => Some(upgrade@),
                None => None,
            },
            bitfield_update: self.bitfield_update,
        }
    }
}

/// The entries of a sequence as mathematical values.
pub open spec fn entry_views(entries: Seq<Entry>) -> Seq<EntryView> {
    entries.map_values(|entry: Entry| entry@)
}

/// Whether the nodes of an entry carry hashes of 32 bytes.
pub open spec fn entry_ok(entry: EntryView) -> bool {
    entry.tree_upgrade matches Some(upgrade) ==> nodes_ok(upgrade.nodes)
}

/// The two bits that say what an entry holds.
pub open spec fn entry_bits(entry: EntryView) -> u8 {
    ((if entry.tree_upgrade is Some {
        1int
    } else {
        0int
    }) + (if entry.bitfield_update is Some {
        2int
    } else {
        0int
    })) as u8
}

/// A tree upgrade on the wire.
pub open spec fn tree_upgrade_wire(upgrade: EntryTreeUpgradeView) -> Seq<u8> {
    uint_wire(upgrade.fork) + uint_wire(upgrade.ancestors) + uint_wire(upgrade.length) + bytes_wire(
        upgrade.signature,
    ) + nodes_wire(upgrade.nodes)
}

/// The number that stands for the drop flag.
pub open spec fn drop_flag(drop: bool) -> u64 {
    if drop {
        1
    } else {
        0
    }
}

/// A bitfield update on the wire.
pub open spec fn bitfield_update_wire(update: EntryBitfieldUpdate) -> Seq<u8> {
    uint_wire(drop_flag(update.drop)) + uint_wire(update.start) + uint_wire(update.length)
}

/// The payload of an entry: the tree upgrade, then the bitfield update, as
/// far as it holds them.
pub open spec fn entry_wire(entry: EntryView) -> Seq<u8> {
    (match entry.tree_upgrade {
        Some(upgrade) => tree_upgrade_wire(upgrade),
        None => Seq::empty(),
    }) + (match entry.bitfield_update {
        Some(update) => bitfield_update_wire(update),
        None => Seq::empty(),
    })
}

/// The tree upgrade that starts at `start`.
pub open spec fn tree_upgrade_at(window: Seq<u8>, start: int) -> Option<(EntryTreeUpgradeView, int)> {
    match uint_at(window, start) {
        Some((fork, a)) => match uint_at(window, a) {
            Some((ancestors, b)) => match uint_at(window, b) {
                Some((length, c)) => match bytes_at(window, c) {
                    Some((signature, d)) => match nodes_at(window, d) {
                        Some((nodes, e)) => Some(
                            (EntryTreeUpgradeView { fork, ancestors, length, signature, nodes }, e),
                        ),
                        None => None,
                    },
                    None => None,
                },
                None => None,
            },
            None => None,
        },
        None => None,
    }
}

/// The bitfield update that starts at `start`; the drop flag must be 0 or 1.
pub open spec fn bitfield_update_at(window: Seq<u8>, start: int) -> Option<
    (EntryBitfieldUpdate, int),
> {
    match uint_at(window, start) {
        Some((flag, a)) => if flag > 1 {
            None
        } else {
            match uint_at(window, a) {
                Some((first, b)) => match uint_at(window, b) {
                    Some((length, c)) => Some(
                        (EntryBitfieldUpdate { drop: flag == 1, start: first, length }, c),
                    ),
                    None => None,
                },
                None => None,
            }
        },
        None => None,
    }
}

/// The entry of the kind that `bits` says, which starts at `start`.
pub open spec fn entry_at(window: Seq<u8>, start: int, bits: u8) -> Option<(EntryView, int)> {
    if bits % 2 == 1 {
        match tree_upgrade_at(window, start) {
            Some((upgrade, a)) => if bits / 2 % 2 == 1 {
                match bitfield_update_at(window, a) {
                    Some((update, b)) => Some(
                        (
                            EntryView { tree_upgrade: Some(upgrade), bitfield_update: Some(update) },
                            b,
                        ),
                    ),
                    None => None,
                }
            } else {
                Some((EntryView { tree_upgrade: Some(upgrade), bitfield_update: None }, a))
            },
            None => None,
        }
    } else if bits / 2 % 2 == 1 {
        match bitfield_update_at(window, start) {
            Some((update, b)) => Some(
                (EntryView { tree_upgrade: None, bitfield_update: Some(update) }, b),
            ),
            None => None,
        }
    } else {
        Some((EntryView { tree_upgrade: None, bitfield_update: None }, start))
    }
}

impl Entry {
    /// The two bits that say what the entry holds.
    pub fn bits(&self) -> (bits: u8)
        ensures
            bits == entry_bits(self@),
            bits < 4,
    {
        let tree: u8 = if self.tree_upgrade.is_some() {
            TREE_UPGRADE_BIT
        } else {
            0
        };
        let bitfield: u8 = if self.bitfield_update.is_some() {
            BITFIELD_UPDATE_BIT
        } else {
            0
        };
        tree + bitfield
    }
}

impl HypercoreState {
    /// Reserves room for a tree upgrade.
    pub fn preencode_tree_upgrade(&mut self, value: &EntryTreeUpgrade) -> (result: Result<
        usize,
        CodecError,
    >)
        requires
            nodes_ok(node_views(value.nodes@)),
        ensures
            preencoded(*old(self), *final(self), tree_upgrade_wire(value@).len(), result),
    {
        proof {
            lemma_uint_wire_len(value.fork);
            lemma_uint_wire_len(value.ancestors);
            lemma_uint_wire_len(value.length);
        }
        self.preencode_uint(value.fork)?;
        self.preencode_uint(value.ancestors)?;
        self.preencode_uint(value.length)?;
        self.preencode_bytes(value.signature.as_slice())?;
        self.preencode_nodes(&value.nodes)
    }

    /// Writes a tree upgrade.
    pub fn encode_tree_upgrade(&mut self, value: &EntryTreeUpgrade, buffer: &mut Vec<u8>) -> (result:
        Result<usize, CodecError>)
        requires
            nodes_ok(node_views(value.nodes@)),
        ensures
            encoded(
                *old(self),
                *final(self),
                old(buffer)@,
                final(buffer)@,
                tree_upgrade_wire(value@),
                result,
            ),
    {
        let ghost pre = *self;
        let ghost before = buffer@;
        let ghost w0 = uint_wire(value.fork);
        let ghost w1 = uint_wire(value.ancestors);
        let ghost w2 = uint_wire(value.length);
        let ghost w3 = bytes_wire(value.signature@);
        let ghost w4 = nodes_wire(node_views(value.nodes@));
        self.encode_uint(value.fork, buffer)?;
        let ghost s0 = *self;
        let ghost b0 = buffer@;
        self.encode_uint(value.ancestors, buffer)?;
        let ghost s1 = *self;
        let ghost b1 = buffer@;
        proof {
            lemma_encoded_join(pre, s0, s1, before, b0, b1, w0, w1, Ok(s1.start));
        }
        self.encode_uint(value.length, buffer)?;
        let ghost s2 = *self;
        let ghost b2 = buffer@;
        proof {
            lemma_encoded_join(pre, s1, s2, before, b1, b2, w0 + w1, w2, Ok(s2.start));
        }
        self.encode_bytes(value.signature.as_slice(), buffer)?;
        let ghost s3 = *self;
        let ghost b3 = buffer@;
        proof {
            lemma_encoded_join(pre, s2, s3, before, b2, b3, w0 + w1 + w2, w3, Ok(s3.start));
        }
        let result = self.encode_nodes(&value.nodes, buffer);
        proof {
            lemma_encoded_join(pre, s3, *self, before, b3, buffer@, w0 + w1 + w2 + w3, w4, result);
        }
        result
    }

    /// Reads a tree upgrade.
    pub fn decode_tree_upgrade(&mut self, buffer: &[u8]) -> (result: Result<
        EntryTreeUpgrade,
        CodecError,
    >)
        ensures
            result is Ok <==> tree_upgrade_at(
                window(buffer@, old(self).end),
                old(self).start as int,
            ) is Some,
            result matches Ok(value) ==> final(self).end == old(self).end && tree_upgrade_at(
                window(buffer@, old(self).end),
                old(self).start as int,
            ) == Some((value@, final(self).start as int)),
    {
        let fork = self.decode_uint(buffer)?;
        let ancestors = self.decode_uint(buffer)?;
        let length = self.decode_uint(buffer)?;
        let signature = self.decode_bytes(buffer)?;
        let nodes = self.decode_nodes(buffer)?;
        Ok(EntryTreeUpgrade { fork, ancestors, length, signature, nodes })
    }

    /// Reserves room for a bitfield update.
    pub fn preencode_bitfield_update(&mut self, value: &EntryBitfieldUpdate) -> (result: Result<
        usize,
        CodecError,
    >)
        ensures
            preencoded(*old(self), *final(self), bitfield_update_wire(*value).len(), result),
    {
        let flag: u64 = if value.drop {
            1
        } else {
            0
        };
        proof {
            lemma_uint_wire_len(flag);
            lemma_uint_wire_len(value.start);
            lemma_uint_wire_len(value.length);
        }
        self.preencode_uint(flag)?;
        self.preencode_uint(value.start)?;
        self.preencode_uint(value.length)
    }

    /// Writes a bitfield update.
    pub fn encode_bitfield_update(&mut self, value: &EntryBitfieldUpdate, buffer: &mut Vec<u8>) -> (result:
        Result<usize, CodecError>)
        ensures
            encoded(
                *old(self),
                *final(self),
                old(buffer)@,
                final(buffer)@,
                bitfield_update_wire(*value),
                result,
            ),
    {
        let ghost pre = *self;
        let ghost before = buffer@;
        let flag: u64 = if value.drop {
            1
        } else {
            0
        };
        self.encode_uint(flag, buffer)?;
        let ghost s0 = *self;
        let ghost b0 = buffer@;
        self.encode_uint(value.start, buffer)?;
        let ghost s1 = *self;
        let ghost b1 = buffer@;
        proof {
            lemma_encoded_join(
                pre,
                s0,
                s1,
                before,
                b0,
                b1,
                uint_wire(flag),
                uint_wire(value.start),
                Ok(s1.start),
            );
        }
        let result = self.encode_uint(value.length, buffer);
        proof {
            lemma_encoded_join(
                pre,
                s1,
                *self,
                before,
                b1,
                buffer@,
                uint_wire(flag) + uint_wire(value.start),
                uint_wire(value.length),
                result,
            );
        }
        result
    }

    /// Reads a bitfield update; fails also on a drop flag other than 0 or 1.
    pub fn decode_bitfield_update(&mut self, buffer: &[u8]) -> (result: Result<
        EntryBitfieldUpdate,
        CodecError,
    >)
        ensures
            result is Ok <==> bitfield_update_at(
                window(buffer@, old(self).end),
                old(self).start as int,
            ) is Some,
            result matches Ok(value) ==> final(self).end == old(self).end && bitfield_update_at(
                window(buffer@, old(self).end),
                old(self).start as int,
            ) == Some((value, final(self).start as int)),
    {
        let flag = self.decode_uint(buffer)?;
        if flag > 1 {
            return Err(invalid_data("drop flag that is neither 0 nor 1"));
        }
        let start = self.decode_uint(buffer)?;
        let length = self.decode_uint(buffer)?;
        Ok(EntryBitfieldUpdate { drop: flag == 1, start, length })
    }

    /// Reserves room for an entry's payload.
    pub fn preencode_entry(&mut self, value: &Entry) -> (result: Result<usize, CodecError>)
        requires
            entry_ok(value@),
        ensures
            preencoded(*old(self), *final(self), entry_wire(value@).len(), result),
    {
        match &value.tree_upgrade {
            Some(upgrade) => {
                self.preencode_tree_upgrade(upgrade)?;
            },
            None => {},
        }
        match &value.bitfield_update {
            Some(update) => self.preencode_bitfield_update(update),
            None => Ok(self.end()),
        }
    }

    /// Writes an entry's payload.
    pub fn encode_entry(&mut self, value: &Entry, buffer: &mut Vec<u8>) -> (result: Result<
        usize,
        CodecError,
    >)
        requires
            entry_ok(value@),
        ensures
            encoded(*old(self), *final(self), old(buffer)@, final(buffer)@, entry_wire(value@), result),
    {
        let ghost pre = *self;
        let ghost before = buffer@;
        let ghost first = match value@.tree_upgrade {
            Some(upgrade) => tree_upgrade_wire(upgrade),
            None => Seq::<u8>::empty(),
        };
        match &value.tree_upgrade {
            Some(upgrade) => {
                self.encode_tree_upgrade(upgrade, buffer)?;
            },
            None => {
                if self.start > self.end || self.start > buffer.len() {
                    return Err(overflow("entry that starts behind its buffer"));
                }
                proof {
                    assert(before =~= splice(before, pre.start as int, first));
                }
            },
        }
        let ghost mid = *self;
        let ghost between = buffer@;
        match &value.bitfield_update {
            Some(update) => {
                let result = self.encode_bitfield_update(update, buffer);
                proof {
                    lemma_encoded_join(
                        pre,
                        mid,
                        *self,
                        before,
                        between,
                        buffer@,
                        first,
                        bitfield_update_wire(*update),
                        result,
                    );
                }
                result
            },
            None => {
                proof {
                    assert(first + Seq::<u8>::empty() =~= first);
                }
                Ok(self.start())
            },
        }
    }

    /// Reads the payload of an entry of the kind that `bits` says.
    pub fn decode_entry(&mut self, buffer: &[u8], bits: u8) -> (result: Result<Entry, CodecError>)
        ensures
            result is Ok <==> entry_at(
                window(buffer@, old(self).end),
                old(self).start as int,
                bits,
            ) is Some,
            result matches Ok(value) ==> final(self).end == old(self).end && entry_at(
                window(buffer@, old(self).end),
                old(self).start as int,
                bits,
            ) == Some((value@, final(self).start as int)),
    {
        let tree_upgrade = if bits % 2 == 1 {
            Some(self.decode_tree_upgrade(buffer)?)
        } else {
            None
        };
        let bitfield_update = if bits / 2 % 2 == 1 {
            Some(self.decode_bitfield_update(buffer)?)
        } else {
            None
        };
        Ok(Entry { tree_upgrade, bitfield_update })
    }
}

/// Reading back a tree upgrade that a window holds gives it.
pub proof fn lemma_tree_upgrade_reads_back(window: Seq<u8>, start: int, upgrade: EntryTreeUpgradeView)
    requires
        holds(window, start, tree_upgrade_wire(upgrade)),
        nodes_ok(upgrade.nodes),
        tree_upgrade_wire(upgrade).len() <= u64::MAX,
    ensures
        tree_upgrade_at(window, start) == Some(
            (upgrade, start + tree_upgrade_wire(upgrade).len()),
        ),
{
    let w0 = uint_wire(upgrade.fork);
    let w1 = uint_wire(upgrade.ancestors);
    let w2 = uint_wire(upgrade.length);
    let w3 = bytes_wire(upgrade.signature);
    let w4 = nodes_wire(upgrade.nodes);
    lemma_holds_split(window, start, w0 + w1 + w2 + w3, w4);
    lemma_holds_split(window, start, w0 + w1 + w2, w3);
    lemma_holds_split(window, start, w0 + w1, w2);
    lemma_holds_split(window, start, w0, w1);
    let a = start + w0.len();
    let b = a + w1.len();
    let c = b + w2.len();
    let d = c + w3.len();
    lemma_uint_reads_back(window, start, upgrade.fork);
    lemma_uint_reads_back(window, a, upgrade.ancestors);
    lemma_uint_reads_back(window, b, upgrade.length);
    lemma_bytes_reads_back(window, c, upgrade.signature);
    lemma_nodes_reads_back(window, d, upgrade.nodes);
}

/// Reading back a bitfield update that a window holds gives it.
pub proof fn lemma_bitfield_update_reads_back(window: Seq<u8>, start: int, update: EntryBitfieldUpdate)
    requires
        holds(window, start, bitfield_update_wire(update)),
    ensures
        bitfield_update_at(window, start) == Some(
            (update, start + bitfield_update_wire(update).len()),
        ),
{
    let w0 = uint_wire(drop_flag(update.drop));
    let w1 = uint_wire(update.start);
    lemma_holds_split(window, start, w0 + w1, uint_wire(update.length));
    lemma_holds_split(window, start, w0, w1);
    lemma_uint_reads_back(window, start, drop_flag(update.drop));
    lemma_uint_reads_back(window, start + w0.len(), update.start);
    lemma_uint_reads_back(window, start + w0.len() + w1.len(), update.length);
}

/// Reading back an entry's payload that a window holds gives the entry.
pub proof fn lemma_entry_reads_back(window: Seq<u8>, start: int, entry: EntryView)
    requires
        holds(window, start, entry_wire(entry)),
        entry_ok(entry),
        entry_wire(entry).len() <= u64::MAX,
    ensures
        entry_at(window, start, entry_bits(entry)) == Some(
            (entry, start + entry_wire(entry).len()),
        ),
{
    let first = match entry.tree_upgrade {
        Some(upgrade) => tree_upgrade_wire(upgrade),
        None => Seq::<u8>::empty(),
    };
    let second = match entry.bitfield_update {
        Some(update) => bitfield_update_wire(update),
        None => Seq::<u8>::empty(),
    };
    lemma_holds_split(window, start, first, second);
    match entry.tree_upgrade {
        Some(upgrade) => {
            lemma_tree_upgrade_reads_back(window, start, upgrade);
        },
        None => {},
    }
    match entry.bitfield_update {
        Some(update) => {
            lemma_bitfield_update_reads_back(window, start + first.len(), update);
        },
        None => {},
    }
}

} // verus!
