//! The tree and its records: which records of the tree segment an operation
//! reads, how the tree is opened from them, and how it is looked up and
//! brought forward from them.

use std::ops::Range;
use vstd::prelude::*;

use crate::common::{append_bytes, bytes_equal, HypercoreError};
use crate::crypto::{ed25519_verifies, parent_digest, parent_hash, verify, PublicKey};
use crate::flat::{
    left_child_of, lemma_children, lemma_root_cover_bound, right_child_of, root_cover, MAX_INDEX,
};
use crate::messages::{node_ok, nodes_ok};
use crate::node::{
    lemma_record_round_trip, lemma_total_length_push, node_indices, node_of_record,
    node_record, node_views, total_length, Node, NodeView,
};
use crate::oplog::entry::{EntryTreeUpgrade, EntryTreeUpgradeView};
use crate::oplog::header::{HeaderTree, HeaderTreeView};
use crate::storage::{
    find_node, lemma_position_of, lemma_total_length_prefix, node_offset, position_of, Store,
    StoreWrite, MAX_BLOCK_INDEX, NODE_RECORD_SIZE,
};
use crate::tree::{
    indices_ok, leaves_follow, leaves_of, push_leaves, pushed_by, signable, tree_hash, MerkleTree,
    MAX_LENGTH,
};

verus! {

/// A range of a storage segment to read.
#[derive(Debug, Clone, Copy, PartialEq, Eq, Structural)]
pub struct SliceInstruction {
    /// Offset of the first byte.
    pub offset: u64,
    /// Number of bytes.
    pub len: u64,
}

/// The indices of the records that vouch for a root: the root itself and,
/// for an internal node, its two children.
pub open spec fn root_entry(index: u64) -> Seq<u64> {
    if index % 2 == 1 {
        seq![index, left_child_of(index as nat) as u64, right_child_of(index as nat) as u64]
    } else {
        seq![index]
    }
}

/// The indices of the records that vouch for the roots of a cover.
pub open spec fn record_indices(cover: Seq<u64>) -> Seq<u64>
    decreases cover.len(),
{
    if cover.len() == 0 {
        Seq::empty()
    } else {
        record_indices(cover.drop_last()) + root_entry(cover.last())
    }
}

/// The range of the tree segment that holds the record of a node.
pub open spec fn record_range(index: u64) -> SliceInstruction {
    SliceInstruction { offset: (32 + 40 * index) as u64, len: 40 }
}

/// The byte strings of a sequence as mathematical values.
pub open spec fn record_views(records: Seq<Vec<u8>>) -> Seq<Seq<u8>> {
    records.map_values(|record: Vec<u8>| record@)
}

/// Whether the children's records give the root's: their lengths add up to
/// its length and their hashes hash to its hash.
pub open spec fn rederives(root: NodeView, left: NodeView, right: NodeView) -> bool {
    &&& left.length + right.length == root.length
    &&& root.hash == parent_digest(root.length, left.hash, right.hash)
}

/// The root that the first records hold for an index, where they are long
/// enough and an internal node's children give it.
pub open spec fn root_of_records(index: u64, records: Seq<Seq<u8>>) -> Option<NodeView> {
    if index % 2 == 0 {
        if records.len() >= 1 && records[0].len() == 40 {
            Some(node_of_record(index, records[0]))
        } else {
            None
        }
    } else {
        if records.len() >= 3 && records[0].len() == 40 && records[1].len() == 40 && records[2].len()
            == 40 && rederives(
            node_of_record(index, records[0]),
            node_of_record(left_child_of(index as nat) as u64, records[1]),
            node_of_record(right_child_of(index as nat) as u64, records[2]),
        ) {
            Some(node_of_record(index, records[0]))
        } else {
            None
        }
    }
}

/// The roots that records hold for a cover: each root's record, followed
/// for an internal node by its children's, and nothing else.
pub open spec fn roots_of_records(cover: Seq<u64>, records: Seq<Seq<u8>>) -> Option<Seq<NodeView>>
    decreases cover.len(),
{
    if cover.len() == 0 {
        if records.len() == 0 {
            Some(Seq::empty())
        } else {
            None
        }
    } else {
        match root_of_records(cover.first(), records) {
            Some(root) => match roots_of_records(
                cover.drop_first(),
                records.skip(root_entry(cover.first()).len() as int),
            ) {
                Some(rest) => Some(seq![root] + rest),
                None => None,
            },
            None => None,
        }
    }
}

/// Whether a tree opens from a recorded tree state and records: the records
/// hold the roots of the recorded length, whose lengths add up within 64
/// bits, and unless the tree is empty the roots hash to the recorded root
/// hash and the recorded signature verifies over it.
pub open spec fn opens(header: HeaderTreeView, public: Seq<u8>, records: Seq<Seq<u8>>) -> bool {
    &&& header.length <= MAX_LENGTH
    &&& match roots_of_records(root_cover(header.length as nat), records) {
        Some(roots) => {
            &&& total_length(roots) <= u64::MAX
            &&& header.length > 0 ==> {
                &&& signable(roots, header.length, header.fork) == header.root_hash
                &&& ed25519_verifies(public, header.root_hash, header.signature)
            }
        },
        None => false,
    }
}

/// Whether the records hold a tree that the recorded tree state names:
/// the roots of the recorded length, whose lengths add up within 64 bits
/// and which hash to the recorded root hash. Where this holds and the tree
/// does not open, the signature is what fails.
pub open spec fn records_agree(header: HeaderTreeView, records: Seq<Seq<u8>>) -> bool {
    &&& header.length <= MAX_LENGTH
    &&& match roots_of_records(root_cover(header.length as nat), records) {
        Some(roots) => total_length(roots) <= u64::MAX && signable(
            roots,
            header.length,
            header.fork,
        ) == header.root_hash,
        None => false,
    }
}

/// Whether the tree upgrade of an entry stands on a tree of the given
/// length and fork and adds blocks.
pub open spec fn entry_extends(length: u64, fork: u64, upgrade: EntryTreeUpgradeView) -> bool {
    &&& upgrade.ancestors == length
    &&& upgrade.fork == fork
    &&& upgrade.ancestors < upgrade.length <= MAX_LENGTH
}

/// Whether the tree upgrade of an entry holds the leaves of exactly the
/// blocks it adds, in order, and a tree of the given byte length holds
/// them.
pub open spec fn entry_leaves_ok(byte_length: u64, upgrade: EntryTreeUpgradeView) -> bool {
    &&& leaves_of(upgrade.nodes).len() == upgrade.length - upgrade.ancestors
    &&& leaves_follow(leaves_of(upgrade.nodes), upgrade.ancestors as nat)
    &&& byte_length + total_length(leaves_of(upgrade.nodes)) <= u64::MAX
}

/// The leaves among nodes put one behind the other are those among the
/// first and those among the second.
pub proof fn lemma_leaves_of_concat(first: Seq<NodeView>, second: Seq<NodeView>)
    ensures
        leaves_of(first + second) == leaves_of(first) + leaves_of(second),
    decreases second.len(),
{
    if second.len() == 0 {
        assert(first + second =~= first);
        assert(leaves_of(first) + Seq::<NodeView>::empty() =~= leaves_of(first));
    } else {
        lemma_leaves_of_concat(first, second.drop_last());
        assert((first + second).drop_last() =~= first + second.drop_last());
        assert((first + second).last() == second.last());
        if second.last().index % 2 == 0 {
            assert((leaves_of(first) + leaves_of(second.drop_last())).push(second.last())
                =~= leaves_of(first) + leaves_of(second.drop_last()).push(second.last()));
        }
    }
}

/// The leaves among nodes are those among the first `count` and those
/// among the rest.
pub proof fn lemma_leaves_of_split(nodes: Seq<NodeView>, count: int)
    requires
        0 <= count <= nodes.len(),
    ensures
        leaves_of(nodes) == leaves_of(nodes.take(count)) + leaves_of(nodes.skip(count)),
{
    assert(nodes.take(count) + nodes.skip(count) =~= nodes);
    lemma_leaves_of_concat(nodes.take(count), nodes.skip(count));
}

/// The leaves among nodes start with the first node where it is a leaf.
pub proof fn lemma_leaves_of_first(nodes: Seq<NodeView>)
    requires
        nodes.len() > 0,
    ensures
        leaves_of(nodes) == (if nodes.first().index % 2 == 0 {
            seq![nodes.first()]
        } else {
            Seq::empty()
        }) + leaves_of(nodes.drop_first()),
{
    let one = seq![nodes.first()];
    assert(one + nodes.drop_first() =~= nodes);
    lemma_leaves_of_concat(one, nodes.drop_first());
    assert(one.drop_last() =~= Seq::<NodeView>::empty());
    assert(leaves_of(one.drop_last()) =~= Seq::<NodeView>::empty());
    if nodes.first().index % 2 == 0 {
        assert(leaves_of(one) =~= one);
    } else {
        assert(leaves_of(one) =~= Seq::<NodeView>::empty());
    }
}

/// The indices that are not in the cache.
pub open spec fn missing(needed: Seq<u64>, cache: Seq<NodeView>) -> Seq<u64>
    decreases needed.len(),
{
    if needed.len() == 0 {
        Seq::empty()
    } else if position_of(cache, needed.last(), 0) is Some {
        missing(needed.drop_last(), cache)
    } else {
        missing(needed.drop_last(), cache).push(needed.last())
    }
}

/// The nodes for the indices needed: each from the cache where it holds
/// one, else the next of the records read, which must be the one needed;
/// no record may be left over.
pub open spec fn resolved(needed: Seq<u64>, cache: Seq<NodeView>, stored: Seq<NodeView>) -> Option<
    Seq<NodeView>,
>
    decreases needed.len(),
{
    if needed.len() == 0 {
        if stored.len() == 0 {
            Some(Seq::empty())
        } else {
            None
        }
    } else {
        match position_of(cache, needed.first(), 0) {
            Some(place) => match resolved(needed.drop_first(), cache, stored) {
                Some(rest) => Some(seq![cache[place]] + rest),
                None => None,
            },
            None => if stored.len() > 0 && stored.first().index == needed.first() {
                match resolved(needed.drop_first(), cache, stored.drop_first()) {
                    Some(rest) => Some(seq![stored.first()] + rest),
                    None => None,
                }
            } else {
                None
            },
        }
    }
}

/// The indices of the records that locate a block: the roots of the full
/// subtrees to its left, then its own leaf.
pub open spec fn range_indices(index: u64) -> Seq<u64> {
    root_cover(index as nat).push((2 * index) as u64)
}

/// The nodes of a tree as the records of the tree segment that hold them.
pub open spec fn node_writes(nodes: Seq<NodeView>) -> Seq<(Store, u64, Seq<u8>)> {
    nodes.map_values(
        |node: NodeView|
            (Store::Tree, (32 + 40 * node.index) as u64, crate::node::node_record(node)),
    )
}

/// Sums the byte lengths of nodes; nothing where the sum passes 64 bits.
pub fn sum_lengths(nodes: &[Node]) -> (sum: Option<u64>)
    ensures
        sum is Some <==> total_length(node_views(nodes@)) <= u64::MAX,
        sum matches Some(s) ==> s == total_length(node_views(nodes@)),
{
    let ghost views = node_views(nodes@);
    let mut sum: u64 = 0;
    let mut i: usize = 0;
    proof {
        assert(views.take(0) =~= Seq::<NodeView>::empty());
    }
    while i < nodes.len()
        invariant
            i <= nodes@.len(),
            views == node_views(nodes@),
            sum == total_length(views.take(i as int)),
        decreases nodes@.len() - i,
    {
        proof {
            assert(views.take(i + 1) =~= views.take(i as int).push(views[i as int]));
            lemma_total_length_push(views.take(i as int), views[i as int]);
            lemma_total_length_prefix(views, i + 1);
        }
        match sum.checked_add(nodes[i].len()) {
            Some(next) => {
                sum = next;
            },
            None => {
                return None;
            },
        }
        i += 1;
    }
    proof {
        assert(views.take(i as int) =~= views);
    }
    Some(sum)
}

/// The indices of a canonical root cover.
pub fn cover_indices(length: u64) -> (cover: Vec<u64>)
    requires
        length <= MAX_LENGTH,
    ensures
        cover@ == root_cover(length as nat),
        forall|i: int| 0 <= i < cover@.len() ==> cover@[i] < 2 * length,
{
    let mut cover: Vec<u64> = Vec::new();
    flat_tree::full_roots(2 * length, &mut cover);
    assert(cover@ =~= root_cover(length as nat));
    proof {
        assert forall|i: int| 0 <= i < cover@.len() implies cover@[i] < 2 * length by {
            lemma_root_cover_bound(length as nat, i);
        }
    }
    cover
}

impl MerkleTree {
    /// The ranges of the tree segment to read before a tree of the recorded
    /// length can be opened: for each root its record and, for an internal
    /// node, those of its children.
    pub fn get_slice_instructions_to_read(header_tree: &HeaderTree) -> (instructions: Vec<
        SliceInstruction,
    >)
        requires
            header_tree.length <= MAX_LENGTH,
        ensures
            instructions@ == record_indices(root_cover(header_tree.length as nat)).map_values(
                |index: u64| record_range(index),
            ),
    {
        let cover = cover_indices(header_tree.length);
        let mut instructions: Vec<SliceInstruction> = Vec::new();
        let mut i: usize = 0;
        proof {
            assert(cover@.take(0) =~= Seq::<u64>::empty());
            assert(instructions@ =~= record_indices(cover@.take(0)).map_values(
                |index: u64| record_range(index),
            ));
        }
        while i < cover.len()
            invariant
                i <= cover@.len(),
                forall|j: int| 0 <= j < cover@.len() ==> cover@[j] <= MAX_INDEX,
                instructions@ == record_indices(cover@.take(i as int)).map_values(
                    |index: u64| record_range(index),
                ),
            decreases cover@.len() - i,
        {
            let index = cover[i];
            let ghost before = instructions@;
            proof {
                assert(cover@.take(i + 1).drop_last() =~= cover@.take(i as int));
                assert(cover@.take(i + 1).last() == index);
                if index % 2 == 1 {
                    lemma_children(index as nat);
                }
            }
            instructions.push(SliceInstruction { offset: node_offset(index), len: NODE_RECORD_SIZE });
            match (flat_tree::left_child(index), flat_tree::right_child(index)) {
                (Some(left), Some(right)) => {
                    instructions.push(
                        SliceInstruction { offset: node_offset(left), len: NODE_RECORD_SIZE },
                    );
                    instructions.push(
                        SliceInstruction { offset: node_offset(right), len: NODE_RECORD_SIZE },
                    );
                },
                _ => {},
            }
            proof {
                assert(instructions@ =~= before + root_entry(index).map_values(
                    |index: u64| record_range(index),
                ));
                assert(instructions@ =~= record_indices(cover@.take(i + 1)).map_values(
                    |index: u64| record_range(index),
                ));
            }
            i += 1;
        }
        proof {
            assert(cover@.take(i as int) =~= cover@);
        }
        instructions
    }

    /// Opens the tree of a recorded tree state from the records that
    /// `get_slice_instructions_to_read` named, in that order. `CorruptTree`
    /// where a record is missing, too many are given, the children of a
    /// root do not give it, or the roots do not hash to the recorded root
    /// hash; `InvalidSignature` where only the signature fails.
    #[verifier::rlimit(50)]
    pub fn open(header_tree: &HeaderTree, public: &PublicKey, records: &[Vec<u8>]) -> (tree: Result<
        MerkleTree,
        HypercoreError,
    >)
        ensures
            tree is Ok <==> opens(header_tree@, public@, record_views(records@)),
            tree matches Ok(opened) ==> {
                &&& opened.committed(public@)
                &&& opened.length == header_tree.length
                &&& opened.fork == header_tree.fork
                &&& Some(node_views(opened.roots@)) == roots_of_records(
                    root_cover(header_tree.length as nat),
                    record_views(records@),
                )
                &&& opened.unflushed@.len() == 0
                &&& if header_tree.length > 0 {
                    opened.signature matches Some(s) && s@ == header_tree.signature@
                } else {
                    opened.signature is None
                }
            },
            tree matches Err(e) ==> if records_agree(header_tree@, record_views(records@)) {
                e is InvalidSignature
            } else {
                e is CorruptTree
            },
    {
        if header_tree.length > MAX_LENGTH {
            return Err(HypercoreError::CorruptTree);
        }
        let cover = cover_indices(header_tree.length);
        let ghost all = record_views(records@);
        let mut roots: Vec<Node> = Vec::new();
        let mut i: usize = 0;
        let mut p: usize = 0;
        proof {
            assert(cover@.skip(0) =~= cover@);
            assert(all.skip(0) =~= all);
            assert(node_views(roots@) =~= Seq::<NodeView>::empty());
            assert(node_indices(node_views(roots@)) =~= cover@.take(0));
        }
        while i < cover.len()
            invariant
                i <= cover@.len(),
                p <= records@.len(),
                all == record_views(records@),
                cover@ == root_cover(header_tree.length as nat),
                forall|j: int| 0 <= j < cover@.len() ==> cover@[j] <= MAX_INDEX,
                roots_of_records(cover@, all) == match roots_of_records(
                    cover@.skip(i as int),
                    all.skip(p as int),
                ) {
                    Some(rest) => Some(node_views(roots@) + rest),
                    None => None,
                },
                node_indices(node_views(roots@)) == cover@.take(i as int),
                nodes_ok(node_views(roots@)),
                header_tree.length <= MAX_LENGTH,
            decreases cover@.len() - i,
        {
            let index = cover[i];
            let ghost rest_cover = cover@.skip(i as int);
            let ghost rest_records = all.skip(p as int);
            let ghost done = node_views(roots@);
            proof {
                assert(rest_cover.first() == index);
                assert(rest_cover.drop_first() =~= cover@.skip(i + 1));
                if index % 2 == 1 {
                    lemma_children(index as nat);
                }
            }
            if p >= records.len() {
                return Err(HypercoreError::CorruptTree);
            }
            assert(rest_records[0] == records@[p as int]@);
            let root = match Node::from_bytes(index, records[p].as_slice()) {
                Ok(root) => root,
                Err(_) => {
                    return Err(HypercoreError::CorruptTree);
                },
            };
            let mut used: usize = 1;
            match (flat_tree::left_child(index), flat_tree::right_child(index)) {
                (Some(left_index), Some(right_index)) => {
                    if records.len() - p < 3 {
                        return Err(HypercoreError::CorruptTree);
                    }
                    assert(rest_records[1] == records@[p + 1]@);
                    assert(rest_records[2] == records@[p + 2]@);
                    let left = match Node::from_bytes(left_index, records[p + 1].as_slice()) {
                        Ok(left) => left,
                        Err(_) => {
                            return Err(HypercoreError::CorruptTree);
                        },
                    };
                    let right = match Node::from_bytes(right_index, records[p + 2].as_slice()) {
                        Ok(right) => right,
                        Err(_) => {
                            return Err(HypercoreError::CorruptTree);
                        },
                    };
                    let sum = left.length.checked_add(right.length);
                    if sum != Some(root.length) {
                        return Err(HypercoreError::CorruptTree);
                    }
                    let hash = parent_hash(root.length, left.hash.as_slice(), right.hash.as_slice());
                    if !bytes_equal(hash.as_slice(), root.hash.as_slice()) {
                        return Err(HypercoreError::CorruptTree);
                    }
                    used = 3;
                },
                _ => {},
            }
            proof {
                assert(root_of_records(index, rest_records) == Some(root@));
                assert(rest_records.skip(used as int) =~= all.skip(p + used));
            }
            roots.push(root);
            proof {
                assert(node_views(roots@) =~= done.push(root@));
                match roots_of_records(cover@.skip(i + 1), all.skip(p + used)) {
                    Some(rest) => {
                        assert(done + (seq![root@] + rest) =~= done.push(root@) + rest);
                    },
                    None => {},
                }
                assert(node_indices(done.push(root@)) =~= node_indices(done).push(index));
                assert(cover@.take(i + 1) =~= cover@.take(i as int).push(index));
            }
            i += 1;
            p += used;
        }
        proof {
            assert(cover@.skip(i as int) =~= Seq::<u64>::empty());
            assert(cover@.take(i as int) =~= cover@);
            assert(all.skip(p as int).len() == records@.len() - p);
        }
        if p != records.len() {
            return Err(HypercoreError::CorruptTree);
        }
        proof {
            assert(node_views(roots@) + Seq::<NodeView>::empty() =~= node_views(roots@));
        }
        let byte_length = match sum_lengths(roots.as_slice()) {
            Some(sum) => sum,
            None => {
                return Err(HypercoreError::CorruptTree);
            },
        };
        let mut signature: Option<Vec<u8>> = None;
        if header_tree.length > 0 {
            let hash = tree_hash(roots.as_slice(), header_tree.length, header_tree.fork);
            if !bytes_equal(hash.as_slice(), header_tree.root_hash.as_slice()) {
                return Err(HypercoreError::CorruptTree);
            }
            if !verify(public, hash.as_slice(), header_tree.signature.as_slice()) {
                return Err(HypercoreError::InvalidSignature);
            }
            let mut copy: Vec<u8> = Vec::new();
            append_bytes(&mut copy, header_tree.signature.as_slice());
            signature = Some(copy);
        }
        let tree = MerkleTree {
            roots,
            length: header_tree.length,
            byte_length,
            fork: header_tree.fork,
            signature,
            unflushed: Vec::new(),
        };
        proof {
            assert(node_views(tree.unflushed@) =~= Seq::<NodeView>::empty());
        }
        Ok(tree)
    }

    /// Brings the tree forward by the tree upgrade of a replayed entry: the
    /// leaves among its nodes are added to the roots one by one, as when
    /// their blocks were appended. The upgrade must stand on the committed
    /// state and add blocks (`NonMonotonicUpgrade`), hold the leaves of
    /// exactly the blocks it adds, in order and not too long together
    /// (`CorruptTree`), and carry a signature that verifies over the new
    /// roots under `public` (`InvalidSignature`); on an error nothing
    /// changes.
    #[verifier::rlimit(50)]
    pub fn upgrade(&mut self, upgrade: &EntryTreeUpgrade, public: &PublicKey) -> (result: Result<
        (),
        HypercoreError,
    >)
        requires
            old(self).well_formed(),
            nodes_ok(node_views(upgrade.nodes@)),
        ensures
            result is Ok <==> {
                &&& entry_extends(old(self).length, old(self).fork, upgrade@)
                &&& entry_leaves_ok(old(self).byte_length, upgrade@)
                &&& ed25519_verifies(
                    public@,
                    signable(
                        push_leaves(node_views(old(self).roots@), leaves_of(upgrade@.nodes)),
                        upgrade.length,
                        upgrade.fork,
                    ),
                    upgrade.signature@,
                )
            },
            result is Ok ==> {
                &&& final(self).committed(public@)
                &&& node_views(final(self).roots@) == push_leaves(
                    node_views(old(self).roots@),
                    leaves_of(upgrade@.nodes),
                )
                &&& final(self).length == upgrade.length
                &&& final(self).byte_length == old(self).byte_length + total_length(
                    leaves_of(upgrade@.nodes),
                )
                &&& final(self).fork == upgrade.fork
                &&& final(self).signature matches Some(s) && s@ == upgrade.signature@
                &&& node_views(final(self).unflushed@) == node_views(old(self).unflushed@)
                    + pushed_by(node_views(old(self).roots@), leaves_of(upgrade@.nodes))
            },
            result matches Err(e) ==> {
                &&& *final(self) == *old(self)
                &&& if !entry_extends(old(self).length, old(self).fork, upgrade@) {
                    e is NonMonotonicUpgrade
                } else if !entry_leaves_ok(old(self).byte_length, upgrade@) {
                    e is CorruptTree
                } else {
                    e is InvalidSignature
                }
            },
    {
        if upgrade.ancestors != self.length || upgrade.fork != self.fork || upgrade.length
            <= upgrade.ancestors || upgrade.length > MAX_LENGTH {
            return Err(HypercoreError::NonMonotonicUpgrade);
        }
        let ghost added = node_views(upgrade.nodes@);
        let ghost held = node_views(self.roots@);
        let ghost all = leaves_of(added);
        let mut changeset = self.changeset();
        let mut i: usize = 0;
        proof {
            assert(added.take(0) =~= Seq::<NodeView>::empty());
            assert(node_views(changeset.nodes@) =~= Seq::<NodeView>::empty());
        }
        while i < upgrade.nodes.len()
            invariant
                i <= upgrade.nodes@.len(),
                added == node_views(upgrade.nodes@),
                held == node_views(self.roots@),
                all == leaves_of(added),
                nodes_ok(added),
                *self == *old(self),
                self.well_formed(),
                entry_extends(self.length, self.fork, upgrade@),
                changeset.well_formed(),
                changeset.ancestors == self.length,
                changeset.fork == self.fork,
                changeset.length == self.length + leaves_of(added.take(i as int)).len(),
                changeset.length <= upgrade.length,
                changeset.byte_length == self.byte_length + total_length(
                    leaves_of(added.take(i as int)),
                ),
                leaves_follow(leaves_of(added.take(i as int)), self.length as nat),
                node_views(changeset.roots@) == push_leaves(held, leaves_of(added.take(i as int))),
                node_views(changeset.nodes@) == pushed_by(held, leaves_of(added.take(i as int))),
            decreases upgrade.nodes@.len() - i,
        {
            let node = &upgrade.nodes[i];
            let ghost so_far = leaves_of(added.take(i as int));
            proof {
                assert(added.take(i + 1).drop_last() =~= added.take(i as int));
                assert(added.take(i + 1).last() == node@);
                lemma_leaves_of_split(added, i as int);
            }
            if node.index % 2 == 0 {
                proof {
                    let next = so_far.push(node@);
                    assert(next.drop_last() =~= so_far);
                    lemma_total_length_push(so_far, node@);
                    lemma_leaves_of_first(added.skip(i as int));
                    assert(added.skip(i as int).first() == node@);
                    let rest = leaves_of(added.skip(i as int).drop_first());
                    assert(all =~= next + rest);
                    assert(all.take(next.len() as int) =~= next);
                    lemma_total_length_prefix(all, next.len() as int);
                    assert(all[so_far.len() as int] == node@);
                }
                if changeset.length >= upgrade.length || node.index != 2 * changeset.length
                    || node.length > u64::MAX - changeset.byte_length {
                    return Err(HypercoreError::CorruptTree);
                }
                changeset.append_leaf(node);
            }
            i += 1;
        }
        proof {
            assert(added.take(i as int) =~= added);
        }
        if changeset.length != upgrade.length {
            return Err(HypercoreError::CorruptTree);
        }
        let mut signature: Vec<u8> = Vec::new();
        append_bytes(&mut signature, upgrade.signature.as_slice());
        changeset.signature = Some(signature);
        self.commit(changeset, public)
    }

    /// The indices of the records to read from the tree segment before
    /// block `index` can be located: of those that locate it, the ones that
    /// are not among the nodes not yet flushed.
    pub fn byte_range_nodes(&self, index: u64) -> (indices: Vec<u64>)
        requires
            index <= MAX_BLOCK_INDEX,
        ensures
            indices@ == missing(range_indices(index), node_views(self.unflushed@)),
    {
        let mut needed = cover_indices(index);
        needed.push(2 * index);
        let ghost cache = node_views(self.unflushed@);
        let mut indices: Vec<u64> = Vec::new();
        let mut i: usize = 0;
        proof {
            assert(needed@ =~= range_indices(index));
            assert(needed@.take(0) =~= Seq::<u64>::empty());
        }
        while i < needed.len()
            invariant
                i <= needed@.len(),
                cache == node_views(self.unflushed@),
                indices@ == missing(needed@.take(i as int), cache),
            decreases needed@.len() - i,
        {
            proof {
                assert(needed@.take(i + 1).drop_last() =~= needed@.take(i as int));
                assert(needed@.take(i + 1).last() == needed@[i as int]);
            }
            if find_node(self.unflushed.as_slice(), needed[i]).is_none() {
                indices.push(needed[i]);
            }
            i += 1;
        }
        proof {
            assert(needed@.take(i as int) =~= needed@);
        }
        indices
    }

    /// The byte range of block `index` in the data segment, from the nodes
    /// not yet flushed and the records that `byte_range_nodes` named, read
    /// in that order: it starts behind the bytes under the roots to the
    /// block's left and is as long as its leaf says. `CorruptTree` where
    /// the block is not committed, other records are given, or the range
    /// does not end within 64 bits.
    #[verifier::rlimit(50)]
    pub fn byte_range(&self, index: u64, stored: &[Node]) -> (range: Result<Range<u64>, HypercoreError>)
        ensures
            range is Ok <==> index < self.length && index <= MAX_BLOCK_INDEX && (resolved(
                range_indices(index),
                node_views(self.unflushed@),
                node_views(stored@),
            ) matches Some(nodes) && total_length(nodes) <= u64::MAX),
            range matches Ok(r) ==> {
                let nodes = resolved(
                    range_indices(index),
                    node_views(self.unflushed@),
                    node_views(stored@),
                )->0;
                &&& r.start == total_length(nodes.drop_last())
                &&& r.end == r.start + nodes.last().length
            },
            range matches Err(e) ==> e is CorruptTree,
    {
        if index >= self.length || index > MAX_BLOCK_INDEX {
            return Err(HypercoreError::CorruptTree);
        }
        let mut needed = cover_indices(index);
        needed.push(2 * index);
        let ghost cache = node_views(self.unflushed@);
        let ghost records = node_views(stored@);
        let mut nodes: Vec<Node> = Vec::new();
        let mut i: usize = 0;
        let mut p: usize = 0;
        proof {
            assert(needed@ =~= range_indices(index));
            assert(needed@.skip(0) =~= needed@);
            assert(records.skip(0) =~= records);
            assert(node_views(nodes@) =~= Seq::<NodeView>::empty());
        }
        while i < needed.len()
            invariant
                i <= needed@.len(),
                p <= stored@.len(),
                needed@ == range_indices(index),
                cache == node_views(self.unflushed@),
                records == node_views(stored@),
                resolved(needed@, cache, records) == match resolved(
                    needed@.skip(i as int),
                    cache,
                    records.skip(p as int),
                ) {
                    Some(rest) => Some(node_views(nodes@) + rest),
                    None => None,
                },
                nodes@.len() == i,
                index < self.length,
                index <= MAX_BLOCK_INDEX,
            decreases needed@.len() - i,
        {
            let ghost done = node_views(nodes@);
            let ghost rest_needed = needed@.skip(i as int);
            let ghost rest_records = records.skip(p as int);
            proof {
                assert(rest_needed.first() == needed@[i as int]);
                assert(rest_needed.drop_first() =~= needed@.skip(i + 1));
                if position_of(cache, needed@[i as int], 0) is Some {
                    lemma_position_of(cache, needed@[i as int], 0);
                }
            }
            match find_node(self.unflushed.as_slice(), needed[i]) {
                Some(node) => {
                    nodes.push(node.clone());
                    proof {
                        assert(node_views(nodes@) =~= done.push(node@));
                        match resolved(needed@.skip(i + 1), cache, rest_records) {
                            Some(rest) => {
                                assert(done + (seq![node@] + rest) =~= done.push(node@) + rest);
                            },
                            None => {},
                        }
                    }
                },
                None => {
                    if p >= stored.len() || stored[p].index() != needed[i] {
                        proof {
                            if p < stored@.len() {
                                assert(rest_records.first() == stored@[p as int]@);
                            }
                        }
                        return Err(HypercoreError::CorruptTree);
                    }
                    proof {
                        assert(rest_records.first() == stored@[p as int]@);
                        assert(rest_records.drop_first() =~= records.skip(p + 1));
                    }
                    nodes.push(stored[p].clone());
                    proof {
                        assert(node_views(nodes@) =~= done.push(stored@[p as int]@));
                        match resolved(needed@.skip(i + 1), cache, records.skip(p + 1)) {
                            Some(rest) => {
                                assert(done + (seq![stored@[p as int]@] + rest) =~= done.push(
                                    stored@[p as int]@,
                                ) + rest);
                            },
                            None => {},
                        }
                    }
                    p += 1;
                },
            }
            i += 1;
        }
        proof {
            assert(needed@.skip(i as int) =~= Seq::<u64>::empty());
            assert(records.skip(p as int).len() == stored@.len() - p);
        }
        if p != stored.len() {
            return Err(HypercoreError::CorruptTree);
        }
        let ghost found = node_views(nodes@);
        proof {
            assert(found + Seq::<NodeView>::empty() =~= found);
        }
        let total = match sum_lengths(nodes.as_slice()) {
            Some(total) => total,
            None => {
                return Err(HypercoreError::CorruptTree);
            },
        };
        let length = nodes[nodes.len() - 1].len();
        proof {
            assert(found.drop_last().push(found.last()) =~= found);
            lemma_total_length_push(found.drop_last(), found.last());
        }
        Ok(total - length..total)
    }

    /// Takes the nodes that are committed and not yet in the tree segment,
    /// as the writes that put their records there.
    pub fn flush_nodes(&mut self) -> (writes: Vec<StoreWrite>)
        requires
            old(self).well_formed(),
        ensures
            final(self).well_formed(),
            crate::storage::write_views(writes@) == node_writes(node_views(old(self).unflushed@)),
            final(self).unflushed@.len() == 0,
            final(self).roots == old(self).roots,
            final(self).length == old(self).length,
            final(self).byte_length == old(self).byte_length,
            final(self).fork == old(self).fork,
            final(self).signature == old(self).signature,
    {
        let ghost nodes = node_views(self.unflushed@);
        let mut writes: Vec<StoreWrite> = Vec::new();
        let mut i: usize = 0;
        while i < self.unflushed.len()
            invariant
                i <= self.unflushed@.len(),
                *self == *old(self),
                nodes == node_views(self.unflushed@),
                nodes_ok(nodes),
                indices_ok(nodes),
                writes@.len() == i,
                forall|j: int|
                    0 <= j < i ==> (writes@[j].store, writes@[j].offset, writes@[j].data@)
                        == node_writes(nodes)[j],
            decreases self.unflushed@.len() - i,
        {
            let node = &self.unflushed[i];
            assert(node@ == nodes[i as int]);
            let record = match node.to_bytes() {
                Ok(record) => record,
                Err(_) => Vec::new(),
            };
            writes.push(StoreWrite { store: Store::Tree, offset: node_offset(node.index()), data: record });
            i += 1;
        }
        proof {
            assert(crate::storage::write_views(writes@) =~= node_writes(nodes));
        }
        self.unflushed = Vec::new();
        proof {
            assert(node_views(self.unflushed@) =~= Seq::<NodeView>::empty());
        }
        writes
    }
}

/// The records that vouch for the roots of a cover, as the tree segment
/// holds them: for each root the record of its node and, for an internal
/// node, those of its children.
pub open spec fn records_for(cover: Seq<u64>, store: spec_fn(u64) -> NodeView) -> Seq<Seq<u8>>
    decreases cover.len(),
{
    if cover.len() == 0 {
        Seq::empty()
    } else {
        root_entry(cover.first()).map_values(|index: u64| node_record(store(index))) + records_for(
            cover.drop_first(),
            store,
        )
    }
}

/// Whether the tree segment holds a root as it is opened: the node at its
/// index and, for an internal node, the children that give it.
pub open spec fn root_stored(index: u64, store: spec_fn(u64) -> NodeView) -> bool {
    &&& store(index).index == index
    &&& node_ok(store(index))
    &&& index % 2 == 1 ==> {
        let left = store(left_child_of(index as nat) as u64);
        let right = store(right_child_of(index as nat) as u64);
        &&& left.index == left_child_of(index as nat) as u64
        &&& right.index == right_child_of(index as nat) as u64
        &&& node_ok(left)
        &&& node_ok(right)
        &&& rederives(store(index), left, right)
    }
}

/// The records of roots that the tree segment holds give those roots.
pub proof fn lemma_records_give_roots(cover: Seq<u64>, store: spec_fn(u64) -> NodeView)
    requires
        forall|i: int| 0 <= i < cover.len() ==> root_stored(#[trigger] cover[i], store),
    ensures
        roots_of_records(cover, records_for(cover, store)) == Some(
            cover.map_values(|index: u64| store(index)),
        ),
    decreases cover.len(),
{
    let roots = cover.map_values(|index: u64| store(index));
    if cover.len() == 0 {
        assert(roots =~= Seq::<NodeView>::empty());
    } else {
        let index = cover.first();
        let rest = cover.drop_first();
        let entry = root_entry(index).map_values(|index: u64| node_record(store(index)));
        let records = records_for(cover, store);
        assert(root_stored(cover[0], store));
        lemma_record_round_trip(store(index));
        assert(records[0] == entry[0]);
        if index % 2 == 1 {
            let left = store(left_child_of(index as nat) as u64);
            let right = store(right_child_of(index as nat) as u64);
            lemma_record_round_trip(left);
            lemma_record_round_trip(right);
            assert(records[1] == entry[1]);
            assert(records[2] == entry[2]);
        }
        assert(root_of_records(index, records) == Some(store(index)));
        assert(records.skip(root_entry(index).len() as int) =~= records_for(rest, store));
        assert forall|i: int| 0 <= i < rest.len() implies root_stored(#[trigger] rest[i], store) by {
            assert(rest[i] == cover[i + 1]);
        }
        lemma_records_give_roots(rest, store);
        assert(seq![store(index)] + rest.map_values(|index: u64| store(index)) =~= roots);
    }
}

/// Round trip of the tree: a committed tree whose roots, with the children
/// that give them, are in the tree segment opens from its records as
/// itself.
pub proof fn lemma_tree_round_trip(
    roots: Seq<NodeView>,
    length: u64,
    fork: u64,
    signature: Seq<u8>,
    public: Seq<u8>,
    store: spec_fn(u64) -> NodeView,
)
    requires
        length <= MAX_LENGTH,
        total_length(roots) <= u64::MAX,
        roots == root_cover(length as nat).map_values(|index: u64| store(index)),
        forall|i: int|
            0 <= i < root_cover(length as nat).len() ==> root_stored(
                #[trigger] root_cover(length as nat)[i],
                store,
            ),
        length > 0 ==> ed25519_verifies(public, signable(roots, length, fork), signature),
    ensures
        roots_of_records(
            root_cover(length as nat),
            records_for(root_cover(length as nat), store),
        ) == Some(roots),
        opens(
            HeaderTreeView { fork, length, root_hash: signable(roots, length, fork), signature },
            public,
            records_for(root_cover(length as nat), store),
        ),
{
    lemma_records_give_roots(root_cover(length as nat), store);
}

} // verus!
