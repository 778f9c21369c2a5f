//! Replay restores what was committed: the entry that an append writes to
//! the operation log, replayed over the tree as it stood, gives the tree
//! that the append committed.

use vstd::arithmetic::power2::{lemma_pow2_pos, lemma_pow2_unfold, pow2};
use vstd::prelude::*;

use crate::controller::{
    append_entry, append_fits, push_blocks, pushed_nodes, replayed, upgraded, TreeView,
};
use crate::crypto::ed25519_verifies;
use crate::data::{lemma_total_bytes_push, total_bytes};
use crate::flat::{
    depth_of, lemma_index_by_span, lemma_index_of_parts, lemma_root_cover_bound, offset_of,
    parent_of, root_cover, MAX_INDEX,
};
use crate::node::{lemma_total_length_push, node_indices, node_views, total_length, NodeView};
use crate::oplog::entry::{EntryTreeUpgradeView, EntryView};
use crate::tree::{
    leaf_node, leaves_follow, leaves_of, lemma_pow2_zero, lemma_push_node_cover,
    lemma_push_node_total, new_nodes, parent_node, push_leaves, pushed_by, siblings, signable,
    MerkleTree, MAX_LENGTH,
};
use crate::tree_records::lemma_leaves_of_concat;

verus! {

/// The index of a parent is odd, and at most one more than twice the index
/// of its child.
pub proof fn lemma_parent_odd(i: nat)
    ensures
        parent_of(i) % 2 == 1,
        parent_of(i) <= 2 * i + 1,
{
    let d = depth_of(i);
    let o = offset_of(i);
    lemma_index_of_parts(i);
    lemma_index_by_span(d, o);
    lemma_index_by_span(d + 1, o / 2);
    lemma_pow2_pos(d);
    lemma_pow2_unfold(d + 1);
    let w = pow2(d);
    assert((o / 2) * (2 * w) <= o * w) by (nonlinear_arith)
        requires
            2 * (o / 2) <= o,
            w >= 0,
    ;
    assert((o / 2) * (2 * w) >= 0) by (nonlinear_arith)
        requires
            o >= 0,
            w >= 0,
    ;
    assert(o * w >= 0) by (nonlinear_arith)
        requires
            o >= 0,
            w >= 0,
    ;
}

/// Among the nodes that adding a node brings into the tree, only the node
/// itself can be a leaf.
pub proof fn lemma_leaves_of_new_nodes(roots: Seq<NodeView>, node: NodeView)
    requires
        forall|i: int| 0 <= i < roots.len() ==> (#[trigger] roots[i]).index <= MAX_INDEX,
    ensures
        leaves_of(new_nodes(roots, node)) == (if node.index % 2 == 0 {
            seq![node]
        } else {
            Seq::<NodeView>::empty()
        }),
    decreases roots.len(),
{
    let one = seq![node];
    assert(one.drop_last() =~= Seq::<NodeView>::empty());
    assert(leaves_of(one.drop_last()) =~= Seq::<NodeView>::empty());
    if roots.len() > 0 && siblings(roots.last(), node) {
        let parent = parent_node(roots.last(), node);
        assert(roots[roots.len() - 1].index <= MAX_INDEX);
        lemma_parent_odd(roots.last().index as nat);
        assert forall|i: int| 0 <= i < roots.drop_last().len() implies (#[trigger] roots.drop_last()[i]).index
            <= MAX_INDEX by {
            assert(roots.drop_last()[i] == roots[i]);
        }
        lemma_leaves_of_new_nodes(roots.drop_last(), parent);
        lemma_leaves_of_concat(one, new_nodes(roots.drop_last(), parent));
        assert(leaves_of(one) + Seq::<NodeView>::empty() =~= leaves_of(one));
    }
    if node.index % 2 == 0 {
        assert(leaves_of(one) =~= one);
    } else {
        assert(leaves_of(one) =~= Seq::<NodeView>::empty());
    }
}

/// Adding the leaves of the blocks that follow a canonical root cover
/// gives the canonical root cover of all blocks.
pub proof fn lemma_push_leaves_cover(roots: Seq<NodeView>, length: nat, leaves: Seq<NodeView>)
    requires
        node_indices(roots) == root_cover(length),
        leaves_follow(leaves, length),
        length + leaves.len() <= MAX_LENGTH,
    ensures
        node_indices(push_leaves(roots, leaves)) == root_cover(length + leaves.len()),
    decreases leaves.len(),
{
    if leaves.len() > 0 {
        let front = leaves.drop_last();
        assert forall|j: int| 0 <= j < front.len() implies (#[trigger] front[j]).index == 2 * (length
            + j) by {
            assert(front[j] == leaves[j]);
        }
        lemma_push_leaves_cover(roots, length, front);
        let before = length + front.len();
        assert(leaves[leaves.len() - 1].index == 2 * before);
        lemma_pow2_zero();
        lemma_index_by_span(0, before);
        assert(before * 1 == before) by (nonlinear_arith);
        lemma_push_node_cover(push_leaves(roots, front), leaves.last(), before, 0, before);
    }
}

/// The leaves among the nodes that adding leaves brings into the tree are
/// those leaves.
pub proof fn lemma_leaves_of_pushed(roots: Seq<NodeView>, length: nat, leaves: Seq<NodeView>)
    requires
        node_indices(roots) == root_cover(length),
        leaves_follow(leaves, length),
        length + leaves.len() <= MAX_LENGTH,
    ensures
        leaves_of(pushed_by(roots, leaves)) == leaves,
    decreases leaves.len(),
{
    if leaves.len() == 0 {
        assert(leaves =~= Seq::<NodeView>::empty());
    } else {
        let front = leaves.drop_last();
        assert forall|j: int| 0 <= j < front.len() implies (#[trigger] front[j]).index == 2 * (length
            + j) by {
            assert(front[j] == leaves[j]);
        }
        lemma_leaves_of_pushed(roots, length, front);
        lemma_push_leaves_cover(roots, length, front);
        let before = push_leaves(roots, front);
        let count = length + front.len();
        assert forall|i: int| 0 <= i < before.len() implies (#[trigger] before[i]).index
            <= MAX_INDEX by {
            assert(node_indices(before)[i] == before[i].index);
            lemma_root_cover_bound(count, i);
        }
        lemma_leaves_of_new_nodes(before, leaves.last());
        assert(leaves[leaves.len() - 1].index == 2 * count);
        lemma_leaves_of_concat(pushed_by(roots, front), new_nodes(before, leaves.last()));
        assert(front + seq![leaves.last()] =~= leaves);
    }
}

/// The leaves of blocks that follow the first `length` blocks.
pub open spec fn block_leaves(length: nat, blocks: Seq<Seq<u8>>) -> Seq<NodeView> {
    Seq::new(blocks.len(), |j: int| leaf_node((length + j) as u64, blocks[j]))
}

/// Appending blocks is adding their leaves.
pub proof fn lemma_push_blocks_leaves(roots: Seq<NodeView>, length: nat, blocks: Seq<Seq<u8>>)
    requires
        length + blocks.len() <= MAX_LENGTH,
        total_bytes(blocks) <= u64::MAX,
    ensures
        push_blocks(roots, length, blocks) == push_leaves(roots, block_leaves(length, blocks)),
        pushed_nodes(roots, length, blocks) == pushed_by(roots, block_leaves(length, blocks)),
        leaves_follow(block_leaves(length, blocks), length),
        total_length(block_leaves(length, blocks)) == total_bytes(blocks),
    decreases blocks.len(),
{
    let leaves = block_leaves(length, blocks);
    if blocks.len() > 0 {
        let front = blocks.drop_last();
        assert(front.push(blocks.last()) =~= blocks);
        lemma_total_bytes_push(front, blocks.last());
        lemma_push_blocks_leaves(roots, length, front);
        assert(leaves.drop_last() =~= block_leaves(length, front));
        assert(leaves.last() == leaf_node((length + blocks.len() - 1) as u64, blocks.last()));
        lemma_total_length_push(leaves.drop_last(), leaves.last());
        assert(leaves.drop_last().push(leaves.last()) =~= leaves);
    } else {
        assert(leaves =~= Seq::<NodeView>::empty());
    }
}

/// Adding leaves adds their lengths to the lengths of the roots.
pub proof fn lemma_push_leaves_total(roots: Seq<NodeView>, leaves: Seq<NodeView>)
    requires
        total_length(roots) + total_length(leaves) <= u64::MAX,
    ensures
        total_length(push_leaves(roots, leaves)) == total_length(roots) + total_length(leaves),
    decreases leaves.len(),
{
    if leaves.len() > 0 {
        lemma_push_leaves_total(roots, leaves.drop_last());
        lemma_push_node_total(push_leaves(roots, leaves.drop_last()), leaves.last());
    }
}

/// Whether a tree state has its roots at the canonical root cover, with
/// lengths that add up within 64 bits.
pub open spec fn view_ok(tree: TreeView) -> bool {
    &&& tree.length <= MAX_LENGTH
    &&& node_indices(tree.roots) == root_cover(tree.length as nat)
    &&& total_length(tree.roots) <= u64::MAX
}

/// Whether a batch can be committed on a tree state under a signature: it
/// holds blocks, the tree holds them, and the signature verifies over the
/// roots with them.
pub open spec fn batch_ok(
    tree: TreeView,
    blocks: Seq<Seq<u8>>,
    signature: Seq<u8>,
    public: Seq<u8>,
) -> bool {
    &&& blocks.len() > 0
    &&& tree.length + blocks.len() <= MAX_LENGTH
    &&& total_length(tree.roots) + total_bytes(blocks) <= u64::MAX
    &&& ed25519_verifies(
        public,
        signable(
            push_blocks(tree.roots, tree.length as nat, blocks),
            (tree.length + blocks.len()) as u64,
            tree.fork,
        ),
        signature,
    )
}

/// The tree state with a batch, committed under a signature.
pub open spec fn with_batch(tree: TreeView, blocks: Seq<Seq<u8>>, signature: Seq<u8>) -> TreeView {
    TreeView {
        roots: push_blocks(tree.roots, tree.length as nat, blocks),
        length: (tree.length + blocks.len()) as u64,
        fork: tree.fork,
        signature: Some(signature),
        unflushed: tree.unflushed + pushed_nodes(tree.roots, tree.length as nat, blocks),
    }
}

/// The tree upgrade of the entry that commits a batch on a tree state.
pub open spec fn batch_upgrade(tree: TreeView, blocks: Seq<Seq<u8>>, signature: Seq<u8>) -> EntryTreeUpgradeView {
    EntryTreeUpgradeView {
        fork: tree.fork,
        ancestors: tree.length,
        length: (tree.length + blocks.len()) as u64,
        signature,
        nodes: pushed_nodes(tree.roots, tree.length as nat, blocks),
    }
}

/// The entry that commits a batch, replayed over the tree state as it
/// stood before the batch, gives the tree state with the batch.
pub proof fn lemma_batch_replays(
    tree: TreeView,
    blocks: Seq<Seq<u8>>,
    signature: Seq<u8>,
    public: Seq<u8>,
)
    requires
        view_ok(tree),
        batch_ok(tree, blocks, signature, public),
    ensures
        upgraded(tree, batch_upgrade(tree, blocks, signature), public) == Some(
            with_batch(tree, blocks, signature),
        ),
        view_ok(with_batch(tree, blocks, signature)),
{
    let length = tree.length as nat;
    let leaves = block_leaves(length, blocks);
    lemma_push_blocks_leaves(tree.roots, length, blocks);
    lemma_leaves_of_pushed(tree.roots, length, leaves);
    lemma_push_leaves_cover(tree.roots, length, leaves);
    lemma_push_leaves_total(tree.roots, leaves);
}

/// A batch with the signature that commits it.
pub struct Batch {
    /// The blocks.
    pub blocks: Seq<Seq<u8>>,
    /// The signature over the roots with the blocks.
    pub signature: Seq<u8>,
}

/// The tree state after batches are committed one after the other.
pub open spec fn after_batches(tree: TreeView, batches: Seq<Batch>) -> TreeView
    decreases batches.len(),
{
    if batches.len() == 0 {
        tree
    } else {
        with_batch(
            after_batches(tree, batches.drop_last()),
            batches.last().blocks,
            batches.last().signature,
        )
    }
}

/// Whether batches can be committed one after the other on a tree state.
pub open spec fn batches_ok(tree: TreeView, batches: Seq<Batch>, public: Seq<u8>) -> bool
    decreases batches.len(),
{
    if batches.len() == 0 {
        true
    } else {
        batches_ok(tree, batches.drop_last(), public) && batch_ok(
            after_batches(tree, batches.drop_last()),
            batches.last().blocks,
            batches.last().signature,
            public,
        )
    }
}

/// The entries that commit batches one after the other on a tree state.
pub open spec fn batch_entries(tree: TreeView, batches: Seq<Batch>) -> Seq<EntryView>
    decreases batches.len(),
{
    if batches.len() == 0 {
        Seq::empty()
    } else {
        batch_entries(tree, batches.drop_last()).push(
            EntryView {
                tree_upgrade: Some(
                    batch_upgrade(
                        after_batches(tree, batches.drop_last()),
                        batches.last().blocks,
                        batches.last().signature,
                    ),
                ),
                bitfield_update: None,
            },
        )
    }
}

/// Replaying entries one behind the other is replaying the first and then,
/// over what they give, the second.
pub proof fn lemma_replayed_concat(
    tree: TreeView,
    first: Seq<EntryView>,
    second: Seq<EntryView>,
    public: Seq<u8>,
)
    ensures
        replayed(tree, first + second, public) == match replayed(tree, first, public) {
            Some(middle) => replayed(middle, second, public),
            None => None,
        },
    decreases first.len(),
{
    if first.len() == 0 {
        assert(first + second =~= second);
    } else {
        assert((first + second).first() == first.first());
        assert((first + second).drop_first() =~= first.drop_first() + second);
        match first.first().tree_upgrade {
            Some(upgrade) => {
                if upgrade.length <= tree.length {
                    lemma_replayed_concat(tree, first.drop_first(), second, public);
                } else {
                    match upgraded(tree, upgrade, public) {
                        Some(next) => {
                            lemma_replayed_concat(next, first.drop_first(), second, public);
                        },
                        None => {},
                    }
                }
            },
            None => {
                lemma_replayed_concat(tree, first.drop_first(), second, public);
            },
        }
    }
}

/// Replay law: the entries that commit batches one after the other,
/// replayed over the tree state as it stood before them, give the tree
/// state with all of them; so every prefix of the entries gives the state
/// that was committed with it.
pub proof fn lemma_replay_gives_committed(tree: TreeView, batches: Seq<Batch>, public: Seq<u8>)
    requires
        view_ok(tree),
        batches_ok(tree, batches, public),
    ensures
        replayed(tree, batch_entries(tree, batches), public) == Some(after_batches(tree, batches)),
        view_ok(after_batches(tree, batches)),
    decreases batches.len(),
{
    if batches.len() > 0 {
        let front = batches.drop_last();
        let last = batches.last();
        let before = after_batches(tree, front);
        lemma_replay_gives_committed(tree, front, public);
        lemma_batch_replays(before, last.blocks, last.signature, public);
        let entry = EntryView {
            tree_upgrade: Some(batch_upgrade(before, last.blocks, last.signature)),
            bitfield_update: None,
        };
        let one = seq![entry];
        assert(batch_entries(tree, batches) =~= batch_entries(tree, front) + one);
        lemma_replayed_concat(tree, batch_entries(tree, front), one, public);
        let after = with_batch(before, last.blocks, last.signature);
        let none = Seq::<EntryView>::empty();
        assert(one.first() == entry);
        assert(one.drop_first() =~= none);
        assert(replayed(after, none, public) == Some(after));
        assert(replayed(before, one, public) == Some(after));
    }
}

/// Replay law for one append: the entry that commits a batch, replayed
/// over the tree as it stood before the batch, gives the tree with the
/// batch: the roots, the length and the nodes that the append staged, under
/// the signature that it made.
pub proof fn lemma_append_replays(
    tree: MerkleTree,
    blocks: Seq<Seq<u8>>,
    signature: Seq<u8>,
    public: Seq<u8>,
)
    requires
        tree.well_formed(),
        blocks.len() > 0,
        append_fits(tree, blocks),
        ed25519_verifies(
            public,
            signable(
                push_blocks(node_views(tree.roots@), tree.length as nat, blocks),
                (tree.length + blocks.len()) as u64,
                tree.fork,
            ),
            signature,
        ),
    ensures
        upgraded(tree@, append_entry(tree, blocks, signature).tree_upgrade->0, public) == Some(
            with_batch(tree@, blocks, signature),
        ),
{
    lemma_batch_replays(tree@, blocks, signature, public);
}

} // verus!
