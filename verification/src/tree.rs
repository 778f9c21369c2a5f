//! The Merkle tree: the committed roots with their signature, and the
//! changeset that stages a batch of appended blocks.

use vstd::arithmetic::power2::{lemma_pow2_pos, lemma_pow2_unfold, pow2};
use vstd::prelude::*;

use crate::common::{append_bytes, HypercoreError};
use crate::crypto::{
    ed25519_signature, ed25519_verifies, leaf_digest, leaf_hash, parent_digest, parent_hash,
    root_digest, root_hash, sign, verify, PublicKey, SecretKey,
};
use crate::flat::{
    index_at, lemma_depth_of_index, lemma_index_by_span, lemma_low_parts, lemma_low_unique,
    lemma_parent_of_index, lemma_root_cover_bound, lemma_root_cover_last, low_depth, low_power,
    low_quotient, parent_of, root_cover, MAX_INDEX,
};
use crate::messages::{node_ok, nodes_ok};
use crate::node::{
    clone_nodes, concat_hashes, lemma_concat_hashes_push, lemma_total_length_push, node_indices,
    node_views, total_length, Node, NodeView,
};

verus! {

/// Largest number of blocks that a tree holds.
pub const MAX_LENGTH: u64 = 0x00ff_ffff_ffff_ffff;

/// The leaf of block `block` with content `data`.
pub open spec fn leaf_node(block: u64, data: Seq<u8>) -> NodeView {
    NodeView { index: (2 * block) as u64, hash: leaf_digest(data), length: data.len() as u64 }
}

/// The parent of two sibling nodes.
pub open spec fn parent_node(left: NodeView, right: NodeView) -> NodeView {
    NodeView {
        index: parent_of(left.index as nat) as u64,
        hash: parent_digest((left.length + right.length) as u64, left.hash, right.hash),
        length: (left.length + right.length) as u64,
    }
}

/// Whether two nodes have the same parent.
pub open spec fn siblings(left: NodeView, right: NodeView) -> bool {
    parent_of(left.index as nat) == parent_of(right.index as nat)
}

/// The roots after `node` is added at the right: while the two rightmost
/// roots are siblings, their parent takes their place.
pub open spec fn push_node(roots: Seq<NodeView>, node: NodeView) -> Seq<NodeView>
    decreases roots.len(),
{
    if roots.len() > 0 && siblings(roots.last(), node) {
        push_node(roots.drop_last(), parent_node(roots.last(), node))
    } else {
        roots.push(node)
    }
}

/// The nodes that adding `node` at the right brings into the tree: the node
/// itself, then each parent that takes the place of two roots.
pub open spec fn new_nodes(roots: Seq<NodeView>, node: NodeView) -> Seq<NodeView>
    decreases roots.len(),
{
    if roots.len() > 0 && siblings(roots.last(), node) {
        seq![node] + new_nodes(roots.drop_last(), parent_node(roots.last(), node))
    } else {
        seq![node]
    }
}

/// The roots after leaves are added one by one at the right.
pub open spec fn push_leaves(roots: Seq<NodeView>, leaves: Seq<NodeView>) -> Seq<NodeView>
    decreases leaves.len(),
{
    if leaves.len() == 0 {
        roots
    } else {
        push_node(push_leaves(roots, leaves.drop_last()), leaves.last())
    }
}

/// The nodes that adding leaves one by one at the right brings into the
/// tree.
pub open spec fn pushed_by(roots: Seq<NodeView>, leaves: Seq<NodeView>) -> Seq<NodeView>
    decreases leaves.len(),
{
    if leaves.len() == 0 {
        Seq::empty()
    } else {
        pushed_by(roots, leaves.drop_last()) + new_nodes(
            push_leaves(roots, leaves.drop_last()),
            leaves.last(),
        )
    }
}

/// The leaves among nodes, in their order: the nodes at even indices.
pub open spec fn leaves_of(nodes: Seq<NodeView>) -> Seq<NodeView>
    decreases nodes.len(),
{
    if nodes.len() == 0 {
        Seq::empty()
    } else if nodes.last().index % 2 == 0 {
        leaves_of(nodes.drop_last()).push(nodes.last())
    } else {
        leaves_of(nodes.drop_last())
    }
}

/// Whether leaves are those of the blocks that follow the first `length`
/// blocks, one after the other.
pub open spec fn leaves_follow(leaves: Seq<NodeView>, length: nat) -> bool {
    forall|j: int| 0 <= j < leaves.len() ==> (#[trigger] leaves[j]).index == 2 * (length + j)
}

/// The hash that is signed for a tree state.
pub open spec fn signable(roots: Seq<NodeView>, length: u64, fork: u64) -> Seq<u8> {
    root_digest(length, fork, concat_hashes(roots))
}

/// Whether roots are those of a tree of `length` blocks and `byte_length`
/// bytes: they stand at the canonical root cover, carry hashes of 32 bytes,
/// and their lengths add up.
pub open spec fn tree_ok(roots: Seq<NodeView>, length: u64, byte_length: u64) -> bool {
    &&& length <= MAX_LENGTH
    &&& node_indices(roots) == root_cover(length as nat)
    &&& nodes_ok(roots)
    &&& total_length(roots) == byte_length
}

/// Whether every node of a sequence has an index that the tree segment
/// holds.
pub open spec fn indices_ok(nodes: Seq<NodeView>) -> bool {
    forall|i: int| 0 <= i < nodes.len() ==> (#[trigger] nodes[i]).index <= MAX_INDEX
}

/// The cover of no blocks is empty, and only that one.
pub proof fn lemma_root_cover_empty(count: nat)
    requires
        2 * count <= u64::MAX,
    ensures
        root_cover(count).len() == 0 <==> count == 0,
{
    if count >= 1 {
        lemma_root_cover_last(count);
    }
}

/// Where the last root of a cover is a sibling of the subtree that follows
/// it, the two make up the subtree of twice the size one level up.
pub proof fn lemma_cover_merge(blocks: nat, k: nat, q: nat)
    requires
        blocks >= 1,
        blocks == q * pow2(k),
        2 * (blocks + pow2(k)) <= MAX_INDEX,
        parent_of(root_cover(blocks).last() as nat) == parent_of(index_at(k, q)),
    ensures
        q % 2 == 1,
        blocks >= pow2(k),
        root_cover(blocks).drop_last() == root_cover((blocks - pow2(k)) as nat),
        parent_of(index_at(k, q)) == index_at(k + 1, ((q - 1) / 2) as nat),
        blocks - pow2(k) == ((q - 1) / 2) * pow2(k + 1),
        index_at(k + 1, ((q - 1) / 2) as nat) < 2 * (blocks + pow2(k)),
{
    let w = pow2(k);
    lemma_pow2_pos(k);
    lemma_low_parts(blocks);
    lemma_root_cover_last(blocks);
    let d = low_depth(blocks);
    let l = low_power(blocks);
    let r = low_quotient(blocks);
    let left = root_cover(blocks).last() as nat;
    assert(left == 2 * blocks - l - 1);
    lemma_index_by_span(d, (r - 1) as nat);
    assert((r - 1) * l == r * l - l) by (nonlinear_arith);
    assert(left == index_at(d, (r - 1) as nat));
    lemma_parent_of_index(d, (r - 1) as nat);
    lemma_parent_of_index(k, q);
    lemma_depth_of_index(d + 1, ((r - 1) as nat) / 2);
    lemma_depth_of_index(k + 1, q / 2);
    assert(d == k);
    assert(l == w);
    assert(q == r) by (nonlinear_arith)
        requires
            q * w == r * w,
            w > 0,
    ;
    assert(root_cover(blocks).drop_last() == root_cover((blocks - l) as nat));
    lemma_pow2_unfold(k + 1);
    let h = ((q - 1) / 2) as nat;
    assert(q == 2 * h + 1);
    assert(q / 2 == h);
    assert(h * (2 * w) == (2 * h + 1) * w - w) by (nonlinear_arith);
    lemma_index_by_span(k + 1, h);
}

/// Where a cover is empty or its last root is no sibling of the subtree
/// that follows it, the cover with that subtree is the cover of both.
pub proof fn lemma_cover_stop(blocks: nat, k: nat, q: nat)
    requires
        blocks == q * pow2(k),
        2 * (blocks + pow2(k)) <= MAX_INDEX,
        blocks == 0 || parent_of(root_cover(blocks).last() as nat) != parent_of(index_at(k, q)),
    ensures
        root_cover(blocks + pow2(k)) == root_cover(blocks).push(index_at(k, q) as u64),
        index_at(k, q) == 2 * blocks + pow2(k) - 1,
        q % 2 == 0,
{
    let w = pow2(k);
    lemma_pow2_pos(k);
    lemma_index_by_span(k, q);
    if q % 2 == 1 {
        lemma_low_unique(k, q, blocks);
        lemma_low_parts(blocks);
        lemma_root_cover_last(blocks);
        let left = root_cover(blocks).last() as nat;
        lemma_index_by_span(k, (q - 1) as nat);
        assert((q - 1) * w == q * w - w) by (nonlinear_arith);
        assert(left == index_at(k, (q - 1) as nat));
        lemma_parent_of_index(k, (q - 1) as nat);
        lemma_parent_of_index(k, q);
        assert(((q - 1) as nat) / 2 == q / 2);
        assert(false);
    }
    assert((q + 1) * w == q * w + w) by (nonlinear_arith);
    lemma_low_unique(k, q + 1, blocks + w);
    lemma_root_cover_last(blocks + w);
}

/// Adding the subtree that follows a canonical root cover gives the
/// canonical root cover of the blocks of both.
pub proof fn lemma_push_node_cover(roots: Seq<NodeView>, node: NodeView, blocks: nat, k: nat, q: nat)
    requires
        blocks == q * pow2(k),
        node.index == index_at(k, q),
        node_indices(roots) == root_cover(blocks),
        2 * (blocks + pow2(k)) <= MAX_INDEX,
    ensures
        node_indices(push_node(roots, node)) == root_cover(blocks + pow2(k)),
    decreases roots.len(),
{
    lemma_root_cover_empty(blocks);
    lemma_pow2_pos(k);
    if roots.len() > 0 && siblings(roots.last(), node) {
        assert(roots.last().index == root_cover(blocks).last());
        lemma_cover_merge(blocks, k, q);
        let merged = parent_node(roots.last(), node);
        let h = ((q - 1) / 2) as nat;
        lemma_pow2_unfold(k + 1);
        assert(node_indices(roots.drop_last()) =~= root_cover(blocks).drop_last());
        lemma_push_node_cover(roots.drop_last(), merged, (blocks - pow2(k)) as nat, k + 1, h);
    } else {
        if roots.len() > 0 {
            assert(roots.last().index == root_cover(blocks).last());
        }
        lemma_cover_stop(blocks, k, q);
        assert(node_indices(roots.push(node)) =~= node_indices(roots).push(node.index));
    }
}

/// Adding the leaf of the next block to the canonical root cover of the
/// blocks so far gives the canonical root cover with that block.
pub proof fn lemma_push_leaf_cover(roots: Seq<NodeView>, length: u64, data: Seq<u8>)
    requires
        length < MAX_LENGTH,
        node_indices(roots) == root_cover(length as nat),
    ensures
        node_indices(push_node(roots, leaf_node(length, data))) == root_cover(length as nat + 1),
{
    lemma_pow2_zero();
    lemma_index_by_span(0, length as nat);
    lemma_push_node_cover(roots, leaf_node(length, data), length as nat, 0, length as nat);
}

/// Two to the power of zero is one.
pub proof fn lemma_pow2_zero()
    ensures
        pow2(0) == 1,
{
    reveal(vstd::arithmetic::power::pow);
    vstd::arithmetic::power2::lemma_pow2(0);
}

/// Adding a node keeps the sum of the roots' lengths, plus its own.
pub proof fn lemma_push_node_total(roots: Seq<NodeView>, node: NodeView)
    requires
        total_length(roots) + node.length <= u64::MAX,
    ensures
        total_length(push_node(roots, node)) == total_length(roots) + node.length,
    decreases roots.len(),
{
    if roots.len() > 0 && siblings(roots.last(), node) {
        lemma_push_node_total(roots.drop_last(), parent_node(roots.last(), node));
    } else {
        lemma_total_length_push(roots, node);
    }
}

/// Computes the hash that is signed for the given roots, length and fork.
pub fn tree_hash(roots: &[Node], length: u64, fork: u64) -> (hash: Vec<u8>)
    ensures
        hash@ == signable(node_views(roots@), length, fork),
        hash@.len() == 32,
{
    let mut hashes: Vec<u8> = Vec::new();
    let ghost views = node_views(roots@);
    let mut i: usize = 0;
    proof {
        assert(views.take(0) =~= Seq::<NodeView>::empty());
    }
    while i < roots.len()
        invariant
            i <= roots@.len(),
            views == node_views(roots@),
            hashes@ == concat_hashes(views.take(i as int)),
        decreases roots@.len() - i,
    {
        proof {
            assert(views.take(i + 1) =~= views.take(i as int).push(views[i as int]));
            lemma_concat_hashes_push(views.take(i as int), views[i as int]);
        }
        append_bytes(&mut hashes, roots[i].hash.as_slice());
        i += 1;
    }
    proof {
        assert(views.take(i as int) =~= views);
    }
    root_hash(length, fork, hashes.as_slice())
}

/// A batch of appended blocks, staged on top of a committed tree state.
#[derive(Debug)]
pub struct MerkleTreeChangeset {
    /// Number of blocks with the batch.
    pub length: u64,
    /// Number of blocks of the committed state below.
    pub ancestors: u64,
    /// Number of bytes with the batch.
    pub byte_length: u64,
    /// Number of blocks in the batch.
    pub batch_length: u64,
    /// Fork of the log.
    pub fork: u64,
    /// Roots with the batch.
    pub roots: Vec<Node>,
    /// Nodes that the batch brings into the tree.
    pub nodes: Vec<Node>,
    /// The hash that is signed, once computed.
    pub hash: Option<Vec<u8>>,
    /// The signature, once made or verified.
    pub signature: Option<Vec<u8>>,
}

/// The committed state of the tree.
#[derive(Debug)]
pub struct MerkleTree {
    /// Roots of the committed blocks.
    pub roots: Vec<Node>,
    /// Number of committed blocks.
    pub length: u64,
    /// Number of committed bytes.
    pub byte_length: u64,
    /// Fork of the log.
    pub fork: u64,
    /// Signature over the roots; none while the tree is empty.
    pub signature: Option<Vec<u8>>,
    /// Nodes that are committed and not yet in the tree segment.
    pub unflushed: Vec<Node>,
}

impl MerkleTreeChangeset {
    /// Whether the staged roots are those of a tree, and the staged nodes
    /// carry hashes of 32 bytes.
    pub open spec fn well_formed(&self) -> bool {
        &&& tree_ok(node_views(self.roots@), self.length, self.byte_length)
        &&& nodes_ok(node_views(self.nodes@))
        &&& indices_ok(node_views(self.nodes@))
        &&& self.ancestors + self.batch_length == self.length
    }

    /// The hash that is signed for the staged state.
    pub open spec fn signable(&self) -> Seq<u8> {
        signable(node_views(self.roots@), self.length, self.fork)
    }

    /// An empty batch on top of the given committed state.
    pub fn new(length: u64, byte_length: u64, fork: u64, roots: Vec<Node>) -> (changeset:
        MerkleTreeChangeset)
        ensures
            changeset.length == length,
            changeset.ancestors == length,
            changeset.byte_length == byte_length,
            changeset.batch_length == 0,
            changeset.fork == fork,
            changeset.roots == roots,
            changeset.nodes@.len() == 0,
            changeset.hash is None,
            changeset.signature is None,
    {
        MerkleTreeChangeset {
            length,
            ancestors: length,
            byte_length,
            batch_length: 0,
            fork,
            roots,
            nodes: Vec::new(),
            hash: None,
            signature: None,
        }
    }

    /// Stages one more block: its leaf is added at the right of the roots,
    /// and siblings are folded into their parents. Returns the block's
    /// length.
    pub fn append(&mut self, data: &[u8]) -> (added: usize)
        requires
            old(self).well_formed(),
            old(self).length < MAX_LENGTH,
            old(self).byte_length + data@.len() <= u64::MAX,
        ensures
            added == data@.len(),
            final(self).well_formed(),
            node_views(final(self).roots@) == push_node(
                node_views(old(self).roots@),
                leaf_node(old(self).length, data@),
            ),
            node_views(final(self).nodes@) == node_views(old(self).nodes@) + new_nodes(
                node_views(old(self).roots@),
                leaf_node(old(self).length, data@),
            ),
            final(self).length == old(self).length + 1,
            final(self).byte_length == old(self).byte_length + data@.len(),
            final(self).batch_length == old(self).batch_length + 1,
            final(self).ancestors == old(self).ancestors,
            final(self).fork == old(self).fork,
            final(self).hash is None,
            final(self).signature is None,
    {
        let leaf = Node::new(2 * self.length, leaf_hash(data), data.len() as u64);
        self.append_leaf(&leaf);
        data.len()
    }

    /// Stages the leaf of one more block: it is added at the right of the
    /// roots, and siblings are folded into their parents.
    #[verifier::rlimit(50)]
    pub fn append_leaf(&mut self, leaf: &Node)
        requires
            old(self).well_formed(),
            old(self).length < MAX_LENGTH,
            leaf.index == 2 * old(self).length,
            node_ok(leaf@),
            old(self).byte_length + leaf.length <= u64::MAX,
        ensures
            final(self).well_formed(),
            node_views(final(self).roots@) == push_node(node_views(old(self).roots@), leaf@),
            node_views(final(self).nodes@) == node_views(old(self).nodes@) + new_nodes(
                node_views(old(self).roots@),
                leaf@,
            ),
            final(self).length == old(self).length + 1,
            final(self).byte_length == old(self).byte_length + leaf.length,
            final(self).batch_length == old(self).batch_length + 1,
            final(self).ancestors == old(self).ancestors,
            final(self).fork == old(self).fork,
            final(self).hash is None,
            final(self).signature is None,
    {
        let ghost first_roots = node_views(self.roots@);
        let ghost first_nodes = node_views(self.nodes@);
        let ghost leaf_view = leaf@;
        let ghost blocks = self.length as nat;
        self.nodes.push(leaf.clone());
        self.roots.push(leaf.clone());
        self.length = self.length + 1;
        self.byte_length = self.byte_length + leaf.length;
        self.batch_length = self.batch_length + 1;
        self.hash = None;
        self.signature = None;
        let ghost mut k: nat = 0;
        let ghost mut q: nat = blocks;
        let ghost mut m: nat = blocks;
        proof {
            lemma_pow2_zero();
            lemma_index_by_span(0, blocks);
            lemma_total_length_push(first_roots, leaf_view);
            assert(node_views(self.roots@) =~= first_roots.push(leaf_view));
            assert(node_views(self.nodes@) =~= first_nodes.push(leaf_view));
            assert(node_views(self.roots@).drop_last() =~= first_roots);
            assert(node_views(self.nodes@).drop_last() =~= first_nodes);
        }
        loop
            invariant_except_break
                self.roots@.len() >= 1,
                m == q * pow2(k),
                m + pow2(k) == blocks + 1,
                node_views(self.roots@).last().index == index_at(k, q),
                node_indices(node_views(self.roots@).drop_last()) == root_cover(m),
                push_node(first_roots, leaf_view) == push_node(
                    node_views(self.roots@).drop_last(),
                    node_views(self.roots@).last(),
                ),
                first_nodes + new_nodes(first_roots, leaf_view) == node_views(
                    self.nodes@,
                ).drop_last() + new_nodes(
                    node_views(self.roots@).drop_last(),
                    node_views(self.roots@).last(),
                ),
                self.nodes@.len() >= 1,
                node_views(self.nodes@).last() == node_views(self.roots@).last(),
            invariant
                blocks + 1 <= MAX_LENGTH,
                blocks == old(self).length,
                first_roots == node_views(old(self).roots@),
                first_nodes == node_views(old(self).nodes@),
                leaf_view == leaf@,
                nodes_ok(node_views(self.roots@)),
                nodes_ok(node_views(self.nodes@)),
                indices_ok(node_views(self.nodes@)),
                total_length(node_views(self.roots@)) == old(self).byte_length + leaf.length,
                old(self).byte_length + leaf.length <= u64::MAX,
                self.length == blocks + 1,
                self.byte_length == old(self).byte_length + leaf.length,
                self.batch_length == old(self).batch_length + 1,
                self.ancestors == old(self).ancestors,
                old(self).ancestors + old(self).batch_length == old(self).length,
                self.fork == old(self).fork,
                self.hash is None,
                self.signature is None,
            ensures
                node_views(self.roots@) == push_node(first_roots, leaf_view),
                node_views(self.nodes@) == first_nodes + new_nodes(first_roots, leaf_view),
                node_indices(node_views(self.roots@)) == root_cover(blocks + 1),
            decreases self.roots@.len(),
        {
            let count = self.roots.len();
            let ghost current = node_views(self.roots@);
            let ghost emitted = node_views(self.nodes@);
            proof {
                lemma_pow2_pos(k);
                lemma_root_cover_empty(m);
                lemma_index_by_span(k, q);
                assert(current.last() == self.roots@[count - 1]@);
                assert(current.drop_last().len() == count - 1);
                assert(node_indices(current.drop_last()).len() == count - 1);
            }
            if count < 2 {
                proof {
                    assert(m == 0);
                    lemma_cover_stop(m, k, q);
                    assert(current.drop_last().push(current.last()) =~= current);
                    assert(emitted.drop_last() + seq![current.last()] =~= emitted.drop_last().push(
                        current.last(),
                    ));
                    assert(node_indices(current) =~= node_indices(current.drop_last()).push(
                        current.last().index,
                    ));
                }
                break ;
            }
            proof {
                assert(m >= 1);
                assert(current.drop_last().last() == self.roots@[count - 2]@);
                assert(node_indices(current.drop_last()).last() == self.roots@[count - 2].index);
                lemma_root_cover_bound(m, count - 2);
            }
            let left_parent = flat_tree::parent(self.roots[count - 2].index());
            let right_parent = flat_tree::parent(self.roots[count - 1].index());
            if left_parent != right_parent {
                proof {
                    lemma_cover_stop(m, k, q);
                    assert(current.drop_last().push(current.last()) =~= current);
                    assert(emitted.drop_last() + seq![current.last()] =~= emitted.drop_last().push(
                        current.last(),
                    ));
                    assert(node_indices(current) =~= node_indices(current.drop_last()).push(
                        current.last().index,
                    ));
                }
                break ;
            }
            proof {
                lemma_cover_merge(m, k, q);
                lemma_pow2_unfold(k + 1);
                lemma_total_length_push(current.drop_last(), current.last());
                lemma_total_length_push(current.drop_last().drop_last(), current.drop_last().last());
                assert(current.drop_last().push(current.last()) =~= current);
                assert(current.drop_last().drop_last().push(current.drop_last().last())
                    =~= current.drop_last());
            }
            let right = self.roots.pop().unwrap();
            let left = self.roots.pop().unwrap();
            let length = left.length + right.length;
            let merged = Node::new(
                left_parent,
                parent_hash(length, left.hash.as_slice(), right.hash.as_slice()),
                length,
            );
            proof {
                assert(left@ == current.drop_last().last());
                assert(right@ == current.last());
                assert(merged@ == parent_node(left@, right@));
                assert(node_views(self.roots@) =~= current.drop_last().drop_last());
            }
            self.nodes.push(merged.clone());
            self.roots.push(merged);
            proof {
                let next = node_views(self.roots@);
                assert(next =~= current.drop_last().drop_last().push(merged@));
                assert(next.drop_last() =~= current.drop_last().drop_last());
                assert(next.last() == merged@);
                lemma_total_length_push(current.drop_last().drop_last(), merged@);
                assert(node_views(self.nodes@) =~= emitted.push(merged@));
                assert(node_views(self.nodes@).drop_last() =~= emitted);
                assert(emitted =~= emitted.drop_last().push(current.last()));
                assert(emitted.drop_last() + (seq![current.last()] + new_nodes(
                    next.drop_last(),
                    merged@,
                )) =~= emitted + new_nodes(next.drop_last(), merged@));
                assert(node_indices(next.drop_last()) =~= node_indices(
                    current.drop_last(),
                ).drop_last());
                m = (m - pow2(k)) as nat;
                q = ((q - 1) / 2) as nat;
                k = k + 1;
            }
        }
    }

    /// The hash that is signed for the staged state.
    pub fn hash(&self) -> (hash: Vec<u8>)
        ensures
            hash@ == self.signable(),
            hash@.len() == 32,
    {
        tree_hash(self.roots.as_slice(), self.length, self.fork)
    }

    /// Computes the hash of the staged state and signs it. The signature
    /// is none where the signer rejects the keys.
    pub fn hash_and_sign(&mut self, public: &PublicKey, secret: &SecretKey)
        ensures
            final(self).hash matches Some(h) && h@ == old(self).signable(),
            (match final(self).signature {
                Some(s) => Some(s@),
                None => None,
            }) == ed25519_signature(secret@, public@, old(self).signable()),
            final(self).signature matches Some(s) ==> s@.len() == 64,
            final(self).length == old(self).length,
            final(self).ancestors == old(self).ancestors,
            final(self).byte_length == old(self).byte_length,
            final(self).batch_length == old(self).batch_length,
            final(self).fork == old(self).fork,
            final(self).roots == old(self).roots,
            final(self).nodes == old(self).nodes,
    {
        let hash = self.hash();
        let signature = sign(public, secret, hash.as_slice());
        self.hash = Some(hash);
        self.signature = signature;
    }

    /// Takes a signature made elsewhere, if it verifies over the staged
    /// state under `public`; `InvalidSignature` otherwise, and then nothing
    /// changes.
    pub fn verify_and_set_signature(&mut self, signature: &[u8], public: &PublicKey) -> (result:
        Result<(), HypercoreError>)
        ensures
            result is Ok <==> ed25519_verifies(public@, old(self).signable(), signature@),
            result matches Err(e) ==> e is InvalidSignature && *final(self) == *old(self),
            result is Ok ==> {
                &&& final(self).hash matches Some(h) && h@ == old(self).signable()
                &&& final(self).signature matches Some(s) && s@ == signature@
                &&& final(self).length == old(self).length
                &&& final(self).ancestors == old(self).ancestors
                &&& final(self).byte_length == old(self).byte_length
                &&& final(self).batch_length == old(self).batch_length
                &&& final(self).fork == old(self).fork
                &&& final(self).roots == old(self).roots
                &&& final(self).nodes == old(self).nodes
            },
    {
        let hash = self.hash();
        if !verify(public, hash.as_slice(), signature) {
            return Err(HypercoreError::InvalidSignature);
        }
        let mut copy: Vec<u8> = Vec::new();
        append_bytes(&mut copy, signature);
        self.hash = Some(hash);
        self.signature = Some(copy);
        Ok(())
    }
}

impl MerkleTree {
    /// Whether the roots are those of a tree of the recorded length and
    /// byte length, and the nodes not yet flushed carry hashes of 32 bytes.
    pub open spec fn well_formed(&self) -> bool {
        &&& tree_ok(node_views(self.roots@), self.length, self.byte_length)
        &&& nodes_ok(node_views(self.unflushed@))
        &&& indices_ok(node_views(self.unflushed@))
    }

    /// The hash that is signed for the committed state.
    pub open spec fn signable(&self) -> Seq<u8> {
        signable(node_views(self.roots@), self.length, self.fork)
    }

    /// Whether the state is well formed and, unless empty, carries a
    /// signature of 64 bytes over its roots that verifies under `public`.
    pub open spec fn committed(&self, public: Seq<u8>) -> bool {
        &&& self.well_formed()
        &&& self.length > 0 ==> (self.signature matches Some(s) && s@.len() == 64
            && ed25519_verifies(public, self.signable(), s@))
    }

    /// The empty tree at the given fork.
    pub fn new(fork: u64) -> (tree: MerkleTree)
        ensures
            tree.length == 0,
            tree.byte_length == 0,
            tree.fork == fork,
            tree.roots@.len() == 0,
            tree.unflushed@.len() == 0,
            tree.signature is None,
            tree.well_formed(),
            forall|public: Seq<u8>| tree.committed(public),
    {
        let tree = MerkleTree {
            roots: Vec::new(),
            length: 0,
            byte_length: 0,
            fork,
            signature: None,
            unflushed: Vec::new(),
        };
        proof {
            assert(node_views(tree.roots@) =~= Seq::<NodeView>::empty());
            assert(node_indices(node_views(tree.roots@)) =~= root_cover(0));
        }
        tree
    }

    /// An empty batch on top of the committed state.
    pub fn changeset(&self) -> (changeset: MerkleTreeChangeset)
        requires
            self.well_formed(),
        ensures
            changeset.well_formed(),
            changeset.length == self.length,
            changeset.ancestors == self.length,
            changeset.byte_length == self.byte_length,
            changeset.batch_length == 0,
            changeset.fork == self.fork,
            node_views(changeset.roots@) == node_views(self.roots@),
            changeset.nodes@.len() == 0,
            changeset.hash is None,
            changeset.signature is None,
    {
        let changeset = MerkleTreeChangeset::new(
            self.length,
            self.byte_length,
            self.fork,
            clone_nodes(self.roots.as_slice()),
        );
        proof {
            assert(node_views(changeset.nodes@) =~= Seq::<NodeView>::empty());
        }
        changeset
    }

    /// Replaces the committed state by the staged one. The changeset must
    /// stand on the committed state (`NonMonotonicUpgrade` otherwise) and
    /// carry a signature that verifies under `public` (`InvalidSignature`
    /// otherwise); on an error nothing changes.
    pub fn commit(&mut self, changeset: MerkleTreeChangeset, public: &PublicKey) -> (result: Result<
        (),
        HypercoreError,
    >)
        requires
            old(self).well_formed(),
            changeset.well_formed(),
        ensures
            result is Ok <==> {
                &&& changeset.ancestors == old(self).length
                &&& changeset.fork == old(self).fork
                &&& changeset.signature matches Some(s) && ed25519_verifies(
                    public@,
                    changeset.signable(),
                    s@,
                )
            },
            result is Ok ==> {
                &&& final(self).committed(public@)
                &&& node_views(final(self).roots@) == node_views(changeset.roots@)
                &&& final(self).length == changeset.length
                &&& final(self).byte_length == changeset.byte_length
                &&& final(self).fork == changeset.fork
                &&& final(self).signature == changeset.signature
                &&& node_views(final(self).unflushed@) == node_views(old(self).unflushed@)
                    + node_views(changeset.nodes@)
            },
            result matches Err(e) ==> {
                &&& *final(self) == *old(self)
                &&& if changeset.ancestors == old(self).length && changeset.fork == old(self).fork {
                    e is InvalidSignature
                } else {
                    e is NonMonotonicUpgrade
                }
            },
    {
        if changeset.ancestors != self.length || changeset.fork != self.fork {
            return Err(HypercoreError::NonMonotonicUpgrade);
        }
        let hash = changeset.hash();
        let valid = match &changeset.signature {
            Some(signature) => verify(public, hash.as_slice(), signature.as_slice()),
            None => false,
        };
        if !valid {
            return Err(HypercoreError::InvalidSignature);
        }
        let ghost before = node_views(self.unflushed@);
        let ghost added = node_views(changeset.nodes@);
        let mut i: usize = 0;
        while i < changeset.nodes.len()
            invariant
                i <= changeset.nodes@.len(),
                added == node_views(changeset.nodes@),
                nodes_ok(added),
                indices_ok(added),
                nodes_ok(node_views(self.unflushed@)),
                indices_ok(node_views(self.unflushed@)),
                node_views(self.unflushed@) == before + added.take(i as int),
                self.roots == old(self).roots,
                self.length == old(self).length,
                self.byte_length == old(self).byte_length,
                self.fork == old(self).fork,
                self.signature == old(self).signature,
            decreases changeset.nodes@.len() - i,
        {
            let ghost so_far = node_views(self.unflushed@);
            self.unflushed.push(changeset.nodes[i].clone());
            proof {
                assert(node_views(self.unflushed@) =~= so_far.push(added[i as int]));
                assert(added.take(i + 1) =~= added.take(i as int).push(added[i as int]));
            }
            i += 1;
        }
        proof {
            assert(added.take(i as int) =~= added);
        }
        self.roots = changeset.roots;
        self.length = changeset.length;
        self.byte_length = changeset.byte_length;
        self.fork = changeset.fork;
        self.signature = changeset.signature;
        Ok(())
    }
}

} // verus!
