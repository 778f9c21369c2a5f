//! Proofs: what a peer ships with a block, a hash, a seek or an upgrade,
//! and how the tree checks it against its roots.

use vstd::prelude::*;

use crate::common::{append_bytes, bytes_equal, HypercoreError};
use crate::crypto::{ed25519_verifies, leaf_hash, parent_hash, verify, PublicKey};
use crate::flat::{parent_of, root_cover, sibling_of, MAX_INDEX};
use crate::messages::{
    node_ok, nodes_ok, DataBlock, DataBlockView, DataHash, DataHashView, DataSeek, DataSeekView,
    DataUpgrade, DataUpgradeView,
};
use crate::node::{
    clone_nodes, node_indices, node_views, total_length, Node, NodeView,
};
use crate::storage::{find_node, lemma_position_of, position_of, MAX_BLOCK_INDEX};
use crate::tree::{
    indices_ok, leaf_node, parent_node, siblings, signable, tree_hash, MerkleTree,
    MerkleTreeChangeset, MAX_LENGTH,
};
use crate::tree_records::{cover_indices, sum_lengths};

verus! {

/// Number of steps after which a walk up the tree has passed every index
/// that the tree holds.
pub const MAX_DEPTH: u64 = 64;

/// What a peer ships: a block, a hash, a seek and an upgrade, each with the
/// nodes that prove it, as far as it was asked for.
#[derive(Debug)]
pub struct Proof {
    /// A block with the siblings on its path.
    pub block: Option<DataBlock>,
    /// A node with the siblings on its path.
    pub hash: Option<DataHash>,
    /// The leaf that holds a byte offset, with the siblings on its path.
    pub seek: Option<DataSeek>,
    /// The roots of a longer log, with its signature.
    pub upgrade: Option<DataUpgrade>,
}

/// The parent that a node and its sibling give: both must be nodes that the
/// tree segment holds, siblings of each other, and not too long together.
pub open spec fn path_step(node: NodeView, sibling: NodeView) -> Option<NodeView> {
    if node.index <= MAX_INDEX && sibling.index <= MAX_INDEX && node.index != sibling.index
        && siblings(node, sibling) && node_ok(sibling) && node.length + sibling.length <= u64::MAX
        && parent_of(node.index as nat) <= MAX_INDEX {
        if node.index < sibling.index {
            Some(parent_node(node, sibling))
        } else {
            Some(parent_node(sibling, node))
        }
    } else {
        None
    }
}

/// The node that a path leads to: from `node` upwards, each step with the
/// next sibling of the path.
pub open spec fn path_root(node: NodeView, path: Seq<NodeView>) -> Option<NodeView>
    decreases path.len(),
{
    if path.len() == 0 {
        Some(node)
    } else {
        match path_step(node, path.first()) {
            Some(parent) => path_root(parent, path.drop_first()),
            None => None,
        }
    }
}

/// The parents that a path passes, from the lowest to the node it leads to.
pub open spec fn path_parents(node: NodeView, path: Seq<NodeView>) -> Seq<NodeView>
    decreases path.len(),
{
    if path.len() == 0 {
        Seq::empty()
    } else {
        match path_step(node, path.first()) {
            Some(parent) => seq![parent] + path_parents(parent, path.drop_first()),
            None => Seq::empty(),
        }
    }
}

/// Number of bytes under the siblings that lie to the left of a path.
pub open spec fn path_left(node: NodeView, path: Seq<NodeView>) -> nat
    decreases path.len(),
{
    if path.len() == 0 {
        0
    } else {
        match path_step(node, path.first()) {
            Some(parent) => (if path.first().index < node.index {
                path.first().length as nat
            } else {
                0
            }) + path_left(parent, path.drop_first()),
            None => 0,
        }
    }
}

/// Whether a node is the root that the roots hold at its index.
pub open spec fn is_root(roots: Seq<NodeView>, node: NodeView) -> bool {
    match position_of(roots, node.index, 0) {
        Some(place) => roots[place] == node,
        None => false,
    }
}

/// The leaf and the path of a block proof.
pub open spec fn block_leaf(block: DataBlockView) -> NodeView {
    leaf_node(block.index, block.value)
}

/// Whether a block proof leads to one of the roots.
pub open spec fn block_proved(roots: Seq<NodeView>, block: DataBlockView) -> bool {
    &&& block.index <= MAX_BLOCK_INDEX
    &&& block.value.len() <= u64::MAX
    &&& match path_root(block_leaf(block), block.nodes) {
        Some(root) => is_root(roots, root),
        None => false,
    }
}

/// Whether a hash proof leads to one of the roots: its first node is the
/// node at the index asked for, the others are the siblings on its path.
pub open spec fn hash_proved(roots: Seq<NodeView>, hash: DataHashView) -> bool {
    &&& hash.nodes.len() >= 1
    &&& hash.nodes[0].index == hash.index
    &&& hash.nodes[0].index <= MAX_INDEX
    &&& node_ok(hash.nodes[0])
    &&& match path_root(hash.nodes[0], hash.nodes.drop_first()) {
        Some(root) => is_root(roots, root),
        None => false,
    }
}

/// Whether a seek proof locates its byte offset: its first node is a leaf,
/// the others are the siblings on its path to one of the roots, and the
/// offset lies within the leaf, which starts behind the roots before that
/// root and the siblings to the left of the path.
pub open spec fn seek_proved(roots: Seq<NodeView>, seek: DataSeekView) -> bool {
    &&& seek.nodes.len() >= 1
    &&& seek.nodes[0].index % 2 == 0
    &&& seek.nodes[0].index <= MAX_INDEX
    &&& node_ok(seek.nodes[0])
    &&& match path_root(seek.nodes[0], seek.nodes.drop_first()) {
        Some(root) => is_root(roots, root) && {
            let start = total_length(roots.take(position_of(roots, root.index, 0)->0))
                + path_left(seek.nodes[0], seek.nodes.drop_first());
            start <= seek.bytes < start + seek.nodes[0].length
        },
        None => false,
    }
}

/// The nodes that a proof of a node and its path brings: the node and the
/// parents that the path passes.
pub open spec fn proof_nodes(node: NodeView, path: Seq<NodeView>) -> Seq<NodeView> {
    seq![node] + path_parents(node, path)
}

/// The node that stands for an index: from `nodes` where they hold one,
/// else from `roots`.
pub open spec fn pick(index: u64, nodes: Seq<NodeView>, roots: Seq<NodeView>) -> Option<NodeView> {
    match position_of(nodes, index, 0) {
        Some(place) => Some(nodes[place]),
        None => match position_of(roots, index, 0) {
            Some(place) => Some(roots[place]),
            None => None,
        },
    }
}

/// The nodes that stand for the indices of a cover, where each has one.
pub open spec fn picked_roots(cover: Seq<u64>, nodes: Seq<NodeView>, roots: Seq<NodeView>) -> Option<
    Seq<NodeView>,
>
    decreases cover.len(),
{
    if cover.len() == 0 {
        Some(Seq::empty())
    } else {
        match (picked_roots(cover.drop_last(), nodes, roots), pick(cover.last(), nodes, roots)) {
            (Some(rest), Some(node)) => Some(rest.push(node)),
            _ => None,
        }
    }
}

/// Where the nodes for a prefix of a cover cannot be picked, those for the
/// cover cannot be picked either.
pub proof fn lemma_picked_roots_prefix(
    cover: Seq<u64>,
    nodes: Seq<NodeView>,
    roots: Seq<NodeView>,
    count: int,
)
    requires
        0 <= count <= cover.len(),
        picked_roots(cover.take(count), nodes, roots) is None,
    ensures
        picked_roots(cover, nodes, roots) is None,
    decreases cover.len(),
{
    if count == cover.len() {
        assert(cover.take(count) == cover);
    } else {
        assert(cover.drop_last().take(count) == cover.take(count));
        lemma_picked_roots_prefix(cover.drop_last(), nodes, roots, count);
    }
}

/// Whether an upgrade stands on a tree of `length` blocks and adds blocks.
pub open spec fn upgrade_extends(length: u64, upgrade: DataUpgradeView) -> bool {
    upgrade.start == length && upgrade.length > 0 && upgrade.start + upgrade.length <= MAX_LENGTH
}

/// The roots that an upgrade gives a tree with the given roots: those of
/// the new cover, taken from the upgrade's nodes and, where it holds none,
/// from the roots; nothing where a root is missing, a node is malformed or
/// the roots are too long together.
pub open spec fn upgrade_roots(roots: Seq<NodeView>, upgrade: DataUpgradeView) -> Option<
    Seq<NodeView>,
> {
    if nodes_ok(upgrade.nodes) && indices_ok(upgrade.nodes) && nodes_ok(upgrade.additional_nodes)
        && indices_ok(upgrade.additional_nodes) {
        match picked_roots(
            root_cover((upgrade.start + upgrade.length) as nat),
            upgrade.nodes,
            roots,
        ) {
            Some(picked) => if total_length(picked) <= u64::MAX {
                Some(picked)
            } else {
                None
            },
            None => None,
        }
    } else {
        None
    }
}

/// A proof as a mathematical value.
pub struct ProofView {
    /// A block with the siblings on its path.
    pub block: Option<DataBlockView>,
    /// A node with the siblings on its path.
    pub hash: Option<DataHashView>,
    /// The leaf that holds a byte offset, with the siblings on its path.
    pub seek: Option<DataSeekView>,
    /// The roots of a longer log, with its signature.
    pub upgrade: Option<DataUpgradeView>,
}

impl View for Proof {
    type V = ProofView;

    open spec fn view(&self) -> ProofView {
        ProofView {
            block: match self.block {
                Some(block) => Some(block@),
                None => None,
            },
            hash: match self.hash {
                Some(hash) => Some(hash@),
                None => None,
            },
            seek: match self.seek {
                Some(seek) => Some(seek@),
                None => None,
            },
            upgrade: match self.upgrade {
                Some(upgrade) => Some(upgrade@),
                None => None,
            },
        }
    }
}

/// The roots that a proof is checked against: those that its upgrade
/// gives, or without an upgrade those of the tree.
pub open spec fn proof_target(roots: Seq<NodeView>, proof: ProofView) -> Seq<NodeView> {
    match proof.upgrade {
        Some(upgrade) => upgrade_roots(roots, upgrade)->0,
        None => roots,
    }
}

/// Whether the block, the hash and the seek of a proof, as far as it holds
/// them, lead to the given roots.
pub open spec fn parts_proved(target: Seq<NodeView>, proof: ProofView) -> bool {
    &&& proof.block matches Some(block) ==> block_proved(target, block)
    &&& proof.hash matches Some(hash) ==> hash_proved(target, hash)
    &&& proof.seek matches Some(seek) ==> seek_proved(target, seek)
}

/// The nodes that a proof brings into the tree: those of its upgrade, then
/// those of its block, its hash and its seek.
pub open spec fn proof_brings(proof: ProofView) -> Seq<NodeView> {
    (match proof.upgrade {
        Some(upgrade) => upgrade.nodes + upgrade.additional_nodes,
        None => Seq::empty(),
    }) + (match proof.block {
        Some(block) => proof_nodes(block_leaf(block), block.nodes),
        None => Seq::empty(),
    }) + (match proof.hash {
        Some(hash) => proof_nodes(hash.nodes[0], hash.nodes.drop_first()),
        None => Seq::empty(),
    }) + (match proof.seek {
        Some(seek) => proof_nodes(seek.nodes[0], seek.nodes.drop_first()),
        None => Seq::empty(),
    })
}

/// Whether every node of a sequence is well formed and has an index that
/// the tree segment holds.
pub fn nodes_are_ok(nodes: &[Node]) -> (ok: bool)
    ensures
        ok == (nodes_ok(node_views(nodes@)) && indices_ok(node_views(nodes@))),
{
    let ghost views = node_views(nodes@);
    let mut i: usize = 0;
    while i < nodes.len()
        invariant
            i <= nodes@.len(),
            views == node_views(nodes@),
            forall|j: int| 0 <= j < i ==> node_ok(#[trigger] views[j]) && views[j].index <= MAX_INDEX,
        decreases nodes@.len() - i,
    {
        if nodes[i].hash.len() != 32 || nodes[i].index > MAX_INDEX {
            assert(!node_ok(views[i as int]) || views[i as int].index > MAX_INDEX);
            return false;
        }
        i += 1;
    }
    true
}

/// Walks a path from a node upwards: gives the node it leads to, the
/// parents it passes, and the number of bytes to its left; nothing where a
/// node of the path is no sibling.
#[verifier::rlimit(50)]
pub fn fold_path(start: Node, path: &[Node]) -> (found: Option<(Node, Vec<Node>, u64)>)
    requires
        node_ok(start@),
    ensures
        found is Some <==> path_root(start@, node_views(path@)) is Some,
        found matches Some(walk) ==> {
            &&& Some(walk.0@) == path_root(start@, node_views(path@))
            &&& node_views(walk.1@) == path_parents(start@, node_views(path@))
            &&& walk.2 == path_left(start@, node_views(path@))
            &&& nodes_ok(node_views(walk.1@))
            &&& indices_ok(node_views(walk.1@))
            &&& node_ok(walk.0@)
        },
{
    let ghost first = start@;
    let ghost all = node_views(path@);
    let mut node = start;
    let mut parents: Vec<Node> = Vec::new();
    let mut left: u64 = 0;
    let mut i: usize = 0;
    proof {
        assert(all.skip(0) =~= all);
        assert(node_views(parents@) =~= Seq::<NodeView>::empty());
    }
    while i < path.len()
        invariant
            i <= path@.len(),
            all == node_views(path@),
            first == start@,
            node_ok(node@),
            nodes_ok(node_views(parents@)),
            indices_ok(node_views(parents@)),
            path_root(first, all) == path_root(node@, all.skip(i as int)),
            path_root(first, all) is Some ==> {
                &&& path_parents(first, all) == node_views(parents@) + path_parents(
                    node@,
                    all.skip(i as int),
                )
                &&& path_left(first, all) == left + path_left(node@, all.skip(i as int))
            },
        decreases path@.len() - i,
    {
        let sibling = &path[i];
        let ghost rest = all.skip(i as int);
        let ghost done = node_views(parents@);
        proof {
            assert(rest.len() > 0);
            assert(rest.first() == sibling@);
            assert(rest.drop_first() =~= all.skip(i + 1));
            assert(path_root(node@, rest) == match path_step(node@, sibling@) {
                Some(parent) => path_root(parent, rest.drop_first()),
                None => None,
            });
        }
        if node.index > MAX_INDEX || sibling.index > MAX_INDEX || node.index == sibling.index
            || sibling.hash.len() != 32 {
            return None;
        }
        let parent_index = flat_tree::parent(node.index);
        if parent_index != flat_tree::parent(sibling.index) || parent_index > MAX_INDEX {
            return None;
        }
        let length = match node.length.checked_add(sibling.length) {
            Some(length) => length,
            None => {
                return None;
            },
        };
        let ghost below = node@;
        let parent = if node.index < sibling.index {
            Node::new(
                parent_index,
                parent_hash(length, node.hash.as_slice(), sibling.hash.as_slice()),
                length,
            )
        } else {
            match left.checked_add(sibling.length) {
                Some(sum) => {
                    left = sum;
                },
                None => {
                    proof {
                        if path_root(first, all) is Some {
                            lemma_path_left_bound(first, all);
                            assert(path_step(below, sibling@) is Some);
                            assert(path_left(below, rest) >= sibling.length);
                        }
                    }
                    return None;
                },
            }
            Node::new(
                parent_index,
                parent_hash(length, sibling.hash.as_slice(), node.hash.as_slice()),
                length,
            )
        };
        proof {
            assert(Some(parent@) == path_step(below, sibling@));
        }
        parents.push(parent.clone());
        proof {
            assert(node_views(parents@) =~= done.push(parent@));
            assert(done + (seq![parent@] + path_parents(parent@, all.skip(i + 1)))
                =~= done.push(parent@) + path_parents(parent@, all.skip(i + 1)));
        }
        node = parent;
        i += 1;
    }
    proof {
        assert(all.skip(i as int) =~= Seq::<NodeView>::empty());
        assert(node_views(parents@) + Seq::<NodeView>::empty() =~= node_views(parents@));
    }
    Some((node, parents, left))
}

/// The bytes to the left of a path that leads somewhere are fewer than the
/// bytes under the node it leads to.
pub proof fn lemma_path_left_bound(node: NodeView, path: Seq<NodeView>)
    requires
        path_root(node, path) is Some,
    ensures
        path_left(node, path) + node.length <= path_root(node, path)->0.length,
    decreases path.len(),
{
    if path.len() > 0 {
        let parent = path_step(node, path.first())->0;
        lemma_path_left_bound(parent, path.drop_first());
    }
}

impl MerkleTree {
    /// The indices of the siblings on the path from the leaf of a block up
    /// to the root that covers it: what a request for the block asks for.
    pub fn missing_nodes_for(&self, block_index: u64) -> (indices: Vec<u64>)
        ensures
            indices@ == path_indices(
                (2 * block_index) as nat,
                node_indices(node_views(self.roots@)),
                MAX_DEPTH as nat,
            ),
    {
        let mut indices: Vec<u64> = Vec::new();
        if block_index > MAX_BLOCK_INDEX {
            return indices;
        }
        let ghost roots = node_indices(node_views(self.roots@));
        let ghost first = (2 * block_index) as nat;
        let mut index = 2 * block_index;
        let mut steps: u64 = MAX_DEPTH;
        while steps > 0 && index <= MAX_INDEX && find_node(self.roots.as_slice(), index).is_none()
            invariant
                steps <= MAX_DEPTH,
                roots == node_indices(node_views(self.roots@)),
                path_indices(first, roots, MAX_DEPTH as nat) == indices@ + path_indices(
                    index as nat,
                    roots,
                    steps as nat,
                ),
            decreases steps,
        {
            let ghost before = indices@;
            proof {
                lemma_not_among(node_views(self.roots@), index);
            }
            let up = flat_tree::parent(index);
            indices.push(flat_tree::sibling(index));
            proof {
                assert(before + (seq![sibling_of(index as nat) as u64] + path_indices(
                    up as nat,
                    roots,
                    (steps - 1) as nat,
                )) =~= indices@ + path_indices(up as nat, roots, (steps - 1) as nat));
            }
            index = up;
            steps = steps - 1;
        }
        proof {
            if steps > 0 && index <= MAX_INDEX {
                lemma_among(node_views(self.roots@), index);
            }
            assert(indices@ + Seq::<u64>::empty() =~= indices@);
        }
        indices
    }

    /// Checks an upgrade against the tree: it must stand on the tree and
    /// add blocks (`NonMonotonicUpgrade`), give the roots of the longer log
    /// (`InvalidProof`) and carry a signature that verifies over them under
    /// `public` (`InvalidSignature`). Returns the state of the longer log
    /// with the nodes of the upgrade.
    pub fn verify_upgrade(&self, upgrade: &DataUpgrade, public: &PublicKey) -> (result: Result<
        MerkleTreeChangeset,
        HypercoreError,
    >)
        requires
            self.well_formed(),
        ensures
            result is Ok <==> upgrade_extends(self.length, upgrade@) && (upgrade_roots(
                node_views(self.roots@),
                upgrade@,
            ) matches Some(roots) && ed25519_verifies(
                public@,
                signable(roots, (upgrade.start + upgrade.length) as u64, self.fork),
                upgrade.signature@,
            )),
            result matches Ok(changeset) ==> {
                &&& changeset.well_formed()
                &&& Some(node_views(changeset.roots@)) == upgrade_roots(
                    node_views(self.roots@),
                    upgrade@,
                )
                &&& changeset.ancestors == self.length
                &&& changeset.fork == self.fork
                &&& changeset.length == upgrade.start + upgrade.length
                &&& node_views(changeset.nodes@) == upgrade@.nodes + upgrade@.additional_nodes
                &&& changeset.signature matches Some(s) && s@ == upgrade.signature@
            },
            result matches Err(e) ==> if !upgrade_extends(self.length, upgrade@) {
                e is NonMonotonicUpgrade
            } else if upgrade_roots(node_views(self.roots@), upgrade@) is None {
                e is InvalidProof
            } else {
                e is InvalidSignature
            },
    {
        if upgrade.start != self.length || upgrade.length == 0 || upgrade.length > MAX_LENGTH
            - upgrade.start {
            return Err(HypercoreError::NonMonotonicUpgrade);
        }
        let length = upgrade.start + upgrade.length;
        if !nodes_are_ok(upgrade.nodes.as_slice()) || !nodes_are_ok(
            upgrade.additional_nodes.as_slice(),
        ) {
            return Err(HypercoreError::InvalidProof);
        }
        let roots = match self.pick_roots(length, upgrade.nodes.as_slice()) {
            Some(roots) => roots,
            None => {
                return Err(HypercoreError::InvalidProof);
            },
        };
        let byte_length = match sum_lengths(roots.as_slice()) {
            Some(sum) => sum,
            None => {
                return Err(HypercoreError::InvalidProof);
            },
        };
        let hash = tree_hash(roots.as_slice(), length, self.fork);
        if !verify(public, hash.as_slice(), upgrade.signature.as_slice()) {
            return Err(HypercoreError::InvalidSignature);
        }
        let mut signature: Vec<u8> = Vec::new();
        append_bytes(&mut signature, upgrade.signature.as_slice());
        let mut nodes = clone_nodes(upgrade.nodes.as_slice());
        extend_nodes(&mut nodes, upgrade.additional_nodes.as_slice());
        Ok(
            MerkleTreeChangeset {
                length,
                ancestors: self.length,
                byte_length,
                batch_length: upgrade.length,
                fork: self.fork,
                roots,
                nodes,
                hash: Some(hash),
                signature: Some(signature),
            },
        )
    }

    /// Checks a proof against the tree: an upgrade as `verify_upgrade`
    /// does; a block, a hash and a seek must lead to the roots that the
    /// upgrade gives, or without an upgrade to the roots of the tree
    /// (`InvalidProof`). Returns the state that the proof leads to, with
    /// the nodes that it brings, to be committed; the tree itself does not
    /// change.
    #[verifier::rlimit(50)]
    pub fn verify_and_apply(&self, proof: &Proof, public: &PublicKey) -> (result: Result<
        MerkleTreeChangeset,
        HypercoreError,
    >)
        requires
            self.well_formed(),
        ensures
            result is Ok <==> {
                &&& proof@.upgrade matches Some(upgrade) ==> upgrade_extends(self.length, upgrade)
                    && (upgrade_roots(node_views(self.roots@), upgrade) matches Some(roots)
                    && ed25519_verifies(
                    public@,
                    signable(roots, (upgrade.start + upgrade.length) as u64, self.fork),
                    upgrade.signature,
                ))
                &&& parts_proved(proof_target(node_views(self.roots@), proof@), proof@)
            },
            result matches Ok(changeset) ==> {
                &&& changeset.well_formed()
                &&& node_views(changeset.roots@) == proof_target(node_views(self.roots@), proof@)
                &&& changeset.ancestors == self.length
                &&& changeset.fork == self.fork
                &&& changeset.length == match proof@.upgrade {
                    Some(upgrade) => (upgrade.start + upgrade.length) as u64,
                    None => self.length,
                }
                &&& node_views(changeset.nodes@) == proof_brings(proof@)
                &&& match proof@.upgrade {
                    Some(upgrade) => changeset.signature matches Some(s) && s@ == upgrade.signature,
                    None => match (changeset.signature, self.signature) {
                        (Some(s), Some(t)) => s@ == t@,
                        (None, None) => true,
                        _ => false,
                    },
                }
            },
            result matches Err(e) ==> match proof@.upgrade {
                Some(upgrade) => if !upgrade_extends(self.length, upgrade) {
                    e is NonMonotonicUpgrade
                } else if upgrade_roots(node_views(self.roots@), upgrade) is None {
                    e is InvalidProof
                } else if !ed25519_verifies(
                    public@,
                    signable(
                        upgrade_roots(node_views(self.roots@), upgrade)->0,
                        (upgrade.start + upgrade.length) as u64,
                        self.fork,
                    ),
                    upgrade.signature,
                ) {
                    e is InvalidSignature
                } else {
                    e is InvalidProof
                },
                None => e is InvalidProof,
            },
    {
        let mut changeset = match &proof.upgrade {
            Some(upgrade) => self.verify_upgrade(upgrade, public)?,
            None => {
                let mut changeset = self.changeset();
                match &self.signature {
                    Some(signature) => {
                        let mut copy: Vec<u8> = Vec::new();
                        append_bytes(&mut copy, signature.as_slice());
                        changeset.signature = Some(copy);
                    },
                    None => {},
                }
                proof {
                    assert(node_views(changeset.nodes@) =~= Seq::<NodeView>::empty());
                }
                changeset
            },
        };
        let ghost first = node_views(changeset.nodes@);
        let block = match &proof.block {
            Some(block) => match verify_block(changeset.roots.as_slice(), block) {
                Some(nodes) => nodes,
                None => {
                    return Err(HypercoreError::InvalidProof);
                },
            },
            None => Vec::new(),
        };
        let hash = match &proof.hash {
            Some(hash) => match verify_hash(changeset.roots.as_slice(), hash) {
                Some(nodes) => nodes,
                None => {
                    return Err(HypercoreError::InvalidProof);
                },
            },
            None => Vec::new(),
        };
        let seek = match &proof.seek {
            Some(seek) => match verify_seek(changeset.roots.as_slice(), seek) {
                Some(nodes) => nodes,
                None => {
                    return Err(HypercoreError::InvalidProof);
                },
            },
            None => Vec::new(),
        };
        extend_nodes(&mut changeset.nodes, block.as_slice());
        extend_nodes(&mut changeset.nodes, hash.as_slice());
        extend_nodes(&mut changeset.nodes, seek.as_slice());
        proof {
            let second = node_views(block@);
            let third = node_views(hash@);
            let fourth = node_views(seek@);
            if proof.block is None {
                assert(second =~= Seq::<NodeView>::empty());
            }
            if proof.hash is None {
                assert(third =~= Seq::<NodeView>::empty());
            }
            if proof.seek is None {
                assert(fourth =~= Seq::<NodeView>::empty());
            }
            assert(node_views(changeset.nodes@) =~= first + second + third + fourth);
            lemma_nodes_concat(first, second);
            lemma_nodes_concat(first + second, third);
            lemma_nodes_concat(first + second + third, fourth);
        }
        Ok(changeset)
    }

    /// The roots of a cover of `length` blocks, each taken from `nodes`
    /// where they hold one, else from the roots of the tree.
    pub fn pick_roots(&self, length: u64, nodes: &[Node]) -> (roots: Option<Vec<Node>>)
        requires
            length <= MAX_LENGTH,
            nodes_ok(node_views(nodes@)),
            nodes_ok(node_views(self.roots@)),
        ensures
            (match roots {
                Some(picked) => Some(node_views(picked@)),
                None => None,
            }) == picked_roots(
                root_cover(length as nat),
                node_views(nodes@),
                node_views(self.roots@),
            ),
            roots matches Some(picked) ==> nodes_ok(node_views(picked@)) && node_indices(
                node_views(picked@),
            ) == root_cover(length as nat),
    {
        let ghost added = node_views(nodes@);
        let ghost held = node_views(self.roots@);
        let cover = cover_indices(length);
        let mut roots: Vec<Node> = Vec::new();
        let mut i: usize = 0;
        proof {
            assert(cover@.take(0) =~= Seq::<u64>::empty());
            assert(node_views(roots@) =~= Seq::<NodeView>::empty());
        }
        while i < cover.len()
            invariant
                i <= cover@.len(),
                added == node_views(nodes@),
                held == node_views(self.roots@),
                nodes_ok(added),
                nodes_ok(held),
                cover@ == root_cover(length as nat),
                picked_roots(cover@.take(i as int), added, held) == Some(node_views(roots@)),
                node_indices(node_views(roots@)) == cover@.take(i as int),
                nodes_ok(node_views(roots@)),
            decreases cover@.len() - i,
        {
            let index = cover[i];
            let ghost done = node_views(roots@);
            proof {
                assert(cover@.take(i + 1).drop_last() =~= cover@.take(i as int));
                assert(cover@.take(i + 1).last() == index);
                if position_of(added, index, 0) is Some {
                    lemma_position_of(added, index, 0);
                }
                if position_of(held, index, 0) is Some {
                    lemma_position_of(held, index, 0);
                }
            }
            let found = match find_node(nodes, index) {
                Some(node) => Some(node.clone()),
                None => match find_node(self.roots.as_slice(), index) {
                    Some(node) => Some(node.clone()),
                    None => None,
                },
            };
            match found {
                Some(node) => {
                    assert(Some(node@) == pick(index, added, held));
                    roots.push(node);
                    proof {
                        assert(node_views(roots@) =~= done.push(node@));
                        assert(node_indices(done.push(node@)) =~= node_indices(done).push(index));
                        assert(cover@.take(i + 1) =~= cover@.take(i as int).push(index));
                    }
                },
                None => {
                    proof {
                        assert(pick(index, added, held) is None);
                        lemma_picked_roots_prefix(cover@, added, held, i + 1);
                    }
                    return None;
                },
            }
            i += 1;
        }
        proof {
            assert(cover@.take(i as int) =~= cover@);
        }
        Some(roots)
    }
}

/// Well-formed nodes put behind well-formed nodes are well formed.
pub proof fn lemma_nodes_concat(first: Seq<NodeView>, second: Seq<NodeView>)
    requires
        nodes_ok(first),
        indices_ok(first),
        nodes_ok(second),
        indices_ok(second),
    ensures
        nodes_ok(first + second),
        indices_ok(first + second),
{
    assert forall|i: int| 0 <= i < (first + second).len() implies node_ok(
        #[trigger] (first + second)[i],
    ) && (first + second)[i].index <= MAX_INDEX by {
        if i < first.len() {
            assert((first + second)[i] == first[i]);
        } else {
            assert((first + second)[i] == second[i - first.len()]);
        }
    }
}

/// Checks a block proof against roots; gives the nodes that it brings.
pub fn verify_block(roots: &[Node], block: &DataBlock) -> (nodes: Option<Vec<Node>>)
    ensures
        nodes is Some <==> block_proved(node_views(roots@), block@),
        nodes matches Some(brought) ==> {
            &&& node_views(brought@) == proof_nodes(block_leaf(block@), block@.nodes)
            &&& nodes_ok(node_views(brought@))
            &&& indices_ok(node_views(brought@))
        },
{
    if block.index > MAX_BLOCK_INDEX {
        return None;
    }
    let leaf = Node::new(2 * block.index, leaf_hash(block.value.as_slice()), block.value.len() as u64);
    assert(leaf@ == block_leaf(block@));
    let (root, parents, _) = match fold_path(leaf.clone(), block.nodes.as_slice()) {
        Some(walk) => walk,
        None => {
            return None;
        },
    };
    if root_place(roots, &root).is_none() {
        return None;
    }
    let mut nodes: Vec<Node> = Vec::new();
    nodes.push(leaf);
    proof {
        assert(node_views(nodes@) =~= seq![block_leaf(block@)]);
    }
    extend_nodes(&mut nodes, parents.as_slice());
    proof {
        lemma_nodes_concat(seq![block_leaf(block@)], node_views(parents@));
    }
    Some(nodes)
}

/// Checks a hash proof against roots; gives the nodes that it brings.
pub fn verify_hash(roots: &[Node], hash: &DataHash) -> (nodes: Option<Vec<Node>>)
    ensures
        nodes is Some <==> hash_proved(node_views(roots@), hash@),
        nodes matches Some(brought) ==> {
            &&& node_views(brought@) == proof_nodes(hash@.nodes[0], hash@.nodes.drop_first())
            &&& nodes_ok(node_views(brought@))
            &&& indices_ok(node_views(brought@))
        },
{
    if hash.nodes.len() == 0 || hash.nodes[0].index != hash.index || hash.nodes[0].index > MAX_INDEX
        || hash.nodes[0].hash.len() != 32 {
        return None;
    }
    let first = hash.nodes[0].clone();
    let path = vstd::slice::slice_subrange(hash.nodes.as_slice(), 1, hash.nodes.len());
    proof {
        assert(node_views(path@) =~= hash@.nodes.drop_first());
        assert(first@ == hash@.nodes[0]);
    }
    let (root, parents, _) = match fold_path(first.clone(), path) {
        Some(walk) => walk,
        None => {
            return None;
        },
    };
    if root_place(roots, &root).is_none() {
        return None;
    }
    let mut nodes: Vec<Node> = Vec::new();
    nodes.push(first);
    proof {
        assert(node_views(nodes@) =~= seq![hash@.nodes[0]]);
    }
    extend_nodes(&mut nodes, parents.as_slice());
    proof {
        lemma_nodes_concat(seq![hash@.nodes[0]], node_views(parents@));
    }
    Some(nodes)
}

/// Checks a seek proof against roots; gives the nodes that it brings.
pub fn verify_seek(roots: &[Node], seek: &DataSeek) -> (nodes: Option<Vec<Node>>)
    ensures
        nodes is Some <==> seek_proved(node_views(roots@), seek@),
        nodes matches Some(brought) ==> {
            &&& node_views(brought@) == proof_nodes(seek@.nodes[0], seek@.nodes.drop_first())
            &&& nodes_ok(node_views(brought@))
            &&& indices_ok(node_views(brought@))
        },
{
    if seek.nodes.len() == 0 || seek.nodes[0].index % 2 != 0 || seek.nodes[0].index > MAX_INDEX
        || seek.nodes[0].hash.len() != 32 {
        return None;
    }
    let ghost target = node_views(roots@);
    let first = seek.nodes[0].clone();
    let path = vstd::slice::slice_subrange(seek.nodes.as_slice(), 1, seek.nodes.len());
    proof {
        assert(node_views(path@) =~= seek@.nodes.drop_first());
        assert(first@ == seek@.nodes[0]);
    }
    let (root, parents, left) = match fold_path(first.clone(), path) {
        Some(walk) => walk,
        None => {
            return None;
        },
    };
    let place = match root_place(roots, &root) {
        Some(place) => place,
        None => {
            return None;
        },
    };
    let before = vstd::slice::slice_subrange(roots, 0, place);
    proof {
        assert(node_views(before@) =~= target.take(place as int));
    }
    let start = match sum_lengths(before) {
        Some(sum) => sum as u128 + left as u128,
        None => {
            return None;
        },
    };
    if !(start <= seek.bytes as u128 && (seek.bytes as u128) < start + first.length as u128) {
        return None;
    }
    let mut nodes: Vec<Node> = Vec::new();
    nodes.push(first);
    proof {
        assert(node_views(nodes@) =~= seq![seek@.nodes[0]]);
    }
    extend_nodes(&mut nodes, parents.as_slice());
    proof {
        lemma_nodes_concat(seq![seek@.nodes[0]], node_views(parents@));
    }
    Some(nodes)
}

/// The place of a node among the roots, where it is the root that they
/// hold at its index.
pub fn root_place(roots: &[Node], node: &Node) -> (place: Option<usize>)
    ensures
        place is Some <==> is_root(node_views(roots@), node@),
        place matches Some(found) ==> Some(found as int) == position_of(
            node_views(roots@),
            node.index,
            0,
        ) && found < roots@.len(),
{
    let ghost views = node_views(roots@);
    let mut i: usize = 0;
    while i < roots.len()
        invariant
            i <= roots@.len(),
            views == node_views(roots@),
            position_of(views, node.index, 0) == position_of(views, node.index, i as int),
        decreases roots@.len() - i,
    {
        if roots[i].index == node.index {
            assert(views[i as int] == roots@[i as int]@);
            if roots[i].length == node.length && bytes_equal(
                roots[i].hash.as_slice(),
                node.hash.as_slice(),
            ) {
                return Some(i);
            } else {
                return None;
            }
        }
        i += 1;
    }
    None
}

/// Appends copies of nodes to a vector of nodes.
pub fn extend_nodes(nodes: &mut Vec<Node>, more: &[Node])
    ensures
        node_views(final(nodes)@) == node_views(old(nodes)@) + node_views(more@),
{
    let ghost before = node_views(nodes@);
    let ghost added = node_views(more@);
    let mut i: usize = 0;
    proof {
        assert(before + added.take(0) =~= before);
    }
    while i < more.len()
        invariant
            i <= more@.len(),
            added == node_views(more@),
            node_views(nodes@) == before + added.take(i as int),
        decreases more@.len() - i,
    {
        let ghost so_far = node_views(nodes@);
        nodes.push(more[i].clone());
        proof {
            assert(node_views(nodes@) =~= so_far.push(added[i as int]));
            assert(added.take(i + 1) =~= added.take(i as int).push(added[i as int]));
        }
        i += 1;
    }
    proof {
        assert(added.take(i as int) =~= added);
    }
}

/// The indices of the siblings on the way from an index upwards, until an
/// index among `roots` is reached, the indices that the tree holds are
/// passed, or `steps` steps are made.
pub open spec fn path_indices(index: nat, roots: Seq<u64>, steps: nat) -> Seq<u64>
    decreases steps,
{
    if steps == 0 || index > MAX_INDEX || roots.contains(index as u64) {
        Seq::empty()
    } else {
        seq![sibling_of(index) as u64] + path_indices(parent_of(index), roots, (steps - 1) as nat)
    }
}

/// An index that no node has is not among the nodes' indices.
pub proof fn lemma_not_among(nodes: Seq<NodeView>, index: u64)
    requires
        position_of(nodes, index, 0) is None,
    ensures
        !node_indices(nodes).contains(index),
{
    if node_indices(nodes).contains(index) {
        let place = choose|i: int| 0 <= i < nodes.len() && node_indices(nodes)[i] == index;
        lemma_position_finds(nodes, index, 0, place);
    }
}

/// An index that a node has is among the nodes' indices.
pub proof fn lemma_among(nodes: Seq<NodeView>, index: u64)
    requires
        position_of(nodes, index, 0) is Some,
    ensures
        node_indices(nodes).contains(index),
{
    lemma_position_of(nodes, index, 0);
    let place = position_of(nodes, index, 0)->0;
    assert(node_indices(nodes)[place] == index);
}

/// Where a node at or behind `from` has the index, a position is found.
pub proof fn lemma_position_finds(nodes: Seq<NodeView>, index: u64, from: int, place: int)
    requires
        0 <= from <= place < nodes.len(),
        nodes[place].index == index,
    ensures
        position_of(nodes, index, from) is Some,
    decreases nodes.len() - from,
{
    if nodes[from].index != index {
        lemma_position_finds(nodes, index, from + 1, place);
    }
}

} // verus!
