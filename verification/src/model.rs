//! The tree over a sequence of blocks as a mathematical object, and what
//! follows from it: appending keeps the roots those of the tree over all
//! blocks, a block lies in the data segment where the tree says, and a
//! proof made from the tree leads to its root.

use vstd::arithmetic::power2::{lemma_pow2_pos, lemma_pow2_unfold, pow2};
use vstd::prelude::*;

use crate::controller::{push_blocks, pushed_nodes};
use crate::data::{
    concat_blocks, lemma_concat_blocks_len, lemma_span_bytes, lemma_total_bytes_concat,
    lemma_total_bytes_push, span_bytes, total_bytes,
};
use crate::flat::{
    depth_of, index_at, lemma_depth_of_index, lemma_index_by_span, lemma_low_parts,
    lemma_low_unique, lemma_parent_of_index, lemma_root_cover_bound, lemma_root_cover_last,
    low_depth, low_power, low_quotient, offset_of, root_cover, MAX_INDEX,
};
use crate::messages::{node_ok, nodes_ok, DataBlockView};
use crate::node::{lemma_total_length_push, node_indices, total_length, NodeView};
use crate::proofs::{
    block_leaf, block_proved, is_root, lemma_position_finds, path_indices, path_root, path_step,
    MAX_DEPTH,
};
use crate::storage::{lemma_position_of, position_of};
use crate::tree::{
    leaf_node, lemma_cover_merge, lemma_cover_stop, lemma_pow2_zero, lemma_root_cover_empty,
    new_nodes, parent_node, push_node, siblings, MAX_LENGTH,
};
use crate::tree_records::{range_indices, resolved};

verus! {

/// The node above the `2^depth` blocks that start at block
/// `offset * 2^depth`.
pub open spec fn subtree(blocks: Seq<Seq<u8>>, depth: nat, offset: nat) -> NodeView
    decreases depth,
{
    if depth == 0 {
        leaf_node(offset as u64, blocks[offset as int])
    } else {
        parent_node(
            subtree(blocks, (depth - 1) as nat, 2 * offset),
            subtree(blocks, (depth - 1) as nat, 2 * offset + 1),
        )
    }
}

/// The span of a subtree is made of the spans of its two halves.
pub proof fn lemma_span_halves(depth: nat, offset: nat)
    requires
        depth > 0,
    ensures
        offset * pow2(depth) == (2 * offset) * pow2((depth - 1) as nat),
        (offset + 1) * pow2(depth) == (2 * offset + 2) * pow2((depth - 1) as nat),
        (2 * offset + 1) * pow2((depth - 1) as nat) == offset * pow2(depth) + pow2(
            (depth - 1) as nat,
        ),
        pow2(depth) == 2 * pow2((depth - 1) as nat),
        0 <= offset * pow2(depth),
{
    lemma_pow2_unfold(depth);
    lemma_pow2_pos((depth - 1) as nat);
    let h = pow2((depth - 1) as nat);
    assert(offset * (2 * h) == (2 * offset) * h) by (nonlinear_arith);
    assert((offset + 1) * (2 * h) == (2 * offset + 2) * h) by (nonlinear_arith);
    assert((2 * offset + 1) * h == offset * (2 * h) + h) by (nonlinear_arith);
    assert(0 <= offset * (2 * h)) by (nonlinear_arith);
}

/// The node above a span of blocks stands at the flat index of its depth
/// and offset, and is as long as the blocks of its span together.
pub proof fn lemma_subtree(blocks: Seq<Seq<u8>>, depth: nat, offset: nat)
    requires
        (offset + 1) * pow2(depth) <= blocks.len(),
        blocks.len() <= MAX_LENGTH,
        total_bytes(blocks) <= u64::MAX,
    ensures
        subtree(blocks, depth, offset).index == index_at(depth, offset),
        index_at(depth, offset) < 2 * blocks.len(),
        subtree(blocks, depth, offset).length == span_bytes(
            blocks,
            offset * pow2(depth),
            (offset + 1) * pow2(depth),
        ),
    decreases depth,
{
    lemma_pow2_pos(depth);
    lemma_index_by_span(depth, offset);
    let w = pow2(depth);
    assert((offset + 1) * w == offset * w + w) by (nonlinear_arith);
    assert(0 <= offset * w) by (nonlinear_arith);
    if depth == 0 {
        lemma_pow2_zero();
        assert(offset * 1 == offset) by (nonlinear_arith);
        assert((offset + 1) * 1 == offset + 1) by (nonlinear_arith);
        let one = blocks.subrange(offset as int, (offset + 1) as int);
        let none = Seq::<Seq<u8>>::empty();
        assert(one =~= none.push(blocks[offset as int]));
        assert(total_bytes(none) == 0);
        lemma_total_bytes_push(none, blocks[offset as int]);
        assert(total_bytes(one) == blocks[offset as int].len());
        lemma_span_bytes(blocks, offset, offset, offset + 1);
    } else {
        let below = (depth - 1) as nat;
        let h = pow2(below);
        lemma_span_halves(depth, offset);
        lemma_subtree(blocks, below, 2 * offset);
        lemma_subtree(blocks, below, 2 * offset + 1);
        lemma_parent_of_index(below, 2 * offset);
        assert((2 * offset) / 2 == offset);
        let from = offset * w;
        let middle = offset * w + h;
        let to = (offset + 1) * w;
        assert((2 * offset) * h == from);
        assert((2 * offset + 1) * h == middle);
        assert((2 * offset + 1 + 1) * h == to) by (nonlinear_arith)
            requires
                (2 * offset + 2) * h == to,
        ;
        let left = subtree(blocks, below, 2 * offset);
        let right = subtree(blocks, below, 2 * offset + 1);
        assert(left.length == span_bytes(blocks, from, middle));
        assert(right.length == span_bytes(blocks, middle, to));
        lemma_span_bytes(blocks, from, middle, to);
    }
}

/// A subtree over blocks is the same over more blocks.
pub proof fn lemma_subtree_prefix(blocks: Seq<Seq<u8>>, more: Seq<Seq<u8>>, depth: nat, offset: nat)
    requires
        (offset + 1) * pow2(depth) <= blocks.len(),
    ensures
        subtree(blocks + more, depth, offset) == subtree(blocks, depth, offset),
    decreases depth,
{
    lemma_pow2_pos(depth);
    if depth == 0 {
        lemma_pow2_zero();
        assert((offset + 1) * 1 == offset + 1) by (nonlinear_arith);
        assert((blocks + more)[offset as int] == blocks[offset as int]);
    } else {
        lemma_span_halves(depth, offset);
        let h = pow2((depth - 1) as nat);
        assert((2 * offset + 1) * h <= (2 * offset + 2) * h) by (nonlinear_arith)
            requires
                h >= 0,
        ;
        assert((2 * offset + 1 + 1) * h == (2 * offset + 2) * h) by (nonlinear_arith);
        lemma_subtree_prefix(blocks, more, (depth - 1) as nat, 2 * offset);
        lemma_subtree_prefix(blocks, more, (depth - 1) as nat, 2 * offset + 1);
    }
}

/// The roots of the tree over the first `count` blocks: behind the roots
/// over the blocks before, the subtree above the last `low_power(count)`.
pub open spec fn model_roots(blocks: Seq<Seq<u8>>, count: nat) -> Seq<NodeView>
    decreases count,
    via model_roots_decreases
{
    if count == 0 {
        Seq::empty()
    } else {
        model_roots(blocks, (count - low_power(count)) as nat).push(
            subtree(blocks, low_depth(count), (low_quotient(count) - 1) as nat),
        )
    }
}

#[via_fn]
proof fn model_roots_decreases(blocks: Seq<Seq<u8>>, count: nat) {
    if count > 0 {
        lemma_low_parts(count);
    }
}

/// The span of the last root of a cover: the last `low_power(count)` of
/// the blocks.
pub proof fn lemma_last_span(count: nat)
    requires
        count >= 1,
    ensures
        (low_quotient(count) - 1) * pow2(low_depth(count)) == count - low_power(count),
        (low_quotient(count) - 1 + 1) * pow2(low_depth(count)) == count,
        low_power(count) == pow2(low_depth(count)),
        1 <= low_power(count) <= count,
        low_quotient(count) >= 1,
{
    lemma_low_parts(count);
    let r = low_quotient(count);
    let l = low_power(count);
    assert((r - 1) * l == r * l - l) by (nonlinear_arith);
    assert((r - 1 + 1) * l == r * l) by (nonlinear_arith);
}

/// The roots of the tree over blocks stand at the canonical root cover and
/// are as long together as the blocks.
pub proof fn lemma_model_roots(blocks: Seq<Seq<u8>>, count: nat)
    requires
        count <= blocks.len(),
        blocks.len() <= MAX_LENGTH,
        total_bytes(blocks) <= u64::MAX,
    ensures
        node_indices(model_roots(blocks, count)) == root_cover(count),
        total_length(model_roots(blocks, count)) == span_bytes(blocks, 0, count),
        model_roots(blocks, count).len() == 0 <==> count == 0,
    decreases count,
{
    if count == 0 {
        assert(node_indices(model_roots(blocks, count)) =~= root_cover(0));
        assert(blocks.subrange(0, 0) =~= Seq::<Seq<u8>>::empty());
    } else {
        lemma_last_span(count);
        let l = low_power(count);
        let t = low_depth(count);
        let r = low_quotient(count);
        let before = (count - l) as nat;
        let last = subtree(blocks, t, (r - 1) as nat);
        lemma_model_roots(blocks, before);
        lemma_subtree(blocks, t, (r - 1) as nat);
        lemma_index_by_span(t, (r - 1) as nat);
        lemma_root_cover_last(count);
        let front = model_roots(blocks, before);
        assert(node_indices(front.push(last)) =~= node_indices(front).push(last.index));
        lemma_total_length_push(front, last);
        lemma_span_bytes(blocks, 0, before, count);
    }
}

/// The roots over blocks are the same over more blocks.
pub proof fn lemma_model_roots_prefix(blocks: Seq<Seq<u8>>, more: Seq<Seq<u8>>, count: nat)
    requires
        count <= blocks.len(),
    ensures
        model_roots(blocks + more, count) == model_roots(blocks, count),
    decreases count,
{
    if count > 0 {
        lemma_last_span(count);
        lemma_model_roots_prefix(blocks, more, (count - low_power(count)) as nat);
        lemma_subtree_prefix(blocks, more, low_depth(count), (low_quotient(count) - 1) as nat);
    }
}

/// Adding the subtree that follows the roots over `q * 2^k` blocks gives
/// the roots over the blocks of both.
#[verifier::rlimit(50)]
pub proof fn lemma_push_subtree(blocks: Seq<Seq<u8>>, k: nat, q: nat)
    requires
        (q + 1) * pow2(k) <= blocks.len(),
        blocks.len() <= MAX_LENGTH,
        total_bytes(blocks) <= u64::MAX,
    ensures
        push_node(model_roots(blocks, q * pow2(k)), subtree(blocks, k, q)) == model_roots(
            blocks,
            (q + 1) * pow2(k),
        ),
    decreases q * pow2(k),
{
    let w = pow2(k);
    lemma_pow2_pos(k);
    let m = q * w;
    let total = (q + 1) * w;
    assert(total == m + w) by (nonlinear_arith)
        requires
            total == (q + 1) * w,
            m == q * w,
    ;
    assert(m >= 0) by (nonlinear_arith)
        requires
            m == q * w,
            q >= 0,
            w >= 0,
    ;
    let roots = model_roots(blocks, m);
    let node = subtree(blocks, k, q);
    lemma_subtree(blocks, k, q);
    lemma_model_roots(blocks, m);
    lemma_root_cover_empty(m);
    if m == 0 {
        assert(q == 0) by (nonlinear_arith)
            requires
                q * w == 0,
                w > 0,
                q >= 0,
        ;
        assert(1 * w == w) by (nonlinear_arith);
        lemma_low_unique(k, 1, w);
        assert(model_roots(blocks, 0) =~= Seq::<NodeView>::empty());
    } else {
        let last = roots.last();
        assert(last.index == root_cover(m).last());
        if siblings(last, node) {
            lemma_cover_merge(m, k, q);
            lemma_low_unique(k, q, m);
            let h = ((q - 1) / 2) as nat;
            assert(2 * h == q - 1);
            lemma_pow2_unfold(k + 1);
            assert((h + 1) * (2 * w) == h * (2 * w) + 2 * w) by (nonlinear_arith);
            assert(roots.drop_last() =~= model_roots(blocks, (m - w) as nat));
            assert(subtree(blocks, k + 1, h) == parent_node(last, node));
            lemma_push_subtree(blocks, k + 1, h);
        } else {
            lemma_cover_stop(m, k, q);
            lemma_low_unique(k, q + 1, total);
        }
    }
}

/// Appending a block to the tree over blocks gives the tree over the blocks
/// with that block.
pub proof fn lemma_push_leaf_model(blocks: Seq<Seq<u8>>, block: Seq<u8>)
    requires
        blocks.len() < MAX_LENGTH,
        total_bytes(blocks) + block.len() <= u64::MAX,
    ensures
        push_node(
            model_roots(blocks, blocks.len()),
            leaf_node(blocks.len() as u64, block),
        ) == model_roots(blocks.push(block), blocks.len() + 1),
{
    let all = blocks.push(block);
    let n = blocks.len();
    lemma_pow2_zero();
    lemma_total_bytes_push(blocks, block);
    assert(all =~= blocks + seq![block]);
    lemma_model_roots_prefix(blocks, seq![block], n);
    assert(n * 1 == n) by (nonlinear_arith);
    assert((n + 1) * 1 == n + 1) by (nonlinear_arith);
    lemma_push_subtree(all, 0, n);
}

/// Appending blocks one by one to the tree over blocks gives the tree over
/// all of them.
pub proof fn lemma_push_blocks_model(blocks: Seq<Seq<u8>>, more: Seq<Seq<u8>>)
    requires
        blocks.len() + more.len() <= MAX_LENGTH,
        total_bytes(blocks + more) <= u64::MAX,
    ensures
        push_blocks(model_roots(blocks, blocks.len()), blocks.len(), more) == model_roots(
            blocks + more,
            blocks.len() + more.len(),
        ),
    decreases more.len(),
{
    if more.len() == 0 {
        assert(blocks + more =~= blocks);
    } else {
        let front = more.drop_last();
        let before = blocks + front;
        assert(before.push(more.last()) =~= blocks + more);
        lemma_total_bytes_push(before, more.last());
        lemma_push_blocks_model(blocks, front);
        lemma_push_leaf_model(before, more.last());
    }
}

/// Roots law: the roots of a log that started empty are those of the tree
/// over all its blocks, however the blocks were batched.
pub proof fn lemma_appended_roots(blocks: Seq<Seq<u8>>)
    requires
        blocks.len() <= MAX_LENGTH,
        total_bytes(blocks) <= u64::MAX,
    ensures
        push_blocks(Seq::empty(), 0, blocks) == model_roots(blocks, blocks.len()),
        node_indices(push_blocks(Seq::empty(), 0, blocks)) == root_cover(blocks.len()),
        total_length(push_blocks(Seq::empty(), 0, blocks)) == total_bytes(blocks),
{
    let none = Seq::<Seq<u8>>::empty();
    assert(none + blocks =~= blocks);
    assert(model_roots(none, 0) =~= Seq::<NodeView>::empty());
    lemma_push_blocks_model(none, blocks);
    lemma_model_roots(blocks, blocks.len());
    assert(blocks.subrange(0, blocks.len() as int) =~= blocks);
}

/// The state of a log in numbers: how many blocks and how many bytes.
pub struct Lengths {
    /// Number of blocks.
    pub length: nat,
    /// Number of bytes.
    pub byte_length: nat,
}

/// The lengths of a log after batches are appended one after the other to
/// a log without blocks: each adds its number of blocks and their bytes.
pub open spec fn lengths_after(batches: Seq<Seq<Seq<u8>>>) -> Lengths
    decreases batches.len(),
{
    if batches.len() == 0 {
        Lengths { length: 0, byte_length: 0 }
    } else {
        let before = lengths_after(batches.drop_last());
        Lengths {
            length: before.length + batches.last().len(),
            byte_length: before.byte_length + total_bytes(batches.last()),
        }
    }
}

/// The blocks of batches, in order.
pub open spec fn joined(batches: Seq<Seq<Seq<u8>>>) -> Seq<Seq<u8>>
    decreases batches.len(),
{
    if batches.len() == 0 {
        Seq::empty()
    } else {
        joined(batches.drop_last()) + batches.last()
    }
}

/// Length law: after batches are appended, the log has as many blocks as
/// the batches hold together, and as many bytes as those blocks.
pub proof fn lemma_lengths_after(batches: Seq<Seq<Seq<u8>>>)
    ensures
        lengths_after(batches).length == joined(batches).len(),
        lengths_after(batches).byte_length == total_bytes(joined(batches)),
    decreases batches.len(),
{
    if batches.len() > 0 {
        lemma_lengths_after(batches.drop_last());
        lemma_total_bytes_concat(joined(batches.drop_last()), batches.last());
    }
}

/// Read law: the records that locate a block of the tree over blocks give
/// the range of the data segment that holds the block, where the data
/// segment holds the blocks one after the other.
pub proof fn lemma_block_range(blocks: Seq<Seq<u8>>, index: nat)
    requires
        index < blocks.len(),
        blocks.len() <= MAX_LENGTH,
        total_bytes(blocks) <= u64::MAX,
    ensures
        ({
            let nodes = model_roots(blocks, index).push(subtree(blocks, 0, index));
            let start = total_length(nodes.drop_last());
            let end = start + nodes.last().length;
            &&& node_indices(nodes) == range_indices(index as u64)
            &&& end <= concat_blocks(blocks).len()
            &&& concat_blocks(blocks).subrange(start as int, end as int) == blocks[index as int]
        }),
{
    let roots = model_roots(blocks, index);
    let leaf = subtree(blocks, 0, index);
    let nodes = roots.push(leaf);
    assert(nodes.drop_last() =~= roots);
    lemma_pow2_zero();
    assert((index + 1) * 1 == index + 1) by (nonlinear_arith);
    assert(index * 1 == index) by (nonlinear_arith);
    lemma_model_roots(blocks, index);
    lemma_subtree(blocks, 0, index);
    lemma_index_by_span(0, index);
    assert(node_indices(nodes) =~= node_indices(roots).push(leaf.index));
    let before = blocks.subrange(0, index as int);
    let one = blocks.subrange(index as int, (index + 1) as int);
    let after = blocks.subrange((index + 1) as int, blocks.len() as int);
    assert(before + one + after =~= blocks);
    lemma_total_bytes_concat(before, one);
    lemma_total_bytes_concat(before + one, after);
    lemma_concat_blocks_len(before);
    lemma_concat_blocks_len(one);
    lemma_concat_blocks_len(after);
    lemma_concat_blocks_len(blocks);
    let none = Seq::<Seq<u8>>::empty();
    assert(one =~= none.push(blocks[index as int]));
    lemma_total_bytes_push(none, blocks[index as int]);
    assert(concat_blocks(none) =~= Seq::<u8>::empty());
    assert(concat_blocks(one) =~= blocks[index as int]);
    let start = total_length(roots);
    let data = concat_blocks(blocks);
    assert(data == concat_blocks(before) + concat_blocks(one) + concat_blocks(after));
    assert(data.subrange(start as int, (start + blocks[index as int].len()) as int)
        =~= blocks[index as int]);
}

/// The sibling at an offset: the offset with its last bit flipped.
pub open spec fn sibling_offset(offset: nat) -> nat {
    if offset % 2 == 0 {
        offset + 1
    } else {
        (offset - 1) as nat
    }
}

/// The siblings on the way from the node at a depth and offset up `steps`
/// levels, in the tree over blocks.
pub open spec fn model_path(blocks: Seq<Seq<u8>>, depth: nat, offset: nat, steps: nat) -> Seq<
    NodeView,
>
    decreases steps,
{
    if steps == 0 {
        Seq::empty()
    } else {
        seq![subtree(blocks, depth, sibling_offset(offset))] + model_path(
            blocks,
            depth + 1,
            offset / 2,
            (steps - 1) as nat,
        )
    }
}

/// The span of a node lies within the span of the node `steps` levels up.
pub proof fn lemma_span_within(depth: nat, offset: nat, steps: nat)
    ensures
        (offset + 1) * pow2(depth) <= (offset / pow2(steps) + 1) * pow2(depth + steps),
        steps > 0 ==> (offset / 2) / pow2((steps - 1) as nat) == offset / pow2(steps),
    decreases steps,
{
    lemma_pow2_pos(depth);
    lemma_pow2_pos(steps);
    if steps == 0 {
        lemma_pow2_zero();
        assert(offset / 1 == offset);
    } else {
        let h = offset / 2;
        let rest = (steps - 1) as nat;
        lemma_span_within(depth + 1, h, rest);
        lemma_pow2_unfold(steps);
        lemma_pow2_unfold(depth + 1);
        lemma_pow2_pos(rest);
        vstd::arithmetic::div_mod::lemma_div_denominator(offset as int, 2, pow2(rest) as int);
        assert(h / pow2(rest) == offset / pow2(steps));
        let w = pow2(depth);
        assert((offset + 1) * w <= (h + 1) * (2 * w)) by (nonlinear_arith)
            requires
                offset + 1 <= 2 * (h + 1),
                w >= 0,
        ;
        assert(depth + 1 + rest == depth + steps);
    }
}

/// Proof law: the siblings of the tree over blocks, where each of them
/// carries a hash of 32 bytes, lead from a node to the node above it
/// `steps` levels up.
#[verifier::rlimit(50)]
pub proof fn lemma_model_path(blocks: Seq<Seq<u8>>, depth: nat, offset: nat, steps: nat)
    requires
        (offset / pow2(steps) + 1) * pow2(depth + steps) <= blocks.len(),
        blocks.len() <= MAX_LENGTH,
        total_bytes(blocks) <= u64::MAX,
        nodes_ok(model_path(blocks, depth, offset, steps)),
    ensures
        path_root(subtree(blocks, depth, offset), model_path(blocks, depth, offset, steps)) == Some(
            subtree(blocks, depth + steps, offset / pow2(steps)),
        ),
    decreases steps,
{
    if steps == 0 {
        lemma_pow2_zero();
        assert(offset / 1 == offset);
    } else {
        let rest = (steps - 1) as nat;
        let h = offset / 2;
        let other = sibling_offset(offset);
        let node = subtree(blocks, depth, offset);
        let sibling = subtree(blocks, depth, other);
        let above = subtree(blocks, depth + 1, h);
        lemma_span_within(depth, offset, steps);
        lemma_span_within(depth + 1, h, rest);
        assert(depth + 1 + rest == depth + steps);
        lemma_span_halves(depth + 1, h);
        lemma_pow2_pos(depth);
        let w = pow2(depth);
        assert((offset + 1) * w <= (2 * h + 2) * w && (other + 1) * w <= (2 * h + 2) * w)
            by (nonlinear_arith)
            requires
                offset + 1 <= 2 * h + 2,
                other + 1 <= 2 * h + 2,
                w >= 0,
        ;
        lemma_subtree(blocks, depth, offset);
        lemma_subtree(blocks, depth, other);
        lemma_subtree(blocks, depth + 1, h);
        let path = model_path(blocks, depth, offset, steps);
        assert(path[0] == sibling);
        assert(node_ok(sibling));
        assert forall|i: int| 0 <= i < path.drop_first().len() implies node_ok(
            #[trigger] path.drop_first()[i],
        ) by {
            assert(path.drop_first()[i] == path[i + 1]);
        }
        lemma_parent_of_index(depth, offset);
        lemma_parent_of_index(depth, other);
        assert(other / 2 == h);
        lemma_depth_of_index(depth, offset);
        lemma_depth_of_index(depth, other);
        lemma_index_by_span(depth, offset);
        lemma_index_by_span(depth, other);
        assert(offset * w < other * w <==> offset < other) by (nonlinear_arith)
            requires
                w > 0,
        ;
        if offset % 2 == 0 {
            assert(2 * h == offset && 2 * h + 1 == other);
        } else {
            assert(2 * h == other && 2 * h + 1 == offset);
        }
        lemma_span_bytes(blocks, (2 * h) * w, (2 * h + 1) * w, (2 * h + 2) * w);
        assert((2 * h + 1 + 1) * w == (2 * h + 2) * w) by (nonlinear_arith);
        assert((2 * h) * w <= (2 * h + 1) * w <= (2 * h + 2) * w) by (nonlinear_arith)
            requires
                w >= 0,
                h >= 0,
        ;
        assert(path_step(node, sibling) == Some(above));
        assert(model_path(blocks, depth, offset, steps).first() == sibling);
        assert(model_path(blocks, depth, offset, steps).drop_first() =~= model_path(
            blocks,
            depth + 1,
            h,
            rest,
        ));
        lemma_model_path(blocks, depth + 1, h, rest);
    }
}

/// Proof soundness: a proof of a block made from the tree over blocks, up
/// to the node `steps` levels above the block and with hashes of 32 bytes,
/// is accepted against roots exactly where the roots hold that node.
pub proof fn lemma_proof_soundness(
    blocks: Seq<Seq<u8>>,
    index: nat,
    steps: nat,
    roots: Seq<NodeView>,
)
    requires
        (index / pow2(steps) + 1) * pow2(steps) <= blocks.len(),
        blocks.len() <= MAX_LENGTH,
        total_bytes(blocks) <= u64::MAX,
        nodes_ok(model_path(blocks, 0, index, steps)),
    ensures
        block_proved(
            roots,
            DataBlockView {
                index: index as u64,
                value: blocks[index as int],
                nodes: model_path(blocks, 0, index, steps),
            },
        ) <==> is_root(roots, subtree(blocks, steps, index / pow2(steps))),
{
    lemma_span_within(0, index, steps);
    lemma_pow2_zero();
    assert((index + 1) * 1 == index + 1) by (nonlinear_arith);
    lemma_model_path(blocks, 0, index, steps);
    lemma_span_bytes(blocks, index, index, index + 1);
    let one = blocks.subrange(index as int, (index + 1) as int);
    let none = Seq::<Seq<u8>>::empty();
    assert(one =~= none.push(blocks[index as int]));
    lemma_total_bytes_push(none, blocks[index as int]);
    let block = DataBlockView {
        index: index as u64,
        value: blocks[index as int],
        nodes: model_path(blocks, 0, index, steps),
    };
    assert(block_leaf(block) == subtree(blocks, 0, index));
}

/// Whether a node is the node of the tree over blocks that stands at its
/// index.
pub open spec fn is_model(node: NodeView, blocks: Seq<Seq<u8>>) -> bool {
    let depth = depth_of(node.index as nat);
    let offset = offset_of(node.index as nat);
    &&& (offset + 1) * pow2(depth) <= blocks.len()
    &&& node == subtree(blocks, depth, offset)
}

/// Whether every node of a sequence is the node of the tree over blocks
/// that stands at its index.
pub open spec fn all_model(nodes: Seq<NodeView>, blocks: Seq<Seq<u8>>) -> bool {
    forall|i: int| 0 <= i < nodes.len() ==> is_model(#[trigger] nodes[i], blocks)
}

/// The node above a span of blocks is the node of the tree that stands at
/// its index.
pub proof fn lemma_subtree_is_model(blocks: Seq<Seq<u8>>, depth: nat, offset: nat)
    requires
        (offset + 1) * pow2(depth) <= blocks.len(),
        blocks.len() <= MAX_LENGTH,
        total_bytes(blocks) <= u64::MAX,
    ensures
        is_model(subtree(blocks, depth, offset), blocks),
{
    lemma_subtree(blocks, depth, offset);
    lemma_depth_of_index(depth, offset);
}

/// A node of the tree over blocks is a node of the tree over more blocks.
pub proof fn lemma_is_model_prefix(node: NodeView, blocks: Seq<Seq<u8>>, more: Seq<Seq<u8>>)
    requires
        is_model(node, blocks),
    ensures
        is_model(node, blocks + more),
{
    lemma_subtree_prefix(
        blocks,
        more,
        depth_of(node.index as nat),
        offset_of(node.index as nat),
    );
}

/// The roots of the tree over blocks are nodes of that tree.
pub proof fn lemma_model_roots_are_model(blocks: Seq<Seq<u8>>, count: nat)
    requires
        count <= blocks.len(),
        blocks.len() <= MAX_LENGTH,
        total_bytes(blocks) <= u64::MAX,
    ensures
        all_model(model_roots(blocks, count), blocks),
    decreases count,
{
    if count > 0 {
        lemma_last_span(count);
        let before = (count - low_power(count)) as nat;
        lemma_model_roots_are_model(blocks, before);
        lemma_subtree_is_model(blocks, low_depth(count), (low_quotient(count) - 1) as nat);
        let front = model_roots(blocks, before);
        let last = subtree(blocks, low_depth(count), (low_quotient(count) - 1) as nat);
        assert forall|i: int| 0 <= i < front.push(last).len() implies is_model(
            #[trigger] front.push(last)[i],
            blocks,
        ) by {
            if i < front.len() {
                assert(front.push(last)[i] == front[i]);
            }
        }
    }
}

/// The nodes that adding the subtree that follows the roots over
/// `q * 2^k` blocks brings into the tree are nodes of the tree over blocks.
pub proof fn lemma_new_nodes_are_model(blocks: Seq<Seq<u8>>, k: nat, q: nat)
    requires
        (q + 1) * pow2(k) <= blocks.len(),
        blocks.len() <= MAX_LENGTH,
        total_bytes(blocks) <= u64::MAX,
    ensures
        all_model(new_nodes(model_roots(blocks, q * pow2(k)), subtree(blocks, k, q)), blocks),
    decreases q * pow2(k),
{
    let w = pow2(k);
    lemma_pow2_pos(k);
    let m = q * w;
    let total = (q + 1) * w;
    assert(total == m + w) by (nonlinear_arith)
        requires
            total == (q + 1) * w,
            m == q * w,
    ;
    assert(m >= 0) by (nonlinear_arith)
        requires
            m == q * w,
            q >= 0,
            w >= 0,
    ;
    let roots = model_roots(blocks, m);
    let node = subtree(blocks, k, q);
    lemma_subtree(blocks, k, q);
    lemma_subtree_is_model(blocks, k, q);
    lemma_model_roots(blocks, m);
    lemma_root_cover_empty(m);
    if m > 0 && siblings(roots.last(), node) {
        let last = roots.last();
        assert(last.index == root_cover(m).last());
        lemma_cover_merge(m, k, q);
        lemma_low_unique(k, q, m);
        let h = ((q - 1) / 2) as nat;
        assert(2 * h == q - 1);
        lemma_pow2_unfold(k + 1);
        assert((h + 1) * (2 * w) == h * (2 * w) + 2 * w) by (nonlinear_arith);
        assert(roots.drop_last() =~= model_roots(blocks, (m - w) as nat));
        assert(subtree(blocks, k + 1, h) == parent_node(last, node));
        lemma_new_nodes_are_model(blocks, k + 1, h);
        let rest = new_nodes(roots.drop_last(), parent_node(last, node));
        assert forall|i: int| 0 <= i < (seq![node] + rest).len() implies is_model(
            #[trigger] (seq![node] + rest)[i],
            blocks,
        ) by {
            if i > 0 {
                assert((seq![node] + rest)[i] == rest[i - 1]);
            }
        }
    }
}

/// The nodes that appending blocks brings into the tree over blocks are
/// nodes of the tree over all of them.
pub proof fn lemma_pushed_nodes_are_model(blocks: Seq<Seq<u8>>, more: Seq<Seq<u8>>)
    requires
        blocks.len() + more.len() <= MAX_LENGTH,
        total_bytes(blocks + more) <= u64::MAX,
    ensures
        all_model(
            pushed_nodes(model_roots(blocks, blocks.len()), blocks.len(), more),
            blocks + more,
        ),
    decreases more.len(),
{
    let roots = model_roots(blocks, blocks.len());
    let n = blocks.len();
    if more.len() > 0 {
        let front = more.drop_last();
        let before = blocks + front;
        let all = blocks + more;
        assert(before.push(more.last()) =~= all);
        assert(before + seq![more.last()] =~= all);
        lemma_total_bytes_push(before, more.last());
        lemma_pushed_nodes_are_model(blocks, front);
        lemma_push_blocks_model(blocks, front);
        lemma_model_roots_prefix(before, seq![more.last()], before.len());
        lemma_pow2_zero();
        assert(before.len() * 1 == before.len()) by (nonlinear_arith);
        assert((before.len() + 1) * 1 == before.len() + 1) by (nonlinear_arith);
        lemma_new_nodes_are_model(all, 0, before.len());
        let old_nodes = pushed_nodes(roots, n, front);
        let new = new_nodes(push_blocks(roots, n, front), leaf_node((n + more.len() - 1) as u64, more.last()));
        assert forall|i: int| 0 <= i < (old_nodes + new).len() implies is_model(
            #[trigger] (old_nodes + new)[i],
            all,
        ) by {
            if i < old_nodes.len() {
                assert((old_nodes + new)[i] == old_nodes[i]);
                lemma_is_model_prefix(old_nodes[i], before, seq![more.last()]);
            } else {
                assert((old_nodes + new)[i] == new[i - old_nodes.len()]);
            }
        }
    }
}

/// The nodes that resolve the indices needed stand at those indices, and
/// are nodes of the tree over blocks where the cache and the records read
/// hold such nodes only.
pub proof fn lemma_resolved_are_model(
    needed: Seq<u64>,
    cache: Seq<NodeView>,
    stored: Seq<NodeView>,
    blocks: Seq<Seq<u8>>,
)
    requires
        resolved(needed, cache, stored) is Some,
        all_model(cache, blocks),
        all_model(stored, blocks),
    ensures
        node_indices(resolved(needed, cache, stored)->0) == needed,
        all_model(resolved(needed, cache, stored)->0, blocks),
    decreases needed.len(),
{
    let nodes = resolved(needed, cache, stored)->0;
    if needed.len() == 0 {
        assert(node_indices(nodes) =~= needed);
    } else {
        let (first, rest) = match position_of(cache, needed.first(), 0) {
            Some(place) => {
                lemma_position_of(cache, needed.first(), 0);
                lemma_resolved_are_model(needed.drop_first(), cache, stored, blocks);
                (cache[place], resolved(needed.drop_first(), cache, stored)->0)
            },
            None => {
                assert forall|i: int| 0 <= i < stored.drop_first().len() implies is_model(
                    #[trigger] stored.drop_first()[i],
                    blocks,
                ) by {
                    assert(stored.drop_first()[i] == stored[i + 1]);
                }
                lemma_resolved_are_model(needed.drop_first(), cache, stored.drop_first(), blocks);
                assert(is_model(stored[0], blocks));
                (stored.first(), resolved(needed.drop_first(), cache, stored.drop_first())->0)
            },
        };
        assert(nodes == seq![first] + rest);
        assert(node_indices(nodes) =~= seq![needed.first()] + node_indices(rest));
        assert(seq![needed.first()] + needed.drop_first() =~= needed);
        assert forall|i: int| 0 <= i < nodes.len() implies is_model(#[trigger] nodes[i], blocks) by {
            if i > 0 {
                assert(nodes[i] == rest[i - 1]);
            }
        }
    }
}

/// Read law, as the log reads: where the nodes not yet flushed and the
/// records read are nodes of the tree over the blocks of a log, the range
/// that is looked up for a block is where the block lies in the data
/// segment that holds the blocks one after the other.
pub proof fn lemma_get_returns_block(
    blocks: Seq<Seq<u8>>,
    index: nat,
    cache: Seq<NodeView>,
    stored: Seq<NodeView>,
)
    requires
        index < blocks.len(),
        blocks.len() <= MAX_LENGTH,
        total_bytes(blocks) <= u64::MAX,
        all_model(cache, blocks),
        all_model(stored, blocks),
        resolved(range_indices(index as u64), cache, stored) is Some,
    ensures
        ({
            let nodes = resolved(range_indices(index as u64), cache, stored)->0;
            let start = total_length(nodes.drop_last());
            let end = start + nodes.last().length;
            &&& total_length(nodes) <= u64::MAX
            &&& end <= concat_blocks(blocks).len()
            &&& concat_blocks(blocks).subrange(start as int, end as int) == blocks[index as int]
        }),
{
    let nodes = resolved(range_indices(index as u64), cache, stored)->0;
    let model = model_roots(blocks, index).push(subtree(blocks, 0, index));
    lemma_resolved_are_model(range_indices(index as u64), cache, stored, blocks);
    lemma_block_range(blocks, index);
    lemma_model_roots_are_model(blocks, index);
    lemma_pow2_zero();
    assert((index + 1) * 1 == index + 1) by (nonlinear_arith);
    lemma_subtree_is_model(blocks, 0, index);
    assert(nodes.len() == node_indices(nodes).len());
    assert(model.len() == node_indices(model).len());
    assert forall|i: int| 0 <= i < nodes.len() implies nodes[i] == model[i] by {
        assert(node_indices(nodes)[i] == nodes[i].index);
        assert(node_indices(model)[i] == model[i].index);
        assert(is_model(nodes[i], blocks));
        if i < model.len() - 1 {
            assert(model[i] == model_roots(blocks, index)[i]);
            assert(is_model(model_roots(blocks, index)[i], blocks));
        }
    }
    assert(nodes =~= model);
    lemma_total_length_push(model.drop_last(), model.last());
    assert(model.drop_last().push(model.last()) =~= model);
    lemma_concat_blocks_len(blocks);
}

/// Whether the node at a flat index stands above a block.
pub open spec fn covers(index: nat, block: nat) -> bool {
    offset_of(index) * pow2(depth_of(index)) <= block < (offset_of(index) + 1) * pow2(
        depth_of(index),
    )
}

/// Depth of the root that stands above a block in the cover of `count`
/// blocks.
pub open spec fn cover_depth(count: nat, block: nat) -> nat
    decreases count,
    via cover_depth_decreases
{
    if count == 0 || block + low_power(count) >= count {
        low_depth(count)
    } else {
        cover_depth((count - low_power(count)) as nat, block)
    }
}

#[via_fn]
proof fn cover_depth_decreases(count: nat, block: nat) {
    if count > 0 {
        lemma_low_parts(count);
    }
}

/// The indices of the siblings on the way from the node above a block at
/// depth `from` up to depth `to`.
pub open spec fn path_siblings(block: nat, from: nat, to: nat) -> Seq<u64>
    decreases to - from,
{
    if from >= to {
        Seq::empty()
    } else {
        seq![index_at(from, sibling_offset(block / pow2(from))) as u64] + path_siblings(
            block,
            from + 1,
            to,
        )
    }
}

/// A number that lies in the span of an offset divides to that offset.
pub proof fn lemma_divide_in_span(block: nat, width: nat, offset: nat)
    requires
        width > 0,
        offset * width <= block < (offset + 1) * width,
    ensures
        block / width == offset,
{
    assert((offset + 1) * width == offset * width + width) by (nonlinear_arith);
    vstd::arithmetic::div_mod::lemma_fundamental_div_mod_converse(
        block as int,
        width as int,
        offset as int,
        block - offset * width,
    );
}

/// A block lies in the span of the node above it at every depth.
pub proof fn lemma_span_of_block(block: nat, depth: nat)
    ensures
        (block / pow2(depth)) * pow2(depth) <= block < (block / pow2(depth) + 1) * pow2(depth),
{
    lemma_pow2_pos(depth);
    let w = pow2(depth);
    vstd::arithmetic::div_mod::lemma_fundamental_div_mod(block as int, w as int);
    vstd::arithmetic::div_mod::lemma_mod_pos_bound(block as int, w as int);
    let o = block / w;
    assert(w * o == o * w) by (nonlinear_arith);
    assert((o + 1) * w == o * w + w) by (nonlinear_arith);
}

/// The node above a block at a depth lies below the node above it at a
/// greater depth.
pub proof fn lemma_block_offsets(block: nat, from: nat, to: nat)
    requires
        from <= to,
    ensures
        (block / pow2(from)) / pow2((to - from) as nat) == block / pow2(to),
        (block / pow2(from) + 1) * pow2(from) <= (block / pow2(to) + 1) * pow2(to),
{
    let steps = (to - from) as nat;
    lemma_pow2_pos(from);
    lemma_pow2_pos(steps);
    vstd::arithmetic::power2::lemma_pow2_adds(from, steps);
    assert(from + steps == to);
    vstd::arithmetic::div_mod::lemma_div_denominator(
        block as int,
        pow2(from) as int,
        pow2(steps) as int,
    );
    lemma_span_within(from, block / pow2(from), steps);
}

/// The last root of a cover stands at the depth and offset of the last
/// `low_power(count)` blocks.
pub proof fn lemma_cover_last_parts(count: nat)
    requires
        count >= 1,
        count <= MAX_LENGTH,
    ensures
        root_cover(count).len() >= 1,
        root_cover(count).last() == index_at(low_depth(count), (low_quotient(count) - 1) as nat),
        root_cover(count).drop_last() == root_cover((count - low_power(count)) as nat),
        depth_of(root_cover(count).last() as nat) == low_depth(count),
        offset_of(root_cover(count).last() as nat) == low_quotient(count) - 1,
{
    lemma_last_span(count);
    lemma_root_cover_last(count);
    let t = low_depth(count);
    let r = (low_quotient(count) - 1) as nat;
    lemma_index_by_span(t, r);
    lemma_depth_of_index(t, r);
    assert(root_cover(count).drop_last() =~= root_cover((count - low_power(count)) as nat));
}

/// Every root of a cover stands above blocks of the cover only.
pub proof fn lemma_cover_spans(count: nat, place: int)
    requires
        count <= MAX_LENGTH,
        0 <= place < root_cover(count).len(),
    ensures
        (offset_of(root_cover(count)[place] as nat) + 1) * pow2(
            depth_of(root_cover(count)[place] as nat),
        ) <= count,
    decreases count,
{
    lemma_root_cover_empty(count);
    lemma_cover_last_parts(count);
    lemma_last_span(count);
    if place < root_cover(count).len() - 1 {
        let before = (count - low_power(count)) as nat;
        assert(root_cover(count)[place] == root_cover(count).drop_last()[place]);
        lemma_cover_spans(before, place);
    }
}

/// The cover holds the root that stands above a block, at the depth that
/// `cover_depth` says.
pub proof fn lemma_covering_root(count: nat, block: nat)
    requires
        block < count,
        count <= MAX_LENGTH,
    ensures
        (block / pow2(cover_depth(count, block)) + 1) * pow2(cover_depth(count, block)) <= count,
        root_cover(count).contains(
            index_at(cover_depth(count, block), block / pow2(cover_depth(count, block))) as u64,
        ),
        index_at(cover_depth(count, block), block / pow2(cover_depth(count, block))) < 2 * count,
    decreases count,
{
    lemma_cover_last_parts(count);
    lemma_last_span(count);
    let l = low_power(count);
    let t = low_depth(count);
    let r = low_quotient(count);
    let cover = root_cover(count);
    if block + l >= count {
        lemma_divide_in_span(block, l, (r - 1) as nat);
        lemma_root_cover_bound(count, cover.len() - 1);
        assert(cover[cover.len() - 1] == index_at(t, (r - 1) as nat));
    } else {
        let before = (count - l) as nat;
        lemma_covering_root(before, block);
        let d = cover_depth(before, block);
        let found = index_at(d, block / pow2(d)) as u64;
        let place = choose|i: int| 0 <= i < root_cover(before).len() && root_cover(before)[i] == found;
        assert(cover[place] == cover.drop_last()[place]);
    }
}

/// A root of the cover that stands above a block is the root that
/// `cover_depth` names.
pub proof fn lemma_covered_once(count: nat, block: nat, place: int)
    requires
        block < count,
        count <= MAX_LENGTH,
        0 <= place < root_cover(count).len(),
        covers(root_cover(count)[place] as nat, block),
    ensures
        depth_of(root_cover(count)[place] as nat) == cover_depth(count, block),
    decreases count,
{
    lemma_cover_last_parts(count);
    lemma_last_span(count);
    let l = low_power(count);
    let cover = root_cover(count);
    if place == cover.len() - 1 {
    } else {
        let before = (count - l) as nat;
        assert(cover[place] == cover.drop_last()[place]);
        lemma_cover_spans(before, place);
        lemma_covered_once(before, block, place);
    }
}

/// Below the root that stands above a block, no node above the block is a
/// root of the cover.
pub proof fn lemma_not_root_below(count: nat, block: nat, depth: nat)
    requires
        block < count,
        count <= MAX_LENGTH,
        depth < cover_depth(count, block),
    ensures
        !root_cover(count).contains(index_at(depth, block / pow2(depth)) as u64),
        index_at(depth, block / pow2(depth)) <= MAX_INDEX,
{
    let offset = block / pow2(depth);
    let index = index_at(depth, offset);
    let top = cover_depth(count, block);
    lemma_covering_root(count, block);
    lemma_span_of_block(block, depth);
    lemma_block_offsets(block, depth, top);
    lemma_index_by_span(depth, offset);
    lemma_depth_of_index(depth, offset);
    lemma_pow2_pos(depth);
    let w = pow2(depth);
    assert((offset + 1) * w == offset * w + w) by (nonlinear_arith);
    assert(offset * w >= 0) by (nonlinear_arith)
        requires
            offset >= 0,
            w >= 0,
    ;
    assert(index < 2 * count);
    if root_cover(count).contains(index as u64) {
        let place = choose|i: int|
            0 <= i < root_cover(count).len() && root_cover(count)[i] == index as u64;
        lemma_covered_once(count, block, place);
    }
}

/// The walk from the node above a block at depth `from` upwards asks for
/// the siblings up to the root that stands above the block.
pub proof fn lemma_path_indices(count: nat, block: nat, from: nat, steps: nat)
    requires
        block < count,
        count <= MAX_LENGTH,
        from <= cover_depth(count, block),
        steps > cover_depth(count, block) - from,
    ensures
        path_indices(index_at(from, block / pow2(from)), root_cover(count), steps) == path_siblings(
            block,
            from,
            cover_depth(count, block),
        ),
    decreases cover_depth(count, block) - from,
{
    let to = cover_depth(count, block);
    let offset = block / pow2(from);
    let index = index_at(from, offset);
    if from == to {
        lemma_covering_root(count, block);
    } else {
        lemma_not_root_below(count, block, from);
        lemma_depth_of_index(from, offset);
        lemma_parent_of_index(from, offset);
        lemma_pow2_pos(from);
        lemma_pow2_unfold(from + 1);
        vstd::arithmetic::div_mod::lemma_div_denominator(block as int, pow2(from) as int, 2);
        assert(offset / 2 == block / pow2(from + 1)) by {
            assert(pow2(from) * 2 == pow2(from + 1));
        }
        lemma_path_indices(count, block, from + 1, (steps - 1) as nat);
    }
}

/// No sibling lies on a way of no step.
pub proof fn lemma_model_path_none(blocks: Seq<Seq<u8>>, depth: nat, offset: nat)
    ensures
        model_path(blocks, depth, offset, 0) == Seq::<NodeView>::empty(),
        node_indices(model_path(blocks, depth, offset, 0)) == Seq::<u64>::empty(),
{
    assert(node_indices(Seq::<NodeView>::empty()) =~= Seq::<u64>::empty());
}

/// The siblings of the tree over blocks on the way up from a block stand at
/// the indices that the walk asks for.
pub proof fn lemma_model_path_indices(blocks: Seq<Seq<u8>>, block: nat, from: nat, to: nat)
    requires
        from <= to,
        (block / pow2(to) + 1) * pow2(to) <= blocks.len(),
        blocks.len() <= MAX_LENGTH,
        total_bytes(blocks) <= u64::MAX,
    ensures
        node_indices(model_path(blocks, from, block / pow2(from), (to - from) as nat))
            == path_siblings(block, from, to),
    decreases to - from,
{
    let offset = block / pow2(from);
    if from == to {
        lemma_model_path_none(blocks, from, offset);
    } else {
        let other = sibling_offset(offset);
        let h = offset / 2;
        let steps = (to - from) as nat;
        lemma_pow2_pos(from);
        lemma_pow2_unfold(from + 1);
        vstd::arithmetic::div_mod::lemma_div_denominator(block as int, pow2(from) as int, 2);
        assert(h == block / pow2(from + 1)) by {
            assert(pow2(from) * 2 == pow2(from + 1));
        }
        lemma_block_offsets(block, from + 1, to);
        lemma_span_halves(from + 1, h);
        let w = pow2(from);
        assert((other + 1) * w <= (2 * h + 2) * w) by (nonlinear_arith)
            requires
                other + 1 <= 2 * h + 2,
                w >= 0,
        ;
        lemma_subtree(blocks, from, other);
        lemma_model_path_indices(blocks, block, from + 1, to);
        let rest = model_path(blocks, from + 1, h, (steps - 1) as nat);
        let first = subtree(blocks, from, other);
        assert(model_path(blocks, from, offset, steps) == seq![first] + rest);
        assert(node_indices(seq![first] + rest) =~= seq![first.index] + node_indices(rest));
    }
}

/// Request law: the siblings that `missing_nodes_for` asks for, taken from
/// the tree over the blocks of a log and with hashes of 32 bytes, make with
/// the block a proof that the log accepts.
pub proof fn lemma_request_makes_proof(blocks: Seq<Seq<u8>>, block: nat)
    requires
        block < blocks.len(),
        blocks.len() <= MAX_LENGTH,
        total_bytes(blocks) <= u64::MAX,
        nodes_ok(model_path(blocks, 0, block, cover_depth(blocks.len(), block))),
    ensures
        ({
            let path = model_path(blocks, 0, block, cover_depth(blocks.len(), block));
            &&& node_indices(path) == path_indices(
                2 * block,
                root_cover(blocks.len()),
                MAX_DEPTH as nat,
            )
            &&& block_proved(
                model_roots(blocks, blocks.len()),
                DataBlockView { index: block as u64, value: blocks[block as int], nodes: path },
            )
        }),
{
    let count = blocks.len();
    let depth = cover_depth(count, block);
    let top = block / pow2(depth);
    let roots = model_roots(blocks, count);
    lemma_covering_root(count, block);
    lemma_pow2_zero();
    assert(block / 1 == block);
    lemma_index_by_span(0, block);
    assert(block * 1 == block) by (nonlinear_arith);
    // the root above the block stands within the blocks, so it is not deep
    lemma_pow2_pos(depth);
    assert((top + 1) * pow2(depth) >= pow2(depth)) by (nonlinear_arith)
        requires
            top >= 0,
            pow2(depth) >= 0,
    ;
    vstd::arithmetic::power2::lemma2_to64_rest();
    if depth >= 56 {
        if depth > 56 {
            vstd::arithmetic::power2::lemma_pow2_strictly_increases(56, depth);
        }
        assert(false);
    }
    lemma_path_indices(count, block, 0, MAX_DEPTH as nat);
    lemma_model_path_indices(blocks, block, 0, depth);
    // the root above the block is the root that the tree holds at its index
    let index = index_at(depth, top) as u64;
    lemma_model_roots(blocks, count);
    lemma_model_roots_are_model(blocks, count);
    let place = choose|i: int| 0 <= i < root_cover(count).len() && root_cover(count)[i] == index;
    assert(node_indices(roots)[place] == roots[place].index);
    lemma_position_finds(roots, index, 0, place);
    lemma_position_of(roots, index, 0);
    let found = position_of(roots, index, 0)->0;
    assert(is_model(roots[found], blocks));
    lemma_depth_of_index(depth, top);
    lemma_subtree(blocks, depth, top);
    assert(is_root(roots, subtree(blocks, depth, top)));
    lemma_proof_soundness(blocks, block, depth, roots);
}

} // verus!
