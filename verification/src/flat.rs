//! Flat-tree labelling: the nodes of a complete binary tree numbered in
//! order, leaves at even indices and internal nodes at odd indices.

use vstd::arithmetic::div_mod::lemma_fundamental_div_mod_converse;
use vstd::arithmetic::power2::{lemma_pow2_pos, lemma_pow2_unfold, pow2};
use vstd::prelude::*;

verus! {

/// Largest index for which the labelling arithmetic is carried out in 64 bits.
pub const MAX_INDEX: u64 = 0x01ff_ffff_ffff_ffff;

/// Depth of a node: the number of trailing one bits of its index.
pub open spec fn depth_of(i: nat) -> nat
    decreases i,
{
    if i % 2 == 0 {
        0
    } else {
        1 + depth_of(i / 2)
    }
}

/// Offset of a node: its position among the nodes of its depth.
pub open spec fn offset_of(i: nat) -> nat {
    i / pow2(depth_of(i) + 1)
}

/// Index of the node at the given depth and offset.
pub open spec fn index_at(depth: nat, offset: nat) -> nat {
    (offset * pow2(depth + 1) + pow2(depth) - 1) as nat
}

/// Index of the parent of a node.
pub open spec fn parent_of(i: nat) -> nat {
    index_at(depth_of(i) + 1, offset_of(i) / 2)
}

/// Largest power of two that is at most `n`, for positive `n`.
pub open spec fn top_power(n: nat) -> nat
    decreases n,
{
    if n <= 1 {
        1
    } else {
        2 * top_power(n / 2)
    }
}

/// Roots of the full subtrees that cover `count` leaves, the first of them at
/// leaf position `offset / 2`, largest subtree first.
pub open spec fn roots_from(count: nat, offset: nat) -> Seq<u64>
    decreases count,
    via roots_from_decreases
{
    if count == 0 {
        Seq::empty()
    } else {
        let factor = top_power(count);
        seq![#[verifier::truncate] ((offset + factor - 1) as u64)] + roots_from(
            (count - factor) as nat,
            offset + 2 * factor,
        )
    }
}

#[via_fn]
proof fn roots_from_decreases(count: nat, offset: nat) {
    lemma_top_power_bounds(count);
}

/// The largest power of two below a positive `n` is positive, at most `n`,
/// and more than half of `n`.
pub proof fn lemma_top_power_bounds(n: nat)
    ensures
        1 <= top_power(n),
        n >= 1 ==> top_power(n) <= n < 2 * top_power(n),
    decreases n,
{
    if n > 1 {
        lemma_top_power_bounds(n / 2);
    }
}

/// The canonical root cover of `count` blocks.
pub open spec fn root_cover(count: nat) -> Seq<u64> {
    roots_from(count, 0)
}

/// `flat_tree::full_roots` appends to `nodes` the roots of the full subtrees
/// to the left of the even index `i`; it panics on an odd index.
pub assume_specification[ flat_tree::full_roots ](i: u64, nodes: &mut Vec<u64>)
    requires
        i % 2 == 0,
    ensures
        final(nodes)@ == old(nodes)@ + root_cover((i / 2) as nat),
;

/// `flat_tree::parent` computes the parent's index from the node's depth and
/// offset; the bound keeps its shifts within 64 bits.
pub assume_specification[ flat_tree::parent ](i: u64) -> (p: u64)
    requires
        i <= MAX_INDEX,
    ensures
        p == parent_of(i as nat),
;

/// Index of the sibling of a node: the node at the same depth whose offset
/// differs in its last bit.
pub open spec fn sibling_of(i: nat) -> nat {
    index_at(
        depth_of(i),
        if offset_of(i) % 2 == 0 {
            offset_of(i) + 1
        } else {
            (offset_of(i) - 1) as nat
        },
    )
}

/// Index of the left child of an internal node.
pub open spec fn left_child_of(i: nat) -> nat {
    index_at((depth_of(i) - 1) as nat, 2 * offset_of(i))
}

/// Index of the right child of an internal node.
pub open spec fn right_child_of(i: nat) -> nat {
    index_at((depth_of(i) - 1) as nat, 2 * offset_of(i) + 1)
}

/// `flat_tree::sibling` computes the index at the node's depth and at its
/// offset with the last bit flipped; the bound keeps its shifts within 64
/// bits.
pub assume_specification[ flat_tree::sibling ](i: u64) -> (s: u64)
    requires
        i <= MAX_INDEX,
    ensures
        s == sibling_of(i as nat),
;

/// `flat_tree::left_child` gives nothing for a leaf, and for an internal
/// node the index one level down at twice its offset.
pub assume_specification[ flat_tree::left_child ](i: u64) -> (child: Option<u64>)
    requires
        i <= MAX_INDEX,
    ensures
        child == (if i % 2 == 0 {
            None
        } else {
            Some(left_child_of(i as nat) as u64)
        }),
;

/// `flat_tree::right_child` gives nothing for a leaf, and for an internal
/// node the index one level down at twice its offset plus one.
pub assume_specification[ flat_tree::right_child ](i: u64) -> (child: Option<u64>)
    requires
        i <= MAX_INDEX,
    ensures
        child == (if i % 2 == 0 {
            None
        } else {
            Some(right_child_of(i as nat) as u64)
        }),
;

/// Every index is the one at its own depth and offset.
pub proof fn lemma_index_of_parts(i: nat)
    ensures
        index_at(depth_of(i), offset_of(i)) == i,
    decreases i,
{
    lemma_pow2_pos(depth_of(i));
    lemma_pow2_unfold(depth_of(i) + 1);
    if i % 2 == 0 {
        assert(pow2(0) == 1) by {
            reveal(vstd::arithmetic::power::pow);
            vstd::arithmetic::power2::lemma_pow2(0);
        }
        assert(depth_of(i) == 0);
        assert(pow2(1) == 2);
        assert(offset_of(i) == i / 2);
        assert((i / 2) * 2 == i);
    } else {
        let half = i / 2;
        let d = depth_of(half);
        assert(depth_of(i) == d + 1);
        lemma_index_of_parts(half);
        lemma_pow2_pos(d + 1);
        lemma_pow2_unfold(d + 2);
        lemma_pow2_unfold(d + 1);
        lemma_pow2_pos(d);
        let p = pow2(d + 1);
        let o = offset_of(half);
        assert(o == half / p);
        vstd::arithmetic::div_mod::lemma_div_denominator(i as int, 2, p as int);
        assert(i / (2 * p) == (i / 2) / p);
        assert(pow2(d + 2) == 2 * p);
        assert(offset_of(i) == i / pow2(d + 2));
        assert(offset_of(i) == o);
        assert(o * (2 * p) == 2 * (o * p)) by (nonlinear_arith);
        assert(half == o * p + pow2(d) - 1);
        assert(index_at(d + 1, o) == o * (2 * p) + p - 1);
    }
}

/// The children of an internal node lie on either side of it, the right
/// one at no more than twice its index, and have it as their parent.
pub proof fn lemma_children(i: nat)
    requires
        i % 2 == 1,
    ensures
        left_child_of(i) < i < right_child_of(i) <= 2 * i,
        parent_of(left_child_of(i)) == i,
        parent_of(right_child_of(i)) == i,
        left_child_of(i) != right_child_of(i),
{
    let d = depth_of(i);
    let o = offset_of(i);
    assert(d >= 1);
    let below = (d - 1) as nat;
    lemma_index_of_parts(i);
    lemma_index_by_span(d, o);
    lemma_index_by_span(below, 2 * o);
    lemma_index_by_span(below, 2 * o + 1);
    lemma_pow2_unfold(d);
    lemma_pow2_pos(below);
    let h = pow2(below);
    assert((2 * o) * h == 2 * (o * h)) by (nonlinear_arith);
    assert((2 * o + 1) * h == 2 * (o * h) + h) by (nonlinear_arith);
    assert(o * (2 * h) == 2 * (o * h)) by (nonlinear_arith);
    assert(o * h >= 0) by (nonlinear_arith);
    lemma_parent_of_index(below, 2 * o);
    lemma_parent_of_index(below, 2 * o + 1);
    assert((2 * o) / 2 == o);
    assert((2 * o + 1) / 2 == o);
}

/// Number of trailing zero bits of a positive number.
pub open spec fn low_depth(n: nat) -> nat
    decreases n,
{
    if n == 0 || n % 2 == 1 {
        0
    } else {
        1 + low_depth(n / 2)
    }
}

/// Largest power of two that divides a positive number.
pub open spec fn low_power(n: nat) -> nat
    decreases n,
{
    if n == 0 || n % 2 == 1 {
        1
    } else {
        2 * low_power(n / 2)
    }
}

/// A positive number over the largest power of two that divides it.
pub open spec fn low_quotient(n: nat) -> nat
    decreases n,
{
    if n == 0 || n % 2 == 1 {
        n
    } else {
        low_quotient(n / 2)
    }
}

/// A positive number is an odd number times a power of two.
pub proof fn lemma_low_parts(n: nat)
    requires
        n > 0,
    ensures
        low_power(n) == pow2(low_depth(n)),
        n == low_quotient(n) * low_power(n),
        low_quotient(n) % 2 == 1,
        1 <= low_power(n) <= n,
    decreases n,
{
    if n % 2 == 1 {
        assert(pow2(0) == 1) by {
            lemma_pow2_pos(0);
            reveal(vstd::arithmetic::power::pow);
            vstd::arithmetic::power2::lemma_pow2(0);
        }
    } else {
        lemma_low_parts(n / 2);
        lemma_pow2_unfold(low_depth(n));
        let q = low_quotient(n / 2);
        let l = low_power(n / 2);
        assert(q * (2 * l) == 2 * (q * l)) by (nonlinear_arith);
    }
}

/// An odd number times a power of two has that power as its largest.
pub proof fn lemma_low_unique(k: nat, q: nat, n: nat)
    requires
        n == q * pow2(k),
        q % 2 == 1,
    ensures
        low_depth(n) == k,
        low_power(n) == pow2(k),
        low_quotient(n) == q,
    decreases k,
{
    if k == 0 {
        assert(pow2(0) == 1) by {
            reveal(vstd::arithmetic::power::pow);
            vstd::arithmetic::power2::lemma_pow2(0);
        }
        assert(q * 1 == q) by (nonlinear_arith);
    } else {
        lemma_pow2_unfold(k);
        let half = pow2((k - 1) as nat);
        lemma_pow2_pos((k - 1) as nat);
        assert(q * (2 * half) == 2 * (q * half)) by (nonlinear_arith);
        assert(q * half > 0) by (nonlinear_arith)
            requires
                q >= 1,
                half >= 1,
        ;
        lemma_low_unique((k - 1) as nat, q, q * half);
    }
}

/// The node at depth `d` and offset `o` is the one above the `2^d` leaves
/// that start at leaf `o * 2^d`.
pub proof fn lemma_index_by_span(d: nat, o: nat)
    ensures
        index_at(d, o) == 2 * (o * pow2(d)) + pow2(d) - 1,
{
    lemma_pow2_unfold(d + 1);
    lemma_pow2_pos(d);
    let p = pow2(d);
    assert(o * (2 * p) == 2 * (o * p)) by (nonlinear_arith);
}

/// Halving the index of a node above the leaves gives the node one level
/// lower at the same offset.
proof fn lemma_index_half(d: nat, o: nat)
    requires
        d > 0,
    ensures
        index_at(d, o) % 2 == 1,
        index_at(d, o) / 2 == index_at((d - 1) as nat, o),
{
    lemma_pow2_unfold(d + 1);
    lemma_pow2_unfold(d);
    lemma_pow2_pos((d - 1) as nat);
    let p = pow2((d - 1) as nat);
    assert(pow2(d) == 2 * p);
    assert(pow2(d + 1) == 4 * p);
    assert(o * (4 * p) == 4 * (o * p)) by (nonlinear_arith);
    assert(o * (2 * p) == 2 * (o * p)) by (nonlinear_arith);
    assert(o * p >= 0) by (nonlinear_arith);
}

/// The depth and the offset of a node are those it was labelled by.
pub proof fn lemma_depth_of_index(d: nat, o: nat)
    ensures
        depth_of(index_at(d, o)) == d,
        offset_of(index_at(d, o)) == o,
    decreases d,
{
    lemma_pow2_pos(d);
    lemma_pow2_pos(d + 1);
    lemma_pow2_unfold(d + 1);
    if d == 0 {
        assert(pow2(0) == 1) by {
            reveal(vstd::arithmetic::power::pow);
            vstd::arithmetic::power2::lemma_pow2(0);
        }
        assert(o * 2 == 2 * o);
    } else {
        lemma_index_half(d, o);
        lemma_depth_of_index((d - 1) as nat, o);
    }
    assert(depth_of(index_at(d, o)) == d);
    lemma_fundamental_div_mod_converse(
        index_at(d, o) as int,
        pow2(d + 1) as int,
        o as int,
        pow2(d) - 1,
    );
}

/// The parent of the node at depth `d` and offset `o` lies one level up at
/// half the offset.
pub proof fn lemma_parent_of_index(d: nat, o: nat)
    ensures
        parent_of(index_at(d, o)) == index_at(d + 1, o / 2),
        depth_of(parent_of(index_at(d, o))) == d + 1,
{
    lemma_depth_of_index(d, o);
    lemma_depth_of_index(d + 1, o / 2);
}

/// A power of two between `top_power(n)` and its double has it as its
/// largest power of two.
proof fn lemma_top_power_stable(x: nat, n: nat)
    requires
        n >= 1,
        top_power(n) <= x < 2 * top_power(n),
    ensures
        top_power(x) == top_power(n),
    decreases n,
{
    if n > 1 {
        lemma_top_power_bounds(n / 2);
        lemma_top_power_stable(x / 2, n / 2);
    }
}

/// A number that is its own largest power of two is divided by no larger
/// power than itself.
proof fn lemma_top_power_self(n: nat)
    requires
        n >= 1,
        top_power(n) == n,
    ensures
        low_power(n) == n,
    decreases n,
{
    if n > 1 {
        lemma_top_power_self(n / 2);
    }
}

/// Taking the largest power of two below a number away from it leaves the
/// largest power that divides it unchanged.
proof fn lemma_low_power_below_top(n: nat)
    requires
        n >= 1,
        top_power(n) < n,
    ensures
        low_power((n - top_power(n)) as nat) == low_power(n),
    decreases n,
{
    lemma_top_power_bounds(n / 2);
    if n % 2 == 0 {
        lemma_low_power_below_top(n / 2);
    }
}

/// The roots of a cover are, from the last one backwards, the subtrees of
/// the powers of two that divide the count: the last root stands above the
/// `low_power(count)` leaves that end the range.
pub proof fn lemma_roots_from_last(count: nat, offset: nat)
    requires
        count >= 1,
        offset + 2 * count <= u64::MAX,
    ensures
        roots_from(count, offset) == roots_from((count - low_power(count)) as nat, offset).push(
            (offset + 2 * count - low_power(count) - 1) as u64,
        ),
    decreases count,
{
    let factor = top_power(count);
    let low = low_power(count);
    lemma_top_power_bounds(count);
    lemma_low_parts(count);
    if factor == count {
        lemma_top_power_self(count);
        assert(roots_from(0, offset + 2 * factor) == Seq::<u64>::empty());
        assert(roots_from(0, offset) == Seq::<u64>::empty());
        assert(seq![(offset + factor - 1) as u64] + Seq::<u64>::empty() == Seq::<u64>::empty().push(
            (offset + 2 * count - low - 1) as u64,
        ));
    } else {
        let rest = (count - factor) as nat;
        lemma_low_power_below_top(count);
        lemma_low_parts(rest);
        lemma_roots_from_last(rest, offset + 2 * factor);
        lemma_top_power_stable((count - low) as nat, count);
        let inner = roots_from((rest - low) as nat, offset + 2 * factor);
        assert(roots_from((count - low) as nat, offset) == seq![(offset + factor - 1) as u64]
            + inner);
        assert(seq![(offset + factor - 1) as u64] + inner.push(
            (offset + 2 * factor + 2 * rest - low - 1) as u64,
        ) == (seq![(offset + factor - 1) as u64] + inner).push(
            (offset + 2 * count - low - 1) as u64,
        ));
    }
}

/// The canonical root cover of a positive count ends with the root above
/// its last `low_power(count)` blocks, behind the cover of the blocks before.
pub proof fn lemma_root_cover_last(count: nat)
    requires
        count >= 1,
        2 * count <= u64::MAX,
    ensures
        root_cover(count) == root_cover((count - low_power(count)) as nat).push(
            (2 * count - low_power(count) - 1) as u64,
        ),
{
    lemma_roots_from_last(count, 0);
}

/// Every root of a cover has an index below twice the count.
pub proof fn lemma_root_cover_bound(count: nat, i: int)
    requires
        2 * count <= u64::MAX,
        0 <= i < root_cover(count).len(),
    ensures
        root_cover(count)[i] < 2 * count,
    decreases count,
{
    if count >= 1 {
        lemma_root_cover_last(count);
        lemma_low_parts(count);
        let before = root_cover((count - low_power(count)) as nat);
        if i < before.len() {
            lemma_root_cover_bound((count - low_power(count)) as nat, i);
        }
    }
}

} // verus!
