//! The block store: where the blocks of a batch go in the data segment.

use std::ops::Range;
use vstd::prelude::*;

use crate::common::{append_bytes, HypercoreError, Slice};
use crate::node::{node_views, total_length, Node};
use crate::storage::MAX_BLOCK_INDEX;
use crate::tree::MerkleTree;
use crate::tree_records::{range_indices, resolved};

verus! {

/// The blocks of a batch as mathematical values.
pub open spec fn block_views(batch: Seq<&[u8]>) -> Seq<Seq<u8>> {
    batch.map_values(|block: &[u8]| block@)
}

/// The blocks one after the other.
pub open spec fn concat_blocks(blocks: Seq<Seq<u8>>) -> Seq<u8>
    decreases blocks.len(),
{
    if blocks.len() == 0 {
        Seq::empty()
    } else {
        concat_blocks(blocks.drop_last()) + blocks.last()
    }
}

/// Number of bytes of the blocks together.
pub open spec fn total_bytes(blocks: Seq<Seq<u8>>) -> nat
    decreases blocks.len(),
{
    if blocks.len() == 0 {
        0
    } else {
        total_bytes(blocks.drop_last()) + blocks.last().len()
    }
}

/// The blocks one after the other are as long as the blocks together.
pub proof fn lemma_concat_blocks_len(blocks: Seq<Seq<u8>>)
    ensures
        concat_blocks(blocks).len() == total_bytes(blocks),
    decreases blocks.len(),
{
    if blocks.len() > 0 {
        lemma_concat_blocks_len(blocks.drop_last());
    }
}

/// One more block adds its length to the total.
pub proof fn lemma_total_bytes_push(blocks: Seq<Seq<u8>>, block: Seq<u8>)
    ensures
        total_bytes(blocks.push(block)) == total_bytes(blocks) + block.len(),
        concat_blocks(blocks.push(block)) == concat_blocks(blocks) + block,
{
    assert(blocks.push(block).drop_last() == blocks);
}

/// Number of bytes of the blocks from `from` up to `to`.
pub open spec fn span_bytes(blocks: Seq<Seq<u8>>, from: nat, to: nat) -> nat {
    total_bytes(blocks.subrange(from as int, to as int))
}

/// The bytes of two sequences of blocks add up.
pub proof fn lemma_total_bytes_concat(first: Seq<Seq<u8>>, second: Seq<Seq<u8>>)
    ensures
        total_bytes(first + second) == total_bytes(first) + total_bytes(second),
        concat_blocks(first + second) == concat_blocks(first) + concat_blocks(second),
    decreases second.len(),
{
    if second.len() == 0 {
        assert(first + second =~= first);
        assert(concat_blocks(first) + Seq::<u8>::empty() =~= concat_blocks(first));
    } else {
        lemma_total_bytes_concat(first, second.drop_last());
        assert((first + second).drop_last() =~= first + second.drop_last());
        assert((first + second).last() == second.last());
        assert(concat_blocks(first + second.drop_last()) + second.last() =~= concat_blocks(first)
            + (concat_blocks(second.drop_last()) + second.last()));
    }
}

/// The bytes of adjacent spans add up, and no span has more bytes than all
/// blocks.
pub proof fn lemma_span_bytes(blocks: Seq<Seq<u8>>, from: nat, middle: nat, to: nat)
    requires
        from <= middle <= to <= blocks.len(),
    ensures
        span_bytes(blocks, from, to) == span_bytes(blocks, from, middle) + span_bytes(
            blocks,
            middle,
            to,
        ),
        span_bytes(blocks, from, to) <= total_bytes(blocks),
{
    let a = from as int;
    let b = middle as int;
    let c = to as int;
    lemma_total_bytes_concat(blocks.subrange(a, b), blocks.subrange(b, c));
    assert(blocks.subrange(a, b) + blocks.subrange(b, c) =~= blocks.subrange(a, c));
    lemma_total_bytes_concat(blocks.subrange(0, a), blocks.subrange(a, c));
    lemma_total_bytes_concat(
        blocks.subrange(0, a) + blocks.subrange(a, c),
        blocks.subrange(c, blocks.len() as int),
    );
    assert(blocks.subrange(0, a) + blocks.subrange(a, c) + blocks.subrange(c, blocks.len() as int)
        =~= blocks);
}

/// Translates block indices into byte ranges of the data segment.
#[derive(Debug)]
pub struct BlockStore {}

impl Default for BlockStore {
    fn default() -> (store: BlockStore) {
        BlockStore {  }
    }
}

impl BlockStore {
    /// The write that puts a batch into the data segment: the blocks one
    /// after the other, behind the bytes that are there.
    pub fn append_batch(&self, batch: &[&[u8]], batch_length: usize, byte_length: u64) -> (slice:
        Slice)
        ensures
            slice.offset == byte_length,
            slice.data@ == concat_blocks(block_views(batch@)),
    {
        let mut data: Vec<u8> = Vec::new();
        let ghost blocks = block_views(batch@);
        let mut i: usize = 0;
        proof {
            assert(blocks.take(0) =~= Seq::<Seq<u8>>::empty());
        }
        while i < batch.len()
            invariant
                i <= batch@.len(),
                blocks == block_views(batch@),
                data@ == concat_blocks(blocks.take(i as int)),
            decreases batch@.len() - i,
        {
            proof {
                assert(blocks.take(i + 1) =~= blocks.take(i as int).push(blocks[i as int]));
                lemma_total_bytes_push(blocks.take(i as int), blocks[i as int]);
            }
            append_bytes(&mut data, batch[i]);
            i += 1;
        }
        proof {
            assert(blocks.take(i as int) =~= blocks);
        }
        Slice { offset: byte_length, data }
    }

    /// The byte range of a committed block in the data segment, from the
    /// tree and the records that `MerkleTree::byte_range_nodes` named.
    pub fn range_of(&self, tree: &MerkleTree, index: u64, stored: &[Node]) -> (range: Result<
        Range<u64>,
        HypercoreError,
    >)
        ensures
            range is Ok <==> index < tree.length && index <= MAX_BLOCK_INDEX && (resolved(
                range_indices(index),
                node_views(tree.unflushed@),
                node_views(stored@),
            ) matches Some(nodes) && total_length(nodes) <= u64::MAX),
            range matches Ok(r) ==> {
                let nodes = resolved(
                    range_indices(index),
                    node_views(tree.unflushed@),
                    node_views(stored@),
                )->0;
                &&& r.start == total_length(nodes.drop_last())
                &&& r.end == r.start + nodes.last().length
            },
            range matches Err(e) ==> e is CorruptTree,
    {
        tree.byte_range(index, stored)
    }
}

} // verus!
