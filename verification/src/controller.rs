//! The controller: it opens the operation log, the tree and the block store
//! in this order and runs the commit protocol over them. Reading and
//! writing the segments is the caller's part: every step here names what is
//! to be read or written and takes what was read.

use std::ops::Range;
use vstd::prelude::*;

use crate::common::{append_bytes, bytes_equal, overflow, HypercoreError, Slice, slice_views};
use crate::crypto::{ed25519_signature, ed25519_verifies, generate_keypair, verify, PartialKeypair};
use crate::data::{block_views, concat_blocks, lemma_span_bytes, total_bytes, BlockStore};
use crate::flat::root_cover;
use crate::node::{node_views, total_length, Node, NodeView};
use crate::oplog::entry::{
    entry_bits, entry_ok, entry_views, entry_wire, EntryBitfieldUpdate, EntryTreeUpgradeView,
    EntryView,
};
use crate::oplog::header::{HeaderTree, HeaderTreeView, HeaderView};
use crate::oplog::laws::lemma_fresh_header_fits;
use crate::oplog::{
    changeset_entry, committed_header, end_mark, frame_wire, open_result, slot_at, slot_payload,
    winner, Oplog, OplogOpenOutcome, BODY_OFFSET, HEADER_SLOT_SIZE, MAX_PAYLOAD, SLOT_CAPACITY,
};
use crate::storage::{StoreWrite, MAX_BLOCK_INDEX};
use crate::tree::{
    leaf_node, leaves_of, new_nodes, push_leaves, push_node, pushed_by, signable, tree_hash,
    MerkleTree, MerkleTreeChangeset, MAX_LENGTH,
};
use crate::tree_records::{
    entry_extends, entry_leaves_ok, missing, node_writes, opens, range_indices, record_views,
    records_agree, resolved, roots_of_records, SliceInstruction,
};

verus! {

/// Number of bytes of entries in the body from which the header is due for
/// a rewrite.
pub const FLUSH_THRESHOLD: u64 = 65536;

/// What an append leaves: the length of the log in blocks and in bytes.
#[derive(Debug, Clone, Copy, PartialEq, Eq, Structural)]
pub struct AppendOutcome {
    /// Number of blocks.
    pub length: u64,
    /// Number of bytes.
    pub byte_length: u64,
}

/// What a log says of itself.
#[derive(Debug)]
pub struct Info {
    /// Number of blocks.
    pub length: u64,
    /// Number of bytes.
    pub byte_length: u64,
    /// Fork of the log.
    pub fork: u64,
    /// The key that readers verify with.
    pub public_key: Vec<u8>,
}

/// An append that is staged and signed, and whose writes are not yet made.
#[derive(Debug)]
pub struct PendingAppend {
    /// The staged tree state.
    pub changeset: MerkleTreeChangeset,
    /// What to write to the data segment, first.
    pub data: Slice,
    /// What to write to the operation log, after the data is durable.
    pub oplog: Vec<Slice>,
}

/// What an append asks of its caller.
#[derive(Debug)]
pub enum AppendStep {
    /// Nothing: the batch was empty, and this is the log as it stands.
    Done(AppendOutcome),
    /// To make the writes, in their order, and then to commit.
    Flush(PendingAppend),
}

/// What a header rewrite asks to be written.
#[derive(Debug)]
pub struct FlushPlan {
    /// Records for the tree segment, first.
    pub tree: Vec<StoreWrite>,
    /// The header slot and the end mark for the operation log, after the
    /// records are durable.
    pub oplog: Vec<Slice>,
}

/// A log whose operation log is open and whose tree is not yet.
#[derive(Debug)]
pub struct Opening {
    /// The keys of the log.
    pub key_pair: PartialKeypair,
    /// What opening the operation log gave.
    pub outcome: OplogOpenOutcome,
}

/// An append-only log with its keys, operation log, tree and block store.
#[derive(Debug)]
pub struct Hypercore {
    /// The keys of the log.
    pub key_pair: PartialKeypair,
    /// The operation log.
    pub oplog: Oplog,
    /// The committed tree.
    pub tree: MerkleTree,
    /// The block store.
    pub block_store: BlockStore,
}

/// The roots after the blocks are appended one by one to a tree of `length`
/// blocks.
pub open spec fn push_blocks(roots: Seq<NodeView>, length: nat, blocks: Seq<Seq<u8>>) -> Seq<NodeView>
    decreases blocks.len(),
{
    if blocks.len() == 0 {
        roots
    } else {
        push_node(
            push_blocks(roots, length, blocks.drop_last()),
            leaf_node((length + blocks.len() - 1) as u64, blocks.last()),
        )
    }
}

/// The nodes that appending the blocks one by one brings into a tree of
/// `length` blocks.
pub open spec fn pushed_nodes(roots: Seq<NodeView>, length: nat, blocks: Seq<Seq<u8>>) -> Seq<NodeView>
    decreases blocks.len(),
{
    if blocks.len() == 0 {
        Seq::empty()
    } else {
        pushed_nodes(roots, length, blocks.drop_last()) + new_nodes(
            push_blocks(roots, length, blocks.drop_last()),
            leaf_node((length + blocks.len() - 1) as u64, blocks.last()),
        )
    }
}

/// A tree state as a mathematical value.
pub struct TreeView {
    /// Roots of the committed blocks.
    pub roots: Seq<NodeView>,
    /// Number of committed blocks.
    pub length: u64,
    /// Fork of the log.
    pub fork: u64,
    /// Signature over the roots.
    pub signature: Option<Seq<u8>>,
    /// Nodes that are committed and not yet in the tree segment.
    pub unflushed: Seq<NodeView>,
}

impl View for MerkleTree {
    type V = TreeView;

    open spec fn view(&self) -> TreeView {
        TreeView {
            roots: node_views(self.roots@),
            length: self.length,
            fork: self.fork,
            signature: match self.signature {
                Some(s) => Some(s@),
                None => None,
            },
            unflushed: node_views(self.unflushed@),
        }
    }
}

/// The tree that a tree upgrade makes of a tree, where it stands on the
/// tree, holds the leaves of the blocks it adds and is signed: the leaves
/// are added to the roots one by one.
pub open spec fn upgraded(tree: TreeView, upgrade: EntryTreeUpgradeView, public: Seq<u8>) -> Option<
    TreeView,
> {
    let leaves = leaves_of(upgrade.nodes);
    let roots = push_leaves(tree.roots, leaves);
    if entry_extends(tree.length, tree.fork, upgrade) && entry_leaves_ok(
        total_length(tree.roots) as u64,
        upgrade,
    ) && ed25519_verifies(public, signable(roots, upgrade.length, upgrade.fork), upgrade.signature) {
        Some(
            TreeView {
                roots,
                length: upgrade.length,
                fork: upgrade.fork,
                signature: Some(upgrade.signature),
                unflushed: tree.unflushed + pushed_by(tree.roots, leaves),
            },
        )
    } else {
        None
    }
}

/// The tree after the entries of the operation log are replayed over it:
/// an entry without a tree upgrade, or with one that the tree already
/// holds, changes nothing; every other must bring the tree forward.
pub open spec fn replayed(tree: TreeView, entries: Seq<EntryView>, public: Seq<u8>) -> Option<TreeView>
    decreases entries.len(),
{
    if entries.len() == 0 {
        Some(tree)
    } else {
        match entries.first().tree_upgrade {
            Some(upgrade) => if upgrade.length <= tree.length {
                replayed(tree, entries.drop_first(), public)
            } else {
                match upgraded(tree, upgrade, public) {
                    Some(next) => replayed(next, entries.drop_first(), public),
                    None => None,
                }
            },
            None => replayed(tree, entries.drop_first(), public),
        }
    }
}

/// Why a tree upgrade does not bring a tree forward: it does not stand on
/// the tree or adds no blocks, or it does not hold the leaves of the blocks
/// it adds, or its signature does not verify.
pub open spec fn upgrade_error(tree: TreeView, upgrade: EntryTreeUpgradeView) -> HypercoreError {
    if !entry_extends(tree.length, tree.fork, upgrade) {
        HypercoreError::NonMonotonicUpgrade
    } else if !entry_leaves_ok(total_length(tree.roots) as u64, upgrade) {
        HypercoreError::CorruptTree
    } else {
        HypercoreError::InvalidSignature
    }
}

/// Why the replay of entries over a tree fails: as the first entry fails
/// that is not yet in the tree and does not bring it forward.
pub open spec fn replay_error(tree: TreeView, entries: Seq<EntryView>, public: Seq<u8>) -> HypercoreError
    decreases entries.len(),
{
    if entries.len() == 0 {
        HypercoreError::CorruptTree
    } else {
        match entries.first().tree_upgrade {
            Some(upgrade) => if upgrade.length <= tree.length {
                replay_error(tree, entries.drop_first(), public)
            } else {
                match upgraded(tree, upgrade, public) {
                    Some(next) => replay_error(next, entries.drop_first(), public),
                    None => upgrade_error(tree, upgrade),
                }
            },
            None => replay_error(tree, entries.drop_first(), public),
        }
    }
}

/// The number of blocks from the first on that are held, after a bitfield
/// update: blocks added behind them extend them, and blocks dropped among
/// them end them.
pub open spec fn contiguous_after(contiguous: u64, update: Option<EntryBitfieldUpdate>) -> u64 {
    match update {
        Some(update) => if update.drop {
            if update.start < contiguous && update.length > 0 {
                update.start
            } else {
                contiguous
            }
        } else if update.start == contiguous && update.start + update.length <= u64::MAX {
            (update.start + update.length) as u64
        } else {
            contiguous
        },
        None => contiguous,
    }
}

/// The number of blocks from the first on that are held, after the entries
/// of the operation log are replayed over a tree of `length` blocks: the
/// bitfield update of every entry counts but that of an entry whose tree
/// upgrade the tree already holds.
pub open spec fn replayed_contiguous(length: u64, contiguous: u64, entries: Seq<EntryView>) -> u64
    decreases entries.len(),
{
    if entries.len() == 0 {
        contiguous
    } else {
        let entry = entries.first();
        match entry.tree_upgrade {
            Some(upgrade) => if upgrade.length <= length {
                replayed_contiguous(length, contiguous, entries.drop_first())
            } else {
                replayed_contiguous(
                    upgrade.length,
                    contiguous_after(contiguous, entry.bitfield_update),
                    entries.drop_first(),
                )
            },
            None => replayed_contiguous(
                length,
                contiguous_after(contiguous, entry.bitfield_update),
                entries.drop_first(),
            ),
        }
    }
}

/// The header that records a tree and a number of contiguous blocks: the
/// tree state of a tree with blocks takes the place of the recorded one.
pub open spec fn synced_header(header: HeaderView, tree: MerkleTree, contiguous: u64) -> HeaderView {
    if tree.length > 0 {
        HeaderView {
            tree: HeaderTreeView {
                fork: tree.fork,
                length: tree.length,
                root_hash: tree.signable(),
                signature: tree.signature->0@,
            },
            contiguous_length: contiguous,
            ..header
        }
    } else {
        HeaderView { contiguous_length: contiguous, ..header }
    }
}

/// Applies a bitfield update to the number of contiguous blocks.
pub fn apply_bitfield_update(contiguous: u64, update: &Option<EntryBitfieldUpdate>) -> (next: u64)
    ensures
        next == contiguous_after(contiguous, *update),
{
    match update {
        Some(update) => {
            if update.drop {
                if update.start < contiguous && update.length > 0 {
                    update.start
                } else {
                    contiguous
                }
            } else if update.start == contiguous {
                match update.start.checked_add(update.length) {
                    Some(end) => end,
                    None => contiguous,
                }
            } else {
                contiguous
            }
        },
        None => contiguous,
    }
}

impl Opening {
    /// What has to be written to the operation log before the log is used.
    pub fn slices_to_flush(&self) -> (slices: &Vec<Slice>)
        ensures
            slices == &self.outcome.slices_to_flush,
    {
        &self.outcome.slices_to_flush
    }

    /// The ranges of the tree segment to read before the tree is opened;
    /// none where the header records more blocks than a tree holds.
    pub fn tree_reads(&self) -> (reads: Vec<SliceInstruction>)
        ensures
            self.outcome.header.tree.length <= MAX_LENGTH ==> reads@
                == crate::tree_records::record_indices(
                root_cover(self.outcome.header.tree.length as nat),
            ).map_values(|index: u64| crate::tree_records::record_range(index)),
            self.outcome.header.tree.length > MAX_LENGTH ==> reads@.len() == 0,
    {
        if self.outcome.header.tree.length > MAX_LENGTH {
            Vec::new()
        } else {
            MerkleTree::get_slice_instructions_to_read(&self.outcome.header.tree)
        }
    }

    /// Opens the tree from the records read and replays the entries of the
    /// operation log over it; the header then records the tree as it stands.
    /// Fails as `MerkleTree::open` does where the tree does not open, and as
    /// `MerkleTree::upgrade` does on the first entry that is not yet in the
    /// tree and does not bring it forward.
    #[verifier::rlimit(50)]
    pub fn finish(self, records: &[Vec<u8>]) -> (core: Result<Hypercore, HypercoreError>)
        requires
            self.outcome.well_formed(),
        ensures
            core is Ok <==> opens(
                self.outcome.header.tree@,
                self.key_pair.public@,
                record_views(records@),
            ) && replayed(
                opened_tree(self.outcome.header.tree, records@),
                entry_views(self.outcome.entries@),
                self.key_pair.public@,
            ) is Some,
            core matches Ok(log) ==> {
                &&& log.well_formed()
                &&& log.synced()
                &&& log.tree@ == replayed(
                    opened_tree(self.outcome.header.tree, records@),
                    entry_views(self.outcome.entries@),
                    self.key_pair.public@,
                )->0
                &&& log.oplog.header@ == synced_header(
                    self.outcome.header@,
                    log.tree,
                    replayed_contiguous(
                        self.outcome.header.tree.length,
                        self.outcome.header.contiguous_length,
                        entry_views(self.outcome.entries@),
                    ),
                )
                &&& log.key_pair == self.key_pair
                &&& log.oplog.sequence == self.outcome.oplog.sequence
                &&& log.oplog.entries_length == self.outcome.oplog.entries_length
            },
            core matches Err(e) ==> if opens(
                self.outcome.header.tree@,
                self.key_pair.public@,
                record_views(records@),
            ) {
                e == replay_error(
                    opened_tree(self.outcome.header.tree, records@),
                    entry_views(self.outcome.entries@),
                    self.key_pair.public@,
                )
            } else if records_agree(self.outcome.header.tree@, record_views(records@)) {
                e is InvalidSignature
            } else {
                e is CorruptTree
            },
    {
        let Opening { key_pair, outcome } = self;
        let OplogOpenOutcome { oplog, header, entries, slices_to_flush } = outcome;
        let mut oplog = oplog;
        let mut tree = MerkleTree::open(&header.tree, &key_pair.public, records)?;
        let mut contiguous = header.contiguous_length;
        let mut i: usize = 0;
        let ghost first = tree@;
        let ghost all = entry_views(entries@);
        proof {
            assert(all.skip(0) =~= all);
            assert(first.unflushed =~= Seq::<NodeView>::empty());
            assert(first == opened_tree(header.tree, records@));
        }
        while i < entries.len()
            invariant
                i <= entries@.len(),
                all == entry_views(entries@),
                forall|j: int| 0 <= j < entries@.len() ==> entry_ok(#[trigger] entries@[j]@),
                tree.committed(key_pair.public@),
                tree.fork == header.tree.fork,
                tree.length >= header.tree.length,
                oplog.well_formed(),
                oplog.header@ == header@,
                oplog.sequence == self.outcome.oplog.sequence,
                oplog.entries_length == self.outcome.oplog.entries_length,
                key_pair == self.key_pair,
                entries == self.outcome.entries,
                header == self.outcome.header,
                first == opened_tree(header.tree, records@),
                opens(header.tree@, key_pair.public@, record_views(records@)),
                replayed(first, all, key_pair.public@) == replayed(
                    tree@,
                    all.skip(i as int),
                    key_pair.public@,
                ),
                replayed_contiguous(header.tree.length, header.contiguous_length, all)
                    == replayed_contiguous(tree.length, contiguous, all.skip(i as int)),
                replay_error(first, all, key_pair.public@) == replay_error(
                    tree@,
                    all.skip(i as int),
                    key_pair.public@,
                ),
            decreases entries@.len() - i,
        {
            proof {
                assert(all.skip(i as int).first() == entries@[i as int]@);
                assert(all.skip(i as int).drop_first() =~= all.skip(i + 1));
                assert(entry_ok(entries@[i as int]@));
            }
            match &entries[i].tree_upgrade {
                Some(upgrade) => {
                    if upgrade.length > tree.length {
                        let ghost before = tree@;
                        tree.upgrade(upgrade, &key_pair.public)?;
                        proof {
                            assert(Some(tree@) == upgraded(before, upgrade@, key_pair.public@));
                        }
                        contiguous = apply_bitfield_update(contiguous, &entries[i].bitfield_update);
                    }
                },
                None => {
                    contiguous = apply_bitfield_update(contiguous, &entries[i].bitfield_update);
                },
            }
            i += 1;
        }
        oplog.header.contiguous_length = contiguous;
        match &tree.signature {
            Some(bytes) => {
                if tree.length > 0 {
                    let mut signature: Vec<u8> = Vec::new();
                    append_bytes(&mut signature, bytes.as_slice());
                    oplog.header.tree = HeaderTree {
                        fork: tree.fork,
                        length: tree.length,
                        root_hash: tree_hash(tree.roots.as_slice(), tree.length, tree.fork),
                        signature,
                    };
                }
            },
            None => {},
        }
        Ok(Hypercore { key_pair, oplog, tree, block_store: BlockStore::default() })
    }
}

/// The tree that opens from a recorded tree state and records.
pub open spec fn opened_tree(header: HeaderTree, records: Seq<Vec<u8>>) -> TreeView {
    TreeView {
        roots: roots_of_records(root_cover(header.length as nat), record_views(records))->0,
        length: header.length,
        fork: header.fork,
        signature: if header.length > 0 {
            Some(header.signature@)
        } else {
            None
        },
        unflushed: Seq::empty(),
    }
}

/// Whether a tree holds the blocks with those of a batch: in its count of
/// blocks, in its count of bytes, and the batch in the memory's count.
pub open spec fn append_fits(tree: MerkleTree, blocks: Seq<Seq<u8>>) -> bool {
    &&& tree.length + blocks.len() <= MAX_LENGTH
    &&& tree.byte_length + total_bytes(blocks) <= u64::MAX
    &&& total_bytes(blocks) <= usize::MAX
}

/// The hash that is signed for a tree with the blocks of a batch.
pub open spec fn append_signable(tree: MerkleTree, blocks: Seq<Seq<u8>>) -> Seq<u8> {
    signable(
        push_blocks(node_views(tree.roots@), tree.length as nat, blocks),
        (tree.length + blocks.len()) as u64,
        tree.fork,
    )
}

/// Whether the keys of a log sign a tree with the blocks of a batch with a
/// signature that verifies.
pub open spec fn append_signed(log: Hypercore, blocks: Seq<Seq<u8>>) -> bool {
    match ed25519_signature(
        log.key_pair.secret->0@,
        log.key_pair.public@,
        append_signable(log.tree, blocks),
    ) {
        Some(signature) => ed25519_verifies(
            log.key_pair.public@,
            append_signable(log.tree, blocks),
            signature,
        ),
        None => false,
    }
}

/// The entry that commits a batch with a signature.
pub open spec fn append_entry(tree: MerkleTree, blocks: Seq<Seq<u8>>, signature: Seq<u8>) -> EntryView {
    EntryView {
        tree_upgrade: Some(
            EntryTreeUpgradeView {
                fork: tree.fork,
                ancestors: tree.length,
                length: (tree.length + blocks.len()) as u64,
                signature,
                nodes: pushed_nodes(node_views(tree.roots@), tree.length as nat, blocks),
            },
        ),
        bitfield_update: None,
    }
}

/// Whether a batch is staged: the log holds a secret key, the batch holds
/// blocks and fits the tree, the signature made verifies, the operation
/// log's header records the tree as it stands, and the entry fits a frame
/// and the file.
pub open spec fn append_succeeds(log: Hypercore, blocks: Seq<Seq<u8>>) -> bool {
    &&& log.key_pair.secret is Some
    &&& blocks.len() > 0
    &&& append_fits(log.tree, blocks)
    &&& append_signed(log, blocks)
    &&& log.synced()
    &&& {
        let entry = append_entry(
            log.tree,
            blocks,
            ed25519_signature(
                log.key_pair.secret->0@,
                log.key_pair.public@,
                append_signable(log.tree, blocks),
            )->0,
        );
        &&& 0 < entry_wire(entry).len() <= MAX_PAYLOAD
        &&& BODY_OFFSET + log.oplog.entries_length + entry_wire(entry).len() + 16 <= u64::MAX
    }
}

/// Whether a staged changeset is taken in: it stands on the tree and on
/// the operation log's header, its signature has 64 bytes and verifies
/// under the log's public key, and its entry fits a frame and the file.
pub open spec fn commit_succeeds(log: Hypercore, changeset: MerkleTreeChangeset) -> bool {
    let entry = changeset_entry(changeset, false);
    &&& changeset.ancestors == log.oplog.header.tree.length
    &&& changeset.fork == log.oplog.header.tree.fork
    &&& changeset.ancestors == log.tree.length
    &&& changeset.fork == log.tree.fork
    &&& changeset.signature matches Some(s) && s@.len() == 64 && ed25519_verifies(
        log.key_pair.public@,
        changeset.signable(),
        s@,
    )
    &&& 0 < entry_wire(entry).len() <= MAX_PAYLOAD
    &&& BODY_OFFSET + log.oplog.entries_length + entry_wire(entry).len() + 16 <= u64::MAX
}

impl Hypercore {
    /// Whether the operation log's header records the tree's length and
    /// fork.
    pub open spec fn synced(&self) -> bool {
        &&& self.oplog.header.tree.length == self.tree.length
        &&& self.oplog.header.tree.fork == self.tree.fork
    }

    /// Whether the tree is committed under the log's public key and the
    /// operation log's header is well formed.
    pub open spec fn well_formed(&self) -> bool {
        &&& self.tree.committed(self.key_pair.public@)
        &&& self.oplog.well_formed()
    }

    /// Opens the operation log that a file holds for a log with freshly
    /// drawn keys: as `new_with_key_pair` does with the keys drawn. A file
    /// without a header is opened whatever keys are drawn, and a fresh
    /// header with them is to be written. A file with a valid header is
    /// opened only where the header names the public key that was drawn,
    /// else `InvalidSignature`; `CorruptHeader` where no slot is valid and
    /// one is not blank.
    pub fn new(oplog_bytes: &[u8]) -> (opening: Result<Opening, HypercoreError>)
        ensures
            winner(slot_at(oplog_bytes@, 0), slot_at(oplog_bytes@, 1)) is Blank ==> opening is Ok,
            opening matches Ok(opened) ==> {
                &&& opened.outcome.well_formed()
                &&& opened.key_pair.secret is Some
                &&& Some(opened.outcome@) == open_result(
                    opened.key_pair.public@,
                    Some(opened.key_pair.secret->0@),
                    oplog_bytes@,
                )
                &&& opened.outcome.header.signer.public_key@ == opened.key_pair.public@
            },
            opening matches Err(e) ==> if winner(slot_at(oplog_bytes@, 0), slot_at(oplog_bytes@, 1))
                is Corrupt {
                e is CorruptHeader
            } else {
                &&& winner(slot_at(oplog_bytes@, 0), slot_at(oplog_bytes@, 1)) is Valid
                &&& e is InvalidSignature
            },
    {
        let key_pair = generate_keypair();
        proof {
            lemma_fresh_header_fits(key_pair.public@, Some(key_pair.secret->0@));
        }
        Hypercore::new_with_key_pair(key_pair, oplog_bytes)
    }

    /// Opens the operation log that a file holds for a log with the given
    /// keys, as `open_result` says. Fails as `Oplog::open` does, and with
    /// `InvalidSignature` where the header belongs to another public key.
    pub fn new_with_key_pair(key_pair: PartialKeypair, oplog_bytes: &[u8]) -> (opening: Result<
        Opening,
        HypercoreError,
    >)
        ensures
            opening is Ok <==> (open_result(
                key_pair.public@,
                match key_pair.secret {
                    Some(key) => Some(key@),
                    None => None,
                },
                oplog_bytes@,
            ) matches Some(opened) && opened.header.signer.public_key == key_pair.public@),
            opening matches Ok(opened) ==> {
                &&& opened.key_pair == key_pair
                &&& opened.outcome.well_formed()
                &&& Some(opened.outcome@) == open_result(
                    key_pair.public@,
                    match key_pair.secret {
                        Some(key) => Some(key@),
                        None => None,
                    },
                    oplog_bytes@,
                )
            },
            opening matches Err(e) ==> if winner(slot_at(oplog_bytes@, 0), slot_at(oplog_bytes@, 1))
                is Corrupt {
                e is CorruptHeader
            } else if winner(slot_at(oplog_bytes@, 0), slot_at(oplog_bytes@, 1)) is Valid {
                e is InvalidSignature
            } else {
                e is Encoding
            },
    {
        let outcome = Oplog::open(&key_pair, oplog_bytes)?;
        if !bytes_equal(
            outcome.header.signer.public_key.as_bytes().as_slice(),
            key_pair.public.as_bytes().as_slice(),
        ) {
            return Err(HypercoreError::InvalidSignature);
        }
        Ok(Opening { key_pair, outcome })
    }

    /// What the log says of itself.
    pub fn info(&self) -> (info: Info)
        ensures
            info.length == self.tree.length,
            info.byte_length == self.tree.byte_length,
            info.fork == self.tree.fork,
            info.public_key@ == self.key_pair.public@,
    {
        let mut public_key: Vec<u8> = Vec::new();
        append_bytes(&mut public_key, self.key_pair.public.as_bytes().as_slice());
        Info {
            length: self.tree.length,
            byte_length: self.tree.byte_length,
            fork: self.tree.fork,
            public_key,
        }
    }

    /// Stages a batch of blocks: the changeset is built and signed, and the
    /// entry that commits it is framed. Returns the writes to make, the
    /// data first and then the operation log. The log itself stays as it
    /// is until `commit_append` takes the changeset in, so an append whose
    /// writes fail is given up by dropping what was staged. An empty batch
    /// asks for nothing. `NoSecret` where the log holds no secret key;
    /// `Encoding` where the log would grow past what a tree holds or the
    /// entry past what a frame or the file holds; `InvalidSignature` where
    /// the signature made does not verify under the public key;
    /// `NonMonotonicUpgrade` where the operation log's header does not
    /// record the tree as it stands.
    #[verifier::rlimit(50)]
    pub fn append_batch(&self, batch: &[&[u8]]) -> (step: Result<AppendStep, HypercoreError>)
        requires
            self.well_formed(),
        ensures
            (step matches Ok(AppendStep::Flush(_))) <==> append_succeeds(*self, block_views(batch@)),
            (step matches Ok(AppendStep::Done(_))) <==> (self.key_pair.secret is Some
                && batch@.len() == 0),
            step matches Ok(AppendStep::Done(outcome)) ==> {
                &&& outcome.length == self.tree.length
                &&& outcome.byte_length == self.tree.byte_length
            },
            step matches Err(e) ==> {
                let blocks = block_views(batch@);
                if self.key_pair.secret is None {
                    e is NoSecret
                } else if !append_fits(self.tree, blocks) {
                    e is Encoding
                } else if !append_signed(*self, blocks) {
                    e is InvalidSignature
                } else if !self.synced() {
                    e is NonMonotonicUpgrade
                } else {
                    e is Encoding
                }
            },
            step matches Ok(AppendStep::Flush(pending)) ==> {
                let blocks = block_views(batch@);
                let tree = self.tree;
                &&& pending.changeset.well_formed()
                &&& pending.changeset.ancestors == tree.length
                &&& pending.changeset.fork == tree.fork
                &&& pending.changeset.length == tree.length + blocks.len()
                &&& pending.changeset.byte_length == tree.byte_length + total_bytes(blocks)
                &&& node_views(pending.changeset.roots@) == push_blocks(
                    node_views(tree.roots@),
                    tree.length as nat,
                    blocks,
                )
                &&& node_views(pending.changeset.nodes@) == pushed_nodes(
                    node_views(tree.roots@),
                    tree.length as nat,
                    blocks,
                )
                &&& pending.changeset.signature matches Some(s) && ed25519_verifies(
                    self.key_pair.public@,
                    pending.changeset.signable(),
                    s@,
                ) && Some(s@) == ed25519_signature(
                    self.key_pair.secret->0@,
                    self.key_pair.public@,
                    pending.changeset.signable(),
                )
                &&& pending.data.offset == tree.byte_length
                &&& pending.data.data@ == concat_blocks(blocks)
                &&& slice_views(pending.oplog@) == seq![
                    (
                        (BODY_OFFSET + self.oplog.entries_length) as u64,
                        frame_wire(
                            entry_bits(changeset_entry(pending.changeset, false)),
                            entry_wire(changeset_entry(pending.changeset, false)),
                        ) + end_mark(),
                    ),
                ]
                &&& commit_succeeds(*self, pending.changeset)
            },
    {
        if self.key_pair.secret.is_none() {
            return Err(HypercoreError::NoSecret);
        }
        if batch.len() == 0 {
            return Ok(
                AppendStep::Done(
                    AppendOutcome { length: self.tree.length, byte_length: self.tree.byte_length },
                ),
            );
        }
        let ghost blocks = block_views(batch@);
        let ghost roots = node_views(self.tree.roots@);
        let ghost length = self.tree.length as nat;
        let mut changeset = self.tree.changeset();
        let mut batch_length: usize = 0;
        let mut i: usize = 0;
        proof {
            assert(blocks.take(0) =~= Seq::<Seq<u8>>::empty());
            assert(node_views(changeset.nodes@) =~= Seq::<NodeView>::empty());
        }
        while i < batch.len()
            invariant
                i <= batch@.len(),
                blocks == block_views(batch@),
                roots == node_views(self.tree.roots@),
                length == self.tree.length,
                self.well_formed(),
                self.key_pair.secret is Some,
                batch@.len() > 0,
                changeset.well_formed(),
                changeset.ancestors == self.tree.length,
                changeset.fork == self.tree.fork,
                changeset.length == self.tree.length + i,
                changeset.batch_length == i,
                changeset.byte_length == self.tree.byte_length + total_bytes(blocks.take(i as int)),
                batch_length == total_bytes(blocks.take(i as int)),
                node_views(changeset.roots@) == push_blocks(roots, length, blocks.take(i as int)),
                node_views(changeset.nodes@) == pushed_nodes(roots, length, blocks.take(i as int)),
            decreases batch@.len() - i,
        {
            proof {
                assert(blocks.take(i + 1).drop_last() =~= blocks.take(i as int));
                assert(blocks.take(i + 1).last() == batch@[i as int]@);
                assert(blocks.take(i + 1) =~= blocks.subrange(0, i + 1));
                lemma_span_bytes(blocks, 0, 0, (i + 1) as nat);
            }
            if changeset.length >= MAX_LENGTH || batch[i].len() as u64 > u64::MAX
                - changeset.byte_length {
                return Err(HypercoreError::Encoding(overflow("log that is too long")));
            }
            let added = changeset.append(batch[i]);
            batch_length = match batch_length.checked_add(added) {
                Some(sum) => sum,
                None => {
                    return Err(HypercoreError::Encoding(overflow("batch that is too long")));
                },
            };
            i += 1;
        }
        proof {
            assert(blocks.take(i as int) =~= blocks);
            assert(changeset.signable() == append_signable(self.tree, blocks));
        }
        let secret = match &self.key_pair.secret {
            Some(secret) => secret,
            None => {
                return Err(HypercoreError::NoSecret);
            },
        };
        changeset.hash_and_sign(&self.key_pair.public, secret);
        let valid = match (&changeset.hash, &changeset.signature) {
            (Some(hash), Some(signature)) => verify(
                &self.key_pair.public,
                hash.as_slice(),
                signature.as_slice(),
            ),
            _ => false,
        };
        if !valid {
            return Err(HypercoreError::InvalidSignature);
        }
        proof {
            assert(changeset_entry(changeset, false) == append_entry(
                self.tree,
                blocks,
                changeset.signature->0@,
            ));
        }
        let data = self.block_store.append_batch(batch, batch_length, self.tree.byte_length);
        let mut staged = self.oplog.clone();
        let oplog = staged.append_changeset(&changeset, false)?;
        Ok(AppendStep::Flush(PendingAppend { changeset, data, oplog }))
    }

    /// Takes a staged append into the log, after its writes are durable:
    /// the tree takes the changeset with its signature and keeps its nodes
    /// for the next flush, and the operation log takes the entry. Returns
    /// the log's length in blocks and bytes. Fails where `commit_succeeds`
    /// does not hold: `NonMonotonicUpgrade` where the changeset does not
    /// stand on the operation log's header or on the tree,
    /// `InvalidSignature` where it carries no signature that verifies,
    /// `Encoding` where its entry does not fit; then nothing changes.
    pub fn commit_append(&mut self, pending: PendingAppend) -> (outcome: Result<
        AppendOutcome,
        HypercoreError,
    >)
        requires
            old(self).well_formed(),
            pending.changeset.well_formed(),
        ensures
            final(self).well_formed(),
            outcome is Ok <==> commit_succeeds(*old(self), pending.changeset),
            outcome matches Ok(done) ==> {
                &&& done.length == pending.changeset.length
                &&& done.byte_length == pending.changeset.byte_length
                &&& final(self).tree.length == pending.changeset.length
                &&& final(self).tree.byte_length == pending.changeset.byte_length
                &&& final(self).tree.fork == pending.changeset.fork
                &&& node_views(final(self).tree.roots@) == node_views(pending.changeset.roots@)
                &&& final(self).tree.signature == pending.changeset.signature
                &&& node_views(final(self).tree.unflushed@) == node_views(
                    old(self).tree.unflushed@,
                ) + node_views(pending.changeset.nodes@)
                &&& final(self).oplog.header@ == committed_header(
                    old(self).oplog.header@,
                    pending.changeset,
                    false,
                )
                &&& final(self).oplog.sequence == old(self).oplog.sequence
                &&& final(self).oplog.entries_length == old(self).oplog.entries_length + entry_wire(
                    changeset_entry(pending.changeset, false),
                ).len() + 8
                &&& final(self).key_pair == old(self).key_pair
                &&& final(self).block_store == old(self).block_store
                &&& final(self).synced()
            },
            outcome matches Err(e) ==> {
                let log = *old(self);
                let changeset = pending.changeset;
                let entry = changeset_entry(changeset, false);
                &&& *final(self) == log
                &&& if changeset.ancestors != log.oplog.header.tree.length || changeset.fork
                    != log.oplog.header.tree.fork {
                    e is NonMonotonicUpgrade
                } else if !(changeset.signature matches Some(s) && s@.len() == 64) {
                    e is InvalidSignature
                } else if !(0 < entry_wire(entry).len() <= MAX_PAYLOAD && BODY_OFFSET
                    + log.oplog.entries_length + entry_wire(entry).len() + 16 <= u64::MAX) {
                    e is Encoding
                } else if changeset.ancestors != log.tree.length || changeset.fork
                    != log.tree.fork {
                    e is NonMonotonicUpgrade
                } else {
                    e is InvalidSignature
                }
            },
    {
        let mut staged = self.oplog.clone();
        staged.append_changeset(&pending.changeset, false)?;
        self.tree.commit(pending.changeset, &self.key_pair.public)?;
        self.oplog = staged;
        Ok(AppendOutcome { length: self.tree.length, byte_length: self.tree.byte_length })
    }

    /// The indices of the records to read from the tree segment before
    /// block `index` can be read; none for a block that the arithmetic of
    /// the tree does not reach.
    pub fn get_reads(&self, index: u64) -> (indices: Vec<u64>)
        ensures
            index <= MAX_BLOCK_INDEX ==> indices@ == missing(
                range_indices(index),
                node_views(self.tree.unflushed@),
            ),
            index > MAX_BLOCK_INDEX ==> indices@.len() == 0,
    {
        if index > MAX_BLOCK_INDEX {
            Vec::new()
        } else {
            self.tree.byte_range_nodes(index)
        }
    }

    /// The byte range of the data segment that holds block `index`, from
    /// the records that `get_reads` named.
    pub fn get_range(&self, index: u64, stored: &[Node]) -> (range: Result<Range<u64>, HypercoreError>)
        ensures
            range is Ok <==> index < self.tree.length && index <= MAX_BLOCK_INDEX && (resolved(
                range_indices(index),
                node_views(self.tree.unflushed@),
                node_views(stored@),
            ) matches Some(nodes) && total_length(nodes) <= u64::MAX),
            range matches Ok(r) ==> {
                let nodes = resolved(
                    range_indices(index),
                    node_views(self.tree.unflushed@),
                    node_views(stored@),
                )->0;
                &&& r.start == total_length(nodes.drop_last())
                &&& r.end == r.start + nodes.last().length
            },
            range matches Err(e) ==> e is CorruptTree,
    {
        self.block_store.range_of(&self.tree, index, stored)
    }

    /// Whether the entries in the body of the operation log have grown to
    /// where the header is due for a rewrite.
    pub fn should_flush(&self) -> (due: bool)
        ensures
            due == (self.oplog.entries_length >= FLUSH_THRESHOLD),
    {
        self.oplog.entries_length >= FLUSH_THRESHOLD
    }

    /// Rewrites the header: the nodes not yet flushed go to the tree
    /// segment, then the header as it stands goes to the slot that lost.
    /// Fails as `Oplog::flush_header` does; then nothing changes.
    pub fn flush(&mut self) -> (plan: Result<FlushPlan, HypercoreError>)
        requires
            old(self).well_formed(),
        ensures
            final(self).well_formed(),
            plan is Ok <==> (old(self).oplog.sequence < u64::MAX && slot_payload(
                old(self).oplog.header@,
                (old(self).oplog.sequence + 1) as u64,
            ).len() <= SLOT_CAPACITY),
            plan matches Ok(writes) ==> {
                &&& slice_views(writes.oplog@) == seq![
                    (
                        (((old(self).oplog.sequence + 1) % 2) * HEADER_SLOT_SIZE) as u64,
                        frame_wire(
                            0,
                            slot_payload(
                                old(self).oplog.header@,
                                (old(self).oplog.sequence + 1) as u64,
                            ),
                        ),
                    ),
                    (BODY_OFFSET as u64, end_mark()),
                ]
                &&& crate::storage::write_views(writes.tree@) == node_writes(
                    node_views(old(self).tree.unflushed@),
                )
                &&& final(self).tree.unflushed@.len() == 0
                &&& final(self).tree.roots == old(self).tree.roots
                &&& final(self).tree.length == old(self).tree.length
                &&& final(self).tree.byte_length == old(self).tree.byte_length
                &&& final(self).tree.fork == old(self).tree.fork
                &&& final(self).tree.signature == old(self).tree.signature
                &&& final(self).oplog.sequence == old(self).oplog.sequence + 1
                &&& final(self).oplog.entries_length == 0
                &&& final(self).oplog.header == old(self).oplog.header
                &&& final(self).key_pair == old(self).key_pair
                &&& final(self).block_store == old(self).block_store
            },
            plan matches Err(e) ==> (e is Encoding && *final(self) == *old(self)),
    {
        let oplog = self.oplog.flush_header()?;
        let tree = self.tree.flush_nodes();
        Ok(FlushPlan { tree, oplog })
    }
}

} // verus!
