//! The operation log: two header slots and a body of entry frames that
//! together make every commit atomic and recoverable.

pub mod entry;
pub mod header;
pub mod laws;

use vstd::prelude::*;
use vstd::slice::slice_subrange;

use crate::common::{append_bytes, overflow, zero_bytes, HypercoreError, Slice, slice_views};
use crate::crypto::{ed25519_verifies, verify, PartialKeypair, PublicKey, SecretKey};
use crate::encoding::{
    bytes_at, lemma_encoded_join, lemma_uint_wire_len, uint_at, uint_wire, window, HypercoreState,
};
use crate::messages::lemma_nodes_at_ok;
use crate::node::{clone_nodes, node_views};
use crate::oplog::entry::{
    entry_at, entry_bits, entry_ok, entry_views, entry_wire, tree_upgrade_at, Entry,
    EntryBitfieldUpdate, EntryTreeUpgrade, EntryTreeUpgradeView, EntryView,
};
use crate::oplog::header::{
    fresh_header, header_at, header_ok, header_wire, Header, HeaderTree, HeaderTreeView,
    HeaderView,
};
use crate::tree::MerkleTreeChangeset;

verus! {

/// Size in bytes of a header slot.
pub const HEADER_SLOT_SIZE: usize = 4096;

/// Offset of the body, behind the two header slots.
pub const BODY_OFFSET: usize = 8192;

/// Size in bytes of what stands before a frame's payload.
pub const FRAME_PREFIX: usize = 8;

/// Largest payload of a frame.
pub const MAX_PAYLOAD: usize = 0x3fff_ffff;

/// Largest payload of a header slot.
pub const SLOT_CAPACITY: usize = 4088;

/// What the two kind bits are multiplied by in a frame's length prefix.
pub const KIND_SHIFT: u32 = 0x4000_0000;

/// The CRC-32C checksum of a byte string.
pub uninterp spec fn crc32c_of(data: Seq<u8>) -> u32;

/// `crc32c::crc32c` computes the CRC-32C checksum of the bytes, which
/// depends on them alone.
#[verifier::external_body]
fn crc32c_checksum(data: &[u8]) -> (sum: u32)
    ensures
        sum == crc32c_of(data@),
{
    crc32c::crc32c(data)
}

/// A number of 32 bits in four little-endian bytes.
pub open spec fn u32_bytes(value: u32) -> Seq<u8> {
    seq![
        (value % 256) as u8,
        (value / 256 % 256) as u8,
        (value / 65536 % 256) as u8,
        (value / 16777216) as u8,
    ]
}

/// The number of 32 bits that four little-endian bytes stand for.
pub open spec fn u32_of_bytes(bytes: Seq<u8>) -> u32 {
    (bytes[0] + 256 * bytes[1] + 65536 * bytes[2] + 16777216 * bytes[3]) as u32
}

/// Writes a number of 32 bits in four little-endian bytes.
pub fn write_u32(value: u32) -> (bytes: Vec<u8>)
    ensures
        bytes@ == u32_bytes(value),
{
    let mut bytes: Vec<u8> = Vec::new();
    bytes.push((value % 256) as u8);
    bytes.push((value / 256 % 256) as u8);
    bytes.push((value / 65536 % 256) as u8);
    bytes.push((value / 16777216) as u8);
    assert(bytes@ =~= u32_bytes(value));
    bytes
}

/// Reads a number of 32 bits from four little-endian bytes.
pub fn read_u32(bytes: &[u8]) -> (value: u32)
    requires
        bytes@.len() == 4,
    ensures
        value == u32_of_bytes(bytes@),
{
    bytes[0] as u32 + 256 * (bytes[1] as u32) + 65536 * (bytes[2] as u32) + 16777216 * (
    bytes[3] as u32)
}

/// Reading back a number that was written gives the number.
pub proof fn lemma_u32_round_trip(value: u32)
    ensures
        u32_bytes(value).len() == 4,
        u32_of_bytes(u32_bytes(value)) == value,
{
}

/// A frame on disk: the payload's length with the two kind bits on top, in
/// four little-endian bytes; the payload's checksum, likewise; the payload.
pub open spec fn frame_wire(bits: u8, payload: Seq<u8>) -> Seq<u8> {
    u32_bytes((bits * KIND_SHIFT + payload.len()) as u32) + u32_bytes(crc32c_of(payload)) + payload
}

/// A frame as a mathematical value.
pub struct FrameView {
    /// The two kind bits.
    pub bits: u8,
    /// The payload.
    pub payload: Seq<u8>,
    /// Position behind the frame.
    pub end: int,
}

/// The frame that starts at `start`: its payload must lie within the bytes
/// and have the recorded checksum.
pub open spec fn frame_at(bytes: Seq<u8>, start: int) -> Option<FrameView> {
    if 0 <= start && start + 8 <= bytes.len() {
        let prefix = u32_of_bytes(bytes.subrange(start, start + 4));
        let sum = u32_of_bytes(bytes.subrange(start + 4, start + 8));
        let length = prefix % KIND_SHIFT;
        let payload = bytes.subrange(start + 8, start + 8 + length);
        if start + 8 + length <= bytes.len() && crc32c_of(payload) == sum {
            Some(FrameView { bits: (prefix / KIND_SHIFT) as u8, payload, end: start + 8 + length })
        } else {
            None
        }
    } else {
        None
    }
}

/// Puts a payload into a frame.
pub fn write_frame(bits: u8, payload: &[u8]) -> (frame: Vec<u8>)
    requires
        bits < 4,
        payload@.len() <= MAX_PAYLOAD,
    ensures
        frame@ == frame_wire(bits, payload@),
        frame@.len() == payload@.len() + 8,
{
    let prefix: u32 = (bits as u32) * KIND_SHIFT + payload.len() as u32;
    let mut frame = write_u32(prefix);
    let sum = write_u32(crc32c_checksum(payload));
    append_bytes(&mut frame, sum.as_slice());
    append_bytes(&mut frame, payload);
    frame
}

/// Reads the frame that starts at `start`: its kind bits and the range of
/// its payload.
pub fn read_frame(bytes: &[u8], start: usize) -> (frame: Option<(u8, usize, usize)>)
    ensures
        frame is Some <==> frame_at(bytes@, start as int) is Some,
        frame matches Some(found) ==> found.1 == start + 8 && found.1 <= found.2 <= bytes@.len()
            && frame_at(bytes@, start as int) == Some(
            FrameView {
                bits: found.0,
                payload: bytes@.subrange(found.1 as int, found.2 as int),
                end: found.2 as int,
            },
        ),
{
    if bytes.len() < FRAME_PREFIX || start > bytes.len() - FRAME_PREFIX {
        return None;
    }
    let prefix = read_u32(slice_subrange(bytes, start, start + 4));
    let sum = read_u32(slice_subrange(bytes, start + 4, start + 8));
    let length = (prefix % KIND_SHIFT) as usize;
    let bits = (prefix / KIND_SHIFT) as u8;
    let from = start + FRAME_PREFIX;
    if length > bytes.len() - from {
        return None;
    }
    let to = from + length;
    if crc32c_checksum(slice_subrange(bytes, from, to)) != sum {
        return None;
    }
    Some((bits, from, to))
}

/// Reading back a frame that was written gives its kind bits and payload.
pub proof fn lemma_frame_round_trip(bytes: Seq<u8>, start: int, bits: u8, payload: Seq<u8>)
    requires
        bits < 4,
        payload.len() <= MAX_PAYLOAD,
        0 <= start,
        start + frame_wire(bits, payload).len() <= bytes.len(),
        bytes.subrange(start, start + frame_wire(bits, payload).len()) == frame_wire(bits, payload),
    ensures
        frame_wire(bits, payload).len() == payload.len() + 8,
        frame_at(bytes, start) == Some(
            FrameView { bits, payload, end: start + payload.len() + 8 },
        ),
{
    let prefix = (bits * KIND_SHIFT + payload.len()) as u32;
    let wire = frame_wire(bits, payload);
    let part = bytes.subrange(start, start + wire.len());
    lemma_u32_round_trip(prefix);
    lemma_u32_round_trip(crc32c_of(payload));
    assert(bytes.subrange(start, start + 4) == part.subrange(0, 4));
    assert(part.subrange(0, 4) == u32_bytes(prefix));
    assert(bytes.subrange(start + 4, start + 8) == part.subrange(4, 8));
    assert(part.subrange(4, 8) == u32_bytes(crc32c_of(payload)));
    assert(prefix % KIND_SHIFT == payload.len());
    assert(prefix / KIND_SHIFT == bits);
    assert(bytes.subrange(start + 8, start + 8 + payload.len()) == part.subrange(
        8,
        wire.len() as int,
    ));
    assert(part.subrange(8, wire.len() as int) == payload);
}

/// The payload of a header slot: the header's record, then the sequence
/// number of the rewrite.
pub open spec fn slot_payload(header: HeaderView, sequence: u64) -> Seq<u8> {
    header_wire(header) + uint_wire(sequence)
}

/// The header and sequence number that a slot's payload records, where it
/// records nothing else.
pub open spec fn slot_record(payload: Seq<u8>) -> Option<(HeaderView, u64)> {
    match header_at(payload, 0) {
        Some((header, a)) => match uint_at(payload, a) {
            Some((sequence, b)) => if b == payload.len() {
                Some((header, sequence))
            } else {
                None
            },
            None => None,
        },
        None => None,
    }
}

/// Whether a header's signature verifies over its root hash under its own
/// public key; a header without blocks carries no signature.
pub open spec fn header_signed(header: HeaderView) -> bool {
    header.tree.length > 0 ==> ed25519_verifies(
        header.signer.public_key,
        header.tree.root_hash,
        header.tree.signature,
    )
}

/// What a header slot holds.
pub enum SlotView {
    /// No frame with a matching checksum and a payload.
    Blank,
    /// A frame whose record cannot be used.
    Corrupt,
    /// A header with the sequence number of its rewrite.
    Valid(HeaderView, u64),
}

/// What a header slot holds.
#[derive(Debug)]
pub enum Slot {
    /// No frame with a matching checksum and a payload.
    Blank,
    /// A frame whose record cannot be used.
    Corrupt,
    /// A header with the sequence number of its rewrite.
    Valid(Header, u64),
}

impl View for Slot {
    type V = SlotView;

    open spec fn view(&self) -> SlotView {
        match self {
            Slot::Blank => SlotView::Blank,
            Slot::Corrupt => SlotView::Corrupt,
            Slot::Valid(header, sequence) => SlotView::Valid(header@, *sequence),
        }
    }
}

/// The bytes of slot `index`, as far as the file holds them.
pub open spec fn slot_region(bytes: Seq<u8>, index: nat) -> Seq<u8> {
    let from = if index * HEADER_SLOT_SIZE <= bytes.len() {
        index * HEADER_SLOT_SIZE
    } else {
        bytes.len() as int
    };
    let to = if from + HEADER_SLOT_SIZE <= bytes.len() {
        from + HEADER_SLOT_SIZE
    } else {
        bytes.len() as int
    };
    bytes.subrange(from, to)
}

/// What slot `index` of a file holds: nothing where no frame with a
/// matching checksum and a payload is read; a header where the frame has
/// no kind bit set, records a header and a sequence number of the slot's
/// parity, and the header's signature verifies.
pub open spec fn slot_at(bytes: Seq<u8>, index: nat) -> SlotView {
    match frame_at(slot_region(bytes, index), 0) {
        None => SlotView::Blank,
        Some(frame) => if frame.payload.len() == 0 {
            SlotView::Blank
        } else {
            match slot_record(frame.payload) {
                Some((header, sequence)) => if frame.bits == 0 && sequence % 2 == index
                    && header_signed(header) {
                    SlotView::Valid(header, sequence)
                } else {
                    SlotView::Corrupt
                },
                None => SlotView::Corrupt,
            }
        },
    }
}

/// The slot that wins: of two valid slots the one with the higher sequence
/// number; where none is valid, `Corrupt` unless both are blank.
pub open spec fn winner(first: SlotView, second: SlotView) -> SlotView {
    match (first, second) {
        (SlotView::Valid(_, a), SlotView::Valid(_, b)) => if a >= b {
            first
        } else {
            second
        },
        (SlotView::Valid(_, _), _) => first,
        (_, SlotView::Valid(_, _)) => second,
        (SlotView::Blank, SlotView::Blank) => SlotView::Blank,
        _ => SlotView::Corrupt,
    }
}

/// The body of a file: what lies behind the two header slots.
pub open spec fn body_of(bytes: Seq<u8>) -> Seq<u8> {
    if bytes.len() <= BODY_OFFSET {
        Seq::empty()
    } else {
        bytes.subrange(BODY_OFFSET as int, bytes.len() as int)
    }
}

/// The entry that a frame records, where its payload is not empty and
/// records nothing else.
pub open spec fn frame_entry(frame: FrameView) -> Option<EntryView> {
    if frame.payload.len() == 0 {
        None
    } else {
        match entry_at(frame.payload, 0, frame.bits) {
            Some((entry, next)) => if next == frame.payload.len() {
                Some(entry)
            } else {
                None
            },
            None => None,
        }
    }
}

/// The entries that a body holds from `start` on: frame after frame, up to
/// the first that is torn, empty or unreadable.
pub open spec fn entries_from(body: Seq<u8>, start: int) -> Seq<EntryView>
    decreases body.len() - start,
{
    match frame_at(body, start) {
        Some(frame) => match frame_entry(frame) {
            Some(entry) => seq![entry] + entries_from(body, frame.end),
            None => Seq::empty(),
        },
        None => Seq::empty(),
    }
}

/// The position behind the last of the entries that a body holds from
/// `start` on.
pub open spec fn entries_end(body: Seq<u8>, start: int) -> int
    decreases body.len() - start,
{
    match frame_at(body, start) {
        Some(frame) => match frame_entry(frame) {
            Some(entry) => entries_end(body, frame.end),
            None => start,
        },
        None => start,
    }
}

/// The frame that marks the end of the entries: no payload.
pub open spec fn end_mark() -> Seq<u8> {
    Seq::new(8, |i: int| 0u8)
}

/// Encodes a header and a sequence number into the frame of a header slot;
/// fails where the record is larger than a slot holds.
pub fn write_slot(header: &Header, sequence: u64) -> (frame: Result<Vec<u8>, HypercoreError>)
    requires
        header_ok(header@),
    ensures
        frame is Ok <==> slot_payload(header@, sequence).len() <= SLOT_CAPACITY,
        frame matches Ok(bytes) ==> bytes@ == frame_wire(0, slot_payload(header@, sequence))
            && bytes@.len() == slot_payload(header@, sequence).len() + 8,
        frame matches Err(e) ==> e is Encoding,
{
    proof {
        lemma_uint_wire_len(sequence);
    }
    let mut sizing = HypercoreState::new();
    match sizing.preencode_header(header) {
        Ok(_) => {},
        Err(error) => {
            return Err(HypercoreError::Encoding(error));
        },
    }
    match sizing.preencode_uint(sequence) {
        Ok(_) => {},
        Err(error) => {
            return Err(HypercoreError::Encoding(error));
        },
    }
    let size = sizing.end();
    if size > SLOT_CAPACITY {
        return Err(HypercoreError::Encoding(overflow("header that does not fit its slot")));
    }
    let (mut state, mut buffer) = HypercoreState::new_with_size(size);
    let ghost zeros = buffer@;
    let first = state.encode_header(header, &mut buffer);
    let ghost middle = state;
    let ghost between = buffer@;
    match first {
        Ok(_) => {},
        Err(error) => {
            return Err(HypercoreError::Encoding(error));
        },
    }
    let second = state.encode_uint(sequence, &mut buffer);
    proof {
        lemma_encoded_join(
            HypercoreState { start: 0, end: size },
            middle,
            state,
            zeros,
            between,
            buffer@,
            header_wire(header@),
            uint_wire(sequence),
            second,
        );
        assert(second is Ok);
        assert(buffer@ =~= slot_payload(header@, sequence));
    }
    Ok(write_frame(0, buffer.as_slice()))
}

/// Encodes an entry into a frame; fails where the entry holds nothing or
/// its payload is larger than a frame holds.
pub fn write_entry(entry: &Entry) -> (frame: Result<Vec<u8>, HypercoreError>)
    requires
        entry_ok(entry@),
    ensures
        frame is Ok <==> 0 < entry_wire(entry@).len() <= MAX_PAYLOAD,
        frame matches Ok(bytes) ==> bytes@ == frame_wire(entry_bits(entry@), entry_wire(entry@))
            && bytes@.len() == entry_wire(entry@).len() + 8,
        frame matches Err(e) ==> e is Encoding,
{
    let mut sizing = HypercoreState::new();
    match sizing.preencode_entry(entry) {
        Ok(_) => {},
        Err(error) => {
            return Err(HypercoreError::Encoding(error));
        },
    }
    let size = sizing.end();
    if size == 0 || size > MAX_PAYLOAD {
        return Err(HypercoreError::Encoding(overflow("entry that does not fit a frame")));
    }
    let (mut state, mut buffer) = HypercoreState::new_with_size(size);
    let ghost zeros = buffer@;
    match state.encode_entry(entry, &mut buffer) {
        Ok(_) => {},
        Err(error) => {
            return Err(HypercoreError::Encoding(error));
        },
    }
    proof {
        assert(buffer@ =~= entry_wire(entry@));
    }
    Ok(write_frame(entry.bits(), buffer.as_slice()))
}

/// Reads slot `index` of a file.
#[verifier::rlimit(50)]
pub fn read_slot(bytes: &[u8], index: usize) -> (slot: Slot)
    requires
        index < 2,
    ensures
        slot@ == slot_at(bytes@, index as nat),
        slot matches Slot::Valid(header, _) ==> header_ok(header@),
{
    let from = if index * HEADER_SLOT_SIZE <= bytes.len() {
        index * HEADER_SLOT_SIZE
    } else {
        bytes.len()
    };
    let to = if HEADER_SLOT_SIZE <= bytes.len() - from {
        from + HEADER_SLOT_SIZE
    } else {
        bytes.len()
    };
    let region = slice_subrange(bytes, from, to);
    assert(region@ == slot_region(bytes@, index as nat));
    let (bits, start, end) = match read_frame(region, 0) {
        Some(found) => found,
        None => {
            return Slot::Blank;
        },
    };
    let payload = slice_subrange(region, start, end);
    if payload.len() == 0 {
        return Slot::Blank;
    }
    let mut state = HypercoreState::from_buffer(payload);
    assert(window(payload@, state.end) =~= payload@);
    let header = match state.decode_header(payload) {
        Ok(header) => header,
        Err(_) => {
            return Slot::Corrupt;
        },
    };
    let sequence = match state.decode_uint(payload) {
        Ok(sequence) => sequence,
        Err(_) => {
            return Slot::Corrupt;
        },
    };
    if state.start() != payload.len() || bits != 0 || sequence % 2 != index as u64 {
        return Slot::Corrupt;
    }
    if header.tree.length > 0 && !verify(
        &header.signer.public_key,
        header.tree.root_hash.as_slice(),
        header.tree.signature.as_slice(),
    ) {
        return Slot::Corrupt;
    }
    Slot::Valid(header, sequence)
}

/// Reads the entry whose frame starts at `position` of a body, and gives
/// the position behind the frame; `TornEntry` where the frame is torn,
/// empty or unreadable.
pub fn read_entry(body: &[u8], position: usize) -> (found: Result<(Entry, usize), HypercoreError>)
    ensures
        found is Ok <==> (frame_at(body@, position as int) matches Some(frame) && frame_entry(
            frame,
        ) is Some),
        found matches Ok(read) ==> {
            let frame = frame_at(body@, position as int)->0;
            &&& Some(read.0@) == frame_entry(frame)
            &&& read.1 == frame.end
            &&& position < read.1 <= body@.len()
            &&& entry_ok(read.0@)
        },
        found matches Err(e) ==> e is TornEntry,
{
    let (bits, start, end) = match read_frame(body, position) {
        Some(found) => found,
        None => {
            return Err(HypercoreError::TornEntry);
        },
    };
    let payload = slice_subrange(body, start, end);
    if payload.len() == 0 {
        return Err(HypercoreError::TornEntry);
    }
    let mut state = HypercoreState::from_buffer(payload);
    assert(window(payload@, state.end) =~= payload@);
    let entry = match state.decode_entry(payload, bits) {
        Ok(entry) => entry,
        Err(_) => {
            return Err(HypercoreError::TornEntry);
        },
    };
    if state.start() != payload.len() {
        return Err(HypercoreError::TornEntry);
    }
    proof {
        lemma_entry_at_ok(payload@, 0, bits);
    }
    Ok((entry, end))
}

/// Reads the entries of a body, up to the first frame that is torn, empty
/// or unreadable, and gives the position behind the last of them.
pub fn read_entries(body: &[u8]) -> (found: (Vec<Entry>, usize))
    ensures
        entry_views(found.0@) == entries_from(body@, 0),
        found.1 == entries_end(body@, 0),
        found.1 <= body@.len(),
        forall|i: int| 0 <= i < found.0@.len() ==> entry_ok(#[trigger] found.0@[i]@),
{
    let mut entries: Vec<Entry> = Vec::new();
    let mut position: usize = 0;
    proof {
        assert(entry_views(entries@) =~= Seq::<EntryView>::empty());
    }
    loop
        invariant
            position <= body@.len(),
            entries_from(body@, 0) == entry_views(entries@) + entries_from(body@, position as int),
            entries_end(body@, 0) == entries_end(body@, position as int),
            forall|i: int| 0 <= i < entries@.len() ==> entry_ok(#[trigger] entries@[i]@),
        ensures
            entry_views(entries@) == entries_from(body@, 0),
            position == entries_end(body@, 0),
            position <= body@.len(),
            forall|i: int| 0 <= i < entries@.len() ==> entry_ok(#[trigger] entries@[i]@),
        decreases body@.len() - position,
    {
        match read_entry(body, position) {
            Ok((entry, end)) => {
                let ghost before = entry_views(entries@);
                entries.push(entry);
                proof {
                    assert(entry_views(entries@) =~= before.push(entry@));
                    assert(before + (seq![entry@] + entries_from(body@, end as int))
                        =~= before.push(entry@) + entries_from(body@, end as int));
                }
                position = end;
            },
            Err(_) => {
                proof {
                    assert(entry_views(entries@) + Seq::<EntryView>::empty() =~= entry_views(
                        entries@,
                    ));
                }
                break ;
            },
        }
    }
    (entries, position)
}

/// An entry that was read carries nodes with hashes of 32 bytes.
pub proof fn lemma_entry_at_ok(window: Seq<u8>, start: int, bits: u8)
    ensures
        entry_at(window, start, bits) matches Some(found) ==> entry_ok(found.0),
{
    if bits % 2 == 1 {
        match tree_upgrade_at(window, start) {
            Some((upgrade, next)) => {
                let (fork, a) = uint_at(window, start)->0;
                let (ancestors, b) = uint_at(window, a)->0;
                let (length, c) = uint_at(window, b)->0;
                let (signature, d) = bytes_at(window, c)->0;
                lemma_nodes_at_ok(window, d);
            },
            None => {},
        }
    }
}

/// The operation log in memory: the header as the log stands, the sequence
/// number of the last header rewrite, and how much of the body is in use.
#[derive(Debug)]
pub struct Oplog {
    /// The header with every entry since the last rewrite applied.
    pub header: Header,
    /// Sequence number of the slot that holds the last rewrite.
    pub sequence: u64,
    /// Number of bytes of the body that hold entries.
    pub entries_length: u64,
}

/// What opening an operation log gives.
#[derive(Debug)]
pub struct OplogOpenOutcome {
    /// The operation log, ready for appends.
    pub oplog: Oplog,
    /// The header of the winning slot, or a fresh one.
    pub header: Header,
    /// The entries that follow the header, in order.
    pub entries: Vec<Entry>,
    /// What has to be written to the file before it is used.
    pub slices_to_flush: Vec<Slice>,
}

/// The entry that commits a changeset: its tree upgrade and, where the
/// bitfield is updated with it, the range of the blocks it adds.
pub open spec fn changeset_entry(changeset: MerkleTreeChangeset, with_bitfield: bool) -> EntryView {
    EntryView {
        tree_upgrade: Some(
            EntryTreeUpgradeView {
                fork: changeset.fork,
                ancestors: changeset.ancestors,
                length: changeset.length,
                signature: changeset.signature->0@,
                nodes: node_views(changeset.nodes@),
            },
        ),
        bitfield_update: if with_bitfield {
            Some(
                EntryBitfieldUpdate {
                    drop: false,
                    start: changeset.ancestors,
                    length: changeset.batch_length,
                },
            )
        } else {
            None
        },
    }
}

/// The header after a changeset is committed: the tree state is the
/// changeset's, and blocks added behind the contiguous ones extend them.
pub open spec fn committed_header(
    header: HeaderView,
    changeset: MerkleTreeChangeset,
    with_bitfield: bool,
) -> HeaderView {
    HeaderView {
        tree: HeaderTreeView {
            fork: changeset.fork,
            length: changeset.length,
            root_hash: changeset.signable(),
            signature: changeset.signature->0@,
        },
        contiguous_length: if with_bitfield && header.contiguous_length == changeset.ancestors {
            changeset.length
        } else {
            header.contiguous_length
        },
        ..header
    }
}

/// What opening the operation log of a file gives, as a mathematical value.
pub struct OpenedView {
    /// The header of the winning slot, or a fresh one.
    pub header: HeaderView,
    /// Sequence number of the slot that holds the header.
    pub sequence: u64,
    /// The entries that follow the header, in order.
    pub entries: Seq<EntryView>,
    /// Number of bytes of the body that hold those entries.
    pub entries_length: int,
    /// What has to be written to the file before it is used.
    pub slices: Seq<(u64, Seq<u8>)>,
}

/// What opening the operation log of a file gives. The valid header slot
/// with the highest sequence number wins, and the entries of the body
/// follow it; where bytes follow the entries, an end mark is to be written
/// over them. Where both slots are blank the log starts afresh with the
/// given keys, and the first slot is to be written: that write alone where
/// the file has no body, and behind it an end mark at the start of the body
/// where the body holds bytes, which no header answers for.
/// Nothing where no slot is valid and one is not blank, or a fresh header
/// does not fit its slot.
pub open spec fn open_result(public: Seq<u8>, secret: Option<Seq<u8>>, bytes: Seq<u8>) -> Option<
    OpenedView,
> {
    match winner(slot_at(bytes, 0), slot_at(bytes, 1)) {
        SlotView::Valid(header, sequence) => {
            let end = entries_end(body_of(bytes), 0);
            Some(
                OpenedView {
                    header,
                    sequence,
                    entries: entries_from(body_of(bytes), 0),
                    entries_length: end,
                    slices: if end < body_of(bytes).len() {
                        seq![((BODY_OFFSET + end) as u64, end_mark())]
                    } else {
                        Seq::empty()
                    },
                },
            )
        },
        SlotView::Corrupt => None,
        SlotView::Blank => {
            let header = fresh_header(public, secret);
            if slot_payload(header, 0).len() <= SLOT_CAPACITY {
                Some(
                    OpenedView {
                        header,
                        sequence: 0,
                        entries: Seq::empty(),
                        entries_length: 0,
                        slices: if body_of(bytes).len() > 0 {
                            seq![
                                (0u64, frame_wire(0, slot_payload(header, 0))),
                                (BODY_OFFSET as u64, end_mark()),
                            ]
                        } else {
                            seq![(0u64, frame_wire(0, slot_payload(header, 0)))]
                        },
                    },
                )
            } else {
                None
            }
        },
    }
}

impl Clone for Oplog {
    fn clone(&self) -> (copy: Oplog)
        ensures
            copy.header@ == self.header@,
            copy.sequence == self.sequence,
            copy.entries_length == self.entries_length,
    {
        Oplog {
            header: self.header.clone(),
            sequence: self.sequence,
            entries_length: self.entries_length,
        }
    }
}

impl OplogOpenOutcome {
    /// What was opened, as a mathematical value.
    pub open spec fn view(&self) -> OpenedView {
        OpenedView {
            header: self.header@,
            sequence: self.oplog.sequence,
            entries: entry_views(self.entries@),
            entries_length: self.oplog.entries_length as int,
            slices: slice_views(self.slices_to_flush@),
        }
    }

    /// Whether the parts of what was opened agree and are well formed.
    pub open spec fn well_formed(&self) -> bool {
        &&& self.oplog.header@ == self.header@
        &&& self.oplog.well_formed()
        &&& forall|i: int| 0 <= i < self.entries@.len() ==> entry_ok(#[trigger] self.entries@[i]@)
    }
}

impl Oplog {
    /// Whether the header's byte strings have their lengths.
    pub open spec fn well_formed(&self) -> bool {
        header_ok(self.header@)
    }

    /// The operation log of a log without blocks that has the given keys.
    pub fn new_from_keys(public_key: PublicKey, secret_key: Option<SecretKey>) -> (oplog: Oplog)
        ensures
            oplog.well_formed(),
            oplog.sequence == 0,
            oplog.entries_length == 0,
            oplog.header@ == fresh_header(
                public_key@,
                match secret_key {
                    Some(key) => Some(key@),
                    None => None,
                },
            ),
    {
        Oplog { header: Header::new_from_keys(public_key, secret_key), sequence: 0, entries_length: 0 }
    }

    /// The operation log of a log without blocks, with freshly drawn keys.
    pub fn new() -> (oplog: Oplog)
        ensures
            oplog.well_formed(),
            oplog.sequence == 0,
            oplog.entries_length == 0,
            oplog.header.signer.secret_key is Some,
            oplog.header@ == fresh_header(
                oplog.header.signer.public_key@,
                Some(oplog.header.signer.secret_key->0@),
            ),
    {
        Oplog { header: Header::new(), sequence: 0, entries_length: 0 }
    }

    /// Opens the operation log that a file holds, as `open_result` says.
    /// `CorruptHeader` where no slot is valid and one is not blank;
    /// `Encoding` where a fresh header does not fit its slot.
    #[verifier::rlimit(50)]
    pub fn open(key_pair: &PartialKeypair, bytes: &[u8]) -> (outcome: Result<
        OplogOpenOutcome,
        HypercoreError,
    >)
        ensures
            (match outcome {
                Ok(opened) => Some(opened@),
                Err(_) => None,
            }) == open_result(
                key_pair.public@,
                match key_pair.secret {
                    Some(key) => Some(key@),
                    None => None,
                },
                bytes@,
            ),
            outcome matches Ok(opened) ==> opened.well_formed(),
            outcome matches Err(e) ==> if winner(slot_at(bytes@, 0), slot_at(bytes@, 1))
                is Corrupt {
                e is CorruptHeader
            } else {
                e is Encoding
            },
    {
        let first = read_slot(bytes, 0);
        let second = read_slot(bytes, 1);
        let chosen = match (first, second) {
            (Slot::Valid(header, a), Slot::Valid(other, b)) => if a >= b {
                Some((header, a))
            } else {
                Some((other, b))
            },
            (Slot::Valid(header, a), _) => Some((header, a)),
            (_, Slot::Valid(header, b)) => Some((header, b)),
            (Slot::Blank, Slot::Blank) => None,
            _ => {
                return Err(HypercoreError::CorruptHeader);
            },
        };
        match chosen {
            Some((header, sequence)) => {
                let body = if bytes.len() <= BODY_OFFSET {
                    slice_subrange(bytes, bytes.len(), bytes.len())
                } else {
                    slice_subrange(bytes, BODY_OFFSET, bytes.len())
                };
                assert(body@ =~= body_of(bytes@));
                let (entries, end) = read_entries(body);
                let mut slices_to_flush: Vec<Slice> = Vec::new();
                if end < body.len() {
                    slices_to_flush.push(
                        Slice { offset: (BODY_OFFSET + end) as u64, data: zero_bytes(8) },
                    );
                }
                proof {
                    assert(slice_views(slices_to_flush@) =~= if end < body@.len() {
                        seq![((BODY_OFFSET + end) as u64, end_mark())]
                    } else {
                        Seq::empty()
                    });
                }
                let copy = header.clone();
                Ok(
                    OplogOpenOutcome {
                        oplog: Oplog { header, sequence, entries_length: end as u64 },
                        header: copy,
                        entries,
                        slices_to_flush,
                    },
                )
            },
            None => {
                let secret = match &key_pair.secret {
                    Some(key) => Some(key.clone()),
                    None => None,
                };
                let oplog = Oplog::new_from_keys(key_pair.public.clone(), secret);
                let frame = write_slot(&oplog.header, 0)?;
                let entries: Vec<Entry> = Vec::new();
                proof {
                    assert(entry_views(entries@) =~= Seq::<EntryView>::empty());
                }
                let mut slices_to_flush: Vec<Slice> = Vec::new();
                slices_to_flush.push(Slice { offset: 0, data: frame });
                if bytes.len() > BODY_OFFSET {
                    slices_to_flush.push(Slice { offset: BODY_OFFSET as u64, data: zero_bytes(8) });
                }
                proof {
                    assert(slice_views(slices_to_flush@) =~= if body_of(bytes@).len() > 0 {
                        seq![
                            (0u64, frame_wire(0, slot_payload(oplog.header@, 0))),
                            (BODY_OFFSET as u64, end_mark()),
                        ]
                    } else {
                        seq![(0u64, frame_wire(0, slot_payload(oplog.header@, 0)))]
                    });
                }
                let header = oplog.header.clone();
                Ok(OplogOpenOutcome { oplog, header, entries, slices_to_flush })
            },
        }
    }

    /// Appends the entry that commits a changeset, and takes the
    /// changeset's tree state into the header. Returns what is to be
    /// written to the file: the entry's frame behind the entries so far,
    /// followed by an end mark. The changeset must stand on the header's
    /// tree state (`NonMonotonicUpgrade`), be signed with 64 bytes
    /// (`InvalidSignature`) and fit a frame and the file (`Encoding`); on
    /// an error nothing changes.
    #[verifier::rlimit(50)]
    pub fn append_changeset(&mut self, changeset: &MerkleTreeChangeset, atomic_with_bitfield: bool) -> (slices:
        Result<Vec<Slice>, HypercoreError>)
        requires
            old(self).well_formed(),
            changeset.well_formed(),
        ensures
            slices is Ok <==> {
                &&& changeset.ancestors == old(self).header.tree.length
                &&& changeset.fork == old(self).header.tree.fork
                &&& changeset.signature matches Some(s) && s@.len() == 64
                &&& 0 < entry_wire(changeset_entry(*changeset, atomic_with_bitfield)).len()
                    <= MAX_PAYLOAD
                &&& BODY_OFFSET + old(self).entries_length + entry_wire(
                    changeset_entry(*changeset, atomic_with_bitfield),
                ).len() + 16 <= u64::MAX
            },
            slices matches Ok(writes) ==> {
                let entry = changeset_entry(*changeset, atomic_with_bitfield);
                &&& final(self).well_formed()
                &&& slice_views(writes@) == seq![
                    (
                        (BODY_OFFSET + old(self).entries_length) as u64,
                        frame_wire(entry_bits(entry), entry_wire(entry)) + end_mark(),
                    ),
                ]
                &&& final(self).header@ == committed_header(
                    old(self).header@,
                    *changeset,
                    atomic_with_bitfield,
                )
                &&& final(self).sequence == old(self).sequence
                &&& final(self).entries_length == old(self).entries_length + entry_wire(entry).len()
                    + 8
            },
            slices matches Err(e) ==> {
                &&& *final(self) == *old(self)
                &&& if changeset.ancestors != old(self).header.tree.length || changeset.fork != old(
                    self,
                ).header.tree.fork {
                    e is NonMonotonicUpgrade
                } else if !(changeset.signature matches Some(s) && s@.len() == 64) {
                    e is InvalidSignature
                } else {
                    e is Encoding
                }
            },
    {
        if changeset.ancestors != self.header.tree.length || changeset.fork != self.header.tree.fork {
            return Err(HypercoreError::NonMonotonicUpgrade);
        }
        let mut signature: Vec<u8> = Vec::new();
        match &changeset.signature {
            Some(bytes) => {
                if bytes.len() != 64 {
                    return Err(HypercoreError::InvalidSignature);
                }
                append_bytes(&mut signature, bytes.as_slice());
            },
            None => {
                return Err(HypercoreError::InvalidSignature);
            },
        }
        let mut copy: Vec<u8> = Vec::new();
        append_bytes(&mut copy, signature.as_slice());
        let entry = Entry {
            tree_upgrade: Some(
                EntryTreeUpgrade {
                    fork: changeset.fork,
                    ancestors: changeset.ancestors,
                    length: changeset.length,
                    signature: copy,
                    nodes: clone_nodes(changeset.nodes.as_slice()),
                },
            ),
            bitfield_update: if atomic_with_bitfield {
                Some(
                    EntryBitfieldUpdate {
                        drop: false,
                        start: changeset.ancestors,
                        length: changeset.batch_length,
                    },
                )
            } else {
                None
            },
        };
        assert(entry@ == changeset_entry(*changeset, atomic_with_bitfield));
        let mut frame = write_entry(&entry)?;
        let size = frame.len() as u64;
        let offset = match (BODY_OFFSET as u64).checked_add(self.entries_length) {
            Some(offset) => offset,
            None => {
                return Err(HypercoreError::Encoding(overflow("operation log that is too long")));
            },
        };
        match offset.checked_add(size + 8) {
            Some(_) => {},
            None => {
                return Err(HypercoreError::Encoding(overflow("operation log that is too long")));
            },
        }
        let mark = zero_bytes(8);
        append_bytes(&mut frame, mark.as_slice());
        let mut slices: Vec<Slice> = Vec::new();
        slices.push(Slice { offset, data: frame });
        proof {
            assert(slice_views(slices@) =~= seq![
                (offset, frame_wire(entry_bits(entry@), entry_wire(entry@)) + end_mark()),
            ]);
        }
        self.header.tree = HeaderTree {
            fork: changeset.fork,
            length: changeset.length,
            root_hash: changeset.hash(),
            signature,
        };
        if atomic_with_bitfield && self.header.contiguous_length == changeset.ancestors {
            self.header.contiguous_length = changeset.length;
        }
        self.entries_length = self.entries_length + size;
        Ok(slices)
    }

    /// Rewrites the header: the slot that lost takes the header as it
    /// stands, under the next sequence number, and the body starts anew.
    /// Returns what is to be written to the file, in this order: the slot's
    /// frame, then an end mark at the start of the body. `Encoding` where
    /// the header does not fit a slot; then nothing changes.
    pub fn flush_header(&mut self) -> (slices: Result<Vec<Slice>, HypercoreError>)
        requires
            old(self).well_formed(),
        ensures
            slices is Ok <==> (old(self).sequence < u64::MAX && slot_payload(
                old(self).header@,
                (old(self).sequence + 1) as u64,
            ).len() <= SLOT_CAPACITY),
            slices matches Ok(writes) ==> {
                let sequence = (old(self).sequence + 1) as u64;
                &&& final(self).well_formed()
                &&& slice_views(writes@) == seq![
                    (
                        ((sequence % 2) * HEADER_SLOT_SIZE) as u64,
                        frame_wire(0, slot_payload(old(self).header@, sequence)),
                    ),
                    (BODY_OFFSET as u64, end_mark()),
                ]
                &&& final(self).header == old(self).header
                &&& final(self).sequence == sequence
                &&& final(self).entries_length == 0
            },
            slices matches Err(e) ==> e is Encoding && *final(self) == *old(self),
    {
        if self.sequence == u64::MAX {
            return Err(HypercoreError::Encoding(overflow("sequence number that is too large")));
        }
        let sequence = self.sequence + 1;
        let frame = write_slot(&self.header, sequence)?;
        let mut slices: Vec<Slice> = Vec::new();
        slices.push(Slice { offset: (sequence % 2) * (HEADER_SLOT_SIZE as u64), data: frame });
        slices.push(Slice { offset: BODY_OFFSET as u64, data: zero_bytes(8) });
        proof {
            assert(slice_views(slices@) =~= seq![
                (
                    ((sequence % 2) * HEADER_SLOT_SIZE) as u64,
                    frame_wire(0, slot_payload(self.header@, sequence)),
                ),
                (BODY_OFFSET as u64, end_mark()),
            ]);
        }
        self.sequence = sequence;
        self.entries_length = 0;
        Ok(slices)
    }
}

} // verus!
