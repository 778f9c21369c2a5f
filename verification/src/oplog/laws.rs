//! What holds of the operation log across a write and the next open: a
//! header that was written is the header that is read, and a torn write at
//! the tail of the body loses nothing but the entry that it tore.

use vstd::prelude::*;

use crate::common::written;
use crate::crypto::ed25519_public_key;
use crate::encoding::{
    holds, lemma_holds_split, lemma_uint_reads_back, lemma_uint_wire_len, list_wire, text_wire,
    text_wire_fn, texts_wire, uint_wire,
};
use crate::oplog::entry::{
    entry_bits, entry_ok, entry_wire, lemma_entry_reads_back, EntryView,
};
use crate::oplog::header::{
    fresh_header, header_ok, header_wire, lemma_header_reads_back, secret_record, signer_wire,
    tree_wire, types_wire, user_data_list_wire, user_data_wire_fn, HeaderView,
};
use crate::oplog::{
    body_of, end_mark, entries_end, entries_from, frame_at, frame_entry, frame_wire, open_result,
    OpenedView,
    header_signed, lemma_frame_round_trip, lemma_u32_round_trip, slot_at, slot_payload,
    slot_record, slot_region, u32_bytes, u32_of_bytes, winner, FrameView, SlotView,
    HEADER_SLOT_SIZE, KIND_SHIFT, MAX_PAYLOAD, SLOT_CAPACITY,
};

verus! {

/// A segment holds what was last written to it where it was written.
pub proof fn lemma_written_holds(segment: Seq<u8>, offset: int, data: Seq<u8>)
    requires
        0 <= offset,
    ensures
        holds(written(segment, offset, data), offset, data),
{
    let after = written(segment, offset, data);
    assert(after.subrange(offset, offset + data.len()) =~= data);
}

/// A text of characters below 128 takes one byte for each of them behind
/// its length.
pub proof fn lemma_ascii_text_len(text: Seq<char>)
    requires
        vstd::utf8::is_ascii_chars(text),
        text.len() < 0xfd,
    ensures
        text_wire(text).len() == 1 + text.len(),
{
    vstd::utf8::is_ascii_chars_encode_utf8(text);
    lemma_uint_wire_len(text.len() as u64);
}

/// The header of a log without blocks fits a header slot, whatever its
/// keys are: its record and the first sequence number take 220 bytes with a
/// secret key and 156 without one.
pub proof fn lemma_fresh_header_fits(public: Seq<u8>, secret: Option<Seq<u8>>)
    requires
        public.len() == 32,
        ed25519_public_key(public),
        secret matches Some(key) ==> key.len() == 32,
    ensures
        header_ok(fresh_header(public, secret)),
        slot_payload(fresh_header(public, secret), 0).len() == if secret is Some {
            220nat
        } else {
            156nat
        },
        slot_payload(fresh_header(public, secret), 0).len() <= SLOT_CAPACITY,
{
    let header = fresh_header(public, secret);
    reveal_strlit("blake2b");
    reveal_strlit("raw");
    reveal_strlit("ed25519");
    lemma_ascii_text_len("blake2b"@);
    lemma_ascii_text_len("raw"@);
    lemma_ascii_text_len("ed25519"@);
    lemma_uint_wire_len(0);
    lemma_uint_wire_len(64);
    assert(types_wire(header.types).len() == 20);
    assert(tree_wire(header.tree).len() == 98);
    assert(secret_record(header.signer).len() == if secret is Some {
        64nat
    } else {
        0nat
    });
    assert(signer_wire(header.signer).len() == 33 + secret_record(header.signer).len());
    assert(list_wire(header.reorgs, text_wire_fn()).len() == 0);
    assert(texts_wire(header.reorgs).len() == 1);
    assert(list_wire(header.user_data, user_data_wire_fn()).len() == 0);
    assert(user_data_list_wire(header.user_data).len() == 1);
}

/// A file without bytes opens as a log without blocks under the given
/// keys, and the write of the first header slot is all that it asks for.
pub proof fn lemma_empty_file_opens(public: Seq<u8>, secret: Option<Seq<u8>>)
    requires
        public.len() == 32,
        ed25519_public_key(public),
        secret matches Some(key) ==> key.len() == 32,
    ensures
        open_result(public, secret, Seq::empty()) == Some(
            OpenedView {
                header: fresh_header(public, secret),
                sequence: 0,
                entries: Seq::empty(),
                entries_length: 0,
                slices: seq![(0u64, frame_wire(0, slot_payload(fresh_header(public, secret), 0)))],
            },
        ),
{
    let bytes = Seq::<u8>::empty();
    lemma_fresh_header_fits(public, secret);
    assert(frame_at(slot_region(bytes, 0), 0) is None);
    assert(frame_at(slot_region(bytes, 1), 0) is None);
    assert(body_of(bytes).len() == 0);
}

/// The payload of a header slot records the header and the sequence number
/// that it was made of.
pub proof fn lemma_slot_record(header: HeaderView, sequence: u64)
    requires
        header_ok(header),
        slot_payload(header, sequence).len() <= SLOT_CAPACITY,
    ensures
        slot_record(slot_payload(header, sequence)) == Some((header, sequence)),
{
    let payload = slot_payload(header, sequence);
    assert(payload.subrange(0, payload.len() as int) =~= payload);
    lemma_holds_split(payload, 0, header_wire(header), uint_wire(sequence));
    lemma_header_reads_back(payload, 0, header);
    lemma_uint_reads_back(payload, header_wire(header).len() as int, sequence);
}

/// A header that was written to its slot is the header that the slot
/// holds: a file that holds at slot `index` the frame of a signed header
/// and of a sequence number of that slot's parity has it as a valid slot.
#[verifier::rlimit(40)]
pub proof fn lemma_written_slot_is_valid(bytes: Seq<u8>, index: nat, header: HeaderView, sequence: u64)
    requires
        index < 2,
        header_ok(header),
        header_signed(header),
        sequence % 2 == index,
        slot_payload(header, sequence).len() <= SLOT_CAPACITY,
        holds(bytes, index * HEADER_SLOT_SIZE, frame_wire(0, slot_payload(header, sequence))),
    ensures
        slot_at(bytes, index) == SlotView::Valid(header, sequence),
{
    let payload = slot_payload(header, sequence);
    let frame = frame_wire(0, payload);
    let from = index * HEADER_SLOT_SIZE;
    assert(frame.len() == payload.len() + 8);
    let region = slot_region(bytes, index);
    assert(region.subrange(0, frame.len() as int) =~= bytes.subrange(from, from + frame.len()));
    lemma_frame_round_trip(region, 0, 0, payload);
    lemma_slot_record(header, sequence);
    crate::encoding::lemma_uint_wire_len(sequence);
}

/// Of two slots, a valid one wins unless the other is valid with a higher
/// sequence number.
pub proof fn lemma_valid_slot_wins(first: SlotView, second: SlotView, index: nat)
    requires
        index < 2,
        (if index == 0 {
            first
        } else {
            second
        }) matches SlotView::Valid(_, sequence) && ((if index == 0 {
            second
        } else {
            first
        }) matches SlotView::Valid(_, other) ==> other < sequence),
    ensures
        winner(first, second) == (if index == 0 {
            first
        } else {
            second
        }),
{
}

/// Round trip of the header: a file that holds, in the slot of its
/// sequence number, the frame of a signed header, and in the other slot no
/// valid header of a higher sequence number, opens with that header.
pub proof fn lemma_rewritten_header_wins(bytes: Seq<u8>, header: HeaderView, sequence: u64)
    requires
        header_ok(header),
        header_signed(header),
        slot_payload(header, sequence).len() <= SLOT_CAPACITY,
        holds(
            bytes,
            (sequence % 2) * HEADER_SLOT_SIZE,
            frame_wire(0, slot_payload(header, sequence)),
        ),
        slot_at(bytes, ((sequence + 1) % 2) as nat) matches SlotView::Valid(_, other) ==> other
            < sequence,
    ensures
        winner(slot_at(bytes, 0), slot_at(bytes, 1)) == SlotView::Valid(header, sequence),
{
    let index = (sequence % 2) as nat;
    lemma_written_slot_is_valid(bytes, index, header, sequence);
    let first = slot_at(bytes, 0);
    let second = slot_at(bytes, 1);
    if index == 0 {
        assert((sequence + 1) % 2 == 1);
    } else {
        assert((sequence + 1) % 2 == 0);
    }
    lemma_valid_slot_wins(first, second, index);
}

/// A write into one header slot of a file that reaches the body leaves the
/// other slot as it was.
pub proof fn lemma_other_slot_kept(bytes: Seq<u8>, index: nat, data: Seq<u8>)
    requires
        index < 2,
        bytes.len() >= 2 * HEADER_SLOT_SIZE,
        data.len() <= HEADER_SLOT_SIZE,
    ensures
        slot_region(written(bytes, index * HEADER_SLOT_SIZE, data), (1 - index) as nat)
            == slot_region(bytes, (1 - index) as nat),
{
    let after = written(bytes, index * HEADER_SLOT_SIZE, data);
    let other = (1 - index) as nat;
    assert(after.len() == bytes.len());
    assert(slot_region(after, other) =~= slot_region(bytes, other));
}

/// Round trip of a header rewrite: after the frame of a signed header is
/// written to the slot of its sequence number, in a file that reaches the
/// body and holds in the other slot no valid header of a higher sequence
/// number, the file opens with that header.
pub proof fn lemma_flushed_header_opens(bytes: Seq<u8>, header: HeaderView, sequence: u64)
    requires
        header_ok(header),
        header_signed(header),
        slot_payload(header, sequence).len() <= SLOT_CAPACITY,
        bytes.len() >= 2 * HEADER_SLOT_SIZE,
        slot_at(bytes, ((sequence + 1) % 2) as nat) matches SlotView::Valid(_, other) ==> other
            < sequence,
    ensures
        ({
            let after = written(
                bytes,
                (sequence % 2) * HEADER_SLOT_SIZE,
                frame_wire(0, slot_payload(header, sequence)),
            );
            winner(slot_at(after, 0), slot_at(after, 1)) == SlotView::Valid(header, sequence)
        }),
{
    let index = (sequence % 2) as nat;
    let frame = frame_wire(0, slot_payload(header, sequence));
    let after = written(bytes, index * HEADER_SLOT_SIZE, frame);
    lemma_written_holds(bytes, index * HEADER_SLOT_SIZE, frame);
    lemma_other_slot_kept(bytes, index, frame);
    assert(((sequence + 1) % 2) as nat == (1 - index) as nat);
    assert(slot_at(after, (1 - index) as nat) == slot_at(bytes, (1 - index) as nat));
    lemma_rewritten_header_wins(after, header, sequence);
}

/// The frames of entries, one after the other.
pub open spec fn frames_wire(entries: Seq<EntryView>) -> Seq<u8>
    decreases entries.len(),
{
    if entries.len() == 0 {
        Seq::empty()
    } else {
        frame_wire(entry_bits(entries.first()), entry_wire(entries.first())) + frames_wire(
            entries.drop_first(),
        )
    }
}

/// Whether an entry can be written: its nodes carry hashes of 32 bytes, it
/// holds something, and its payload fits a frame.
pub open spec fn entry_fits(entry: EntryView) -> bool {
    &&& entry_ok(entry)
    &&& 0 < entry_wire(entry).len() <= MAX_PAYLOAD
}

/// Whether bytes are what a torn write leaves of a frame: a part of it from
/// its start that is not all of it.
pub open spec fn torn(tail: Seq<u8>) -> bool {
    exists|bits: u8, payload: Seq<u8>|
        bits < 4 && payload.len() <= MAX_PAYLOAD && tail.len() < frame_wire(bits, payload).len()
            && tail == #[trigger] frame_wire(bits, payload).take(tail.len() as int)
}

/// No frame is read from what a torn write left of one.
pub proof fn lemma_torn_frame(body: Seq<u8>, start: int)
    requires
        0 <= start <= body.len(),
        torn(body.subrange(start, body.len() as int)),
    ensures
        frame_at(body, start) is None,
{
    let tail = body.subrange(start, body.len() as int);
    let (bits, payload) = choose|bits: u8, payload: Seq<u8>|
        bits < 4 && payload.len() <= MAX_PAYLOAD && tail.len() < frame_wire(bits, payload).len()
            && tail == #[trigger] frame_wire(bits, payload).take(tail.len() as int);
    let frame = frame_wire(bits, payload);
    assert(frame.len() == payload.len() + 8);
    if start + 8 <= body.len() {
        let prefix = (bits * KIND_SHIFT + payload.len()) as u32;
        lemma_u32_round_trip(prefix);
        assert(body.subrange(start, start + 4) =~= tail.subrange(0, 4));
        assert(tail.subrange(0, 4) =~= frame.subrange(0, 4));
        assert(frame.subrange(0, 4) =~= u32_bytes(prefix));
        assert(u32_of_bytes(body.subrange(start, start + 4)) == prefix);
        assert(prefix % KIND_SHIFT == payload.len());
    }
}

/// The payload of an entry's frame is read as that entry.
pub proof fn lemma_payload_reads_entry(entry: EntryView, end: int)
    requires
        entry_fits(entry),
    ensures
        frame_entry(FrameView { bits: entry_bits(entry), payload: entry_wire(entry), end })
            == Some(entry),
{
    let payload = entry_wire(entry);
    assert(payload.subrange(0, payload.len() as int) =~= payload);
    lemma_entry_reads_back(payload, 0, entry);
}

/// The frame of an entry that a body holds is read as that entry.
pub proof fn lemma_frame_reads_entry(body: Seq<u8>, start: int, entry: EntryView)
    requires
        entry_fits(entry),
        holds(body, start, frame_wire(entry_bits(entry), entry_wire(entry))),
    ensures
        frame_wire(entry_bits(entry), entry_wire(entry)).len() == entry_wire(entry).len() + 8,
        frame_at(body, start) == Some(
            FrameView {
                bits: entry_bits(entry),
                payload: entry_wire(entry),
                end: start + entry_wire(entry).len() + 8,
            },
        ),
        frame_entry(
            FrameView {
                bits: entry_bits(entry),
                payload: entry_wire(entry),
                end: start + entry_wire(entry).len() + 8,
            },
        ) == Some(entry),
{
    lemma_frame_round_trip(body, start, entry_bits(entry), entry_wire(entry));
    lemma_payload_reads_entry(entry, start + entry_wire(entry).len() + 8);
}

/// Reading the entries of a body that holds the frame of an entry gives
/// that entry, and then what is read behind its frame.
#[verifier::rlimit(40)]
pub proof fn lemma_replay_step(body: Seq<u8>, start: int, entry: EntryView)
    requires
        entry_fits(entry),
        holds(body, start, frame_wire(entry_bits(entry), entry_wire(entry))),
    ensures
        entries_from(body, start) == seq![entry] + entries_from(
            body,
            start + entry_wire(entry).len() + 8,
        ),
        entries_end(body, start) == entries_end(body, start + entry_wire(entry).len() + 8),
        frame_wire(entry_bits(entry), entry_wire(entry)).len() == entry_wire(entry).len() + 8,
{
    lemma_frame_reads_entry(body, start, entry);
}

/// The frames of entries start with the frame of the first.
pub proof fn lemma_frames_wire_first(entries: Seq<EntryView>, tail: Seq<u8>)
    requires
        entries.len() > 0,
    ensures
        frames_wire(entries) + tail == frame_wire(
            entry_bits(entries.first()),
            entry_wire(entries.first()),
        ) + (frames_wire(entries.drop_first()) + tail),
        seq![entries.first()] + entries.drop_first() == entries,
{
    let frame = frame_wire(entry_bits(entries.first()), entry_wire(entries.first()));
    assert(frames_wire(entries) + tail =~= frame + (frames_wire(entries.drop_first()) + tail));
    assert(seq![entries.first()] + entries.drop_first() =~= entries);
}

/// The entries that were written are the entries that are read: from a body
/// that holds the frames of entries and behind them nothing or what a torn
/// write left of a frame, exactly those entries are read.
#[verifier::rlimit(40)]
pub proof fn lemma_replay_reads_entries(body: Seq<u8>, start: int, entries: Seq<EntryView>, tail: Seq<u8>)
    requires
        holds(body, start, frames_wire(entries) + tail),
        start + frames_wire(entries).len() + tail.len() == body.len(),
        forall|i: int| 0 <= i < entries.len() ==> entry_fits(#[trigger] entries[i]),
        torn(tail),
    ensures
        entries_from(body, start) == entries,
        entries_end(body, start) == start + frames_wire(entries).len(),
    decreases entries.len(),
{
    if entries.len() == 0 {
        assert(frames_wire(entries) + tail =~= tail);
        assert(body.subrange(start, body.len() as int) =~= tail);
        lemma_torn_frame(body, start);
        assert(entries =~= Seq::<EntryView>::empty());
    } else {
        let entry = entries.first();
        assert(entry_fits(entries[0]));
        let frame = frame_wire(entry_bits(entry), entry_wire(entry));
        let others = entries.drop_first();
        lemma_frames_wire_first(entries, tail);
        lemma_holds_split(body, start, frame, frames_wire(others) + tail);
        lemma_replay_step(body, start, entry);
        assert forall|i: int| 0 <= i < others.len() implies entry_fits(#[trigger] others[i]) by {
            assert(others[i] == entries[i + 1]);
        }
        lemma_replay_reads_entries(body, start + frame.len(), others, tail);
    }
}

/// No entry is read from an end mark.
pub proof fn lemma_end_mark_ends(body: Seq<u8>, start: int)
    requires
        holds(body, start, end_mark()),
    ensures
        entries_from(body, start) == Seq::<EntryView>::empty(),
        entries_end(body, start) == start,
{
    let zero = u32_bytes(0u32);
    assert(u32_of_bytes(zero) == 0);
    assert(body.subrange(start, start + 4) =~= zero) by {
        let part = body.subrange(start, start + 8);
        assert(part == end_mark());
        assert(body.subrange(start, start + 4) =~= part.subrange(0, 4));
    }
    match frame_at(body, start) {
        Some(frame) => {
            assert(frame.payload.len() == 0);
        },
        None => {},
    }
}

/// An end mark ends the entries: from a body that holds the frames of
/// entries and behind them an end mark, whatever follows it, exactly those
/// entries are read.
#[verifier::rlimit(40)]
pub proof fn lemma_replay_stops_at_end_mark(body: Seq<u8>, start: int, entries: Seq<EntryView>)
    requires
        holds(body, start, frames_wire(entries) + end_mark()),
        forall|i: int| 0 <= i < entries.len() ==> entry_fits(#[trigger] entries[i]),
    ensures
        entries_from(body, start) == entries,
        entries_end(body, start) == start + frames_wire(entries).len(),
    decreases entries.len(),
{
    if entries.len() == 0 {
        assert(frames_wire(entries) + end_mark() =~= end_mark());
        lemma_end_mark_ends(body, start);
        assert(entries =~= Seq::<EntryView>::empty());
    } else {
        let entry = entries.first();
        assert(entry_fits(entries[0]));
        let frame = frame_wire(entry_bits(entry), entry_wire(entry));
        let others = entries.drop_first();
        lemma_frames_wire_first(entries, end_mark());
        lemma_holds_split(body, start, frame, frames_wire(others) + end_mark());
        lemma_replay_step(body, start, entry);
        assert forall|i: int| 0 <= i < others.len() implies entry_fits(#[trigger] others[i]) by {
            assert(others[i] == entries[i + 1]);
        }
        lemma_replay_stops_at_end_mark(body, start + frame.len(), others);
    }
}

} // verus!
