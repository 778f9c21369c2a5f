//! Compact encoding: the little-endian, self-delimiting format of every
//! record on disk and on the wire, and the cursor that writes and reads it.

use compact_encoding::State;
use vstd::bytes::{
    spec_u16_from_le_bytes, spec_u16_to_le_bytes, spec_u32_from_le_bytes, spec_u32_to_le_bytes,
    spec_u64_from_le_bytes, spec_u64_to_le_bytes,
};
use vstd::prelude::*;
use vstd::utf8::{
    decode_utf8, encode_utf8, encode_utf8_decode_utf8, encode_utf8_valid_utf8, valid_utf8,
};

use crate::common::{CodecError, CodecErrorKind};

verus! {

/// First byte of an integer that follows in two bytes.
pub const U16_SIGNIFIER: u8 = 0xfd;

/// First byte of an integer that follows in four bytes.
pub const U32_SIGNIFIER: u8 = 0xfe;

/// First byte of an integer that follows in eight bytes.
pub const U64_SIGNIFIER: u8 = 0xff;

/// Number of bytes that an integer takes.
pub open spec fn uint_width(value: u64) -> nat {
    if value < 0xfd {
        1
    } else if value <= 0xffff {
        3
    } else if value <= 0xffff_ffff {
        5
    } else {
        9
    }
}

/// An integer on the wire: one byte below 253, else a signifier and the
/// value in two, four or eight little-endian bytes.
pub open spec fn uint_wire(value: u64) -> Seq<u8> {
    if value < 0xfd {
        seq![value as u8]
    } else if value <= 0xffff {
        seq![U16_SIGNIFIER] + spec_u16_to_le_bytes(value as u16)
    } else if value <= 0xffff_ffff {
        seq![U32_SIGNIFIER] + spec_u32_to_le_bytes(value as u32)
    } else {
        seq![U64_SIGNIFIER] + spec_u64_to_le_bytes(value)
    }
}

/// A byte string on the wire: its length as an integer, then its bytes.
pub open spec fn bytes_wire(data: Seq<u8>) -> Seq<u8> {
    uint_wire(data.len() as u64) + data
}

/// The integer that starts at `start`, with the position after it.
pub open spec fn uint_at(window: Seq<u8>, start: int) -> Option<(u64, int)> {
    if !(0 <= start < window.len()) {
        None
    } else if window[start] < U16_SIGNIFIER {
        Some((window[start] as u64, start + 1))
    } else if window[start] == U16_SIGNIFIER {
        if start + 3 <= window.len() {
            Some((spec_u16_from_le_bytes(window.subrange(start + 1, start + 3)) as u64, start + 3))
        } else {
            None
        }
    } else if window[start] == U32_SIGNIFIER {
        if start + 5 <= window.len() {
            Some((spec_u32_from_le_bytes(window.subrange(start + 1, start + 5)) as u64, start + 5))
        } else {
            None
        }
    } else {
        if start + 9 <= window.len() {
            Some((spec_u64_from_le_bytes(window.subrange(start + 1, start + 9)), start + 9))
        } else {
            None
        }
    }
}

/// The byte string that starts at `start`, with the position after it.
pub open spec fn bytes_at(window: Seq<u8>, start: int) -> Option<(Seq<u8>, int)> {
    match uint_at(window, start) {
        Some((length, from)) => if from + length <= window.len() {
            Some((window.subrange(from, from + length), from + length))
        } else {
            None
        },
        None => None,
    }
}

/// The `count` raw bytes that start at `start`, with the position after them.
pub open spec fn fixed_at(window: Seq<u8>, start: int, count: int) -> Option<(Seq<u8>, int)> {
    if 0 <= start && start + count <= window.len() {
        Some((window.subrange(start, start + count), start + count))
    } else {
        None
    }
}

/// The text that starts at `start` as a byte string of UTF-8, with the
/// position after it.
pub open spec fn string_at(window: Seq<u8>, start: int) -> Option<(Seq<u8>, int)> {
    match bytes_at(window, start) {
        Some((data, next)) => if valid_utf8(data) {
            Some((data, next))
        } else {
            None
        },
        None => None,
    }
}

/// `buffer` with `data` written over it from position `at` on.
pub open spec fn splice(buffer: Seq<u8>, at: int, data: Seq<u8>) -> Seq<u8> {
    buffer.subrange(0, at) + data + buffer.subrange(at + data.len(), buffer.len() as int)
}

/// The part of a buffer that a cursor with the given end may read.
pub open spec fn window(buffer: Seq<u8>, end: usize) -> Seq<u8> {
    if end <= buffer.len() {
        buffer.take(end as int)
    } else {
        buffer
    }
}

/// Whether `count` more bytes fit behind `start`, in the cursor's range and
/// in a buffer of the given length.
pub open spec fn fits(start: usize, end: usize, buffer_len: nat, count: nat) -> bool {
    start + count <= end && start + count <= buffer_len
}

/// The error type of the compact encoding crate.
#[verifier::external_type_specification]
#[verifier::external_body]
pub struct ExEncodingError(compact_encoding::EncodingError);

/// Takes the kind and the message out of a `compact_encoding::EncodingError`.
#[verifier::external_body]
fn encoding_error(error: compact_encoding::EncodingError) -> CodecError {
    let kind = match error.kind {
        compact_encoding::EncodingErrorKind::OutOfBounds => CodecErrorKind::OutOfBounds,
        compact_encoding::EncodingErrorKind::Overflow => CodecErrorKind::Overflow,
        compact_encoding::EncodingErrorKind::InvalidData => CodecErrorKind::InvalidData,
    };
    CodecError { kind, message: error.message }
}

/// `State::preencode_uint_var` adds the width of the integer to the end
/// position and fails where that overflows.
#[verifier::external_body]
fn state_preencode_uint(end: usize, value: u64) -> (next: Result<usize, compact_encoding::EncodingError>)
    ensures
        next is Ok <==> end + uint_width(value) <= usize::MAX,
        next matches Ok(n) ==> n == end + uint_width(value),
{
    State::new_with_start_and_end(0, end).preencode_uint_var(&value)
}

/// `State::encode_u64_var` writes the integer at the start position and
/// advances it; it fails where the bytes do not fit before the end position
/// or in the buffer, and never changes the buffer's length.
#[verifier::external_body]
fn state_encode_uint(start: usize, end: usize, value: u64, buffer: &mut Vec<u8>) -> (next: Result<
    usize,
    compact_encoding::EncodingError,
>)
    ensures
        final(buffer)@.len() == old(buffer)@.len(),
        next is Ok <==> fits(start, end, old(buffer)@.len(), uint_width(value)),
        next matches Ok(n) ==> n == start + uint_width(value) && final(buffer)@ == splice(
            old(buffer)@,
            start as int,
            uint_wire(value),
        ),
{
    State::new_with_start_and_end(start, end).encode_u64_var(&value, buffer.as_mut_slice())
}

/// `State::decode_u64_var` reads the integer at the start position and
/// advances it; it fails where the integer does not end before the end
/// position and within the buffer.
#[verifier::external_body]
fn state_decode_uint(start: usize, end: usize, buffer: &[u8]) -> (value: Result<
    (u64, usize),
    compact_encoding::EncodingError,
>)
    ensures
        value is Ok <==> uint_at(window(buffer@, end), start as int) is Some,
        value matches Ok(v) ==> uint_at(window(buffer@, end), start as int) == Some(
            (v.0, v.1 as int),
        ),
{
    let mut state = State::new_with_start_and_end(start, end);
    let value = state.decode_u64_var(buffer)?;
    Ok((value, state.start()))
}

/// `State::preencode_buffer` adds the width of the length and the length to
/// the end position and fails where that overflows.
#[verifier::external_body]
fn state_preencode_buffer(end: usize, value: &[u8]) -> (next: Result<usize, compact_encoding::EncodingError>)
    ensures
        next is Ok <==> end + uint_width(value@.len() as u64) + value@.len() <= usize::MAX,
        next matches Ok(n) ==> n == end + uint_width(value@.len() as u64) + value@.len(),
{
    State::new_with_start_and_end(0, end).preencode_buffer(value)
}

/// `State::encode_buffer` writes the length and the bytes at the start
/// position and advances it; it fails where they do not fit, and never
/// changes the buffer's length.
#[verifier::external_body]
fn state_encode_buffer(start: usize, end: usize, value: &[u8], buffer: &mut Vec<u8>) -> (next: Result<
    usize,
    compact_encoding::EncodingError,
>)
    ensures
        final(buffer)@.len() == old(buffer)@.len(),
        next is Ok <==> fits(start, end, old(buffer)@.len(), bytes_wire(value@).len()),
        next matches Ok(n) ==> n == start + bytes_wire(value@).len() && final(buffer)@ == splice(
            old(buffer)@,
            start as int,
            bytes_wire(value@),
        ),
{
    State::new_with_start_and_end(start, end).encode_buffer(value, buffer.as_mut_slice())
}

/// `State::decode_buffer_vec` reads a length and that many bytes at the
/// start position and advances it; it fails where they do not end before
/// the end position and within the buffer.
#[verifier::external_body]
fn state_decode_buffer(start: usize, end: usize, buffer: &[u8]) -> (value: Result<
    (Vec<u8>, usize),
    compact_encoding::EncodingError,
>)
    ensures
        value is Ok <==> bytes_at(window(buffer@, end), start as int) is Some,
        value matches Ok(v) ==> bytes_at(window(buffer@, end), start as int) == Some(
            (v.0@, v.1 as int),
        ),
{
    let mut state = State::new_with_start_and_end(start, end);
    let value = state.decode_buffer_vec(buffer)?;
    Ok((value, state.start()))
}

/// `State::preencode_fixed_32` adds 32 to the end position and fails where
/// that overflows.
#[verifier::external_body]
fn state_preencode_fixed_32(end: usize) -> (next: Result<usize, compact_encoding::EncodingError>)
    ensures
        next is Ok <==> end + 32 <= usize::MAX,
        next matches Ok(n) ==> n == end + 32,
{
    State::new_with_start_and_end(0, end).preencode_fixed_32()
}

/// `State::encode_fixed_32` writes the 32 bytes at the start position and
/// advances it; it fails where they do not fit, never changes the buffer's
/// length, and panics on a value of more than 32 bytes.
#[verifier::external_body]
fn state_encode_fixed_32(start: usize, end: usize, value: &[u8], buffer: &mut Vec<u8>) -> (next: Result<
    usize,
    compact_encoding::EncodingError,
>)
    requires
        value@.len() == 32,
    ensures
        final(buffer)@.len() == old(buffer)@.len(),
        next is Ok <==> fits(start, end, old(buffer)@.len(), 32),
        next matches Ok(n) ==> n == start + 32 && final(buffer)@ == splice(
            old(buffer)@,
            start as int,
            value@,
        ),
{
    State::new_with_start_and_end(start, end).encode_fixed_32(value, buffer.as_mut_slice())
}

/// `State::decode_fixed_32` reads 32 bytes at the start position and
/// advances it; it fails where they do not end before the end position and
/// within the buffer.
#[verifier::external_body]
fn state_decode_fixed_32(start: usize, end: usize, buffer: &[u8]) -> (value: Result<
    (Vec<u8>, usize),
    compact_encoding::EncodingError,
>)
    ensures
        value is Ok <==> fixed_at(window(buffer@, end), start as int, 32) is Some,
        value matches Ok(v) ==> fixed_at(window(buffer@, end), start as int, 32) == Some(
            (v.0@, v.1 as int),
        ),
{
    let mut state = State::new_with_start_and_end(start, end);
    let value = state.decode_fixed_32(buffer)?;
    Ok((value.into_vec(), state.start()))
}

/// `State::decode_string` reads a length and that many bytes of UTF-8 at
/// the start position and advances it; it fails where they do not end
/// before the end position and within the buffer, and where they are not
/// UTF-8.
#[verifier::external_body]
fn state_decode_string(start: usize, end: usize, buffer: &[u8]) -> (value: Result<
    (String, usize),
    compact_encoding::EncodingError,
>)
    ensures
        value is Ok <==> string_at(window(buffer@, end), start as int) is Some,
        value matches Ok(v) ==> string_at(window(buffer@, end), start as int) == Some(
            (encode_utf8(v.0@), v.1 as int),
        ),
{
    let mut state = State::new_with_start_and_end(start, end);
    let value = state.decode_string(buffer)?;
    Ok((value, state.start()))
}

/// A cursor over a buffer: everything before `start` is written or read,
/// and nothing may be written or read from `end` on.
#[derive(Debug, Clone, Copy, PartialEq, Eq, Structural)]
pub struct HypercoreState {
    /// Position of the next byte to write or read.
    pub start: usize,
    /// Position that writing and reading must not pass.
    pub end: usize,
}

/// What a step that writes `wire` promises: it succeeds exactly where the
/// bytes fit, then leaves them in the buffer at the old start position and
/// moves the start position behind them.
pub open spec fn encoded(
    pre: HypercoreState,
    post: HypercoreState,
    before: Seq<u8>,
    after: Seq<u8>,
    wire: Seq<u8>,
    result: Result<usize, CodecError>,
) -> bool {
    &&& after.len() == before.len()
    &&& result is Ok <==> fits(pre.start, pre.end, before.len(), wire.len())
    &&& result matches Ok(next) ==> {
        &&& next == post.start
        &&& post.start == pre.start + wire.len()
        &&& post.end == pre.end
        &&& after == splice(before, pre.start as int, wire)
    }
}

/// What a step that reserves room for `count` bytes promises: it succeeds
/// exactly where the end position does not overflow, and then moves it.
pub open spec fn preencoded(
    pre: HypercoreState,
    post: HypercoreState,
    count: nat,
    result: Result<usize, CodecError>,
) -> bool {
    &&& result is Ok <==> pre.end + count <= usize::MAX
    &&& result matches Ok(next) ==> {
        &&& next == post.end
        &&& post.end == pre.end + count
        &&& post.start == pre.start
    }
}

impl HypercoreState {
    /// A cursor at position 0 with no room.
    pub fn new() -> (state: HypercoreState)
        ensures
            state.start == 0,
            state.end == 0,
    {
        HypercoreState { start: 0, end: 0 }
    }

    /// A cursor over a fresh buffer of `size` zero bytes.
    pub fn new_with_size(size: usize) -> (pair: (HypercoreState, Vec<u8>))
        ensures
            pair.0.start == 0,
            pair.0.end == size,
            pair.1@ == Seq::new(size as nat, |i: int| 0u8),
    {
        let mut buffer: Vec<u8> = Vec::new();
        let mut i: usize = 0;
        while i < size
            invariant
                i <= size,
                buffer@ == Seq::new(i as nat, |j: int| 0u8),
            decreases size - i,
        {
            buffer.push(0u8);
            i += 1;
        }
        (HypercoreState { start: 0, end: size }, buffer)
    }

    /// A cursor with the given positions.
    pub fn new_with_start_and_end(start: usize, end: usize) -> (state: HypercoreState)
        ensures
            state.start == start,
            state.end == end,
    {
        HypercoreState { start, end }
    }

    /// A cursor that reads all of `buffer`.
    pub fn from_buffer(buffer: &[u8]) -> (state: HypercoreState)
        ensures
            state.start == 0,
            state.end == buffer@.len(),
    {
        HypercoreState { start: 0, end: buffer.len() }
    }

    /// Position of the next byte to write or read.
    pub fn start(&self) -> (start: usize)
        ensures
            start == self.start,
    {
        self.start
    }

    /// Position that writing and reading must not pass.
    pub fn end(&self) -> (end: usize)
        ensures
            end == self.end,
    {
        self.end
    }

    /// Reserves room for an integer.
    pub fn preencode_uint(&mut self, value: u64) -> (result: Result<usize, CodecError>)
        ensures
            preencoded(*old(self), *final(self), uint_width(value), result),
    {
        match state_preencode_uint(self.end, value) {
            Ok(end) => {
                self.end = end;
                Ok(end)
            },
            Err(error) => Err(encoding_error(error)),
        }
    }

    /// Writes an integer.
    pub fn encode_uint(&mut self, value: u64, buffer: &mut Vec<u8>) -> (result: Result<
        usize,
        CodecError,
    >)
        ensures
            encoded(*old(self), *final(self), old(buffer)@, final(buffer)@, uint_wire(value), result),
    {
        proof {
            lemma_uint_wire_len(value);
        }
        match state_encode_uint(self.start, self.end, value, buffer) {
            Ok(start) => {
                self.start = start;
                Ok(start)
            },
            Err(error) => Err(encoding_error(error)),
        }
    }

    /// Reads an integer.
    pub fn decode_uint(&mut self, buffer: &[u8]) -> (result: Result<u64, CodecError>)
        ensures
            result is Ok <==> uint_at(window(buffer@, old(self).end), old(self).start as int) is Some,
            result matches Ok(value) ==> final(self).end == old(self).end && uint_at(
                window(buffer@, old(self).end),
                old(self).start as int,
            ) == Some((value, final(self).start as int)),
    {
        match state_decode_uint(self.start, self.end, buffer) {
            Ok((value, start)) => {
                self.start = start;
                Ok(value)
            },
            Err(error) => Err(encoding_error(error)),
        }
    }

    /// Reserves room for a byte string.
    pub fn preencode_bytes(&mut self, value: &[u8]) -> (result: Result<usize, CodecError>)
        ensures
            preencoded(*old(self), *final(self), bytes_wire(value@).len(), result),
    {
        proof {
            lemma_uint_wire_len(value@.len() as u64);
        }
        match state_preencode_buffer(self.end, value) {
            Ok(end) => {
                self.end = end;
                Ok(end)
            },
            Err(error) => Err(encoding_error(error)),
        }
    }

    /// Writes a byte string.
    pub fn encode_bytes(&mut self, value: &[u8], buffer: &mut Vec<u8>) -> (result: Result<
        usize,
        CodecError,
    >)
        ensures
            encoded(*old(self), *final(self), old(buffer)@, final(buffer)@, bytes_wire(value@), result),
    {
        match state_encode_buffer(self.start, self.end, value, buffer) {
            Ok(start) => {
                self.start = start;
                Ok(start)
            },
            Err(error) => Err(encoding_error(error)),
        }
    }

    /// Reads a byte string.
    pub fn decode_bytes(&mut self, buffer: &[u8]) -> (result: Result<Vec<u8>, CodecError>)
        ensures
            result is Ok <==> bytes_at(window(buffer@, old(self).end), old(self).start as int) is Some,
            result matches Ok(value) ==> final(self).end == old(self).end && bytes_at(
                window(buffer@, old(self).end),
                old(self).start as int,
            ) == Some((value@, final(self).start as int)),
    {
        match state_decode_buffer(self.start, self.end, buffer) {
            Ok((value, start)) => {
                self.start = start;
                Ok(value)
            },
            Err(error) => Err(encoding_error(error)),
        }
    }

    /// Reserves room for 32 raw bytes.
    pub fn preencode_fixed_32(&mut self) -> (result: Result<usize, CodecError>)
        ensures
            preencoded(*old(self), *final(self), 32, result),
    {
        match state_preencode_fixed_32(self.end) {
            Ok(end) => {
                self.end = end;
                Ok(end)
            },
            Err(error) => Err(encoding_error(error)),
        }
    }

    /// Writes 32 raw bytes.
    pub fn encode_fixed_32(&mut self, value: &[u8], buffer: &mut Vec<u8>) -> (result: Result<
        usize,
        CodecError,
    >)
        requires
            value@.len() == 32,
        ensures
            encoded(*old(self), *final(self), old(buffer)@, final(buffer)@, value@, result),
    {
        match state_encode_fixed_32(self.start, self.end, value, buffer) {
            Ok(start) => {
                self.start = start;
                Ok(start)
            },
            Err(error) => Err(encoding_error(error)),
        }
    }

    /// Reads 32 raw bytes.
    pub fn decode_fixed_32(&mut self, buffer: &[u8]) -> (result: Result<Vec<u8>, CodecError>)
        ensures
            result is Ok <==> fixed_at(window(buffer@, old(self).end), old(self).start as int, 32) is Some,
            result matches Ok(value) ==> final(self).end == old(self).end && fixed_at(
                window(buffer@, old(self).end),
                old(self).start as int,
                32,
            ) == Some((value@, final(self).start as int)),
    {
        match state_decode_fixed_32(self.start, self.end, buffer) {
            Ok((value, start)) => {
                self.start = start;
                Ok(value)
            },
            Err(error) => Err(encoding_error(error)),
        }
    }

    /// Reserves room for a text.
    pub fn preencode_string(&mut self, value: &String) -> (result: Result<usize, CodecError>)
        ensures
            preencoded(*old(self), *final(self), bytes_wire(encode_utf8(value@)).len(), result),
    {
        self.preencode_bytes(value.as_str().as_bytes())
    }

    /// Writes a text as the byte string of its UTF-8.
    pub fn encode_string(&mut self, value: &String, buffer: &mut Vec<u8>) -> (result: Result<
        usize,
        CodecError,
    >)
        ensures
            encoded(
                *old(self),
                *final(self),
                old(buffer)@,
                final(buffer)@,
                bytes_wire(encode_utf8(value@)),
                result,
            ),
    {
        self.encode_bytes(value.as_str().as_bytes(), buffer)
    }

    /// Reads a text.
    pub fn decode_string(&mut self, buffer: &[u8]) -> (result: Result<String, CodecError>)
        ensures
            result is Ok <==> string_at(window(buffer@, old(self).end), old(self).start as int) is Some,
            result matches Ok(value) ==> final(self).end == old(self).end && string_at(
                window(buffer@, old(self).end),
                old(self).start as int,
            ) == Some((encode_utf8(value@), final(self).start as int)),
    {
        match state_decode_string(self.start, self.end, buffer) {
            Ok((value, start)) => {
                self.start = start;
                Ok(value)
            },
            Err(error) => Err(encoding_error(error)),
        }
    }
}

/// A text on the wire: the byte string of its UTF-8.
pub open spec fn text_wire(text: Seq<char>) -> Seq<u8> {
    bytes_wire(encode_utf8(text))
}

/// The text that starts at `start`, with the position after it.
pub open spec fn text_at(window: Seq<u8>, start: int) -> Option<(Seq<char>, int)> {
    match string_at(window, start) {
        Some((data, next)) => Some((decode_utf8(data), next)),
        None => None,
    }
}

/// How a text is written, as a function.
pub open spec fn text_wire_fn() -> spec_fn(Seq<char>) -> Seq<u8> {
    |text: Seq<char>| text_wire(text)
}

/// How a text is read, as a function.
pub open spec fn text_at_fn() -> spec_fn(Seq<u8>, int) -> Option<(Seq<char>, int)> {
    |window: Seq<u8>, start: int| text_at(window, start)
}

/// The texts of a sequence as mathematical values.
pub open spec fn text_views(texts: Seq<String>) -> Seq<Seq<char>> {
    texts.map_values(|text: String| text@)
}

/// Items on the wire, one after the other, each written by `wire`.
pub open spec fn list_wire<T>(items: Seq<T>, wire: spec_fn(T) -> Seq<u8>) -> Seq<u8>
    decreases items.len(),
{
    if items.len() == 0 {
        Seq::empty()
    } else {
        list_wire(items.drop_last(), wire) + wire(items.last())
    }
}

/// The `count` items that start at `start`, each read by `at`, with the
/// position after them.
pub open spec fn list_at<T>(
    window: Seq<u8>,
    start: int,
    count: nat,
    at: spec_fn(Seq<u8>, int) -> Option<(T, int)>,
) -> Option<(Seq<T>, int)>
    decreases count,
{
    if count == 0 {
        Some((Seq::empty(), start))
    } else {
        match at(window, start) {
            Some((item, next)) => match list_at(window, next, (count - 1) as nat, at) {
                Some((rest, end)) => Some((seq![item] + rest, end)),
                None => None,
            },
            None => None,
        }
    }
}

/// An array of texts on the wire: their number, then the texts.
pub open spec fn texts_wire(texts: Seq<Seq<char>>) -> Seq<u8> {
    uint_wire(texts.len() as u64) + list_wire(texts, text_wire_fn())
}

/// The array of texts that starts at `start`, with the position after it.
pub open spec fn texts_at(window: Seq<u8>, start: int) -> Option<(Seq<Seq<char>>, int)> {
    match uint_at(window, start) {
        Some((count, next)) => list_at(window, next, count as nat, text_at_fn()),
        None => None,
    }
}

/// The items of a prefix take no more room than all of them.
pub proof fn lemma_list_wire_prefix<T>(items: Seq<T>, wire: spec_fn(T) -> Seq<u8>, count: int)
    requires
        0 <= count <= items.len(),
    ensures
        list_wire(items.take(count), wire).len() <= list_wire(items, wire).len(),
    decreases items.len(),
{
    if count == items.len() {
        assert(items.take(count) == items);
    } else {
        lemma_list_wire_prefix(items.drop_last(), wire, count);
        assert(items.drop_last().take(count) == items.take(count));
    }
}

/// One more item of a list is written behind the items before it.
pub proof fn lemma_list_wire_step<T>(items: Seq<T>, wire: spec_fn(T) -> Seq<u8>, count: int)
    requires
        0 <= count < items.len(),
    ensures
        list_wire(items.take(count + 1), wire) == list_wire(items.take(count), wire) + wire(
            items[count],
        ),
{
    assert(items.take(count + 1).drop_last() == items.take(count));
}

/// Reading `count` items and then one more reads `count + 1` items.
pub proof fn lemma_list_at_step<T>(
    window: Seq<u8>,
    start: int,
    count: nat,
    at: spec_fn(Seq<u8>, int) -> Option<(T, int)>,
    items: Seq<T>,
    middle: int,
)
    requires
        list_at(window, start, count, at) == Some((items, middle)),
    ensures
        list_at(window, start, count + 1, at) == match at(window, middle) {
            Some((item, end)) => Some((items.push(item), end)),
            None => None,
        },
    decreases count,
{
    if count == 0 {
        match at(window, middle) {
            Some((item, end)) => {
                assert(list_at(window, end, 0, at) == Some((Seq::<T>::empty(), end)));
                assert(seq![item] + Seq::<T>::empty() == items.push(item));
            },
            None => {},
        }
    } else {
        let (first, next) = at(window, start)->0;
        let (rest, last) = list_at(window, next, (count - 1) as nat, at)->0;
        assert(items == seq![first] + rest);
        assert(last == middle);
        lemma_list_at_step(window, next, (count - 1) as nat, at, rest, middle);
        assert(((count - 1) as nat + 1) as nat == count);
        assert(((count + 1) - 1) as nat == count);
        match at(window, middle) {
            Some((item, end)) => {
                assert(list_at(window, next, count, at) == Some((rest.push(item), end)));
                assert(seq![first] + rest.push(item) == items.push(item));
            },
            None => {
                assert(list_at(window, next, count, at) is None);
            },
        }
    }
}

/// Where a number of items cannot be read, one more cannot be read either.
pub proof fn lemma_list_at_short<T>(
    window: Seq<u8>,
    start: int,
    count: nat,
    at: spec_fn(Seq<u8>, int) -> Option<(T, int)>,
)
    requires
        list_at(window, start, count, at) is None,
    ensures
        list_at(window, start, count + 1, at) is None,
    decreases count,
{
    if count > 0 {
        match at(window, start) {
            Some((item, next)) => {
                lemma_list_at_short(window, next, (count - 1) as nat, at);
            },
            None => {},
        }
    }
}

/// Where fewer items cannot be read, more cannot be read either.
pub proof fn lemma_list_at_none<T>(
    window: Seq<u8>,
    start: int,
    fewer: nat,
    more: nat,
    at: spec_fn(Seq<u8>, int) -> Option<(T, int)>,
)
    requires
        fewer < more,
        list_at(window, start, fewer + 1, at) is None,
    ensures
        list_at(window, start, more, at) is None,
    decreases more,
{
    if more > fewer + 1 {
        lemma_list_at_none(window, start, fewer, (more - 1) as nat, at);
        lemma_list_at_short(window, start, (more - 1) as nat, at);
    }
}

/// Two writing steps in a row write the concatenation of their records.
pub proof fn lemma_encoded_join(
    pre: HypercoreState,
    mid: HypercoreState,
    post: HypercoreState,
    before: Seq<u8>,
    between: Seq<u8>,
    after: Seq<u8>,
    first: Seq<u8>,
    second: Seq<u8>,
    result: Result<usize, CodecError>,
)
    requires
        encoded(pre, mid, before, between, first, Ok(mid.start)),
        encoded(mid, post, between, after, second, result),
    ensures
        encoded(pre, post, before, after, first + second, result),
{
    if result is Ok {
        lemma_splice_twice(before, pre.start as int, first, second);
    }
}

impl HypercoreState {
    /// Reads a text and gives it as a mathematical value too.
    pub fn decode_text(&mut self, buffer: &[u8]) -> (result: Result<String, CodecError>)
        ensures
            result is Ok <==> text_at(window(buffer@, old(self).end), old(self).start as int) is Some,
            result matches Ok(value) ==> final(self).end == old(self).end && text_at(
                window(buffer@, old(self).end),
                old(self).start as int,
            ) == Some((value@, final(self).start as int)),
    {
        let result = self.decode_string(buffer);
        proof {
            if result is Ok {
                encode_utf8_decode_utf8(result->Ok_0@);
            }
        }
        result
    }

    /// Reserves room for an array of texts.
    pub fn preencode_texts(&mut self, value: &Vec<String>) -> (result: Result<usize, CodecError>)
        ensures
            preencoded(*old(self), *final(self), texts_wire(text_views(value@)).len(), result),
    {
        let ghost pre = *self;
        let ghost views = text_views(value@);
        proof {
            lemma_uint_wire_len(value.len() as u64);
            lemma_list_wire_prefix(views, text_wire_fn(), 0);
        }
        self.preencode_uint(value.len() as u64)?;
        let mut i: usize = 0;
        proof {
            assert(views.take(0) == Seq::<Seq<char>>::empty());
        }
        while i < value.len()
            invariant
                i <= value@.len(),
                views == text_views(value@),
                pre == *old(self),
                preencoded(
                    pre,
                    *self,
                    uint_width(value@.len() as u64) + list_wire(
                        views.take(i as int),
                        text_wire_fn(),
                    ).len(),
                    Ok(self.end),
                ),
            decreases value@.len() - i,
        {
            proof {
                lemma_uint_wire_len(value@.len() as u64);
                lemma_list_wire_step(views, text_wire_fn(), i as int);
                lemma_list_wire_prefix(views, text_wire_fn(), i + 1);
                assert(views[i as int] == value@[i as int]@);
                assert(texts_wire(views).len() == uint_width(value@.len() as u64) + list_wire(
                    views,
                    text_wire_fn(),
                ).len());
            }
            self.preencode_string(&value[i])?;
            i += 1;
        }
        proof {
            lemma_uint_wire_len(value@.len() as u64);
            assert(views.take(i as int) == views);
        }
        Ok(self.end())
    }

    /// Writes an array of texts.
    pub fn encode_texts(&mut self, value: &Vec<String>, buffer: &mut Vec<u8>) -> (result: Result<
        usize,
        CodecError,
    >)
        ensures
            encoded(
                *old(self),
                *final(self),
                old(buffer)@,
                final(buffer)@,
                texts_wire(text_views(value@)),
                result,
            ),
    {
        let ghost pre = *self;
        let ghost before = buffer@;
        let ghost views = text_views(value@);
        let ghost head = uint_wire(value@.len() as u64);
        proof {
            lemma_list_wire_prefix(views, text_wire_fn(), 0);
        }
        self.encode_uint(value.len() as u64, buffer)?;
        let mut i: usize = 0;
        proof {
            assert(views.take(0) == Seq::<Seq<char>>::empty());
            assert(head + Seq::<u8>::empty() == head);
        }
        while i < value.len()
            invariant
                i <= value@.len(),
                views == text_views(value@),
                head == uint_wire(value@.len() as u64),
                pre == *old(self),
                before == old(buffer)@,
                encoded(
                    pre,
                    *self,
                    before,
                    buffer@,
                    head + list_wire(views.take(i as int), text_wire_fn()),
                    Ok(self.start),
                ),
            decreases value@.len() - i,
        {
            let ghost mid = *self;
            let ghost between = buffer@;
            proof {
                lemma_list_wire_step(views, text_wire_fn(), i as int);
                lemma_list_wire_prefix(views, text_wire_fn(), i + 1);
                assert(views[i as int] == value@[i as int]@);
            }
            let step = self.encode_string(&value[i], buffer);
            proof {
                lemma_encoded_join(
                    pre,
                    mid,
                    *self,
                    before,
                    between,
                    buffer@,
                    head + list_wire(views.take(i as int), text_wire_fn()),
                    text_wire(views[i as int]),
                    step,
                );
                assert(head + list_wire(views.take(i as int), text_wire_fn()) + text_wire(
                    views[i as int],
                ) == head + list_wire(views.take(i + 1), text_wire_fn()));
                assert((head + list_wire(views.take(i + 1), text_wire_fn())).len() <= texts_wire(
                    views,
                ).len());
            }
            match step {
                Ok(_) => {},
                Err(error) => {
                    return Err(error);
                },
            }
            i += 1;
        }
        proof {
            assert(views.take(i as int) == views);
        }
        Ok(self.start())
    }

    /// Reads an array of texts.
    pub fn decode_texts(&mut self, buffer: &[u8]) -> (result: Result<Vec<String>, CodecError>)
        ensures
            result is Ok <==> texts_at(window(buffer@, old(self).end), old(self).start as int) is Some,
            result matches Ok(value) ==> final(self).end == old(self).end && texts_at(
                window(buffer@, old(self).end),
                old(self).start as int,
            ) == Some((text_views(value@), final(self).start as int)),
    {
        let ghost range = window(buffer@, self.end);
        let count = self.decode_uint(buffer)?;
        let ghost first = self.start as int;
        let mut value: Vec<String> = Vec::new();
        let mut i: u64 = 0;
        proof {
            assert(text_views(value@) == Seq::<Seq<char>>::empty());
        }
        while i < count
            invariant
                i <= count,
                self.end == old(self).end,
                range == window(buffer@, self.end),
                uint_at(range, old(self).start as int) == Some((count, first)),
                list_at(range, first, i as nat, text_at_fn()) == Some(
                    (text_views(value@), self.start as int),
                ),
            decreases count - i,
        {
            proof {
                lemma_list_at_step(
                    range,
                    first,
                    i as nat,
                    text_at_fn(),
                    text_views(value@),
                    self.start as int,
                );
            }
            let ghost done = text_views(value@);
            match self.decode_text(buffer) {
                Ok(text) => {
                    value.push(text);
                    proof {
                        assert(text_views(value@) == done.push(text@));
                    }
                },
                Err(error) => {
                    proof {
                        lemma_list_at_none(range, first, i as nat, count as nat, text_at_fn());
                    }
                    return Err(error);
                },
            }
            i += 1;
        }
        Ok(value)
    }
}

/// An integer takes as many bytes on the wire as its width says.
pub proof fn lemma_uint_wire_len(value: u64)
    ensures
        uint_wire(value).len() == uint_width(value),
{
    vstd::bytes::lemma_auto_spec_u16_to_from_le_bytes();
    vstd::bytes::lemma_auto_spec_u32_to_from_le_bytes();
    vstd::bytes::lemma_auto_spec_u64_to_from_le_bytes();
}

/// Writing one record behind another writes their concatenation.
pub proof fn lemma_splice_twice(buffer: Seq<u8>, at: int, first: Seq<u8>, second: Seq<u8>)
    requires
        0 <= at,
        at + first.len() + second.len() <= buffer.len(),
    ensures
        splice(splice(buffer, at, first), at + first.len(), second) == splice(
            buffer,
            at,
            first + second,
        ),
{
    assert(splice(splice(buffer, at, first), at + first.len(), second) =~= splice(
        buffer,
        at,
        first + second,
    ));
}

/// Reading back an integer that was written gives the integer.
pub proof fn lemma_uint_round_trip(window: Seq<u8>, start: int, value: u64)
    requires
        0 <= start,
        start + uint_wire(value).len() <= window.len(),
        window.subrange(start, start + uint_wire(value).len()) == uint_wire(value),
    ensures
        uint_at(window, start) == Some((value, start + uint_wire(value).len())),
{
    vstd::bytes::lemma_auto_spec_u16_to_from_le_bytes();
    vstd::bytes::lemma_auto_spec_u32_to_from_le_bytes();
    vstd::bytes::lemma_auto_spec_u64_to_from_le_bytes();
    let wire = uint_wire(value);
    let part = window.subrange(start, start + wire.len());
    assert(window[start] == part[0]);
    if value < 0xfd {
    } else if value <= 0xffff {
        assert(window.subrange(start + 1, start + 3) == part.subrange(1, 3));
        assert(part.subrange(1, 3) == spec_u16_to_le_bytes(value as u16));
    } else if value <= 0xffff_ffff {
        assert(window.subrange(start + 1, start + 5) == part.subrange(1, 5));
        assert(part.subrange(1, 5) == spec_u32_to_le_bytes(value as u32));
    } else {
        assert(window.subrange(start + 1, start + 9) == part.subrange(1, 9));
        assert(part.subrange(1, 9) == spec_u64_to_le_bytes(value));
    }
}

/// Reading back a byte string that was written gives the byte string.
pub proof fn lemma_bytes_round_trip(window: Seq<u8>, start: int, data: Seq<u8>)
    requires
        0 <= start,
        data.len() <= u64::MAX,
        start + bytes_wire(data).len() <= window.len(),
        window.subrange(start, start + bytes_wire(data).len()) == bytes_wire(data),
    ensures
        bytes_at(window, start) == Some((data, start + bytes_wire(data).len())),
{
    let length = data.len() as u64;
    let wire = bytes_wire(data);
    let head = uint_wire(length);
    lemma_uint_wire_len(length);
    let part = window.subrange(start, start + wire.len());
    assert(window.subrange(start, start + head.len()) == part.subrange(0, head.len() as int));
    assert(part.subrange(0, head.len() as int) == head);
    lemma_uint_round_trip(window, start, length);
    assert(window.subrange(start + head.len(), start + head.len() + length) == part.subrange(
        head.len() as int,
        wire.len() as int,
    ));
    assert(part.subrange(head.len() as int, wire.len() as int) == data);
}

/// Whether a window holds a record at a position.
pub open spec fn holds(window: Seq<u8>, start: int, wire: Seq<u8>) -> bool {
    &&& 0 <= start
    &&& start + wire.len() <= window.len()
    &&& window.subrange(start, start + wire.len()) == wire
}

/// A window that holds two records in a row holds each of them.
pub proof fn lemma_holds_split(window: Seq<u8>, start: int, first: Seq<u8>, second: Seq<u8>)
    requires
        holds(window, start, first + second),
    ensures
        holds(window, start, first),
        holds(window, start + first.len(), second),
{
    let both = first + second;
    let part = window.subrange(start, start + both.len());
    assert(window.subrange(start, start + first.len()) == part.subrange(0, first.len() as int));
    assert(part.subrange(0, first.len() as int) == first);
    assert(window.subrange(start + first.len(), start + first.len() + second.len())
        == part.subrange(first.len() as int, both.len() as int));
    assert(part.subrange(first.len() as int, both.len() as int) == second);
}

/// Reading back an integer that a window holds gives the integer.
pub proof fn lemma_uint_reads_back(window: Seq<u8>, start: int, value: u64)
    requires
        holds(window, start, uint_wire(value)),
    ensures
        uint_at(window, start) == Some((value, start + uint_wire(value).len())),
{
    lemma_uint_round_trip(window, start, value);
}

/// Reading back a byte string that a window holds gives the byte string.
pub proof fn lemma_bytes_reads_back(window: Seq<u8>, start: int, data: Seq<u8>)
    requires
        holds(window, start, bytes_wire(data)),
        data.len() <= u64::MAX,
    ensures
        bytes_at(window, start) == Some((data, start + bytes_wire(data).len())),
{
    lemma_bytes_round_trip(window, start, data);
}

/// Reading back raw bytes that a window holds gives the bytes.
pub proof fn lemma_fixed_reads_back(window: Seq<u8>, start: int, data: Seq<u8>)
    requires
        holds(window, start, data),
    ensures
        fixed_at(window, start, data.len() as int) == Some((data, start + data.len())),
{
}

/// Reading back a text that a window holds gives the text.
pub proof fn lemma_text_reads_back(window: Seq<u8>, start: int, text: Seq<char>)
    requires
        holds(window, start, text_wire(text)),
        encode_utf8(text).len() <= u64::MAX,
    ensures
        text_at(window, start) == Some((text, start + text_wire(text).len())),
{
    lemma_bytes_round_trip(window, start, encode_utf8(text));
    encode_utf8_valid_utf8(text);
    encode_utf8_decode_utf8(text);
}

/// Whether an item is read back wherever a window holds its record.
pub open spec fn reads_back<T>(
    window: Seq<u8>,
    wire: spec_fn(T) -> Seq<u8>,
    at: spec_fn(Seq<u8>, int) -> Option<(T, int)>,
    item: T,
) -> bool {
    forall|place: int| #[trigger]
        holds(window, place, wire(item)) ==> at(window, place) == Some(
            (item, place + wire(item).len()),
        )
}

/// Reading back the items that a window holds in a row gives the items,
/// where each of them is read back.
pub proof fn lemma_list_reads_back<T>(
    window: Seq<u8>,
    start: int,
    items: Seq<T>,
    wire: spec_fn(T) -> Seq<u8>,
    at: spec_fn(Seq<u8>, int) -> Option<(T, int)>,
)
    requires
        holds(window, start, list_wire(items, wire)),
        forall|i: int| 0 <= i < items.len() ==> reads_back(window, wire, at, #[trigger] items[i]),
    ensures
        list_at(window, start, items.len(), at) == Some(
            (items, start + list_wire(items, wire).len()),
        ),
    decreases items.len(),
{
    if items.len() == 0 {
        assert(items =~= Seq::<T>::empty());
    } else {
        let front = items.drop_last();
        let last = items.last();
        lemma_holds_split(window, start, list_wire(front, wire), wire(last));
        lemma_list_reads_back(window, start, front, wire, at);
        let middle = start + list_wire(front, wire).len();
        assert(reads_back(window, wire, at, items[items.len() - 1]));
        assert(holds(window, middle, wire(last)));
        lemma_list_at_step(window, start, front.len(), at, front, middle);
        assert(front.push(last) =~= items);
    }
}

/// A list takes at least as many bytes as it has items, where each item
/// takes at least one.
pub proof fn lemma_list_wire_count<T>(items: Seq<T>, wire: spec_fn(T) -> Seq<u8>)
    requires
        forall|i: int| 0 <= i < items.len() ==> wire(#[trigger] items[i]).len() >= 1,
    ensures
        list_wire(items, wire).len() >= items.len(),
    decreases items.len(),
{
    if items.len() > 0 {
        lemma_list_wire_count(items.drop_last(), wire);
        assert(wire(items[items.len() - 1]).len() >= 1);
    }
}

/// No item of a list takes more bytes than the list.
pub proof fn lemma_list_wire_item<T>(items: Seq<T>, wire: spec_fn(T) -> Seq<u8>, place: int)
    requires
        0 <= place < items.len(),
    ensures
        wire(items[place]).len() <= list_wire(items, wire).len(),
    decreases items.len(),
{
    if place < items.len() - 1 {
        lemma_list_wire_item(items.drop_last(), wire, place);
    }
}

/// Reading back an array of texts that a window holds gives the texts.
pub proof fn lemma_texts_reads_back(window: Seq<u8>, start: int, texts: Seq<Seq<char>>)
    requires
        holds(window, start, texts_wire(texts)),
        texts_wire(texts).len() <= u64::MAX,
    ensures
        texts_at(window, start) == Some((texts, start + texts_wire(texts).len())),
{
    let count = texts.len() as u64;
    lemma_uint_wire_len(count);
    assert forall|i: int| 0 <= i < texts.len() implies text_wire_fn()(#[trigger] texts[i]).len()
        >= 1 by {
        lemma_uint_wire_len(encode_utf8(texts[i]).len() as u64);
    }
    lemma_list_wire_count(texts, text_wire_fn());
    lemma_uint_wire_len(texts.len() as u64);
    lemma_holds_split(window, start, uint_wire(count), list_wire(texts, text_wire_fn()));
    lemma_uint_reads_back(window, start, count);
    assert forall|i: int| 0 <= i < texts.len() implies reads_back(
        window,
        text_wire_fn(),
        text_at_fn(),
        #[trigger] texts[i],
    ) by {
        let text = texts[i];
        lemma_list_wire_item(texts, text_wire_fn(), i);
        assert forall|place: int| #[trigger]
            holds(window, place, text_wire_fn()(text)) implies text_at_fn()(window, place) == Some(
            (text, place + text_wire_fn()(text).len()),
        ) by {
            lemma_text_reads_back(window, place, text);
        }
    }
    lemma_list_reads_back(
        window,
        start + uint_wire(count).len(),
        texts,
        text_wire_fn(),
        text_at_fn(),
    );
}

} // verus!
