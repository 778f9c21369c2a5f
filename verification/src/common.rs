//! Error kinds and small byte helpers shared by every component.

use vstd::prelude::*;

verus! {

/// Why a compact encoding or decoding step failed.
#[derive(Debug, Clone, Copy, PartialEq, Eq, Structural)]
pub enum CodecErrorKind {
    /// The step did not stay between the state's `start` and `end`.
    OutOfBounds,
    /// A length or position overflowed, or the buffer was too short.
    Overflow,
    /// The buffer held data of the wrong shape.
    InvalidData,
}

/// Failure of a compact encoding or decoding step.
#[derive(Debug)]
pub struct CodecError {
    /// The kind of failure.
    pub kind: CodecErrorKind,
    /// Human readable detail.
    pub message: String,
}

/// Everything that can go wrong in the log state engine.
#[derive(Debug)]
pub enum HypercoreError {
    /// No header slot of the operation log holds a usable header.
    CorruptHeader,
    /// A root node is missing or does not hash to what was committed.
    CorruptTree,
    /// An entry frame at the tail of the operation log is incomplete.
    TornEntry,
    /// A proof does not lead to a committed root.
    InvalidProof,
    /// A signature does not verify under the log's public key.
    InvalidSignature,
    /// An upgrade would not extend the committed state.
    NonMonotonicUpgrade,
    /// The operation needs the secret key and none is held.
    NoSecret,
    /// The storage backend failed; the cause is passed through unchanged.
    BackendIo(String),
    /// A compact encoding step failed.
    Encoding(CodecError),
}

impl Clone for CodecError {
    fn clone(&self) -> (copy: CodecError)
        ensures
            copy == *self,
    {
        CodecError { kind: self.kind, message: self.message.clone() }
    }
}

impl Clone for HypercoreError {
    fn clone(&self) -> (copy: HypercoreError)
        ensures
            copy == *self,
    {
        match self {
            HypercoreError::CorruptHeader => HypercoreError::CorruptHeader,
            HypercoreError::CorruptTree => HypercoreError::CorruptTree,
            HypercoreError::TornEntry => HypercoreError::TornEntry,
            HypercoreError::InvalidProof => HypercoreError::InvalidProof,
            HypercoreError::InvalidSignature => HypercoreError::InvalidSignature,
            HypercoreError::NonMonotonicUpgrade => HypercoreError::NonMonotonicUpgrade,
            HypercoreError::NoSecret => HypercoreError::NoSecret,
            HypercoreError::BackendIo(cause) => HypercoreError::BackendIo(cause.clone()),
            HypercoreError::Encoding(cause) => HypercoreError::Encoding(cause.clone()),
        }
    }
}

impl HypercoreError {
    /// What the description of the error says.
    pub open spec fn description(&self) -> Seq<char> {
        match self {
            HypercoreError::CorruptHeader => "corrupt header"@,
            HypercoreError::CorruptTree => "corrupt tree"@,
            HypercoreError::TornEntry => "torn entry"@,
            HypercoreError::InvalidProof => "invalid proof"@,
            HypercoreError::InvalidSignature => "invalid signature"@,
            HypercoreError::NonMonotonicUpgrade => "non-monotonic upgrade"@,
            HypercoreError::NoSecret => "no secret key"@,
            HypercoreError::BackendIo(cause) => cause@,
            HypercoreError::Encoding(cause) => cause.message@,
        }
    }

    /// Short description of the error; a cause from outside describes
    /// itself.
    pub fn describe(&self) -> (text: String)
        ensures
            text@ == self.description(),
    {
        match self {
            HypercoreError::CorruptHeader => "corrupt header".to_string(),
            HypercoreError::CorruptTree => "corrupt tree".to_string(),
            HypercoreError::TornEntry => "torn entry".to_string(),
            HypercoreError::InvalidProof => "invalid proof".to_string(),
            HypercoreError::InvalidSignature => "invalid signature".to_string(),
            HypercoreError::NonMonotonicUpgrade => "non-monotonic upgrade".to_string(),
            HypercoreError::NoSecret => "no secret key".to_string(),
            HypercoreError::BackendIo(cause) => cause.clone(),
            HypercoreError::Encoding(cause) => cause.message.clone(),
        }
    }
}

/// Bytes to write at an offset of a storage segment.
#[derive(Debug)]
pub struct Slice {
    /// Offset of the first byte.
    pub offset: u64,
    /// The bytes.
    pub data: Vec<u8>,
}

/// The slices of a sequence as mathematical values.
pub open spec fn slice_views(slices: Seq<Slice>) -> Seq<(u64, Seq<u8>)> {
    slices.map_values(|slice: Slice| (slice.offset, slice.data@))
}

/// A segment after `data` is written at `offset`: the segment grows as far
/// as the write reaches, with zeros where nothing was written.
pub open spec fn written(segment: Seq<u8>, offset: int, data: Seq<u8>) -> Seq<u8> {
    Seq::new(
        if segment.len() >= offset + data.len() {
            segment.len()
        } else {
            (offset + data.len()) as nat
        },
        |i: int|
            if offset <= i < offset + data.len() {
                data[i - offset]
            } else if i < segment.len() {
                segment[i]
            } else {
                0u8
            },
    )
}

/// An error for data of the wrong shape.
pub fn invalid_data(message: &str) -> (error: CodecError)
    ensures
        error.kind == CodecErrorKind::InvalidData,
{
    CodecError { kind: CodecErrorKind::InvalidData, message: message.to_string() }
}

/// An error for a record that is too large.
pub fn overflow(message: &str) -> (error: CodecError)
    ensures
        error.kind == CodecErrorKind::Overflow,
{
    CodecError { kind: CodecErrorKind::Overflow, message: message.to_string() }
}

/// A vector of `count` zero bytes.
pub fn zero_bytes(count: usize) -> (bytes: Vec<u8>)
    ensures
        bytes@ == Seq::new(count as nat, |i: int| 0u8),
{
    let mut bytes: Vec<u8> = Vec::new();
    let mut i: usize = 0;
    while i < count
        invariant
            i <= count,
            bytes@ == Seq::new(i as nat, |j: int| 0u8),
        decreases count - i,
    {
        bytes.push(0u8);
        i += 1;
    }
    bytes
}

/// Appends `data` to `out`.
pub fn append_bytes(out: &mut Vec<u8>, data: &[u8])
    ensures
        final(out)@ == old(out)@ + data@,
{
    let mut i: usize = 0;
    while i < data.len()
        invariant
            i <= data@.len(),
            out@ == old(out)@ + data@.subrange(0, i as int),
        decreases data@.len() - i,
    {
        out.push(data[i]);
        i += 1;
    }
    assert(data@.subrange(0, i as int) == data@);
}

/// Copies the bytes `data[from..to]` into a fresh vector.
pub fn copy_range(data: &[u8], from: usize, to: usize) -> (out: Vec<u8>)
    requires
        from <= to <= data@.len(),
    ensures
        out@ == data@.subrange(from as int, to as int),
{
    let mut out: Vec<u8> = Vec::new();
    let mut i: usize = from;
    while i < to
        invariant
            from <= i <= to <= data@.len(),
            out@ == data@.subrange(from as int, i as int),
        decreases to - i,
    {
        out.push(data[i]);
        i += 1;
    }
    out
}

/// Whether two byte strings are equal.
pub fn bytes_equal(a: &[u8], b: &[u8]) -> (same: bool)
    ensures
        same == (a@ == b@),
{
    if a.len() != b.len() {
        return false;
    }
    let mut i: usize = 0;
    while i < a.len()
        invariant
            i <= a@.len(),
            a@.len() == b@.len(),
            a@.subrange(0, i as int) == b@.subrange(0, i as int),
        decreases a@.len() - i,
    {
        if a[i] != b[i] {
            return false;
        }
        assert(a@.subrange(0, i + 1) == a@.subrange(0, i as int).push(a@[i as int]));
        assert(b@.subrange(0, i + 1) == b@.subrange(0, i as int).push(b@[i as int]));
        i += 1;
    }
    assert(a@.subrange(0, i as int) == a@);
    assert(b@.subrange(0, i as int) == b@);
    true
}

} // verus!
