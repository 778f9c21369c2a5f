//! The header of the operation log: what is persisted of a log besides its
//! blocks and tree nodes, and its record in a header slot.

use vstd::prelude::*;
use vstd::slice::slice_subrange;

use crate::common::{append_bytes, bytes_equal, invalid_data, zero_bytes, CodecError};
use crate::crypto::{ed25519_public_key, generate_keypair, PublicKey, SecretKey};
use crate::encoding::{
    bytes_at, bytes_wire, encoded, fixed_at, holds, lemma_bytes_reads_back, lemma_encoded_join,
    lemma_fixed_reads_back, lemma_holds_split, lemma_list_at_none, lemma_list_at_step,
    lemma_list_reads_back, lemma_list_wire_count, lemma_list_wire_item, lemma_list_wire_prefix,
    lemma_list_wire_step, lemma_text_reads_back, lemma_texts_reads_back, lemma_uint_reads_back,
    lemma_uint_wire_len, list_at, list_wire, preencoded, reads_back, text_at, text_views,
    text_wire, texts_at, texts_wire, uint_at, uint_width, uint_wire, window, HypercoreState,
};

verus! {

/// Version of the header record.
pub const HEADER_VERSION: u64 = 0;

/// Names of the algorithms of a log.
#[derive(Debug)]
pub struct HeaderTypes {
    /// Hash of the tree.
    pub tree: String,
    /// Layout of the bitfield.
    pub bitfield: String,
    /// Signature scheme.
    pub signer: String,
}

/// The committed tree state as the header records it.
#[derive(Debug)]
pub struct HeaderTree {
    /// Fork of the log.
    pub fork: u64,
    /// Number of committed blocks.
    pub length: u64,
    /// The hash that is signed: 32 bytes.
    pub root_hash: Vec<u8>,
    /// Signature over the root hash: 64 bytes.
    pub signature: Vec<u8>,
}

/// The keys of a log.
#[derive(Debug)]
pub struct HeaderSigner {
    /// The key that readers verify with.
    pub public_key: PublicKey,
    /// The key that the writer signs with.
    pub secret_key: Option<SecretKey>,
}

/// Hints for readers.
#[derive(Debug)]
pub struct HeaderHints {
    /// Names of reorganisations.
    pub reorgs: Vec<String>,
}

/// A named byte string that the log carries for its user.
#[derive(Debug)]
pub struct UserData {
    /// The name.
    pub key: String,
    /// The byte string.
    pub value: Vec<u8>,
}

/// The header of the operation log.
#[derive(Debug)]
pub struct Header {
    /// Names of the algorithms.
    pub types: HeaderTypes,
    /// Named byte strings of the user, kept as they are.
    pub user_data: Vec<UserData>,
    /// The committed tree state.
    pub tree: HeaderTree,
    /// The keys.
    pub signer: HeaderSigner,
    /// Hints for readers, kept as they are.
    pub hints: HeaderHints,
    /// Number of blocks from the first on that are held.
    pub contiguous_length: u64,
}

/// Names of the algorithms as mathematical values.
pub struct HeaderTypesView {
    /// Hash of the tree.
    pub tree: Seq<char>,
    /// Layout of the bitfield.
    pub bitfield: Seq<char>,
    /// Signature scheme.
    pub signer: Seq<char>,
}

/// The recorded tree state as a mathematical value.
pub struct HeaderTreeView {
    /// Fork of the log.
    pub fork: u64,
    /// Number of committed blocks.
    pub length: u64,
    /// The hash that is signed.
    pub root_hash: Seq<u8>,
    /// Signature over the root hash.
    pub signature: Seq<u8>,
}

/// The keys as mathematical values.
pub struct HeaderSignerView {
    /// The key that readers verify with.
    pub public_key: Seq<u8>,
    /// The key that the writer signs with.
    pub secret_key: Option<Seq<u8>>,
}

/// A named byte string as a mathematical value.
pub struct UserDataView {
    /// The name.
    pub key: Seq<char>,
    /// The byte string.
    pub value: Seq<u8>,
}

/// The header as a mathematical value.
pub struct HeaderView {
    /// Names of the algorithms.
    pub types: HeaderTypesView,
    /// Named byte strings of the user.
    pub user_data: Seq<UserDataView>,
    /// The committed tree state.
    pub tree: HeaderTreeView,
    /// The keys.
    pub signer: HeaderSignerView,
    /// Names of reorganisations.
    pub reorgs: Seq<Seq<char>>,
    /// Number of blocks from the first on that are held.
    pub contiguous_length: u64,
}

impl View for HeaderTypes {
    type V = HeaderTypesView;

    open spec fn view(&self) -> HeaderTypesView {
        HeaderTypesView { tree: self.tree@, bitfield: self.bitfield@, signer: self.signer@ }
    }
}

impl View for HeaderTree {
    type V = HeaderTreeView;

    open spec fn view(&self) -> HeaderTreeView {
        HeaderTreeView {
            fork: self.fork,
            length: self.length,
            root_hash: self.root_hash@,
            signature: self.signature@,
        }
    }
}

impl View for HeaderSigner {
    type V = HeaderSignerView;

    open spec fn view(&self) -> HeaderSignerView {
        HeaderSignerView {
            public_key: self.public_key@,
            secret_key: match self.secret_key {
                Some(key) => Some(key@),
                None => None,
            },
        }
    }
}

impl View for UserData {
    type V = UserDataView;

    open spec fn view(&self) -> UserDataView {
        UserDataView { key: self.key@, value: self.value@ }
    }
}

/// The named byte strings of a sequence as mathematical values.
pub open spec fn user_data_views(items: Seq<UserData>) -> Seq<UserDataView> {
    items.map_values(|item: UserData| item@)
}

impl View for Header {
    type V = HeaderView;

    open spec fn view(&self) -> HeaderView {
        HeaderView {
            types: self.types@,
            user_data: user_data_views(self.user_data@),
            tree: self.tree@,
            signer: self.signer@,
            reorgs: text_views(self.hints.reorgs@),
            contiguous_length: self.contiguous_length,
        }
    }
}

/// Whether the byte strings of a header are what they stand for: 32 bytes
/// for the root hash and the keys, 64 for the signature, and a public key
/// that parses.
pub open spec fn header_ok(header: HeaderView) -> bool {
    &&& header.tree.root_hash.len() == 32
    &&& header.tree.signature.len() == 64
    &&& header.signer.public_key.len() == 32
    &&& ed25519_public_key(header.signer.public_key)
    &&& header.signer.secret_key matches Some(key) ==> key.len() == 32
}

/// The header of a log without blocks that has the given keys.
pub open spec fn fresh_header(public_key: Seq<u8>, secret_key: Option<Seq<u8>>) -> HeaderView {
    HeaderView {
        types: HeaderTypesView { tree: "blake2b"@, bitfield: "raw"@, signer: "ed25519"@ },
        user_data: Seq::empty(),
        tree: HeaderTreeView {
            fork: 0,
            length: 0,
            root_hash: Seq::new(32, |i: int| 0u8),
            signature: Seq::new(64, |i: int| 0u8),
        },
        signer: HeaderSignerView { public_key, secret_key },
        reorgs: Seq::empty(),
        contiguous_length: 0,
    }
}

/// The names of the algorithms on the wire.
pub open spec fn types_wire(types: HeaderTypesView) -> Seq<u8> {
    text_wire(types.tree) + text_wire(types.bitfield) + text_wire(types.signer)
}

/// The recorded tree state on the wire: fork, length, root hash, signature.
pub open spec fn tree_wire(tree: HeaderTreeView) -> Seq<u8> {
    uint_wire(tree.fork) + uint_wire(tree.length) + tree.root_hash + tree.signature
}

/// What the record holds of the secret key: nothing, or the secret key
/// followed by the public key.
pub open spec fn secret_record(signer: HeaderSignerView) -> Seq<u8> {
    match signer.secret_key {
        Some(key) => key + signer.public_key,
        None => Seq::empty(),
    }
}

/// The keys on the wire: the public key, then the secret key's record as a
/// byte string.
pub open spec fn signer_wire(signer: HeaderSignerView) -> Seq<u8> {
    signer.public_key + bytes_wire(secret_record(signer))
}

/// A named byte string on the wire.
pub open spec fn user_data_wire(item: UserDataView) -> Seq<u8> {
    text_wire(item.key) + bytes_wire(item.value)
}

/// How a named byte string is written, as a function.
pub open spec fn user_data_wire_fn() -> spec_fn(UserDataView) -> Seq<u8> {
    |item: UserDataView| user_data_wire(item)
}

/// The named byte strings on the wire: their number, then each of them.
pub open spec fn user_data_list_wire(items: Seq<UserDataView>) -> Seq<u8> {
    uint_wire(items.len() as u64) + list_wire(items, user_data_wire_fn())
}

/// The header's record: version, algorithm names, tree state, keys,
/// hints, contiguous length, and the user's named byte strings.
pub open spec fn header_wire(header: HeaderView) -> Seq<u8> {
    uint_wire(HEADER_VERSION) + types_wire(header.types) + tree_wire(header.tree) + signer_wire(
        header.signer,
    ) + texts_wire(header.reorgs) + uint_wire(header.contiguous_length) + user_data_list_wire(
        header.user_data,
    )
}

/// The names of the algorithms that start at `start`.
pub open spec fn types_at(window: Seq<u8>, start: int) -> Option<(HeaderTypesView, int)> {
    match text_at(window, start) {
        Some((tree, a)) => match text_at(window, a) {
            Some((bitfield, b)) => match text_at(window, b) {
                Some((signer, c)) => Some((HeaderTypesView { tree, bitfield, signer }, c)),
                None => None,
            },
            None => None,
        },
        None => None,
    }
}

/// The recorded tree state that starts at `start`.
pub open spec fn tree_at(window: Seq<u8>, start: int) -> Option<(HeaderTreeView, int)> {
    match uint_at(window, start) {
        Some((fork, a)) => match uint_at(window, a) {
            Some((length, b)) => match fixed_at(window, b, 32) {
                Some((root_hash, c)) => match fixed_at(window, c, 64) {
                    Some((signature, d)) => Some(
                        (HeaderTreeView { fork, length, root_hash, signature }, d),
                    ),
                    None => None,
                },
                None => None,
            },
            None => None,
        },
        None => None,
    }
}

/// The keys that start at `start`: the public key must parse, and the
/// secret key's record must be empty or hold 32 bytes followed by the
/// public key.
pub open spec fn signer_at(window: Seq<u8>, start: int) -> Option<(HeaderSignerView, int)> {
    match fixed_at(window, start, 32) {
        Some((public_key, a)) => match bytes_at(window, a) {
            Some((record, b)) => if !ed25519_public_key(public_key) {
                None
            } else if record.len() == 0 {
                Some((HeaderSignerView { public_key, secret_key: None }, b))
            } else if record.len() == 64 && record.subrange(32, 64) == public_key {
                Some((HeaderSignerView { public_key, secret_key: Some(record.subrange(0, 32)) }, b))
            } else {
                None
            },
            None => None,
        },
        None => None,
    }
}

/// The named byte string that starts at `start`.
pub open spec fn user_data_at(window: Seq<u8>, start: int) -> Option<(UserDataView, int)> {
    match text_at(window, start) {
        Some((key, a)) => match bytes_at(window, a) {
            Some((value, b)) => Some((UserDataView { key, value }, b)),
            None => None,
        },
        None => None,
    }
}

/// How a named byte string is read, as a function.
pub open spec fn user_data_at_fn() -> spec_fn(Seq<u8>, int) -> Option<(UserDataView, int)> {
    |window: Seq<u8>, start: int| user_data_at(window, start)
}

/// The named byte strings that start at `start`.
pub open spec fn user_data_list_at(window: Seq<u8>, start: int) -> Option<(Seq<UserDataView>, int)> {
    match uint_at(window, start) {
        Some((count, next)) => list_at(window, next, count as nat, user_data_at_fn()),
        None => None,
    }
}

/// The header whose record starts at `start`; the version must be 0.
pub open spec fn header_at(window: Seq<u8>, start: int) -> Option<(HeaderView, int)> {
    match uint_at(window, start) {
        Some((version, a)) => if version != HEADER_VERSION {
            None
        } else {
            match types_at(window, a) {
                Some((types, b)) => match tree_at(window, b) {
                    Some((tree, c)) => match signer_at(window, c) {
                        Some((signer, d)) => match texts_at(window, d) {
                            Some((reorgs, e)) => match uint_at(window, e) {
                                Some((contiguous_length, f)) => match user_data_list_at(window, f) {
                                    Some((user_data, g)) => Some(
                                        (
                                            HeaderView {
                                                types,
                                                user_data,
                                                tree,
                                                signer,
                                                reorgs,
                                                contiguous_length,
                                            },
                                            g,
                                        ),
                                    ),
                                    None => None,
                                },
                                None => None,
                            },
                            None => None,
                        },
                        None => None,
                    },
                    None => None,
                },
                None => None,
            }
        },
        None => None,
    }
}

impl Header {
    /// The header of a log without blocks that has the given keys.
    pub fn new_from_keys(public_key: PublicKey, secret_key: Option<SecretKey>) -> (header: Header)
        ensures
            header_ok(header@),
            header@ == fresh_header(
                public_key@,
                match secret_key {
                    Some(key) => Some(key@),
                    None => None,
                },
            ),
    {
        proof {
            use_type_invariant(&public_key);
            if let Some(key) = &secret_key {
                use_type_invariant(key);
            }
        }
        let header = Header {
            types: HeaderTypes {
                tree: "blake2b".to_string(),
                bitfield: "raw".to_string(),
                signer: "ed25519".to_string(),
            },
            user_data: Vec::new(),
            tree: HeaderTree {
                fork: 0,
                length: 0,
                root_hash: zero_bytes(32),
                signature: zero_bytes(64),
            },
            signer: HeaderSigner { public_key, secret_key },
            hints: HeaderHints { reorgs: Vec::new() },
            contiguous_length: 0,
        };
        proof {
            assert(user_data_views(header.user_data@) =~= Seq::<UserDataView>::empty());
            assert(text_views(header.hints.reorgs@) =~= Seq::<Seq<char>>::empty());
        }
        header
    }

    /// The header of a log without blocks, with freshly drawn keys.
    pub fn new() -> (header: Header)
        ensures
            header_ok(header@),
            header.signer.secret_key is Some,
            header@ == fresh_header(header.signer.public_key@, Some(header.signer.secret_key->0@)),
    {
        let key_pair = generate_keypair();
        Header::new_from_keys(key_pair.public, key_pair.secret)
    }
}

impl Clone for UserData {
    fn clone(&self) -> (copy: UserData)
        ensures
            copy@ == self@,
    {
        let mut value: Vec<u8> = Vec::new();
        append_bytes(&mut value, self.value.as_slice());
        UserData { key: self.key.clone(), value }
    }
}

impl Clone for Header {
    fn clone(&self) -> (copy: Header)
        ensures
            copy@ == self@,
    {
        let mut user_data: Vec<UserData> = Vec::new();
        let mut i: usize = 0;
        while i < self.user_data.len()
            invariant
                i <= self.user_data@.len(),
                user_data@.len() == i,
                forall|j: int| 0 <= j < i ==> user_data@[j]@ == self.user_data@[j]@,
            decreases self.user_data@.len() - i,
        {
            user_data.push(self.user_data[i].clone());
            i += 1;
        }
        let mut reorgs: Vec<String> = Vec::new();
        let mut k: usize = 0;
        while k < self.hints.reorgs.len()
            invariant
                k <= self.hints.reorgs@.len(),
                reorgs@.len() == k,
                forall|j: int| 0 <= j < k ==> reorgs@[j]@ == self.hints.reorgs@[j]@,
            decreases self.hints.reorgs@.len() - k,
        {
            reorgs.push(self.hints.reorgs[k].clone());
            k += 1;
        }
        let mut root_hash: Vec<u8> = Vec::new();
        append_bytes(&mut root_hash, self.tree.root_hash.as_slice());
        let mut signature: Vec<u8> = Vec::new();
        append_bytes(&mut signature, self.tree.signature.as_slice());
        let secret_key = match &self.signer.secret_key {
            Some(key) => Some(key.clone()),
            None => None,
        };
        let copy = Header {
            types: HeaderTypes {
                tree: self.types.tree.clone(),
                bitfield: self.types.bitfield.clone(),
                signer: self.types.signer.clone(),
            },
            user_data,
            tree: HeaderTree { fork: self.tree.fork, length: self.tree.length, root_hash, signature },
            signer: HeaderSigner { public_key: self.signer.public_key.clone(), secret_key },
            hints: HeaderHints { reorgs },
            contiguous_length: self.contiguous_length,
        };
        proof {
            assert(user_data_views(copy.user_data@) =~= user_data_views(self.user_data@));
            assert(text_views(copy.hints.reorgs@) =~= text_views(self.hints.reorgs@));
        }
        copy
    }
}

impl HypercoreState {
    /// Reserves room for the names of the algorithms.
    pub fn preencode_header_types(&mut self, value: &HeaderTypes) -> (result: Result<
        usize,
        CodecError,
    >)
        ensures
            preencoded(*old(self), *final(self), types_wire(value@).len(), result),
    {
        self.preencode_string(&value.tree)?;
        self.preencode_string(&value.bitfield)?;
        self.preencode_string(&value.signer)
    }

    /// Writes the names of the algorithms.
    pub fn encode_header_types(&mut self, value: &HeaderTypes, buffer: &mut Vec<u8>) -> (result:
        Result<usize, CodecError>)
        ensures
            encoded(*old(self), *final(self), old(buffer)@, final(buffer)@, types_wire(value@), result),
    {
        let ghost pre = *self;
        let ghost before = buffer@;
        self.encode_string(&value.tree, buffer)?;
        let ghost s0 = *self;
        let ghost b0 = buffer@;
        self.encode_string(&value.bitfield, buffer)?;
        let ghost s1 = *self;
        let ghost b1 = buffer@;
        proof {
            lemma_encoded_join(
                pre,
                s0,
                s1,
                before,
                b0,
                b1,
                text_wire(value.tree@),
                text_wire(value.bitfield@),
                Ok(s1.start),
            );
        }
        let result = self.encode_string(&value.signer, buffer);
        proof {
            lemma_encoded_join(
                pre,
                s1,
                *self,
                before,
                b1,
                buffer@,
                text_wire(value.tree@) + text_wire(value.bitfield@),
                text_wire(value.signer@),
                result,
            );
        }
        result
    }

    /// Reads the names of the algorithms.
    pub fn decode_header_types(&mut self, buffer: &[u8]) -> (result: Result<HeaderTypes, CodecError>)
        ensures
            result is Ok <==> types_at(window(buffer@, old(self).end), old(self).start as int) is Some,
            result matches Ok(value) ==> final(self).end == old(self).end && types_at(
                window(buffer@, old(self).end),
                old(self).start as int,
            ) == Some((value@, final(self).start as int)),
    {
        let tree = self.decode_text(buffer)?;
        let bitfield = self.decode_text(buffer)?;
        let signer = self.decode_text(buffer)?;
        Ok(HeaderTypes { tree, bitfield, signer })
    }

    /// Reserves room for the recorded tree state.
    pub fn preencode_header_tree(&mut self, value: &HeaderTree) -> (result: Result<usize, CodecError>)
        requires
            value.root_hash@.len() == 32,
            value.signature@.len() == 64,
        ensures
            preencoded(*old(self), *final(self), tree_wire(value@).len(), result),
    {
        proof {
            lemma_uint_wire_len(value.fork);
            lemma_uint_wire_len(value.length);
        }
        self.preencode_uint(value.fork)?;
        self.preencode_uint(value.length)?;
        self.preencode_fixed_32()?;
        self.preencode_fixed_32()?;
        self.preencode_fixed_32()
    }

    /// Writes the recorded tree state.
    pub fn encode_header_tree(&mut self, value: &HeaderTree, buffer: &mut Vec<u8>) -> (result: Result<
        usize,
        CodecError,
    >)
        requires
            value.root_hash@.len() == 32,
            value.signature@.len() == 64,
        ensures
            encoded(*old(self), *final(self), old(buffer)@, final(buffer)@, tree_wire(value@), result),
    {
        let ghost pre = *self;
        let ghost before = buffer@;
        let ghost w0 = uint_wire(value.fork);
        let ghost w1 = uint_wire(value.length);
        let ghost w2 = value.root_hash@;
        let ghost w3 = value.signature@.subrange(0, 32);
        let ghost w4 = value.signature@.subrange(32, 64);
        proof {
            assert(w3 + w4 =~= value.signature@);
            assert(w0 + w1 + w2 + w3 + w4 =~= tree_wire(value@));
        }
        self.encode_uint(value.fork, buffer)?;
        let ghost s0 = *self;
        let ghost b0 = buffer@;
        self.encode_uint(value.length, buffer)?;
        let ghost s1 = *self;
        let ghost b1 = buffer@;
        proof {
            lemma_encoded_join(pre, s0, s1, before, b0, b1, w0, w1, Ok(s1.start));
        }
        self.encode_fixed_32(value.root_hash.as_slice(), buffer)?;
        let ghost s2 = *self;
        let ghost b2 = buffer@;
        proof {
            lemma_encoded_join(pre, s1, s2, before, b1, b2, w0 + w1, w2, Ok(s2.start));
        }
        self.encode_fixed_32(slice_subrange(value.signature.as_slice(), 0, 32), buffer)?;
        let ghost s3 = *self;
        let ghost b3 = buffer@;
        proof {
            lemma_encoded_join(pre, s2, s3, before, b2, b3, w0 + w1 + w2, w3, Ok(s3.start));
        }
        let result = self.encode_fixed_32(slice_subrange(value.signature.as_slice(), 32, 64), buffer);
        proof {
            lemma_encoded_join(pre, s3, *self, before, b3, buffer@, w0 + w1 + w2 + w3, w4, result);
        }
        result
    }

    /// Reads the recorded tree state.
    pub fn decode_header_tree(&mut self, buffer: &[u8]) -> (result: Result<HeaderTree, CodecError>)
        ensures
            result is Ok <==> tree_at(window(buffer@, old(self).end), old(self).start as int) is Some,
            result matches Ok(value) ==> final(self).end == old(self).end && tree_at(
                window(buffer@, old(self).end),
                old(self).start as int,
            ) == Some((value@, final(self).start as int)),
    {
        let fork = self.decode_uint(buffer)?;
        let length = self.decode_uint(buffer)?;
        let root_hash = self.decode_fixed_32(buffer)?;
        let mut signature = self.decode_fixed_32(buffer)?;
        let ghost first = signature@;
        let second = self.decode_fixed_32(buffer)?;
        append_bytes(&mut signature, second.as_slice());
        proof {
            let range = window(buffer@, self.end);
            let at = self.start - 64;
            assert(signature@ =~= range.subrange(at, at + 64));
        }
        Ok(HeaderTree { fork, length, root_hash, signature })
    }

    /// Reserves room for the keys.
    pub fn preencode_header_signer(&mut self, value: &HeaderSigner) -> (result: Result<
        usize,
        CodecError,
    >)
        ensures
            preencoded(*old(self), *final(self), signer_wire(value@).len(), result),
    {
        let record = signer_record(value);
        proof {
            use_type_invariant(&value.public_key);
        }
        self.preencode_fixed_32()?;
        self.preencode_bytes(record.as_slice())
    }

    /// Writes the keys.
    pub fn encode_header_signer(&mut self, value: &HeaderSigner, buffer: &mut Vec<u8>) -> (result:
        Result<usize, CodecError>)
        ensures
            encoded(*old(self), *final(self), old(buffer)@, final(buffer)@, signer_wire(value@), result),
    {
        let ghost pre = *self;
        let ghost before = buffer@;
        let record = signer_record(value);
        self.encode_fixed_32(value.public_key.as_bytes().as_slice(), buffer)?;
        let ghost s0 = *self;
        let ghost b0 = buffer@;
        let result = self.encode_bytes(record.as_slice(), buffer);
        proof {
            lemma_encoded_join(
                pre,
                s0,
                *self,
                before,
                b0,
                buffer@,
                value.public_key@,
                bytes_wire(record@),
                result,
            );
        }
        result
    }

    /// Reads the keys; fails also where the public key does not parse, and
    /// where the secret key's record is neither empty nor a secret key
    /// followed by the public key.
    pub fn decode_header_signer(&mut self, buffer: &[u8]) -> (result: Result<HeaderSigner, CodecError>)
        ensures
            result is Ok <==> signer_at(window(buffer@, old(self).end), old(self).start as int) is Some,
            result matches Ok(value) ==> final(self).end == old(self).end && signer_at(
                window(buffer@, old(self).end),
                old(self).start as int,
            ) == Some((value@, final(self).start as int)),
    {
        let public_bytes = self.decode_fixed_32(buffer)?;
        let record = self.decode_bytes(buffer)?;
        let public_key = match PublicKey::from_bytes(public_bytes.as_slice()) {
            Some(key) => key,
            None => {
                return Err(invalid_data("public key that is no point of the curve"));
            },
        };
        if record.len() == 0 {
            return Ok(HeaderSigner { public_key, secret_key: None });
        }
        if record.len() != 64 || !bytes_equal(
            slice_subrange(record.as_slice(), 32, 64),
            public_bytes.as_slice(),
        ) {
            return Err(invalid_data("secret key that does not go with the public key"));
        }
        match SecretKey::from_bytes(slice_subrange(record.as_slice(), 0, 32)) {
            Some(key) => Ok(HeaderSigner { public_key, secret_key: Some(key) }),
            None => Err(invalid_data("secret key of the wrong length")),
        }
    }

    /// Reserves room for a named byte string.
    pub fn preencode_user_data(&mut self, value: &UserData) -> (result: Result<usize, CodecError>)
        ensures
            preencoded(*old(self), *final(self), user_data_wire(value@).len(), result),
    {
        self.preencode_string(&value.key)?;
        self.preencode_bytes(value.value.as_slice())
    }

    /// Writes a named byte string.
    pub fn encode_user_data(&mut self, value: &UserData, buffer: &mut Vec<u8>) -> (result: Result<
        usize,
        CodecError,
    >)
        ensures
            encoded(
                *old(self),
                *final(self),
                old(buffer)@,
                final(buffer)@,
                user_data_wire(value@),
                result,
            ),
    {
        let ghost pre = *self;
        let ghost before = buffer@;
        self.encode_string(&value.key, buffer)?;
        let ghost s0 = *self;
        let ghost b0 = buffer@;
        let result = self.encode_bytes(value.value.as_slice(), buffer);
        proof {
            lemma_encoded_join(
                pre,
                s0,
                *self,
                before,
                b0,
                buffer@,
                text_wire(value.key@),
                bytes_wire(value.value@),
                result,
            );
        }
        result
    }

    /// Reads a named byte string.
    pub fn decode_user_data(&mut self, buffer: &[u8]) -> (result: Result<UserData, CodecError>)
        ensures
            result is Ok <==> user_data_at(window(buffer@, old(self).end), old(self).start as int) is Some,
            result matches Ok(value) ==> final(self).end == old(self).end && user_data_at(
                window(buffer@, old(self).end),
                old(self).start as int,
            ) == Some((value@, final(self).start as int)),
    {
        let key = self.decode_text(buffer)?;
        let value = self.decode_bytes(buffer)?;
        Ok(UserData { key, value })
    }

    /// Reserves room for the user's named byte strings.
    pub fn preencode_user_data_list(&mut self, value: &Vec<UserData>) -> (result: Result<
        usize,
        CodecError,
    >)
        ensures
            preencoded(
                *old(self),
                *final(self),
                user_data_list_wire(user_data_views(value@)).len(),
                result,
            ),
    {
        let ghost pre = *self;
        let ghost views = user_data_views(value@);
        proof {
            lemma_uint_wire_len(value.len() as u64);
            lemma_list_wire_prefix(views, user_data_wire_fn(), 0);
        }
        self.preencode_uint(value.len() as u64)?;
        let mut i: usize = 0;
        proof {
            assert(views.take(0) == Seq::<UserDataView>::empty());
        }
        while i < value.len()
            invariant
                i <= value@.len(),
                views == user_data_views(value@),
                pre == *old(self),
                preencoded(
                    pre,
                    *self,
                    uint_width(value@.len() as u64) + list_wire(
                        views.take(i as int),
                        user_data_wire_fn(),
                    ).len(),
                    Ok(self.end),
                ),
            decreases value@.len() - i,
        {
            proof {
                lemma_uint_wire_len(value@.len() as u64);
                lemma_list_wire_step(views, user_data_wire_fn(), i as int);
                lemma_list_wire_prefix(views, user_data_wire_fn(), i + 1);
                assert(views[i as int] == value@[i as int]@);
                assert(user_data_list_wire(views).len() == uint_width(value@.len() as u64)
                    + list_wire(views, user_data_wire_fn()).len());
            }
            self.preencode_user_data(&value[i])?;
            i += 1;
        }
        proof {
            lemma_uint_wire_len(value@.len() as u64);
            assert(views.take(i as int) == views);
        }
        Ok(self.end())
    }

    /// Writes the user's named byte strings.
    pub fn encode_user_data_list(&mut self, value: &Vec<UserData>, buffer: &mut Vec<u8>) -> (result:
        Result<usize, CodecError>)
        ensures
            encoded(
                *old(self),
                *final(self),
                old(buffer)@,
                final(buffer)@,
                user_data_list_wire(user_data_views(value@)),
                result,
            ),
    {
        let ghost pre = *self;
        let ghost before = buffer@;
        let ghost views = user_data_views(value@);
        let ghost head = uint_wire(value@.len() as u64);
        proof {
            lemma_list_wire_prefix(views, user_data_wire_fn(), 0);
        }
        self.encode_uint(value.len() as u64, buffer)?;
        let mut i: usize = 0;
        proof {
            assert(views.take(0) == Seq::<UserDataView>::empty());
            assert(head + Seq::<u8>::empty() == head);
        }
        while i < value.len()
            invariant
                i <= value@.len(),
                views == user_data_views(value@),
                head == uint_wire(value@.len() as u64),
                pre == *old(self),
                before == old(buffer)@,
                encoded(
                    pre,
                    *self,
                    before,
                    buffer@,
                    head + list_wire(views.take(i as int), user_data_wire_fn()),
                    Ok(self.start),
                ),
            decreases value@.len() - i,
        {
            let ghost mid = *self;
            let ghost between = buffer@;
            proof {
                lemma_list_wire_step(views, user_data_wire_fn(), i as int);
                lemma_list_wire_prefix(views, user_data_wire_fn(), i + 1);
                assert(views[i as int] == value@[i as int]@);
            }
            let step = self.encode_user_data(&value[i], buffer);
            proof {
                lemma_encoded_join(
                    pre,
                    mid,
                    *self,
                    before,
                    between,
                    buffer@,
                    head + list_wire(views.take(i as int), user_data_wire_fn()),
                    user_data_wire(views[i as int]),
                    step,
                );
                assert(head + list_wire(views.take(i as int), user_data_wire_fn())
                    + user_data_wire(views[i as int]) == head + list_wire(
                    views.take(i + 1),
                    user_data_wire_fn(),
                ));
                assert((head + list_wire(views.take(i + 1), user_data_wire_fn())).len()
                    <= user_data_list_wire(views).len());
            }
            match step {
                Ok(_) => {},
                Err(error) => {
                    return Err(error);
                },
            }
            i += 1;
        }
        proof {
            assert(views.take(i as int) == views);
        }
        Ok(self.start())
    }

    /// Reads the user's named byte strings.
    pub fn decode_user_data_list(&mut self, buffer: &[u8]) -> (result: Result<
        Vec<UserData>,
        CodecError,
    >)
        ensures
            result is Ok <==> user_data_list_at(
                window(buffer@, old(self).end),
                old(self).start as int,
            ) is Some,
            result matches Ok(value) ==> final(self).end == old(self).end && user_data_list_at(
                window(buffer@, old(self).end),
                old(self).start as int,
            ) == Some((user_data_views(value@), final(self).start as int)),
    {
        let ghost range = window(buffer@, self.end);
        let count = self.decode_uint(buffer)?;
        let ghost first = self.start as int;
        let mut value: Vec<UserData> = Vec::new();
        let mut i: u64 = 0;
        proof {
            assert(user_data_views(value@) == Seq::<UserDataView>::empty());
        }
        while i < count
            invariant
                i <= count,
                self.end == old(self).end,
                range == window(buffer@, self.end),
                uint_at(range, old(self).start as int) == Some((count, first)),
                list_at(range, first, i as nat, user_data_at_fn()) == Some(
                    (user_data_views(value@), self.start as int),
                ),
            decreases count - i,
        {
            proof {
                lemma_list_at_step(
                    range,
                    first,
                    i as nat,
                    user_data_at_fn(),
                    user_data_views(value@),
                    self.start as int,
                );
            }
            let ghost done = user_data_views(value@);
            match self.decode_user_data(buffer) {
                Ok(item) => {
                    value.push(item);
                    proof {
                        assert(user_data_views(value@) == done.push(item@));
                    }
                },
                Err(error) => {
                    proof {
                        lemma_list_at_none(range, first, i as nat, count as nat, user_data_at_fn());
                    }
                    return Err(error);
                },
            }
            i += 1;
        }
        Ok(value)
    }

    /// Reserves room for a header's record.
    pub fn preencode_header(&mut self, value: &Header) -> (result: Result<usize, CodecError>)
        requires
            header_ok(value@),
        ensures
            preencoded(*old(self), *final(self), header_wire(value@).len(), result),
    {
        proof {
            lemma_uint_wire_len(HEADER_VERSION);
            lemma_uint_wire_len(value.contiguous_length);
        }
        self.preencode_uint(HEADER_VERSION)?;
        self.preencode_header_types(&value.types)?;
        self.preencode_header_tree(&value.tree)?;
        self.preencode_header_signer(&value.signer)?;
        self.preencode_texts(&value.hints.reorgs)?;
        self.preencode_uint(value.contiguous_length)?;
        self.preencode_user_data_list(&value.user_data)
    }

    /// Writes a header's record.
    #[verifier::rlimit(50)]
    pub fn encode_header(&mut self, value: &Header, buffer: &mut Vec<u8>) -> (result: Result<
        usize,
        CodecError,
    >)
        requires
            header_ok(value@),
        ensures
            encoded(*old(self), *final(self), old(buffer)@, final(buffer)@, header_wire(value@), result),
    {
        let ghost pre = *self;
        let ghost before = buffer@;
        let ghost w0 = uint_wire(HEADER_VERSION);
        let ghost w1 = types_wire(value.types@);
        let ghost w2 = tree_wire(value.tree@);
        let ghost w3 = signer_wire(value.signer@);
        let ghost w4 = texts_wire(text_views(value.hints.reorgs@));
        let ghost w5 = uint_wire(value.contiguous_length);
        let ghost w6 = user_data_list_wire(user_data_views(value.user_data@));
        self.encode_uint(HEADER_VERSION, buffer)?;
        let ghost s0 = *self;
        let ghost b0 = buffer@;
        self.encode_header_types(&value.types, buffer)?;
        let ghost s1 = *self;
        let ghost b1 = buffer@;
        proof {
            lemma_encoded_join(pre, s0, s1, before, b0, b1, w0, w1, Ok(s1.start));
        }
        self.encode_header_tree(&value.tree, buffer)?;
        let ghost s2 = *self;
        let ghost b2 = buffer@;
        proof {
            lemma_encoded_join(pre, s1, s2, before, b1, b2, w0 + w1, w2, Ok(s2.start));
        }
        self.encode_header_signer(&value.signer, buffer)?;
        let ghost s3 = *self;
        let ghost b3 = buffer@;
        proof {
            lemma_encoded_join(pre, s2, s3, before, b2, b3, w0 + w1 + w2, w3, Ok(s3.start));
        }
        self.encode_texts(&value.hints.reorgs, buffer)?;
        let ghost s4 = *self;
        let ghost b4 = buffer@;
        proof {
            lemma_encoded_join(pre, s3, s4, before, b3, b4, w0 + w1 + w2 + w3, w4, Ok(s4.start));
        }
        self.encode_uint(value.contiguous_length, buffer)?;
        let ghost s5 = *self;
        let ghost b5 = buffer@;
        proof {
            lemma_encoded_join(
                pre,
                s4,
                s5,
                before,
                b4,
                b5,
                w0 + w1 + w2 + w3 + w4,
                w5,
                Ok(s5.start),
            );
        }
        let result = self.encode_user_data_list(&value.user_data, buffer);
        proof {
            lemma_encoded_join(
                pre,
                s5,
                *self,
                before,
                b5,
                buffer@,
                w0 + w1 + w2 + w3 + w4 + w5,
                w6,
                result,
            );
        }
        result
    }

    /// Reads a header's record; fails also on a version other than 0.
    #[verifier::rlimit(50)]
    pub fn decode_header(&mut self, buffer: &[u8]) -> (result: Result<Header, CodecError>)
        ensures
            result is Ok <==> header_at(window(buffer@, old(self).end), old(self).start as int) is Some,
            result matches Ok(value) ==> final(self).end == old(self).end && header_ok(value@)
                && header_at(window(buffer@, old(self).end), old(self).start as int) == Some(
                (value@, final(self).start as int),
            ),
    {
        let version = self.decode_uint(buffer)?;
        if version != HEADER_VERSION {
            return Err(invalid_data("unknown version of the header"));
        }
        let types = self.decode_header_types(buffer)?;
        let tree = self.decode_header_tree(buffer)?;
        let signer = self.decode_header_signer(buffer)?;
        let reorgs = self.decode_texts(buffer)?;
        let contiguous_length = self.decode_uint(buffer)?;
        let user_data = self.decode_user_data_list(buffer)?;
        Ok(Header { types, user_data, tree, signer, hints: HeaderHints { reorgs }, contiguous_length })
    }
}

/// What the record holds of the secret key, as bytes.
pub fn signer_record(value: &HeaderSigner) -> (record: Vec<u8>)
    ensures
        record@ == secret_record(value@),
{
    let mut record: Vec<u8> = Vec::new();
    match &value.secret_key {
        Some(key) => {
            append_bytes(&mut record, key.as_bytes().as_slice());
            append_bytes(&mut record, value.public_key.as_bytes().as_slice());
        },
        None => {},
    }
    record
}

/// Reading back the names of the algorithms that a window holds gives them.
pub proof fn lemma_types_reads_back(window: Seq<u8>, start: int, types: HeaderTypesView)
    requires
        holds(window, start, types_wire(types)),
        types_wire(types).len() <= u64::MAX,
    ensures
        types_at(window, start) == Some((types, start + types_wire(types).len())),
{
    let first = text_wire(types.tree);
    let second = text_wire(types.bitfield);
    lemma_holds_split(window, start, first + second, text_wire(types.signer));
    lemma_holds_split(window, start, first, second);
    lemma_text_reads_back(window, start, types.tree);
    lemma_text_reads_back(window, start + first.len(), types.bitfield);
    lemma_text_reads_back(window, start + first.len() + second.len(), types.signer);
}

/// Reading back a recorded tree state that a window holds gives it.
pub proof fn lemma_tree_reads_back(window: Seq<u8>, start: int, tree: HeaderTreeView)
    requires
        holds(window, start, tree_wire(tree)),
        tree.root_hash.len() == 32,
        tree.signature.len() == 64,
    ensures
        tree_at(window, start) == Some((tree, start + tree_wire(tree).len())),
{
    let first = uint_wire(tree.fork);
    let second = uint_wire(tree.length);
    lemma_holds_split(window, start, first + second + tree.root_hash, tree.signature);
    lemma_holds_split(window, start, first + second, tree.root_hash);
    lemma_holds_split(window, start, first, second);
    lemma_uint_reads_back(window, start, tree.fork);
    lemma_uint_reads_back(window, start + first.len(), tree.length);
    lemma_fixed_reads_back(window, start + first.len() + second.len(), tree.root_hash);
    lemma_fixed_reads_back(window, start + first.len() + second.len() + 32, tree.signature);
}

/// Reading back the keys that a window holds gives them.
pub proof fn lemma_signer_reads_back(window: Seq<u8>, start: int, signer: HeaderSignerView)
    requires
        holds(window, start, signer_wire(signer)),
        signer.public_key.len() == 32,
        ed25519_public_key(signer.public_key),
        signer.secret_key matches Some(key) ==> key.len() == 32,
    ensures
        signer_at(window, start) == Some((signer, start + signer_wire(signer).len())),
{
    let record = secret_record(signer);
    lemma_holds_split(window, start, signer.public_key, bytes_wire(record));
    lemma_fixed_reads_back(window, start, signer.public_key);
    lemma_bytes_reads_back(window, start + 32, record);
    match signer.secret_key {
        Some(key) => {
            assert(record.subrange(32, 64) == signer.public_key);
            assert(record.subrange(0, 32) == key);
        },
        None => {},
    }
}

/// Reading back a named byte string that a window holds gives it.
pub proof fn lemma_user_data_reads_back(window: Seq<u8>, start: int, item: UserDataView)
    requires
        holds(window, start, user_data_wire(item)),
        user_data_wire(item).len() <= u64::MAX,
    ensures
        user_data_at(window, start) == Some((item, start + user_data_wire(item).len())),
{
    lemma_holds_split(window, start, text_wire(item.key), bytes_wire(item.value));
    lemma_text_reads_back(window, start, item.key);
    lemma_bytes_reads_back(window, start + text_wire(item.key).len(), item.value);
}

/// Reading back the named byte strings that a window holds gives them.
pub proof fn lemma_user_data_list_reads_back(window: Seq<u8>, start: int, items: Seq<UserDataView>)
    requires
        holds(window, start, user_data_list_wire(items)),
        user_data_list_wire(items).len() <= u64::MAX,
    ensures
        user_data_list_at(window, start) == Some(
            (items, start + user_data_list_wire(items).len()),
        ),
{
    let count = items.len() as u64;
    assert forall|i: int| 0 <= i < items.len() implies user_data_wire_fn()(
        #[trigger] items[i],
    ).len() >= 1 by {
        lemma_uint_wire_len(vstd::utf8::encode_utf8(items[i].key).len() as u64);
    }
    lemma_list_wire_count(items, user_data_wire_fn());
    lemma_holds_split(window, start, uint_wire(count), list_wire(items, user_data_wire_fn()));
    lemma_uint_reads_back(window, start, count);
    assert forall|i: int| 0 <= i < items.len() implies reads_back(
        window,
        user_data_wire_fn(),
        user_data_at_fn(),
        #[trigger] items[i],
    ) by {
        let item = items[i];
        lemma_list_wire_item(items, user_data_wire_fn(), i);
        assert forall|place: int| #[trigger]
            holds(window, place, user_data_wire_fn()(item)) implies user_data_at_fn()(
            window,
            place,
        ) == Some((item, place + user_data_wire_fn()(item).len())) by {
            lemma_user_data_reads_back(window, place, item);
        }
    }
    lemma_list_reads_back(
        window,
        start + uint_wire(count).len(),
        items,
        user_data_wire_fn(),
        user_data_at_fn(),
    );
}

/// Reading back a header's record that a window holds gives the header.
pub proof fn lemma_header_reads_back(window: Seq<u8>, start: int, header: HeaderView)
    requires
        holds(window, start, header_wire(header)),
        header_ok(header),
        header_wire(header).len() <= u64::MAX,
    ensures
        header_at(window, start) == Some((header, start + header_wire(header).len())),
{
    let w0 = uint_wire(HEADER_VERSION);
    let w1 = types_wire(header.types);
    let w2 = tree_wire(header.tree);
    let w3 = signer_wire(header.signer);
    let w4 = texts_wire(header.reorgs);
    let w5 = uint_wire(header.contiguous_length);
    let w6 = user_data_list_wire(header.user_data);
    lemma_holds_split(window, start, w0 + w1 + w2 + w3 + w4 + w5, w6);
    lemma_holds_split(window, start, w0 + w1 + w2 + w3 + w4, w5);
    lemma_holds_split(window, start, w0 + w1 + w2 + w3, w4);
    lemma_holds_split(window, start, w0 + w1 + w2, w3);
    lemma_holds_split(window, start, w0 + w1, w2);
    lemma_holds_split(window, start, w0, w1);
    let a = start + w0.len();
    let b = a + w1.len();
    let c = b + w2.len();
    let d = c + w3.len();
    let e = d + w4.len();
    let f = e + w5.len();
    lemma_uint_reads_back(window, start, HEADER_VERSION);
    lemma_types_reads_back(window, a, header.types);
    lemma_tree_reads_back(window, b, header.tree);
    lemma_signer_reads_back(window, c, header.signer);
    lemma_texts_reads_back(window, d, header.reorgs);
    lemma_uint_reads_back(window, e, header.contiguous_length);
    lemma_user_data_list_reads_back(window, f, header.user_data);
}

} // verus!
