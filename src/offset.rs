//! Tagged pointer words. A persisted offset `o` is stored as `2 * o + 1`; a
//! transient address is even. The low bit alone tells the two apart.
use vstd::bytes::{
    spec_u64_from_le_bytes, spec_u64_to_le_bytes, spec_u64_to_le_bytes_to_open,
    lemma_auto_spec_u64_to_from_le_bytes, u64_from_le_bytes, u64_to_le_bytes,
};
use vstd::prelude::*;

use crate::layout::{BlobLayout, LayoutSpec};
use crate::marshal::{Decode, Encode};

verus! {

/// The largest offset that a tagged word can hold: `2^62 - 1`.
pub const OFFSET_MAX: u64 = 0x3fff_ffff_ffff_ffff;

/// A validated offset into the body of a store.
#[derive(Clone, Copy, Debug, PartialEq, Eq, Structural, PartialOrd, Ord, Hash)]
pub struct Offset {
    raw: u64,
}

/// The tagged word of offset `o`.
pub open spec fn offset_word(o: u64) -> u64 {
    (2 * o + 1) as u64
}

/// Why the bytes of an offset failed validation.
#[derive(Debug, Clone, Copy, PartialEq, Eq, Structural)]
pub enum DecodeOffsetError {
    /// The word's low bit is 0: it does not carry the offset tag.
    Ptr(u64),
    /// The offset that the word holds exceeds the largest offset.
    OutOfRange(u64),
}

/// The outcome of validating the tagged word `raw` as an offset.
pub open spec fn validate_word(raw: u64) -> Result<(), DecodeOffsetError> {
    if raw % 2 != 1 {
        Err(DecodeOffsetError::Ptr(raw))
    } else if raw / 2 > OFFSET_MAX {
        Err(DecodeOffsetError::OutOfRange((raw / 2) as u64))
    } else {
        Ok(())
    }
}

proof fn lemma_low_bit(raw: u64)
    ensures
        raw & 1 == raw % 2,
        raw >> 1 == raw / 2,
{
    assert(raw & 1 == raw % 2) by (bit_vector);
    assert(raw >> 1 == raw / 2) by (bit_vector);
}

impl Offset {
    /// The offset held.
    pub closed spec fn spec_get(self) -> u64 {
        (self.raw / 2) as u64
    }

    /// The tagged word stored.
    pub closed spec fn word(self) -> u64 {
        self.raw
    }

    /// A well-formed offset is in range, and its word is its tagged form.
    pub proof fn lemma_wf(self)
        requires
            self.wf(),
        ensures
            self.spec_get() <= OFFSET_MAX,
            self.word() == offset_word(self.spec_get()),
    {
    }

    /// `None` exactly when `offset` exceeds the largest offset.
    pub fn new(offset: u64) -> (r: Option<Offset>)
        ensures
            r is Some <==> offset <= OFFSET_MAX,
            r matches Some(o) ==> o.wf() && o.spec_get() == offset && o.word() == offset_word(
                offset,
            ),
    {
        if offset <= OFFSET_MAX {
            let raw = (offset << 1) | 1;
            assert(raw == 2 * offset + 1) by (bit_vector)
                requires
                    offset <= 0x3fff_ffff_ffff_ffffu64,
                    raw == (offset << 1) | 1,
            ;
            Some(Offset { raw })
        } else {
            None
        }
    }

    pub fn get(self) -> (r: u64)
        ensures
            r == self.spec_get(),
    {
        proof {
            lemma_low_bit(self.raw);
        }
        self.raw >> 1
    }

    /// The tagged word.
    pub fn raw(self) -> (r: u64)
        ensures
            r == self.word(),
            self.wf() ==> r == offset_word(self.spec_get()),
    {
        self.raw
    }

    /// The same offset, detached from any snapshot it was read from.
    pub fn to_static(self) -> (r: Offset)
        ensures
            r == self,
    {
        self
    }
}

impl Encode for Offset {
    /// The word carries the tag and an offset in range.
    open spec fn wf(&self) -> bool {
        self.word() % 2 == 1 && self.word() / 2 <= OFFSET_MAX
    }

    open spec fn layout_spec() -> LayoutSpec {
        LayoutSpec { size: 8, niche: Some((0, 8)) }
    }

    open spec fn encoding(&self) -> Seq<u8> {
        spec_u64_to_le_bytes(self.word())
    }

    fn blob_layout() -> (r: BlobLayout) {
        BlobLayout::new_nonzero(8)
    }

    fn encode_blob(&self, dst: &mut Vec<u8>) {
        let mut bytes = u64_to_le_bytes(self.raw);
        dst.append(&mut bytes);
    }

    proof fn lemma_layout() {
    }

    proof fn lemma_encoding(&self) {
        lemma_auto_spec_u64_to_from_le_bytes();
        spec_u64_to_le_bytes_to_open(self.raw);
        let raw = self.raw;
        assert(raw % 2 == 1 ==> (raw & 0xff) as u8 != 0) by (bit_vector);
        let e = self.encoding();
        assert(e.subrange(0, 8) =~= e);
        assert(e[0] != 0);
    }
}

impl Decode for Offset {
    type Error = DecodeOffsetError;

    open spec fn validate_spec(bytes: Seq<u8>) -> Result<(), DecodeOffsetError> {
        validate_word(spec_u64_from_le_bytes(bytes))
    }

    closed spec fn decode_spec(bytes: Seq<u8>) -> Offset {
        Offset { raw: spec_u64_from_le_bytes(bytes) }
    }

    fn validate_blob(blob: &[u8]) -> (r: Result<(), DecodeOffsetError>) {
        let raw = u64_from_le_bytes(blob);
        proof {
            lemma_low_bit(raw);
        }
        if raw & 1 != 1 {
            Err(DecodeOffsetError::Ptr(raw))
        } else {
            let offset = raw >> 1;
            match Offset::new(offset) {
                Some(_) => Ok(()),
                None => Err(DecodeOffsetError::OutOfRange(offset)),
            }
        }
    }

    fn decode_blob(blob: &[u8]) -> (r: Offset) {
        Offset { raw: u64_from_le_bytes(blob) }
    }

    proof fn lemma_round_trip(&self) {
        lemma_auto_spec_u64_to_from_le_bytes();
    }

    proof fn lemma_canonical(bytes: Seq<u8>) {
        lemma_auto_spec_u64_to_from_le_bytes();
        assert(spec_u64_to_le_bytes(spec_u64_from_le_bytes(bytes)) == bytes);
    }
}

/// Decoding the encoding of any offset gives the same offset back. With
/// `Offset::new`, which makes an offset exactly for the values up to
/// `OFFSET_MAX`, this holds for every such value.
pub proof fn lemma_offset_round_trip(x: Offset)
    requires
        x.wf(),
    ensures
        x.spec_get() <= OFFSET_MAX,
        x.encoding().len() == 8,
        Offset::validate_spec(x.encoding()) is Ok,
        Offset::decode_spec(x.encoding()) == x,
        Offset::decode_spec(x.encoding()).spec_get() == x.spec_get(),
{
    x.lemma_round_trip();
    x.lemma_encoding();
}

/// A transient address: an even, non-zero word.
pub open spec fn is_transient_word(w: u64) -> bool {
    w % 2 == 0 && w != 0
}

/// What a dual-mode pointer word stands for.
#[derive(Debug, Clone, Copy, PartialEq, Eq, Structural)]
pub enum Kind {
    /// A persisted offset.
    Offset(Offset),
    /// A transient address (even and non-zero).
    Ptr(u64),
}

/// A pointer that is either a persisted offset or a transient address, in
/// one word.
#[derive(Debug, PartialEq, Eq, Structural, PartialOrd, Ord, Hash)]
pub struct OffsetMut {
    raw: u64,
}

impl OffsetMut {
    /// The stored word.
    pub closed spec fn word(self) -> u64 {
        self.raw
    }

    /// An odd word holds an offset in range; an even word is non-zero.
    pub closed spec fn valid(self) -> bool {
        if self.raw % 2 == 1 {
            self.raw / 2 <= OFFSET_MAX
        } else {
            self.raw != 0
        }
    }

    /// What the word stands for: an offset when its low bit is 1, else a
    /// transient address.
    pub closed spec fn kind_spec(self) -> Kind {
        if self.raw % 2 == 1 {
            Kind::Offset(Offset { raw: self.raw })
        } else {
            Kind::Ptr(self.raw)
        }
    }

    /// The kind follows the low bit of the word; an offset keeps the word.
    pub proof fn lemma_kind(self)
        requires
            self.valid(),
        ensures
            self.kind_spec() is Offset <==> self.word() % 2 == 1,
            self.kind_spec() matches Kind::Offset(o) ==> o.word() == self.word() && o.wf(),
            self.kind_spec() matches Kind::Ptr(a) ==> a == self.word() && is_transient_word(a),
    {
    }

    pub fn from_offset(offset: Offset) -> (r: OffsetMut)
        requires
            offset.wf(),
        ensures
            r.valid(),
            r.word() == offset.word(),
            r.kind_spec() == Kind::Offset(offset),
    {
        OffsetMut { raw: offset.raw }
    }

    /// A pointer to the transient address `addr`, which must be even.
    pub fn from_ptr(addr: u64) -> (r: OffsetMut)
        requires
            is_transient_word(addr),
        ensures
            r.valid(),
            r.word() == addr,
            r.kind_spec() == Kind::Ptr(addr),
    {
        OffsetMut { raw: addr }
    }

    pub fn kind(&self) -> (r: Kind)
        ensures
            r == self.kind_spec(),
    {
        proof {
            lemma_low_bit(self.raw);
        }
        if self.raw & 1 == 1 {
            Kind::Offset(Offset { raw: self.raw })
        } else {
            Kind::Ptr(self.raw)
        }
    }

    /// A copy of the pointer word.
    pub fn duplicate(&self) -> (r: OffsetMut)
        ensures
            r == *self,
    {
        OffsetMut { raw: self.raw }
    }
}

/// A dual-mode pointer is stored as the offset it holds: only a persisted
/// pointer has a blob, and a blob always loads as a persisted pointer.
impl Encode for OffsetMut {
    /// The pointer is persisted: its word carries the tag and an offset in
    /// range.
    open spec fn wf(&self) -> bool {
        self.word() % 2 == 1 && self.word() / 2 <= OFFSET_MAX
    }

    open spec fn layout_spec() -> LayoutSpec {
        LayoutSpec { size: 8, niche: Some((0, 8)) }
    }

    open spec fn encoding(&self) -> Seq<u8> {
        spec_u64_to_le_bytes(self.word())
    }

    fn blob_layout() -> (r: BlobLayout) {
        BlobLayout::new_nonzero(8)
    }

    fn encode_blob(&self, dst: &mut Vec<u8>) {
        let mut bytes = u64_to_le_bytes(self.raw);
        dst.append(&mut bytes);
    }

    proof fn lemma_layout() {
    }

    proof fn lemma_encoding(&self) {
        let o = Offset { raw: self.raw };
        o.lemma_encoding();
    }
}

impl Decode for OffsetMut {
    type Error = DecodeOffsetError;

    open spec fn validate_spec(bytes: Seq<u8>) -> Result<(), DecodeOffsetError> {
        validate_word(spec_u64_from_le_bytes(bytes))
    }

    closed spec fn decode_spec(bytes: Seq<u8>) -> OffsetMut {
        OffsetMut { raw: spec_u64_from_le_bytes(bytes) }
    }

    fn validate_blob(blob: &[u8]) -> (r: Result<(), DecodeOffsetError>) {
        Offset::validate_blob(blob)
    }

    fn decode_blob(blob: &[u8]) -> (r: OffsetMut) {
        OffsetMut::from_offset(Offset::decode_blob(blob))
    }

    proof fn lemma_round_trip(&self) {
        lemma_auto_spec_u64_to_from_le_bytes();
    }

    proof fn lemma_canonical(bytes: Seq<u8>) {
        lemma_auto_spec_u64_to_from_le_bytes();
        assert(spec_u64_to_le_bytes(spec_u64_from_le_bytes(bytes)) == bytes);
    }
}

/// A decoded pointer word is always a persisted pointer to the offset it
/// holds.
pub proof fn lemma_decoded_pointer_is_offset(bytes: Seq<u8>)
    requires
        bytes.len() == 8,
        OffsetMut::validate_spec(bytes) is Ok,
    ensures
        OffsetMut::decode_spec(bytes).wf(),
        OffsetMut::decode_spec(bytes).valid(),
        OffsetMut::decode_spec(bytes).kind_spec() == Kind::Offset(Offset::decode_spec(bytes)),
{
}

/// The kind of every dual-mode pointer follows the low bit of its word, and
/// a persisted pointer keeps its kind and word across an encoding of its
/// offset followed by validation and decoding.
pub proof fn lemma_kind_round_trip(p: OffsetMut)
    requires
        p.valid(),
    ensures
        p.kind_spec() is Offset <==> p.word() % 2 == 1,
        p.kind_spec() matches Kind::Offset(o) ==> {
            &&& Offset::validate_spec(o.encoding()) is Ok
            &&& Offset::decode_spec(o.encoding()) == o
            &&& Offset::decode_spec(o.encoding()).word() == p.word()
        },
{
    p.lemma_kind();
    if let Kind::Offset(o) = p.kind_spec() {
        o.lemma_round_trip();
    }
}

} // verus!
