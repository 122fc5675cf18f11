//! The blob codec: how a value is written as bytes, and the two-phase
//! protocol that reads it back (validate untrusted bytes, then decode).
use vstd::prelude::*;
use vstd::slice::slice_subrange;

use crate::layout::{BlobLayout, LayoutSpec};

verus! {

/// Every byte of `s` is zero.
pub open spec fn all_zero(s: Seq<u8>) -> bool {
    forall|i: int| 0 <= i < s.len() ==> #[trigger] s[i] == 0
}

/// `n` zero bytes.
pub open spec fn zeros(n: nat) -> Seq<u8> {
    Seq::new(n, |_i: int| 0u8)
}

/// The encoding side of the codec: a fixed layout and the bytes of a value.
pub trait Encode: Sized {
    /// The layout shared by all values of the type.
    spec fn layout_spec() -> LayoutSpec;

    /// The value is well formed (always, for most types).
    spec fn wf(&self) -> bool;

    /// The bytes that encode this value.
    spec fn encoding(&self) -> Seq<u8>;

    fn blob_layout() -> (r: BlobLayout)
        requires
            Self::layout_spec().fits(),
        ensures
            r@ == Self::layout_spec(),
    ;

    /// Appends the encoding of `self` to `dst`.
    fn encode_blob(&self, dst: &mut Vec<u8>)
        requires
            self.wf(),
            Self::layout_spec().fits(),
        ensures
            final(dst)@ == old(dst)@ + self.encoding(),
    ;

    proof fn lemma_layout()
        ensures
            Self::layout_spec().wf(),
    ;

    /// An encoding fills the layout, and its niche is never all zero.
    proof fn lemma_encoding(&self)
        requires
            self.wf(),
        ensures
            self.encoding().len() == Self::layout_spec().size,
            Self::layout_spec().niche matches Some((start, end)) ==> !all_zero(
                self.encoding().subrange(start as int, end as int),
            ),
    ;
}

/// The decoding side: untrusted bytes are validated first; only bytes that
/// passed validation may be decoded.
pub trait Decode: Encode {
    type Error;

    /// The outcome of validating `bytes` (of the layout's size).
    spec fn validate_spec(bytes: Seq<u8>) -> Result<(), Self::Error>;

    /// The value that valid `bytes` stand for.
    spec fn decode_spec(bytes: Seq<u8>) -> Self;

    /// Structural checks only: nothing is reinterpreted.
    fn validate_blob(blob: &[u8]) -> (r: Result<(), Self::Error>)
        requires
            blob@.len() == Self::layout_spec().size,
        ensures
            r == Self::validate_spec(blob@),
    ;

    /// Reads a value from bytes that passed validation.
    fn decode_blob(blob: &[u8]) -> (r: Self)
        requires
            blob@.len() == Self::layout_spec().size,
            Self::validate_spec(blob@) is Ok,
        ensures
            r == Self::decode_spec(blob@),
            r.wf(),
    ;

    /// Encoding, then validating and decoding, gives the value back.
    proof fn lemma_round_trip(&self)
        requires
            self.wf(),
        ensures
            Self::validate_spec(self.encoding()) is Ok,
            Self::decode_spec(self.encoding()) == *self,
    ;

    /// Valid bytes are exactly the encoding of the value they decode to.
    proof fn lemma_canonical(bytes: Seq<u8>)
        requires
            bytes.len() == Self::layout_spec().size,
            Self::validate_spec(bytes) is Ok,
        ensures
            Self::decode_spec(bytes).wf(),
            Self::decode_spec(bytes).encoding() == bytes,
    ;
}

/// A type that can be loaded from a validated blob whose pointers resolve
/// in zone `Z`. Every decodable type loads as it decodes.
pub trait Load<Z>: Sized {
    /// The blob can be loaded.
    spec fn loadable(bytes: Seq<u8>) -> bool;

    /// The value loaded from the blob.
    spec fn load_spec(bytes: Seq<u8>) -> Self;

    fn load_blob(blob: BlobDecoder<'_, Z>) -> (r: Self)
        requires
            blob.wf(),
            blob.pos() == 0,
            Self::loadable(blob.bytes()),
        ensures
            r == Self::load_spec(blob.bytes()),
    ;
}

impl<Z, T: Decode> Load<Z> for T {
    open spec fn loadable(bytes: Seq<u8>) -> bool {
        bytes.len() == T::layout_spec().size && T::validate_spec(bytes) is Ok
    }

    open spec fn load_spec(bytes: Seq<u8>) -> T {
        T::decode_spec(bytes)
    }

    fn load_blob(blob: BlobDecoder<'_, Z>) -> (r: T) {
        blob.to_value()
    }
}

/// A type whose blobs hold no pointers, so that any zone can store it.
pub trait Primitive: Decode {
}

/// Valid bytes never have an all-zero niche.
pub proof fn lemma_valid_niche<T: Decode>(bytes: Seq<u8>)
    requires
        bytes.len() == T::layout_spec().size,
        T::validate_spec(bytes) is Ok,
    ensures
        T::layout_spec().niche matches Some((start, end)) ==> !all_zero(
            bytes.subrange(start as int, end as int),
        ),
{
    T::lemma_canonical(bytes);
    T::decode_spec(bytes).lemma_encoding();
}

/// Whether every byte of `buf` is zero.
pub fn zeroed(buf: &[u8]) -> (r: bool)
    ensures
        r == all_zero(buf@),
{
    let mut i: usize = 0;
    while i < buf.len()
        invariant
            i <= buf@.len(),
            all_zero(buf@.subrange(0, i as int)),
        decreases buf@.len() - i,
    {
        if buf[i] != 0 {
            assert(buf@[i as int] != 0);
            return false;
        }
        assert(buf@.subrange(0, i + 1) =~= buf@.subrange(0, i as int).push(0u8));
        i += 1;
    }
    assert(buf@.subrange(0, i as int) =~= buf@);
    true
}

/// Appends `n` zero bytes to `dst`.
pub fn write_padding(dst: &mut Vec<u8>, n: usize)
    ensures
        final(dst)@ == old(dst)@ + zeros(n as nat),
{
    let mut i: usize = 0;
    while i < n
        invariant
            i <= n,
            dst@ == old(dst)@ + zeros(i as nat),
        decreases n - i,
    {
        dst.push(0u8);
        i += 1;
        assert(dst@ =~= old(dst)@ + zeros(i as nat));
    }
}

/// A cursor over a validated blob, and the zone its pointers resolve in.
pub struct BlobDecoder<'a, Z> {
    blob: &'a [u8],
    pos: usize,
    zone: &'a Z,
}

impl<'a, Z> BlobDecoder<'a, Z> {
    /// The bytes of the blob.
    pub closed spec fn bytes(&self) -> Seq<u8> {
        self.blob@
    }

    /// How many bytes have been read.
    pub closed spec fn pos(&self) -> nat {
        self.pos as nat
    }

    pub closed spec fn zone_spec(&self) -> &'a Z {
        self.zone
    }

    /// The bytes not read yet.
    pub open spec fn rest(&self) -> Seq<u8> {
        self.bytes().subrange(self.pos() as int, self.bytes().len() as int)
    }

    pub closed spec fn wf(&self) -> bool {
        self.pos <= self.blob@.len()
    }

    pub fn new(blob: &'a [u8], zone: &'a Z) -> (r: Self)
        ensures
            r.wf(),
            r.bytes() == blob@,
            r.pos() == 0,
            r.zone_spec() == zone,
    {
        BlobDecoder { blob, pos: 0, zone }
    }

    pub fn zone(&self) -> (r: &'a Z)
        ensures
            r == self.zone_spec(),
    {
        self.zone
    }

    /// Decodes the next field, of type `F`; its bytes must be valid.
    pub fn field_unchecked<F: Decode>(&mut self) -> (r: F)
        requires
            old(self).wf(),
            old(self).pos() + F::layout_spec().size <= old(self).bytes().len(),
            F::validate_spec(
                old(self).bytes().subrange(
                    old(self).pos() as int,
                    (old(self).pos() + F::layout_spec().size) as int,
                ),
            ) is Ok,
        ensures
            final(self).wf(),
            final(self).bytes() == old(self).bytes(),
            final(self).zone_spec() == old(self).zone_spec(),
            final(self).pos() == old(self).pos() + F::layout_spec().size,
            r == F::decode_spec(
                old(self).bytes().subrange(
                    old(self).pos() as int,
                    (old(self).pos() + F::layout_spec().size) as int,
                ),
            ),
    {
        assert(self.pos + F::layout_spec().size <= self.blob.len());
        let layout = F::blob_layout();
        let end = self.pos + layout.size;
        let field = slice_subrange(self.blob, self.pos, end);
        let r = F::decode_blob(field);
        self.pos = end;
        r
    }

    /// Decodes the whole blob as one value of type `T`.
    pub fn to_value<T: Decode>(self) -> (r: T)
        requires
            self.wf(),
            self.pos() == 0,
            self.bytes().len() == T::layout_spec().size,
            T::validate_spec(self.bytes()) is Ok,
        ensures
            r == T::decode_spec(self.bytes()),
    {
        T::decode_blob(self.blob)
    }

    /// Ends decoding; every byte must have been read.
    pub fn finish(self)
        requires
            self.wf(),
            self.pos() == self.bytes().len(),
    {
    }
}

} // verus!
