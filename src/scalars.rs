//! Blob encodings of pointer-free scalars: the unit type, booleans and bytes.
use vstd::prelude::*;

use crate::layout::{BlobLayout, LayoutSpec};
use crate::marshal::{Decode, Encode, Primitive};

verus! {

/// The error of a type whose every blob is valid: validation never returns it.
#[derive(Debug, Clone, Copy, PartialEq, Eq)]
pub struct NoError;

/// A boolean blob held a byte other than 0 or 1.
#[derive(Debug, Clone, Copy, PartialEq, Eq, Structural)]
pub struct BoolError(pub u8);

impl Encode for () {
    open spec fn layout_spec() -> LayoutSpec {
        LayoutSpec { size: 0, niche: None }
    }

    open spec fn wf(&self) -> bool {
        true
    }

    open spec fn encoding(&self) -> Seq<u8> {
        Seq::empty()
    }

    fn blob_layout() -> (r: BlobLayout) {
        BlobLayout::new(0)
    }

    fn encode_blob(&self, dst: &mut Vec<u8>) {
        assert(dst@ =~= old(dst)@ + Seq::empty());
    }

    proof fn lemma_layout() {
    }

    proof fn lemma_encoding(&self) {
    }
}

impl Decode for () {
    type Error = NoError;

    open spec fn validate_spec(bytes: Seq<u8>) -> Result<(), NoError> {
        Ok(())
    }

    open spec fn decode_spec(bytes: Seq<u8>) -> () {
        ()
    }

    fn validate_blob(blob: &[u8]) -> (r: Result<(), NoError>) {
        Ok(())
    }

    fn decode_blob(blob: &[u8]) -> (r: ()) {
    }

    proof fn lemma_round_trip(&self) {
    }

    proof fn lemma_canonical(bytes: Seq<u8>) {
        assert(bytes =~= Seq::<u8>::empty());
    }
}

impl Primitive for () {
}

impl Encode for bool {
    open spec fn layout_spec() -> LayoutSpec {
        LayoutSpec { size: 1, niche: None }
    }

    open spec fn wf(&self) -> bool {
        true
    }

    open spec fn encoding(&self) -> Seq<u8> {
        seq![if *self { 1u8 } else { 0u8 }]
    }

    fn blob_layout() -> (r: BlobLayout) {
        BlobLayout::new(1)
    }

    fn encode_blob(&self, dst: &mut Vec<u8>) {
        let b: u8 = if *self { 1 } else { 0 };
        dst.push(b);
        assert(dst@ =~= old(dst)@ + self.encoding());
    }

    proof fn lemma_layout() {
    }

    proof fn lemma_encoding(&self) {
    }
}

impl Decode for bool {
    type Error = BoolError;

    open spec fn validate_spec(bytes: Seq<u8>) -> Result<(), BoolError> {
        if bytes[0] == 0 || bytes[0] == 1 {
            Ok(())
        } else {
            Err(BoolError(bytes[0]))
        }
    }

    open spec fn decode_spec(bytes: Seq<u8>) -> bool {
        bytes[0] == 1
    }

    fn validate_blob(blob: &[u8]) -> (r: Result<(), BoolError>) {
        let b = blob[0];
        if b == 0 || b == 1 {
            Ok(())
        } else {
            Err(BoolError(b))
        }
    }

    fn decode_blob(blob: &[u8]) -> (r: bool) {
        blob[0] == 1
    }

    proof fn lemma_round_trip(&self) {
    }

    proof fn lemma_canonical(bytes: Seq<u8>) {
        assert(Self::decode_spec(bytes).encoding() =~= bytes);
    }
}

impl Primitive for bool {
}

impl Encode for u8 {
    open spec fn layout_spec() -> LayoutSpec {
        LayoutSpec { size: 1, niche: None }
    }

    open spec fn wf(&self) -> bool {
        true
    }

    open spec fn encoding(&self) -> Seq<u8> {
        seq![*self]
    }

    fn blob_layout() -> (r: BlobLayout) {
        BlobLayout::new(1)
    }

    fn encode_blob(&self, dst: &mut Vec<u8>) {
        dst.push(*self);
        assert(dst@ =~= old(dst)@ + self.encoding());
    }

    proof fn lemma_layout() {
    }

    proof fn lemma_encoding(&self) {
    }
}

impl Decode for u8 {
    type Error = NoError;

    open spec fn validate_spec(bytes: Seq<u8>) -> Result<(), NoError> {
        Ok(())
    }

    open spec fn decode_spec(bytes: Seq<u8>) -> u8 {
        bytes[0]
    }

    fn validate_blob(blob: &[u8]) -> (r: Result<(), NoError>) {
        Ok(())
    }

    fn decode_blob(blob: &[u8]) -> (r: u8) {
        blob[0]
    }

    proof fn lemma_round_trip(&self) {
    }

    proof fn lemma_canonical(bytes: Seq<u8>) {
        assert(Self::decode_spec(bytes).encoding() =~= bytes);
    }
}

impl Primitive for u8 {
}

} // verus!
