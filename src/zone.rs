//! Fat pointers, and the zone of missing data.
use vstd::prelude::*;
use vstd::slice::slice_subrange;

use crate::layout::{BlobLayout, LayoutSpec};
use crate::marshal::{Decode, Encode};

verus! {

/// A zone pointer with metadata (such as a length). Not necessarily valid.
#[derive(Debug, PartialEq, Eq)]
pub struct FatPtr<P, M> {
    /// The pointer itself.
    pub raw: P,
    /// Metadata associated with the pointer.
    pub metadata: M,
}

/// Why the blob of a fat pointer failed validation.
#[derive(Debug, PartialEq, Eq)]
pub enum ValidateFatPtrError<M, P> {
    /// The pointer part was invalid.
    Ptr(P),
    /// The metadata part was invalid.
    Metadata(M),
}

impl<P: Decode, M: Decode> Encode for FatPtr<P, M> {
    open spec fn wf(&self) -> bool {
        self.raw.wf() && self.metadata.wf()
    }

    open spec fn layout_spec() -> LayoutSpec {
        P::layout_spec().extend(M::layout_spec())
    }

    open spec fn encoding(&self) -> Seq<u8> {
        self.raw.encoding() + self.metadata.encoding()
    }

    fn blob_layout() -> (r: BlobLayout) {
        proof {
            P::lemma_layout();
            M::lemma_layout();
        }
        P::blob_layout().extend(M::blob_layout())
    }

    fn encode_blob(&self, dst: &mut Vec<u8>) {
        self.raw.encode_blob(dst);
        self.metadata.encode_blob(dst);
        assert(dst@ =~= old(dst)@ + self.encoding());
    }

    proof fn lemma_layout() {
        P::lemma_layout();
        M::lemma_layout();
    }

    proof fn lemma_encoding(&self) {
        P::lemma_layout();
        M::lemma_layout();
        self.raw.lemma_encoding();
        self.metadata.lemma_encoding();
        let e = self.encoding();
        let p = self.raw.encoding();
        let m = self.metadata.encoding();
        match P::layout_spec().niche {
            Some((start, end)) => {
                assert(e.subrange(start as int, end as int) =~= p.subrange(
                    start as int,
                    end as int,
                ));
            },
            None => {
                if let Some((start, end)) = M::layout_spec().niche {
                    let k = p.len() as int;
                    assert(e.subrange(start + k, end + k) =~= m.subrange(
                        start as int,
                        end as int,
                    ));
                }
            },
        }
    }
}

impl<P: Decode, M: Decode> Decode for FatPtr<P, M> {
    type Error = ValidateFatPtrError<M::Error, P::Error>;

    open spec fn validate_spec(bytes: Seq<u8>) -> Result<(), Self::Error> {
        let k = P::layout_spec().size as int;
        match P::validate_spec(bytes.subrange(0, k)) {
            Err(e) => Err(ValidateFatPtrError::Ptr(e)),
            Ok(()) => match M::validate_spec(bytes.subrange(k, bytes.len() as int)) {
                Err(e) => Err(ValidateFatPtrError::Metadata(e)),
                Ok(()) => Ok(()),
            },
        }
    }

    open spec fn decode_spec(bytes: Seq<u8>) -> Self {
        let k = P::layout_spec().size as int;
        FatPtr {
            raw: P::decode_spec(bytes.subrange(0, k)),
            metadata: M::decode_spec(bytes.subrange(k, bytes.len() as int)),
        }
    }

    fn validate_blob(blob: &[u8]) -> (r: Result<(), Self::Error>) {
        let len = blob.len();
        let k = P::blob_layout().size;
        match P::validate_blob(slice_subrange(blob, 0, k)) {
            Err(e) => Err(ValidateFatPtrError::Ptr(e)),
            Ok(()) => match M::validate_blob(slice_subrange(blob, k, len)) {
                Err(e) => Err(ValidateFatPtrError::Metadata(e)),
                Ok(()) => Ok(()),
            },
        }
    }

    fn decode_blob(blob: &[u8]) -> (r: Self) {
        let len = blob.len();
        let k = P::blob_layout().size;
        let raw = P::decode_blob(slice_subrange(blob, 0, k));
        let metadata = M::decode_blob(slice_subrange(blob, k, len));
        FatPtr { raw, metadata }
    }

    proof fn lemma_round_trip(&self) {
        self.raw.lemma_encoding();
        self.metadata.lemma_encoding();
        self.raw.lemma_round_trip();
        self.metadata.lemma_round_trip();
        let e = self.encoding();
        let k = P::layout_spec().size as int;
        assert(e.subrange(0, k) =~= self.raw.encoding());
        assert(e.subrange(k, e.len() as int) =~= self.metadata.encoding());
    }

    proof fn lemma_canonical(bytes: Seq<u8>) {
        let k = P::layout_spec().size as int;
        P::lemma_canonical(bytes.subrange(0, k));
        M::lemma_canonical(bytes.subrange(k, bytes.len() as int));
        assert(bytes =~= bytes.subrange(0, k) + bytes.subrange(k, bytes.len() as int));
    }
}

/// The zone of missing data: values allocated here are dropped, and fetching
/// them always fails.
#[derive(Debug, Default, Clone, Copy, PartialEq, Eq, PartialOrd, Ord, Hash)]
pub struct Missing;

/// A value of the missing zone was asked for.
#[derive(Debug, Clone, Copy, PartialEq, Eq, Structural)]
pub struct MissingError;

/// A pointer into the missing zone, with the value's metadata.
pub fn make_missing_ptr<M>(metadata: M) -> (r: FatPtr<(), M>)
    ensures
        r.metadata == metadata,
{
    FatPtr { raw: (), metadata }
}

impl Missing {
    /// Drops `value` and keeps only its length as metadata.
    pub fn allocate(&self, value: Vec<u8>) -> (r: FatPtr<(), usize>)
        ensures
            r.metadata == value@.len(),
    {
        let metadata = value.len();
        make_missing_ptr(metadata)
    }

    pub fn duplicate(&self) -> (r: Missing)
        ensures
            r == Missing,
    {
        Missing
    }

    /// Missing values are never present: the pointer comes back as the error.
    pub fn try_get_dirty<'a>(&self, ptr: &'a FatPtr<(), usize>) -> (r: Result<&'a Vec<u8>, FatPtr<(), usize>>)
        ensures
            r matches Err(p) && p.metadata == ptr.metadata,
    {
        Err(FatPtr { raw: (), metadata: ptr.metadata })
    }

    /// Fetching from the missing zone always fails.
    pub fn try_get(&self, ptr: &FatPtr<(), usize>) -> (r: Result<Vec<u8>, MissingError>)
        ensures
            r == Err::<Vec<u8>, MissingError>(MissingError),
    {
        Err(MissingError)
    }
}

} // verus!
