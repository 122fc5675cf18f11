//! Blobs of optional values. Where the inner layout has a niche, absence is
//! the all-zero blob and no discriminant byte is added; otherwise one byte,
//! 0 or 1, comes first.
use vstd::prelude::*;
use vstd::slice::slice_subrange;

use crate::layout::{option_blob_layout, option_layout, BlobLayout, LayoutSpec};
use crate::marshal::{all_zero, write_padding, zeroed, zeros, Decode, Encode};

verus! {

/// Why the blob of an optional value failed validation.
#[derive(Debug, PartialEq, Eq)]
pub enum OptionError<E> {
    /// The discriminant byte was neither 0 nor 1.
    Discriminant(u8),
    /// Bytes that must be zero in the absent case were not.
    Padding,
    /// The present value failed its own validation.
    Value(E),
}

/// Maps an inner validation outcome to that of the optional value.
pub open spec fn lift_error<E>(r: Result<(), E>) -> Result<(), OptionError<E>> {
    match r {
        Ok(()) => Ok(()),
        Err(e) => Err(OptionError::Value(e)),
    }
}

proof fn lemma_zeros_all_zero(n: nat, start: int, end: int)
    requires
        0 <= start <= end <= n,
    ensures
        all_zero(zeros(n).subrange(start, end)),
{
}

impl<T: Decode> Encode for Option<T> {
    open spec fn layout_spec() -> LayoutSpec {
        option_layout(T::layout_spec())
    }

    open spec fn wf(&self) -> bool {
        match self {
            None => true,
            Some(v) => v.wf(),
        }
    }

    open spec fn encoding(&self) -> Seq<u8> {
        let inner = T::layout_spec();
        match self {
            None => if inner.niche is Some {
                zeros(inner.size)
            } else {
                seq![0u8] + zeros(inner.size)
            },
            Some(v) => if inner.niche is Some {
                v.encoding()
            } else {
                seq![1u8] + v.encoding()
            },
        }
    }

    fn blob_layout() -> (r: BlobLayout) {
        proof {
            T::lemma_layout();
        }
        option_blob_layout(T::blob_layout())
    }

    fn encode_blob(&self, dst: &mut Vec<u8>) {
        proof {
            T::lemma_layout();
        }
        let inner = T::blob_layout();
        match self {
            None => {
                if !inner.has_niche() {
                    dst.push(0u8);
                }
                write_padding(dst, inner.size);
                assert(dst@ =~= old(dst)@ + self.encoding());
            },
            Some(value) => {
                if !inner.has_niche() {
                    dst.push(1u8);
                }
                value.encode_blob(dst);
                assert(dst@ =~= old(dst)@ + self.encoding());
            },
        }
    }

    proof fn lemma_layout() {
        T::lemma_layout();
    }

    proof fn lemma_encoding(&self) {
        match self {
            None => {},
            Some(v) => v.lemma_encoding(),
        }
    }
}

impl<T: Decode> Decode for Option<T> {
    type Error = OptionError<T::Error>;

    open spec fn validate_spec(bytes: Seq<u8>) -> Result<(), OptionError<T::Error>> {
        match T::layout_spec().niche {
            Some((start, end)) => if all_zero(bytes.subrange(start as int, end as int)) {
                if all_zero(bytes.subrange(0, start as int)) && all_zero(
                    bytes.subrange(end as int, bytes.len() as int),
                ) {
                    Ok(())
                } else {
                    Err(OptionError::Padding)
                }
            } else {
                lift_error(T::validate_spec(bytes))
            },
            None => if bytes[0] == 0 {
                if all_zero(bytes.subrange(1, bytes.len() as int)) {
                    Ok(())
                } else {
                    Err(OptionError::Padding)
                }
            } else if bytes[0] == 1 {
                lift_error(T::validate_spec(bytes.subrange(1, bytes.len() as int)))
            } else {
                Err(OptionError::Discriminant(bytes[0]))
            },
        }
    }

    open spec fn decode_spec(bytes: Seq<u8>) -> Option<T> {
        match T::layout_spec().niche {
            Some((start, end)) => if all_zero(bytes.subrange(start as int, end as int)) {
                None
            } else {
                Some(T::decode_spec(bytes))
            },
            None => if bytes[0] == 0 {
                None
            } else {
                Some(T::decode_spec(bytes.subrange(1, bytes.len() as int)))
            },
        }
    }

    fn validate_blob(blob: &[u8]) -> (r: Result<(), OptionError<T::Error>>) {
        proof {
            T::lemma_layout();
        }
        let len = blob.len();
        let inner = T::blob_layout();
        match inner.niche() {
            Some((start, end)) => {
                let niche = slice_subrange(blob, start, end);
                if zeroed(niche) {
                    let left = slice_subrange(blob, 0, start);
                    let right = slice_subrange(blob, end, len);
                    if zeroed(left) && zeroed(right) {
                        Ok(())
                    } else {
                        Err(OptionError::Padding)
                    }
                } else {
                    match T::validate_blob(blob) {
                        Ok(()) => Ok(()),
                        Err(e) => Err(OptionError::Value(e)),
                    }
                }
            },
            None => {
                let rest = slice_subrange(blob, 1, len);
                if blob[0] == 0 {
                    if zeroed(rest) {
                        Ok(())
                    } else {
                        Err(OptionError::Padding)
                    }
                } else if blob[0] == 1 {
                    match T::validate_blob(rest) {
                        Ok(()) => Ok(()),
                        Err(e) => Err(OptionError::Value(e)),
                    }
                } else {
                    Err(OptionError::Discriminant(blob[0]))
                }
            },
        }
    }

    fn decode_blob(blob: &[u8]) -> (r: Option<T>) {
        proof {
            T::lemma_layout();
        }
        let len = blob.len();
        let inner = T::blob_layout();
        match inner.niche() {
            Some((start, end)) => {
                let niche = slice_subrange(blob, start, end);
                if zeroed(niche) {
                    None
                } else {
                    Some(T::decode_blob(blob))
                }
            },
            None => {
                if blob[0] == 0 {
                    None
                } else {
                    let rest = slice_subrange(blob, 1, len);
                    Some(T::decode_blob(rest))
                }
            },
        }
    }

    proof fn lemma_round_trip(&self) {
        T::lemma_layout();
        let inner = T::layout_spec();
        let bytes = self.encoding();
        match self {
            None => {
                match inner.niche {
                    Some((start, end)) => {
                        lemma_zeros_all_zero(inner.size, start as int, end as int);
                        lemma_zeros_all_zero(inner.size, 0, start as int);
                        lemma_zeros_all_zero(inner.size, end as int, inner.size as int);
                    },
                    None => {
                        assert(bytes.subrange(1, bytes.len() as int) =~= zeros(inner.size));
                        lemma_zeros_all_zero(inner.size, 0, inner.size as int);
                        assert(zeros(inner.size).subrange(0, inner.size as int) =~= zeros(
                            inner.size,
                        ));
                    },
                }
            },
            Some(v) => {
                v.lemma_encoding();
                v.lemma_round_trip();
                if inner.niche is None {
                    assert(bytes.subrange(1, bytes.len() as int) =~= v.encoding());
                }
            },
        }
    }

    proof fn lemma_canonical(bytes: Seq<u8>) {
        T::lemma_layout();
        let inner = T::layout_spec();
        match inner.niche {
            Some((start, end)) => {
                if all_zero(bytes.subrange(start as int, end as int)) {
                    assert forall|i: int| 0 <= i < bytes.len() implies bytes[i] == 0 by {
                        if i < start {
                            assert(bytes.subrange(0, start as int)[i] == 0);
                        } else if i < end {
                            assert(bytes.subrange(start as int, end as int)[i - start] == 0);
                        } else {
                            assert(bytes.subrange(end as int, bytes.len() as int)[i - end] == 0);
                        }
                    }
                    assert(bytes =~= zeros(inner.size));
                } else {
                    T::lemma_canonical(bytes);
                }
            },
            None => {
                let rest = bytes.subrange(1, bytes.len() as int);
                if bytes[0] == 0 {
                    assert(rest =~= zeros(inner.size));
                    assert(bytes =~= seq![0u8] + rest);
                } else {
                    T::lemma_canonical(rest);
                    assert(bytes =~= seq![1u8] + rest);
                }
            },
        }
    }
}

/// An optional value's blob is exactly as long as the inner type's when the
/// inner layout has a niche, and one discriminant byte longer otherwise.
pub proof fn lemma_option_size<T: Decode>(v: Option<T>)
    requires
        v.wf(),
    ensures
        v.encoding().len() == T::layout_spec().size + (if T::layout_spec().niche is Some {
            0int
        } else {
            1int
        }),
{
    v.lemma_encoding();
}

/// Setting any byte outside the niche of the (all-zero-niche) absent blob to
/// a non-zero value makes validation fail with `Padding`; such bytes can then
/// never be decoded, since decoding asks for a successful validation.
pub proof fn lemma_padding_mutation_rejected<T: Decode>(i: int, b: u8)
    requires
        b != 0,
        0 <= i < <Option<T> as Encode>::layout_spec().size,
        T::layout_spec().niche matches Some((start, end)) ==> (i < start || end <= i),
        T::layout_spec().niche is None ==> i >= 1,
    ensures
        <Option<T> as Decode>::validate_spec(None::<T>.encoding().update(i, b)) == Err::<
            (),
            OptionError<T::Error>,
        >(OptionError::Padding),
{
    T::lemma_layout();
    let inner = T::layout_spec();
    let bytes = None::<T>.encoding().update(i, b);
    match inner.niche {
        Some((start, end)) => {
            assert(all_zero(bytes.subrange(start as int, end as int)));
            if i < start {
                assert(bytes.subrange(0, start as int)[i] != 0);
            } else {
                assert(bytes.subrange(end as int, bytes.len() as int)[i - end] != 0);
            }
        },
        None => {
            assert(bytes.subrange(1, bytes.len() as int)[i - 1] != 0);
        },
    }
}

} // verus!
