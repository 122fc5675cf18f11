//! Byte layouts of blobs: a fixed size and an optional niche.
use vstd::prelude::*;

verus! {

/// The mathematical form of a blob layout.
///
/// `niche`, when present, is a byte range `start..end` of the blob that is
/// never all zero in any valid encoding of the type.
pub struct LayoutSpec {
    pub size: nat,
    pub niche: Option<(nat, nat)>,
}

impl LayoutSpec {
    /// A niche, if any, is a non-empty range inside the blob.
    pub open spec fn wf(self) -> bool {
        match self.niche {
            Some((start, end)) => start < end <= self.size,
            None => true,
        }
    }

    /// The layout fits the machine's address space.
    pub open spec fn fits(self) -> bool {
        self.size <= usize::MAX
    }

    /// Concatenation: `self` followed by `next`. The first niche found wins.
    pub open spec fn extend(self, next: LayoutSpec) -> LayoutSpec {
        LayoutSpec {
            size: self.size + next.size,
            niche: match self.niche {
                Some(n) => Some(n),
                None => match next.niche {
                    Some((start, end)) => Some((start + self.size, end + self.size)),
                    None => None,
                },
            },
        }
    }
}

/// Layout of an optional value: the inner size when the inner layout has a
/// niche (absence is the all-zero pattern there, so the niche is used up),
/// else one discriminant byte followed by the inner layout.
pub open spec fn option_layout(inner: LayoutSpec) -> LayoutSpec {
    if inner.niche is Some {
        LayoutSpec { size: inner.size, niche: None }
    } else {
        LayoutSpec { size: inner.size + 1, niche: None }
    }
}

/// The fixed byte size and optional niche of a type's serialized form.
#[derive(Clone, Copy, Debug, PartialEq, Eq)]
pub struct BlobLayout {
    pub size: usize,
    pub niche: Option<(usize, usize)>,
}

impl View for BlobLayout {
    type V = LayoutSpec;

    open spec fn view(&self) -> LayoutSpec {
        LayoutSpec {
            size: self.size as nat,
            niche: match self.niche {
                Some((start, end)) => Some((start as nat, end as nat)),
                None => None,
            },
        }
    }
}

impl BlobLayout {
    /// A layout of `size` bytes without a niche.
    pub fn new(size: usize) -> (r: BlobLayout)
        ensures
            r@ == (LayoutSpec { size: size as nat, niche: None }),
    {
        BlobLayout { size, niche: None }
    }

    /// A layout of `size` bytes that are never all zero.
    pub fn new_nonzero(size: usize) -> (r: BlobLayout)
        requires
            size > 0,
        ensures
            r@ == (LayoutSpec { size: size as nat, niche: Some((0, size as nat)) }),
    {
        BlobLayout { size, niche: Some((0, size)) }
    }

    /// A layout that no value has: used for uninhabited types.
    pub fn never() -> (r: BlobLayout)
        ensures
            r@ == (LayoutSpec { size: 0, niche: None }),
    {
        BlobLayout { size: 0, niche: None }
    }

    pub fn size(&self) -> (r: usize)
        ensures
            r == self.size,
    {
        self.size
    }

    pub fn has_niche(&self) -> (r: bool)
        ensures
            r == self@.niche is Some,
    {
        self.niche.is_some()
    }

    pub fn niche(&self) -> (r: Option<(usize, usize)>)
        ensures
            r == self.niche,
    {
        self.niche
    }

    /// The layout of `self` followed by `next`.
    pub fn extend(self, next: BlobLayout) -> (r: BlobLayout)
        requires
            self@.wf(),
            next@.wf(),
            self.size + next.size <= usize::MAX,
        ensures
            r@ == self@.extend(next@),
            r@.wf(),
    {
        let niche = match self.niche {
            Some(n) => Some(n),
            None => match next.niche {
                Some((start, end)) => Some((start + self.size, end + self.size)),
                None => None,
            },
        };
        BlobLayout { size: self.size + next.size, niche }
    }
}

/// The layout of an optional value of a type whose layout is `inner`.
pub fn option_blob_layout(inner: BlobLayout) -> (r: BlobLayout)
    requires
        inner@.wf(),
        inner@.niche is Some || inner.size < usize::MAX,
    ensures
        r@ == option_layout(inner@),
        r@.wf(),
{
    if inner.has_niche() {
        BlobLayout::new(inner.size)
    } else {
        let r = BlobLayout::new(1).extend(inner);
        assert(r@ =~= option_layout(inner@));
        r
    }
}

} // verus!
