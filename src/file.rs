//! The on-disk container: a fixed header, then an append-only body of blobs,
//! each padded to whole 8-byte words, with a mark word after each committed
//! root. The mark in word slot `i` of the body holds the complement of `i`,
//! so a stray or half-written word is not taken for a mark.
use std::sync::Arc;
use vstd::bytes::{spec_u64_from_le_bytes, spec_u64_to_le_bytes, u64_from_le_bytes, u64_to_le_bytes};
use vstd::prelude::*;
use vstd::slice::slice_subrange;

use crate::marshal::{zeros, write_padding, Decode, Encode};
use crate::offset::{Offset, OFFSET_MAX};
use crate::save::SaveError;

verus! {

/// Bytes in one mark, and the alignment of every blob in the body.
pub const MARK_SIZE: usize = 8;

/// Bytes in the file header.
pub const HEADER_SIZE: usize = 16;

/// The first word of every header.
pub const HEADER_MAGIC: u64 = 0x6472_616f_68;

/// The format version written into new headers.
pub const HEADER_VERSION: u64 = 1;

/// `n` rounded up to whole words.
pub open spec fn padded_len(n: nat) -> nat {
    ((n + 7) / 8 * 8) as nat
}

/// The word that a valid mark in slot `idx` holds: the complement of `idx`.
pub open spec fn mark_word(idx: int) -> u64 {
    (u64::MAX - idx) as u64
}

/// The mark slot `idx` of `body` is in range and holds its mark word.
pub open spec fn mark_valid(body: Seq<u8>, idx: int) -> bool {
    &&& 0 <= idx
    &&& 8 * idx + 8 <= body.len()
    &&& spec_u64_from_le_bytes(body.subrange(8 * idx, 8 * idx + 8)) == mark_word(idx)
}

/// The valid mark slots in `front..back`, lowest first.
pub open spec fn marks_forward(body: Seq<u8>, front: int, back: int) -> Seq<int>
    decreases back - front,
{
    if front >= back {
        Seq::empty()
    } else if mark_valid(body, front) {
        seq![front] + marks_forward(body, front + 1, back)
    } else {
        marks_forward(body, front + 1, back)
    }
}

/// The valid mark slots in `front..back`, highest first.
pub open spec fn marks_backward(body: Seq<u8>, front: int, back: int) -> Seq<int>
    decreases back - front,
{
    if front >= back {
        Seq::empty()
    } else if mark_valid(body, back - 1) {
        seq![back - 1] + marks_backward(body, front, back - 1)
    } else {
        marks_backward(body, front, back - 1)
    }
}

proof fn lemma_forward_last(body: Seq<u8>, front: int, back: int)
    requires
        front < back,
    ensures
        marks_forward(body, front, back) == if mark_valid(body, back - 1) {
            marks_forward(body, front, back - 1).push(back - 1)
        } else {
            marks_forward(body, front, back - 1)
        },
    decreases back - front,
{
    if front + 1 < back {
        lemma_forward_last(body, front + 1, back);
        if mark_valid(body, front) {
            assert(seq![front] + marks_forward(body, front + 1, back - 1).push(back - 1) =~= (seq![
                front,
            ] + marks_forward(body, front + 1, back - 1)).push(back - 1));
        }
    } else {
        assert(marks_forward(body, front + 1, back) =~= Seq::<int>::empty());
        assert(marks_forward(body, front, back - 1) =~= Seq::<int>::empty());
        if mark_valid(body, front) {
            assert(seq![front] + Seq::<int>::empty() =~= Seq::<int>::empty().push(front));
        }
    }
}

/// Scanning the mark slots from the back finds the same marks as scanning
/// from the front, in reverse order.
pub proof fn lemma_roots_symmetric(body: Seq<u8>, front: int, back: int)
    ensures
        marks_backward(body, front, back) == marks_forward(body, front, back).reverse(),
    decreases back - front,
{
    if front < back {
        lemma_roots_symmetric(body, front, back - 1);
        lemma_forward_last(body, front, back);
        let f = marks_forward(body, front, back - 1);
        if mark_valid(body, back - 1) {
            assert(f.push(back - 1).reverse() =~= seq![back - 1] + f.reverse());
        }
    } else {
        assert(marks_forward(body, front, back).reverse() =~= Seq::<int>::empty());
    }
}

/// The header that opens every file: a magic word and a format version.
#[derive(Debug, Clone, Copy, PartialEq, Eq, Structural)]
pub struct FileHeader {
    pub magic: u64,
    pub version: u64,
}

impl FileHeader {
    pub fn new() -> (r: FileHeader)
        ensures
            r.magic == HEADER_MAGIC,
            r.version == HEADER_VERSION,
    {
        FileHeader { magic: HEADER_MAGIC, version: HEADER_VERSION }
    }

    /// The header's bytes: both words, little-endian.
    pub open spec fn spec_bytes(self) -> Seq<u8> {
        spec_u64_to_le_bytes(self.magic) + spec_u64_to_le_bytes(self.version)
    }

    pub fn to_bytes(&self) -> (r: Vec<u8>)
        ensures
            r@ == self.spec_bytes(),
            r@.len() == HEADER_SIZE,
    {
        proof {
            vstd::bytes::lemma_auto_spec_u64_to_from_le_bytes();
        }
        let mut r = u64_to_le_bytes(self.magic);
        let mut v = u64_to_le_bytes(self.version);
        r.append(&mut v);
        r
    }

    /// Reads a header from the start of a file; `None` when the file is
    /// shorter than a header.
    pub fn read(bytes: &[u8]) -> (r: Option<FileHeader>)
        ensures
            r is Some <==> bytes@.len() >= HEADER_SIZE,
            r matches Some(h) ==> h.magic == spec_u64_from_le_bytes(bytes@.subrange(0, 8))
                && h.version == spec_u64_from_le_bytes(bytes@.subrange(8, 16)),
    {
        if bytes.len() < HEADER_SIZE {
            None
        } else {
            let magic = u64_from_le_bytes(slice_subrange(bytes, 0, 8));
            let version = u64_from_le_bytes(slice_subrange(bytes, 8, 16));
            Some(FileHeader { magic, version })
        }
    }
}

/// Why a value could not be read at an offset of a snapshot.
#[derive(Debug, PartialEq, Eq)]
pub enum LoadError<E> {
    /// The blob of `size` bytes at `offset` does not lie within the view.
    Ptr { offset: u64, size: usize },
    /// The blob failed validation.
    Value(E),
}

/// A read-only view of the first `len` bytes of a shared mapping, from
/// `start` on. Views can be narrowed, never widened.
pub struct Snapshot {
    mapping: Arc<Vec<u8>>,
    start: usize,
    len: usize,
}

impl View for Snapshot {
    type V = Seq<u8>;

    closed spec fn view(&self) -> Seq<u8> {
        self.mapping@.subrange(self.start as int, self.start + self.len)
    }
}

impl Snapshot {
    pub closed spec fn wf(&self) -> bool {
        self.start + self.len <= self.mapping@.len()
    }

    /// The view of `mapping` from `start` to its end.
    pub fn new(mapping: Arc<Vec<u8>>, start: usize) -> (r: Option<Snapshot>)
        ensures
            r is Some <==> start <= mapping@.len(),
            r matches Some(s) ==> s.wf() && s@ == mapping@.subrange(
                start as int,
                mapping@.len() as int,
            ),
    {
        let n = mapping.len();
        if start <= n {
            Some(Snapshot { mapping, start, len: n - start })
        } else {
            None
        }
    }

    pub fn len(&self) -> (r: usize)
        requires
            self.wf(),
        ensures
            r == self@.len(),
    {
        self.len
    }

    /// The bytes of the view.
    pub fn bytes(&self) -> (r: &[u8])
        requires
            self.wf(),
        ensures
            r@ == self@,
    {
        let all = self.mapping.as_slice();
        assert(all.len() == all@.len());
        slice_subrange(all, self.start, self.start + self.len)
    }

    /// Narrows the view to its first `len` bytes; a longer `len` changes
    /// nothing.
    pub fn truncate(&mut self, len: usize)
        requires
            old(self).wf(),
        ensures
            final(self).wf(),
            final(self)@ == if len < old(self)@.len() {
                old(self)@.subrange(0, len as int)
            } else {
                old(self)@
            },
    {
        if len < self.len {
            self.len = len;
        }
    }

    /// Another view of the same bytes, sharing the mapping.
    pub fn share(&self) -> (r: Snapshot)
        requires
            self.wf(),
        ensures
            r.wf(),
            r@ == self@,
    {
        Snapshot { mapping: self.mapping.clone(), start: self.start, len: self.len }
    }

    /// Resolves `offset` in this view: the blob of a `T` there is
    /// validated, and decoded only if it passes.
    pub fn load<T: Decode>(&self, offset: Offset) -> (r: Result<T, LoadError<T::Error>>)
        requires
            self.wf(),
            offset.wf(),
            T::layout_spec().fits(),
        ensures
            ({
                let o = offset.spec_get() as int;
                let size = T::layout_spec().size as int;
                if o + size > self@.len() {
                    r == Err::<T, LoadError<T::Error>>(
                        LoadError::Ptr { offset: offset.spec_get(), size: size as usize },
                    )
                } else {
                    let blob = self@.subrange(o, o + size);
                    match T::validate_spec(blob) {
                        Ok(()) => r == Ok::<T, LoadError<T::Error>>(T::decode_spec(blob)),
                        Err(e) => r == Err::<T, LoadError<T::Error>>(LoadError::Value(e)),
                    }
                }
            }),
    {
        let size = T::blob_layout().size();
        let o = offset.get();
        let len = self.len;
        if o > len as u64 || size > len - (o as usize) {
            return Err(LoadError::Ptr { offset: o, size });
        }
        let start = o as usize;
        let blob = slice_subrange(self.bytes(), start, start + size);
        match T::validate_blob(blob) {
            Ok(()) => Ok(T::decode_blob(blob)),
            Err(e) => Err(LoadError::Value(e)),
        }
    }

    /// Whether mark slot `idx` holds a valid mark.
    pub fn is_mark(&self, idx: usize) -> (r: bool)
        requires
            self.wf(),
        ensures
            r == mark_valid(self@, idx as int),
    {
        if idx >= self.len / MARK_SIZE {
            return false;
        }
        let bytes = self.bytes();
        let at = idx * MARK_SIZE;
        let word = u64_from_le_bytes(slice_subrange(bytes, at, at + MARK_SIZE));
        word == u64::MAX - (idx as u64)
    }

    /// The byte offsets of all valid marks, lowest first.
    pub fn mark_offsets(&self) -> (r: Vec<usize>)
        requires
            self.wf(),
        ensures
            r@.len() == marks_forward(self@, 0, (self@.len() / 8) as int).len(),
            forall|k: int|
                0 <= k < r@.len() ==> r@[k] == 8 * #[trigger] marks_forward(
                    self@,
                    0,
                    (self@.len() / 8) as int,
                )[k],
    {
        let mut iter = IterRoots { snapshot: self.share(), idx_front: 0, idx_back: self.len / MARK_SIZE, root_size: 0 };
        iter.collect_offsets()
    }
}

/// A committed root: the view up to (not including) its mark.
pub struct Root {
    snapshot: Snapshot,
    size: usize,
}

impl Root {
    pub closed spec fn view(&self) -> Seq<u8> {
        self.snapshot@
    }

    /// Bytes in the root value's blob.
    pub closed spec fn size(&self) -> nat {
        self.size as nat
    }

    pub closed spec fn wf(&self) -> bool {
        &&& self.snapshot.wf()
        &&& padded_len(self.size as nat) <= self.snapshot@.len()
    }

    /// The byte offset, in the body, of the root's blob: it was the last
    /// blob written before the mark.
    pub open spec fn blob_offset(&self) -> int {
        self.view().len() - padded_len(self.size())
    }

    /// The offset of the mark that ends this root.
    pub fn mark_offset(&self) -> (r: usize)
        requires
            self.wf(),
        ensures
            r == self.view().len(),
    {
        self.snapshot.len()
    }

    /// Validates the root's blob as a value of type `T`, and decodes it.
    pub fn validate<T: Decode>(&self) -> (r: Result<T, T::Error>)
        requires
            self.wf(),
            T::layout_spec().size == self.size(),
        ensures
            ({
                let blob = self.view().subrange(
                    self.blob_offset(),
                    self.blob_offset() + self.size(),
                );
                match T::validate_spec(blob) {
                    Ok(()) => r == Ok::<T, T::Error>(T::decode_spec(blob)),
                    Err(e) => r == Err::<T, T::Error>(e),
                }
            }),
    {
        let bytes = self.snapshot.bytes();
        let n = bytes.len();
        let padded = (self.size + 7) / 8 * 8;
        let start = n - padded;
        let blob = slice_subrange(bytes, start, start + self.size);
        match T::validate_blob(blob) {
            Ok(()) => Ok(T::decode_blob(blob)),
            Err(e) => Err(e),
        }
    }
}

/// The committed roots of a snapshot, scanned from either end. Slots in
/// `idx_front..idx_back` remain; slots too close to the start of the body to
/// follow a root blob are never tested.
pub struct IterRoots {
    snapshot: Snapshot,
    idx_front: usize,
    idx_back: usize,
    root_size: usize,
}

impl IterRoots {
    pub closed spec fn body(&self) -> Seq<u8> {
        self.snapshot@
    }

    pub closed spec fn front(&self) -> int {
        self.idx_front as int
    }

    pub closed spec fn back(&self) -> int {
        self.idx_back as int
    }

    /// Bytes in a root blob.
    pub closed spec fn root_size(&self) -> nat {
        self.root_size as nat
    }

    pub closed spec fn wf(&self) -> bool {
        &&& self.snapshot.wf()
        &&& self.idx_back <= self.snapshot@.len() / 8
        &&& padded_len(self.root_size as nat) <= 8 * self.idx_front
    }

    /// The valid mark slots that remain, lowest first.
    pub open spec fn remaining(&self) -> Seq<int> {
        marks_forward(self.body(), self.front(), self.back())
    }

    /// All mark slots of `snapshot` that could end a root of type `T`.
    pub fn new<T: Encode>(snapshot: Snapshot) -> (r: IterRoots)
        requires
            snapshot.wf(),
            T::layout_spec().fits(),
        ensures
            r.wf(),
            r.body() == snapshot@,
            r.root_size() == T::layout_spec().size,
            r.back() == snapshot@.len() / 8,
            r.front() == padded_len(T::layout_spec().size) / 8,
    {
        let size = T::blob_layout().size();
        let n = snapshot.len();
        let front = if size % MARK_SIZE == 0 {
            size / MARK_SIZE
        } else {
            size / MARK_SIZE + 1
        };
        assert(front == padded_len(size as nat) / 8) by (nonlinear_arith)
            requires
                front as int == if size % 8 == 0 {
                    size as int / 8
                } else {
                    size as int / 8 + 1
                },
        ;
        IterRoots {
            idx_front: front,
            idx_back: n / MARK_SIZE,
            root_size: size,
            snapshot,
        }
    }

    fn root_at(&self, idx: usize) -> (r: Root)
        requires
            self.wf(),
            idx < self.body().len() / 8,
            padded_len(self.root_size()) <= 8 * idx,
        ensures
            r.wf(),
            r.view() == self.body().subrange(0, 8 * idx),
            r.view().len() == 8 * idx,
            r.size() == self.root_size(),
    {
        let mut snapshot = self.snapshot.share();
        snapshot.truncate(idx * MARK_SIZE);
        Root { snapshot, size: self.root_size }
    }

    /// The lowest remaining valid mark, as a root; slots scanned are used up.
    pub fn next(&mut self) -> (r: Option<Root>)
        requires
            old(self).wf(),
        ensures
            final(self).wf(),
            final(self).body() == old(self).body(),
            final(self).root_size() == old(self).root_size(),
            final(self).back() == old(self).back(),
            match r {
                None => old(self).remaining().len() == 0 && final(self).remaining().len() == 0,
                Some(root) => {
                    &&& old(self).remaining().len() > 0
                    &&& root.wf()
                    &&& root.size() == old(self).root_size()
                    &&& root.view() == old(self).body().subrange(0, 8 * old(self).remaining()[0])
                    &&& root.view().len() == 8 * old(self).remaining()[0]
                    &&& final(self).remaining() == old(self).remaining().drop_first()
                },
            },
    {
        while self.idx_front < self.idx_back
            invariant
                self.wf(),
                self.body() == old(self).body(),
                self.root_size() == old(self).root_size(),
                self.back() == old(self).back(),
                self.remaining() == old(self).remaining(),
            decreases self.idx_back - self.idx_front,
        {
            let idx = self.idx_front;
            self.idx_front = self.idx_front + 1;
            if self.snapshot.is_mark(idx) {
                let root = self.root_at(idx);
                assert(old(self).remaining() == seq![idx as int] + self.remaining());
                assert(old(self).remaining().drop_first() =~= self.remaining());
                return Some(root);
            }
        }
        None
    }

    /// The highest remaining valid mark, as a root; slots scanned are used up.
    pub fn next_back(&mut self) -> (r: Option<Root>)
        requires
            old(self).wf(),
        ensures
            final(self).wf(),
            final(self).body() == old(self).body(),
            final(self).root_size() == old(self).root_size(),
            final(self).front() == old(self).front(),
            match r {
                None => old(self).remaining().len() == 0 && final(self).remaining().len() == 0,
                Some(root) => {
                    &&& old(self).remaining().len() > 0
                    &&& root.wf()
                    &&& root.size() == old(self).root_size()
                    &&& root.view() == old(self).body().subrange(
                        0,
                        8 * old(self).remaining().last(),
                    )
                    &&& root.view().len() == 8 * old(self).remaining().last()
                    &&& final(self).remaining() == old(self).remaining().drop_last()
                },
            },
    {
        while self.idx_front < self.idx_back
            invariant
                self.wf(),
                self.body() == old(self).body(),
                self.root_size() == old(self).root_size(),
                self.front() == old(self).front(),
                self.remaining() == old(self).remaining(),
            decreases self.idx_back - self.idx_front,
        {
            self.idx_back = self.idx_back - 1;
            let idx = self.idx_back;
            proof {
                lemma_forward_last(self.body(), self.front(), idx + 1);
            }
            if self.snapshot.is_mark(idx) {
                let root = self.root_at(idx);
                assert(old(self).remaining() == self.remaining().push(idx as int));
                assert(old(self).remaining().drop_last() =~= self.remaining());
                return Some(root);
            }
        }
        None
    }

    /// The byte offsets of the remaining marks, lowest first.
    pub fn collect_offsets(&mut self) -> (r: Vec<usize>)
        requires
            old(self).wf(),
        ensures
            r@.len() == old(self).remaining().len(),
            forall|k: int|
                0 <= k < r@.len() ==> r@[k] == 8 * #[trigger] old(self).remaining()[k],
    {
        let mut r: Vec<usize> = Vec::new();
        loop
            invariant
                self.wf(),
                self.body() == old(self).body(),
                r@.len() + self.remaining().len() == old(self).remaining().len(),
                forall|k: int| 0 <= k < r@.len() ==> r@[k] == 8 * #[trigger] old(self).remaining()[k],
                forall|k: int|
                    0 <= k < self.remaining().len() ==> #[trigger] self.remaining()[k] == old(
                        self,
                    ).remaining()[r@.len() + k],
            ensures
                r@.len() == old(self).remaining().len(),
                forall|k: int| 0 <= k < r@.len() ==> r@[k] == 8 * #[trigger] old(self).remaining()[k],
            decreases self.remaining().len(),
        {
            let ghost before = self.remaining();
            match self.next() {
                Some(root) => {
                    assert(before[0] == old(self).remaining()[r@.len() as int]);
                    r.push(root.mark_offset());
                },
                None => {
                    break ;
                },
            }
        }
        r
    }

    /// The byte offsets of the remaining marks, highest first.
    pub fn collect_offsets_back(&mut self) -> (r: Vec<usize>)
        requires
            old(self).wf(),
        ensures
            r@.len() == marks_backward(old(self).body(), old(self).front(), old(self).back()).len(),
            forall|k: int|
                0 <= k < r@.len() ==> r@[k] == 8 * #[trigger] marks_backward(
                    old(self).body(),
                    old(self).front(),
                    old(self).back(),
                )[k],
    {
        proof {
            lemma_roots_symmetric(self.body(), self.front(), self.back());
        }
        let mut r: Vec<usize> = Vec::new();
        loop
            invariant
                self.wf(),
                self.body() == old(self).body(),
                r@.len() + self.remaining().len() == old(self).remaining().len(),
                forall|k: int|
                    0 <= k < r@.len() ==> r@[k] == 8 * #[trigger] old(self).remaining().reverse()[k],
                forall|k: int|
                    0 <= k < self.remaining().len() ==> #[trigger] self.remaining()[k] == old(
                        self,
                    ).remaining()[k],
            ensures
                r@.len() == old(self).remaining().len(),
                forall|k: int|
                    0 <= k < r@.len() ==> r@[k] == 8 * #[trigger] old(self).remaining().reverse()[k],
            decreases self.remaining().len(),
        {
            let ghost before = self.remaining();
            match self.next_back() {
                Some(root) => {
                    assert(before.last() == old(self).remaining().reverse()[r@.len() as int]);
                    r.push(root.mark_offset());
                },
                None => {
                    break ;
                },
            }
        }
        r
    }
}

/// An append-only write of blobs after `base` committed body bytes. Every
/// blob starts on a word boundary; an empty blob takes no space.
pub struct Tx {
    base: u64,
    pending: Vec<u8>,
}

impl Tx {
    /// Where the next blob goes.
    pub closed spec fn end(&self) -> nat {
        (self.base + self.pending@.len()) as nat
    }

    pub closed spec fn base(&self) -> nat {
        self.base as nat
    }

    /// The bytes written so far, not yet committed.
    pub closed spec fn pending(&self) -> Seq<u8> {
        self.pending@
    }

    pub closed spec fn wf(&self) -> bool {
        &&& self.base % 8 == 0
        &&& self.pending@.len() % 8 == 0
        &&& self.base + self.pending@.len() <= OFFSET_MAX
    }

    /// The end follows the committed and pending bytes, within range.
    pub proof fn lemma_end(&self)
        ensures
            self.end() == self.base() + self.pending().len(),
            self.wf() ==> self.end() <= OFFSET_MAX && self.base() % 8 == 0 && self.pending().len()
                % 8 == 0,
    {
    }

    /// A write after a body of `base` bytes (a whole number of words).
    pub fn new(base: u64) -> (r: Tx)
        requires
            base % 8 == 0,
            base <= OFFSET_MAX,
        ensures
            r.wf(),
            r.base() == base,
            r.end() == base,
            r.pending() == Seq::<u8>::empty(),
    {
        Tx { base, pending: Vec::new() }
    }

    pub fn end_offset(&self) -> (r: u64)
        requires
            self.wf(),
        ensures
            r == self.end(),
    {
        self.base + self.pending.len() as u64
    }

    /// Appends `blob`, padded with zeros to whole words, and returns its
    /// offset in the body: the end before the call. An empty blob reports
    /// that offset and takes no space. A blob that would end past the
    /// largest offset is refused and nothing is written.
    pub fn write_blob(&mut self, blob: &[u8]) -> (r: Result<u64, SaveError>)
        requires
            old(self).wf(),
        ensures
            final(self).wf(),
            final(self).base() == old(self).base(),
            r is Err <==> old(self).end() + padded_len(blob@.len()) > OFFSET_MAX,
            match r {
                Ok(o) => {
                    &&& o == old(self).end()
                    &&& final(self).pending() == old(self).pending() + blob@ + zeros(
                        (padded_len(blob@.len()) - blob@.len()) as nat,
                    )
                    &&& final(self).end() == old(self).end() + padded_len(blob@.len())
                },
                Err(e) => {
                    &&& e == SaveError::OutOfRange(blob@.len() as u64)
                    &&& final(self).pending() == old(self).pending()
                },
            },
    {
        let offset = self.base + self.pending.len() as u64;
        let n = blob.len();
        let n64 = n as u64;
        if n64 > OFFSET_MAX - offset {
            return Err(SaveError::OutOfRange(n64));
        }
        let padded = (n64 + 7) / 8 * 8;
        if padded > OFFSET_MAX - offset {
            return Err(SaveError::OutOfRange(n64));
        }
        let pad = (padded - n64) as usize;
        let mut i: usize = 0;
        while i < n
            invariant
                i <= n,
                n == blob@.len(),
                self.base == old(self).base,
                self.pending@ == old(self).pending@ + blob@.subrange(0, i as int),
            decreases n - i,
        {
            self.pending.push(blob[i]);
            i += 1;
            assert(self.pending@ =~= old(self).pending@ + blob@.subrange(0, i as int));
        }
        assert(blob@.subrange(0, n as int) =~= blob@);
        write_padding(&mut self.pending, pad);
        Ok(offset)
    }

    /// Ends the write with a mark in the slot after the last blob, and
    /// returns every byte to append to the body.
    pub fn commit(self) -> (r: Vec<u8>)
        requires
            self.wf(),
        ensures
            r@ == self.pending() + spec_u64_to_le_bytes(mark_word((self.end() / 8) as int)),
    {
        let idx = (self.base + self.pending.len() as u64) / 8;
        let mut pending = self.pending;
        let mut mark = u64_to_le_bytes(u64::MAX - idx);
        pending.append(&mut mark);
        pending
    }
}

/// After a commit, the mark ends the body and is valid in its slot.
pub proof fn lemma_commit_mark(body: Seq<u8>, appended: Seq<u8>, pending: Seq<u8>)
    requires
        body.len() % 8 == 0,
        pending.len() % 8 == 0,
        appended == pending + spec_u64_to_le_bytes(mark_word(((body.len() + pending.len()) / 8) as int)),
    ensures
        mark_valid(body + appended, ((body.len() + pending.len()) / 8) as int),
{
    vstd::bytes::lemma_auto_spec_u64_to_from_le_bytes();
    let all = body + appended;
    let idx = ((body.len() + pending.len()) / 8) as int;
    assert(all.subrange(8 * idx, 8 * idx + 8) =~= spec_u64_to_le_bytes(mark_word(idx)));
}

/// An opened store: the header and the mapped bytes of the whole file.
pub struct Hoard {
    header: FileHeader,
    mapping: Arc<Vec<u8>>,
}

impl Hoard {
    pub closed spec fn bytes(&self) -> Seq<u8> {
        self.mapping@
    }

    pub closed spec fn header_spec(&self) -> FileHeader {
        self.header
    }

    /// Opens the bytes of a whole file; `None` when they hold no header.
    pub fn open_bytes(mapping: Arc<Vec<u8>>) -> (r: Option<Hoard>)
        ensures
            r is Some <==> mapping@.len() >= HEADER_SIZE,
            r matches Some(h) ==> {
                &&& h.bytes() == mapping@
                &&& h.header_spec().magic == spec_u64_from_le_bytes(mapping@.subrange(0, 8))
                &&& h.header_spec().version == spec_u64_from_le_bytes(mapping@.subrange(8, 16))
            },
    {
        match FileHeader::read(mapping.as_slice()) {
            Some(header) => Some(Hoard { header, mapping }),
            None => None,
        }
    }

    pub fn header(&self) -> (r: FileHeader)
        ensures
            r == self.header_spec(),
    {
        self.header
    }

    /// The body: every byte after the header.
    pub fn snapshot(&self) -> (r: Snapshot)
        requires
            self.bytes().len() >= HEADER_SIZE,
        ensures
            r.wf(),
            r@ == self.bytes().subrange(HEADER_SIZE as int, self.bytes().len() as int),
    {
        let n = self.mapping.len();
        Snapshot { mapping: self.mapping.clone(), start: HEADER_SIZE, len: n - HEADER_SIZE }
    }

    /// The committed roots of a type `T`.
    pub fn roots<T: Encode>(&self) -> (r: IterRoots)
        requires
            self.bytes().len() >= HEADER_SIZE,
            T::layout_spec().fits(),
        ensures
            r.wf(),
            r.body() == self.bytes().subrange(HEADER_SIZE as int, self.bytes().len() as int),
            r.front() == padded_len(T::layout_spec().size) / 8,
            r.back() == r.body().len() / 8,
    {
        IterRoots::new::<T>(self.snapshot())
    }
}

} // verus!
