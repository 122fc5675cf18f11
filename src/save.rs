//! Flushing a graph of transient values to an append-only body, children
//! before parents, each value once. A value's blob is its bytes followed by
//! the encoded offset of each value it points to, so a parent can only be
//! written once every child it points to has an offset.
use vstd::bytes::{spec_u64_to_le_bytes, u64_to_le_bytes};
use vstd::prelude::*;

use crate::file::{padded_len, Tx};
use crate::heap::{addr_slot, Heap, NodeView, ZERO_SIZE_ADDR};
use crate::marshal::Encode;
use crate::offset::{offset_word, Kind, Offset, OffsetMut, OFFSET_MAX};

verus! {

/// A write needed more room than the largest offset leaves.
#[derive(Debug, Clone, Copy, PartialEq, Eq, Structural)]
pub enum SaveError {
    /// The blob of this many bytes would end past the largest offset.
    OutOfRange(u64),
}

/// The value in a live slot (arbitrary for a free one).
pub open spec fn node_at(heap: Seq<Option<NodeView>>, s: int) -> NodeView {
    match heap[s] {
        Some(n) => n,
        None => arbitrary(),
    }
}

/// Slot `s` and every transient value reachable from it are live.
pub open spec fn live_from(heap: Seq<Option<NodeView>>, s: int) -> bool
    decreases s,
    when s >= 0
{
    &&& 0 <= s < heap.len()
    &&& heap[s] is Some
    &&& forall|k: int|
        #![trigger node_at(heap, s).children[k]]
        0 <= k < node_at(heap, s).children.len() ==> match node_at(
            heap,
            s,
        ).children[k].kind_spec() {
            Kind::Offset(_) => true,
            Kind::Ptr(a) => a == ZERO_SIZE_ADDR || (0 <= addr_slot(a) < s && live_from(
                heap,
                addr_slot(a),
            )),
        }
}

/// The offset a pointer stands for once saved: a persisted offset as it
/// is, a value of size zero at `at` (its empty blob takes no room), and a
/// transient value where it was written.
pub open spec fn resolve(written: Seq<Option<u64>>, c: OffsetMut, at: u64) -> u64 {
    match c.kind_spec() {
        Kind::Offset(o) => o.spec_get(),
        Kind::Ptr(a) => if a == ZERO_SIZE_ADDR {
            at
        } else {
            match written[addr_slot(a)] {
                Some(o) => o,
                None => 0,
            }
        },
    }
}

/// The pointer needs nothing written first.
pub open spec fn ready(written: Seq<Option<u64>>, c: OffsetMut) -> bool {
    match c.kind_spec() {
        Kind::Offset(_) => true,
        Kind::Ptr(a) => a == ZERO_SIZE_ADDR || (0 <= addr_slot(a) < written.len()
            && written[addr_slot(a)] is Some),
    }
}

/// The encoded offsets of `cs`, in order.
pub open spec fn child_words(cs: Seq<OffsetMut>, written: Seq<Option<u64>>, at: u64) -> Seq<u8>
    decreases cs.len(),
{
    if cs.len() == 0 {
        Seq::empty()
    } else {
        child_words(cs.drop_last(), written, at) + spec_u64_to_le_bytes(
            offset_word(resolve(written, cs.last(), at)),
        )
    }
}

/// The blob of value `n` written at `at`.
pub open spec fn node_blob(n: NodeView, written: Seq<Option<u64>>, at: u64) -> Seq<u8> {
    n.data + child_words(n.children, written, at)
}

/// Bytes in the blob of value `n`: its data, then one word per pointer.
pub open spec fn blob_len(n: NodeView) -> nat {
    n.data.len() + 8 * n.children.len()
}

proof fn lemma_child_words_len(cs: Seq<OffsetMut>, written: Seq<Option<u64>>, at: u64)
    ensures
        child_words(cs, written, at).len() == 8 * cs.len(),
    decreases cs.len(),
{
    if cs.len() > 0 {
        lemma_child_words_len(cs.drop_last(), written, at);
        vstd::bytes::lemma_auto_spec_u64_to_from_le_bytes();
    }
}

/// Room, in whole words, that writing every unwritten live value among
/// the first `n` slots takes.
pub open spec fn room_needed(heap: Seq<Option<NodeView>>, written: Seq<Option<u64>>, n: int) -> nat
    decreases n,
{
    if n <= 0 {
        0
    } else {
        room_needed(heap, written, n - 1) + if heap[n - 1] is Some && written[n - 1] is None {
            padded_len(blob_len(node_at(heap, n - 1)))
        } else {
            0
        }
    }
}

proof fn lemma_room_same(heap: Seq<Option<NodeView>>, w1: Seq<Option<u64>>, w2: Seq<Option<u64>>, n: int)
    requires
        forall|s: int| 0 <= s < n ==> #[trigger] w1[s] == w2[s],
    ensures
        room_needed(heap, w1, n) == room_needed(heap, w2, n),
    decreases n,
{
    if n > 0 {
        lemma_room_same(heap, w1, w2, n - 1);
        assert(w1[n - 1] == w2[n - 1]);
    }
}

proof fn lemma_room_write(heap: Seq<Option<NodeView>>, w: Seq<Option<u64>>, t: int, o: u64, n: int)
    requires
        0 <= t < n <= w.len(),
        heap[t] is Some,
        w[t] is None,
    ensures
        room_needed(heap, w.update(t, Some(o)), n) + padded_len(blob_len(node_at(heap, t)))
            == room_needed(heap, w, n),
    decreases n,
{
    let w2 = w.update(t, Some(o));
    if t < n - 1 {
        lemma_room_write(heap, w, t, o, n - 1);
        assert(w2[n - 1] == w[n - 1]);
    } else {
        assert forall|s: int| 0 <= s < n - 1 implies #[trigger] w2[s] == w[s] by {}
        lemma_room_same(heap, w2, w, n - 1);
    }
}

proof fn lemma_room_covers(heap: Seq<Option<NodeView>>, w: Seq<Option<u64>>, t: int, n: int)
    requires
        0 <= t < n,
        heap[t] is Some,
        w[t] is None,
    ensures
        padded_len(blob_len(node_at(heap, t))) <= room_needed(heap, w, n),
    decreases n,
{
    if t < n - 1 {
        lemma_room_covers(heap, w, t, n - 1);
    }
}

/// Slot `s` can be reached from the live slot `from` by following
/// transient pointers through live values.
pub open spec fn reaches(heap: Seq<Option<NodeView>>, from: int, s: int) -> bool
    decreases from,
    when from >= 0
{
    &&& 0 <= from < heap.len()
    &&& heap[from] is Some
    &&& (from == s || exists|k: int|
        #![trigger node_at(heap, from).children[k]]
        0 <= k < node_at(heap, from).children.len() && match node_at(
            heap,
            from,
        ).children[k].kind_spec() {
            Kind::Offset(_) => false,
            Kind::Ptr(a) => a != ZERO_SIZE_ADDR && 0 <= addr_slot(a) < from && reaches(
                heap,
                addr_slot(a),
                s,
            ),
        })
}

/// A live child of a reachable value is reachable.
proof fn lemma_reaches_child(heap: Seq<Option<NodeView>>, from: int, t: int, k: int, a: u64)
    requires
        0 <= from,
        reaches(heap, from, t),
        0 <= k < node_at(heap, t).children.len(),
        node_at(heap, t).children[k].kind_spec() == Kind::Ptr(a),
        a != ZERO_SIZE_ADDR,
        0 <= addr_slot(a) < t,
        addr_slot(a) < heap.len(),
        heap[addr_slot(a)] is Some,
    ensures
        reaches(heap, from, addr_slot(a)),
    decreases from,
{
    let cs = addr_slot(a);
    assert(reaches(heap, cs, cs));
    if from != t {
        let j = choose|j: int|
            #![trigger node_at(heap, from).children[j]]
            0 <= j < node_at(heap, from).children.len() && match node_at(
                heap,
                from,
            ).children[j].kind_spec() {
                Kind::Offset(_) => false,
                Kind::Ptr(b) => b != ZERO_SIZE_ADDR && 0 <= addr_slot(b) < from && reaches(
                    heap,
                    addr_slot(b),
                    t,
                ),
            };
        if let Kind::Ptr(b) = node_at(heap, from).children[j].kind_spec() {
            assert(0 <= addr_slot(b) < from);
            lemma_reaches_child(heap, addr_slot(b), t, k, a);
        }
    }
}

/// Slot `s` is reachable from the value that `root` points to.
pub open spec fn reached_from(heap: Seq<Option<NodeView>>, root: OffsetMut, s: int) -> bool {
    match root.kind_spec() {
        Kind::Ptr(a) => a != ZERO_SIZE_ADDR && reaches(heap, addr_slot(a), s),
        Kind::Offset(_) => false,
    }
}

/// Slot `s` was written: its blob lies in the body at its offset, and each
/// pointer in it refers back to an offset no later than its own.
pub open spec fn saved_slot(
    heap: Seq<Option<NodeView>>,
    written: Seq<Option<u64>>,
    base: nat,
    pending: Seq<u8>,
    s: int,
) -> bool {
    let o = match written[s] {
        Some(o) => o,
        None => 0,
    };
    let n = node_at(heap, s);
    let blob = node_blob(n, written, o);
    &&& heap[s] is Some
    &&& base <= o
    &&& o - base + blob.len() <= pending.len()
    &&& pending.subrange(o - base, o - base + blob.len()) == blob
    &&& forall|k: int|
        0 <= k < n.children.len() ==> ready(written, #[trigger] n.children[k]) && (
        n.children[k].kind_spec() is Ptr ==> resolve(written, n.children[k], o) <= o)
}

/// The offset recorded for slot `s` (0 while unwritten).
pub open spec fn written_at(written: Seq<Option<u64>>, s: int) -> u64 {
    match written[s] {
        Some(o) => o,
        None => 0,
    }
}

/// Every written slot is saved in the body.
pub open spec fn all_saved(
    heap: Seq<Option<NodeView>>,
    written: Seq<Option<u64>>,
    base: nat,
    pending: Seq<u8>,
) -> bool {
    &&& written.len() == heap.len()
    &&& forall|s: int|
        0 <= s < written.len() && #[trigger] written[s] is Some ==> saved_slot(
            heap,
            written,
            base,
            pending,
            s,
        )
}

/// How many slots are still unwritten.
pub open spec fn count_unwritten(written: Seq<Option<u64>>) -> nat
    decreases written.len(),
{
    if written.len() == 0 {
        0
    } else {
        count_unwritten(written.drop_last()) + if written.last() is None {
            1nat
        } else {
            0nat
        }
    }
}

proof fn lemma_count_write(written: Seq<Option<u64>>, i: int, o: u64)
    requires
        0 <= i < written.len(),
        written[i] is None,
    ensures
        count_unwritten(written.update(i, Some(o))) + 1 == count_unwritten(written),
    decreases written.len(),
{
    let w2 = written.update(i, Some(o));
    if i == written.len() - 1 {
        assert(w2.drop_last() =~= written.drop_last());
    } else {
        lemma_count_write(written.drop_last(), i, o);
        assert(w2.drop_last() =~= written.drop_last().update(i, Some(o)));
    }
}

/// Writing more slots leaves the blob of a value whose pointers were all
/// ready unchanged.
proof fn lemma_child_words_stable(
    cs: Seq<OffsetMut>,
    w1: Seq<Option<u64>>,
    w2: Seq<Option<u64>>,
    at: u64,
)
    requires
        w1.len() == w2.len(),
        forall|k: int| 0 <= k < cs.len() ==> ready(w1, #[trigger] cs[k]),
        forall|s: int| 0 <= s < w1.len() && #[trigger] w1[s] is Some ==> w2[s] == w1[s],
    ensures
        child_words(cs, w2, at) == child_words(cs, w1, at),
        forall|k: int| 0 <= k < cs.len() ==> resolve(w2, #[trigger] cs[k], at) == resolve(w1, cs[k], at),
    decreases cs.len(),
{
    if cs.len() > 0 {
        lemma_child_words_stable(cs.drop_last(), w1, w2, at);
        assert(ready(w1, cs[cs.len() - 1]));
        assert forall|k: int| 0 <= k < cs.len() implies resolve(w2, #[trigger] cs[k], at) == resolve(
            w1,
            cs[k],
            at,
        ) by {
            assert(ready(w1, cs[k]));
        }
    }
}

/// Where each slot of a heap went; `None` while unwritten.
pub struct Saver {
    written: Vec<Option<u64>>,
}

impl Saver {
    pub closed spec fn written(&self) -> Seq<Option<u64>> {
        self.written@
    }

    /// A saver for `heap` with nothing written yet.
    pub fn new(heap: &Heap) -> (r: Saver)
        requires
            heap.wf(),
        ensures
            r.written().len() == heap.view().len(),
            forall|s: int| 0 <= s < r.written().len() ==> #[trigger] r.written()[s] is None,
    {
        let n = heap.len();
        let mut written: Vec<Option<u64>> = Vec::new();
        let mut i: usize = 0;
        while i < n
            invariant
                i <= n,
                written@.len() == i,
                forall|s: int| 0 <= s < i ==> #[trigger] written@[s] is None,
            decreases n - i,
        {
            written.push(None);
            i += 1;
        }
        Saver { written }
    }

    /// Where `p` stands once saved, when nothing has to be written first;
    /// otherwise the slot to write first (the value is pending).
    pub fn encode_own(&self, p: &OffsetMut, at: u64) -> (r: Result<u64, usize>)
        requires
            p.valid(),
            ready(self.written(), *p) || (p.kind_spec() matches Kind::Ptr(a) && a
                != ZERO_SIZE_ADDR && 0 <= addr_slot(a) < self.written().len()),
        ensures
            match r {
                Ok(o) => ready(self.written(), *p) && o == resolve(self.written(), *p, at),
                Err(s) => !ready(self.written(), *p) && p.kind_spec() == Kind::Ptr(
                    (2 * s + 4) as u64,
                ) && s == addr_slot(p.word()),
            },
    {
        proof {
            p.lemma_kind();
        }
        match p.kind() {
            Kind::Offset(o) => Ok(o.get()),
            Kind::Ptr(a) => {
                if a == ZERO_SIZE_ADDR {
                    Ok(at)
                } else {
                    assert(self.written.len() == self.written@.len());
                    let s = (a / 2 - 2) as usize;
                    match self.written[s] {
                        Some(o) => Ok(o),
                        None => Err(s),
                    }
                }
            },
        }
    }

    /// The first pointer of the value in `slot` whose target is still
    /// unwritten, or `None` when the value can be written now.
    pub fn poll(&self, heap: &Heap, slot: usize) -> (r: Option<usize>)
        requires
            heap.wf(),
            self.written().len() == heap.view().len(),
            slot < heap.view().len(),
            heap.view()[slot as int] is Some,
        ensures
            match r {
                None => forall|k: int|
                    0 <= k < node_at(heap.view(), slot as int).children.len() ==> ready(
                        self.written(),
                        #[trigger] node_at(heap.view(), slot as int).children[k],
                    ),
                Some(c) => {
                    &&& c < slot
                    &&& self.written()[c as int] is None
                    &&& exists|k: int|
                        0 <= k < node_at(heap.view(), slot as int).children.len()
                            && #[trigger] node_at(heap.view(), slot as int).children[k].kind_spec()
                            == Kind::Ptr(slot_addr_of(c))
                },
            },
    {
        let node = heap.node(slot);
        let ghost n = node_at(heap.view(), slot as int);
        assert(Heap::node_ok(slot as int, n));
        let mut k: usize = 0;
        while k < node.children.len()
            invariant
                node@ == n,
                Heap::node_ok(slot as int, n),
                self.written().len() == heap.view().len(),
                slot < heap.view().len(),
                n == node_at(heap.view(), slot as int),
                k <= n.children.len(),
                forall|j: int| 0 <= j < k ==> ready(self.written(), #[trigger] n.children[j]),
            decreases node.children.len() - k,
        {
            let c = &node.children[k];
            assert(Heap::child_ok(slot as int, n.children[k as int]));
            match self.encode_own(c, 0) {
                Ok(_) => {},
                Err(s) => {
                    return Some(s);
                },
            }
            k += 1;
        }
        None
    }

    /// Writes the value in `slot`, whose pointers are all ready, and records
    /// its offset.
    fn write_node(&mut self, heap: &Heap, slot: usize, tx: &mut Tx) -> (r: Result<u64, SaveError>)
        requires
            heap.wf(),
            old(tx).wf(),
            slot < heap.view().len(),
            heap.view()[slot as int] is Some,
            old(self).written()[slot as int] is None,
            all_saved(heap.view(), old(self).written(), old(tx).base(), old(tx).pending()),
            forall|k: int|
                0 <= k < node_at(heap.view(), slot as int).children.len() ==> ready(
                    old(self).written(),
                    #[trigger] node_at(heap.view(), slot as int).children[k],
                ),
        ensures
            final(tx).wf(),
            final(tx).base() == old(tx).base(),
            old(tx).pending().is_prefix_of(final(tx).pending()),
            match r {
                Ok(o) => {
                    &&& o == old(tx).end()
                    &&& final(tx).end() == old(tx).end() + padded_len(
                        blob_len(node_at(heap.view(), slot as int)),
                    )
                    &&& final(self).written() == old(self).written().update(slot as int, Some(o))
                    &&& all_saved(
                        heap.view(),
                        final(self).written(),
                        final(tx).base(),
                        final(tx).pending(),
                    )
                },
                Err(SaveError::OutOfRange(need)) => {
                    &&& final(self).written() == old(self).written()
                    &&& final(tx).pending() == old(tx).pending()
                    &&& need == blob_len(node_at(heap.view(), slot as int))
                    &&& old(tx).end() + padded_len(need as nat) > OFFSET_MAX
                },
            },
    {
        let node = heap.node(slot);
        let ghost n = node_at(heap.view(), slot as int);
        let ghost w = self.written();
        assert(Heap::node_ok(slot as int, n));
        let at = tx.end_offset();
        proof {
            tx.lemma_end();
            assert forall|s: int| 0 <= s < w.len() && #[trigger] w[s] is Some implies written_at(
                w,
                s,
            ) <= at by {
                assert(saved_slot(heap.view(), w, tx.base(), tx.pending(), s));
            }
        }
        let mut buf: Vec<u8> = Vec::new();
        let mut i: usize = 0;
        while i < node.data.len()
            invariant
                node@ == n,
                i <= n.data.len(),
                buf@ == n.data.subrange(0, i as int),
            decreases node.data.len() - i,
        {
            buf.push(node.data[i]);
            i += 1;
            assert(buf@ =~= n.data.subrange(0, i as int));
        }
        assert(n.data.subrange(0, n.data.len() as int) =~= n.data);
        let mut k: usize = 0;
        while k < node.children.len()
            invariant
                node@ == n,
                self.written() == w,
                w.len() == heap.view().len(),
                at <= OFFSET_MAX,
                k <= n.children.len(),
                Heap::node_ok(slot as int, n),
                forall|j: int| 0 <= j < n.children.len() ==> ready(w, #[trigger] n.children[j]),
                forall|s: int|
                    0 <= s < w.len() && #[trigger] w[s] is Some ==> written_at(w, s) <= at,
                buf@ == n.data + child_words(n.children.subrange(0, k as int), w, at),
            decreases node.children.len() - k,
        {
            let c = &node.children[k];
            assert(ready(w, n.children[k as int]));
            assert(Heap::child_ok(slot as int, n.children[k as int]));
            let v = match self.encode_own(c, at) {
                Ok(v) => v,
                Err(_) => at,
            };
            proof {
                c.lemma_kind();
                if let Kind::Offset(o) = c.kind_spec() {
                    o.lemma_wf();
                }
                if let Kind::Ptr(a) = c.kind_spec() {
                    if a != ZERO_SIZE_ADDR {
                        assert(w[addr_slot(a)] is Some);
                    }
                }
            }
            let mut word = offset_bytes(v);
            buf.append(&mut word);
            proof {
                let cs = n.children.subrange(0, k + 1);
                assert(cs.drop_last() =~= n.children.subrange(0, k as int));
                assert(cs.last() == n.children[k as int]);
            }
            k += 1;
        }
        assert(n.children.subrange(0, n.children.len() as int) =~= n.children);
        let blen = buf.len();
        let o = match tx.write_blob(buf.as_slice()) {
            Ok(o) => o,
            Err(e) => {
                proof {
                    lemma_child_words_len(n.children, w, at);
                    assert(buf@.len() as u64 == buf@.len());
                    assert(self.written() == w);
                }
                return Err(e);
            },
        };
        self.written.set(slot, Some(o));
        proof {
            lemma_child_words_len(n.children, w, at);
            let w2 = self.written();
            assert(w2 == w.update(slot as int, Some(o)));
            let p0 = old(tx).pending();
            let p1 = tx.pending();
            assert(p1.subrange(p0.len() as int, (p0.len() + buf@.len()) as int) =~= buf@);
            assert(p0 =~= p1.subrange(0, p0.len() as int));
            lemma_saved_after_write(heap.view(), w, old(tx).base(), old(tx).pending(), tx.pending(), slot as int, o, buf@);
        }
        Ok(o)
    }
}

/// `w2` keeps every offset recorded in `w1`: slots are written once.
pub open spec fn extends(w1: Seq<Option<u64>>, w2: Seq<Option<u64>>) -> bool {
    &&& w1.len() == w2.len()
    &&& forall|s: int| 0 <= s < w1.len() && #[trigger] w1[s] is Some ==> w2[s] == w1[s]
}

/// The stack of pending slots: it starts at `first`, its slots decrease
/// (each is a child of the one below), and none of them is written yet.
pub open spec fn stack_ok(
    heap: Seq<Option<NodeView>>,
    written: Seq<Option<u64>>,
    stack: Seq<usize>,
    first: usize,
) -> bool {
    &&& first < heap.len()
    &&& written.len() == heap.len()
    &&& stack.len() > 0 ==> stack[0] == first
    &&& stack.len() == 0 ==> written[first as int] is Some
    &&& forall|i: int|
        0 <= i < stack.len() ==> #[trigger] stack[i] < heap.len() && written[stack[i] as int] is None
            && live_from(heap, stack[i] as int) && stack[i] + i <= first && reaches(
            heap,
            first as int,
            stack[i] as int,
        )
    &&& forall|i: int| 0 < i < stack.len() ==> #[trigger] stack[i] < stack[i - 1]
}

impl Saver {
    /// One round of the flush: the value on top of the stack is either
    /// written, when all it points to is written, or its first unwritten
    /// child is pushed.
    #[verifier::rlimit(30)]
    fn step(&mut self, heap: &Heap, stack: &mut Vec<usize>, first: usize, tx: &mut Tx) -> (r: Result<
        (),
        SaveError,
    >)
        requires
            heap.wf(),
            old(tx).wf(),
            old(stack)@.len() > 0,
            stack_ok(heap.view(), old(self).written(), old(stack)@, first),
            all_saved(heap.view(), old(self).written(), old(tx).base(), old(tx).pending()),
        ensures
            final(tx).wf(),
            final(tx).base() == old(tx).base(),
            old(tx).pending().is_prefix_of(final(tx).pending()),
            extends(old(self).written(), final(self).written()),
            match r {
                Ok(()) => {
                    &&& stack_ok(heap.view(), final(self).written(), final(stack)@, first)
                    &&& all_saved(
                        heap.view(),
                        final(self).written(),
                        final(tx).base(),
                        final(tx).pending(),
                    )
                    &&& (count_unwritten(final(self).written()) < count_unwritten(
                        old(self).written(),
                    ) || (final(self).written() == old(self).written() && final(stack)@.len()
                        == old(stack)@.len() + 1))
                    &&& forall|s: int|
                        0 <= s < old(self).written().len() && old(self).written()[s] is None
                            && #[trigger] final(self).written()[s] is Some ==> s == old(
                            stack,
                        )@.last() && written_at(final(self).written(), s) == old(tx).end()
                    &&& final(self).written() == old(self).written() ==> final(tx).pending()
                        == old(tx).pending()
                    &&& final(tx).end() + room_needed(
                        heap.view(),
                        final(self).written(),
                        heap.view().len() as int,
                    ) <= old(tx).end() + room_needed(
                        heap.view(),
                        old(self).written(),
                        heap.view().len() as int,
                    )
                },
                Err(SaveError::OutOfRange(need)) => {
                    &&& final(tx).end() + padded_len(need as nat) > OFFSET_MAX
                    &&& need == blob_len(node_at(heap.view(), old(stack)@.last() as int))
                    &&& final(self).written() == old(self).written()
                    &&& final(tx).pending() == old(tx).pending()
                },
            },
    {
        let top = stack[stack.len() - 1];
        let ghost before = self.written();
        let ghost st = stack@;
        assert(live_from(heap.view(), top as int));
        assert(before[top as int] is None);
        match self.poll(heap, top) {
            Some(c) => {
                proof {
                    let n = node_at(heap.view(), top as int);
                    let k = choose|k: int|
                        0 <= k < n.children.len() && #[trigger] n.children[k].kind_spec()
                            == Kind::Ptr(slot_addr_of(c));
                    assert(n.children[k].kind_spec() == Kind::Ptr(slot_addr_of(c)));
                    assert(addr_slot(slot_addr_of(c)) == c);
                    assert(live_from(heap.view(), c as int));
                    assert(reaches(heap.view(), first as int, top as int));
                    lemma_reaches_child(heap.view(), first as int, top as int, k, slot_addr_of(c));
                }
                stack.push(c);
                proof {
                    lemma_push_keeps_stack(heap.view(), self.written(), st, first, c);
                    assert(stack@ == st.push(c));
                }
                Ok(())
            },
            None => {
                let ghost tx_before = *tx;
                match self.write_node(heap, top, tx) {
                    Ok(o) => {
                        proof {
                            lemma_count_write(before, top as int, o);
                            lemma_room_write(heap.view(), before, top as int, o, heap.view().len() as int);
                            assert(self.written()[top as int] != before[top as int]);
                        }
                        stack.pop();
                        proof {
                            assert(stack@ =~= st.drop_last());
                            lemma_pop_keeps_stack(heap.view(), before, self.written(), st, first);
                        }
                        Ok(())
                    },
                    Err(e) => {
                        proof {
                            tx_before.lemma_end();
                            tx.lemma_end();
                        }
                        Err(e)
                    },
                }
            },
        }
    }

    /// Saves the value that `root` points to, and every unwritten value it
    /// reaches, into `tx`: each value once, every child before its parent.
    /// Work is driven from a stack of pending values. Returns the offset
    /// that stands for `root`.
    pub fn save(&mut self, heap: &Heap, root: &OffsetMut, tx: &mut Tx) -> (r: Result<u64, SaveError>)
        requires
            heap.wf(),
            old(tx).wf(),
            root.valid(),
            old(self).written().len() == heap.view().len(),
            all_saved(heap.view(), old(self).written(), old(tx).base(), old(tx).pending()),
            match root.kind_spec() {
                Kind::Ptr(a) => a != ZERO_SIZE_ADDR ==> live_from(heap.view(), addr_slot(a)),
                Kind::Offset(_) => true,
            },
        ensures
            final(tx).wf(),
            final(tx).base() == old(tx).base(),
            old(tx).pending().is_prefix_of(final(tx).pending()),
            final(self).written().len() == heap.view().len(),
            all_saved(heap.view(), final(self).written(), final(tx).base(), final(tx).pending()),
            extends(old(self).written(), final(self).written()),
            forall|s: int|
                0 <= s < old(self).written().len() && old(self).written()[s] is None
                    && #[trigger] final(self).written()[s] is Some ==> reached_from(
                    heap.view(),
                    *root,
                    s,
                ) && written_at(final(self).written(), s) >= old(tx).end(),
            final(self).written() == old(self).written() ==> final(tx).pending() == old(
                tx,
            ).pending(),
            old(tx).end() + room_needed(heap.view(), old(self).written(), heap.view().len() as int)
                <= OFFSET_MAX ==> r is Ok,
            match r {
                Ok(o) => ready(final(self).written(), *root) && o == resolve(
                    final(self).written(),
                    *root,
                    old(tx).end() as u64,
                ),
                Err(SaveError::OutOfRange(need)) => exists|s: int|
                    0 <= s < heap.view().len() && #[trigger] old(self).written()[s] is None
                        && final(self).written()[s] is None && live_from(heap.view(), s)
                        && reached_from(heap.view(), *root, s) && need == blob_len(
                        node_at(heap.view(), s),
                    ) && final(tx).end() + padded_len(need as nat) > OFFSET_MAX,
            },
    {
        proof {
            root.lemma_kind();
            tx.lemma_end();
        }
        let at = tx.end_offset();
        let first = match self.encode_own(root, at) {
            Ok(o) => {
                return Ok(o);
            },
            Err(s) => s,
        };
        let mut stack: Vec<usize> = Vec::new();
        stack.push(first);
        while stack.len() > 0
            invariant
                heap.wf(),
                tx.wf(),
                tx.base() == old(tx).base(),
                old(tx).pending().is_prefix_of(tx.pending()),
                extends(old(self).written(), self.written()),
                stack_ok(heap.view(), self.written(), stack@, first),
                all_saved(heap.view(), self.written(), tx.base(), tx.pending()),
                first == addr_slot(root.word()),
                root.kind_spec() == Kind::Ptr(slot_addr_of(first)),
                slot_addr_of(first) != ZERO_SIZE_ADDR,
                old(tx).end() == old(tx).base() + old(tx).pending().len(),
                forall|s: int|
                    0 <= s < old(self).written().len() && old(self).written()[s] is None
                        && #[trigger] self.written()[s] is Some ==> reaches(
                        heap.view(),
                        first as int,
                        s,
                    ) && written_at(self.written(), s) >= old(tx).end(),
                self.written() == old(self).written() ==> tx.pending() == old(tx).pending(),
                tx.end() + room_needed(heap.view(), self.written(), heap.view().len() as int)
                    <= old(tx).end() + room_needed(
                    heap.view(),
                    old(self).written(),
                    heap.view().len() as int,
                ),
            decreases count_unwritten(self.written()), heap.view().len() - stack@.len(),
        {
            proof {
                assert(stack@[stack@.len() - 1] + stack@.len() - 1 <= first);
            }
            let ghost w0 = self.written();
            let ghost p0 = tx.pending();
            let ghost b0 = tx.base();
            let ghost st = stack@;
            let ghost tx0 = *tx;
            proof {
                tx0.lemma_end();
            }
            assert(all_saved(heap.view(), w0, b0, p0));
            match self.step(heap, &mut stack, first, tx) {
                Ok(()) => {
                    proof {
                        tx.lemma_end();
                        if stack@.len() > 0 {
                            assert(stack@[stack@.len() - 1] + stack@.len() - 1 <= first);
                        }
                        let top = st.last() as int;
                        assert(reaches(heap.view(), first as int, st[st.len() - 1] as int));
                        assert forall|s: int|
                            0 <= s < old(self).written().len() && old(self).written()[s] is None
                                && #[trigger] self.written()[s] is Some implies reaches(
                                heap.view(),
                                first as int,
                                s,
                            ) && written_at(self.written(), s) >= old(tx).end() by {
                            if w0[s] is None {
                                assert(s == top);
                            } else {
                                assert(self.written()[s] == w0[s]);
                            }
                        }
                        if self.written() == old(self).written() {
                            assert forall|s: int| 0 <= s < w0.len() implies w0[s] == self.written()[s] by {
                                if w0[s] is Some {
                                    assert(self.written()[s] == w0[s]);
                                } else if self.written()[s] is Some {
                                    assert(old(self).written()[s] is Some);
                                    assert(false);
                                }
                            }
                            assert(w0 =~= self.written());
                        }
                    }
                },
                Err(e) => {
                    assert(self.written() == w0 && tx.pending() == p0);
                    proof {
                        let top = st.last() as int;
                        assert(st[st.len() - 1] < heap.view().len() && w0[st[st.len() - 1] as int] is None);
                        assert(old(self).written()[top] is None);
                        assert(reaches(heap.view(), first as int, top));
                        lemma_room_covers(heap.view(), w0, top, heap.view().len() as int);
                        tx0.lemma_end();
                        tx.lemma_end();
                        assert(tx.end() == tx0.end());
                    }
                    return Err(e);
                },
            }
        }
        match self.written[first] {
            Some(o) => Ok(o),
            None => Ok(at),
        }
    }
}

proof fn lemma_push_keeps_stack(
    heap: Seq<Option<NodeView>>,
    w: Seq<Option<u64>>,
    st: Seq<usize>,
    first: usize,
    c: usize,
)
    requires
        stack_ok(heap, w, st, first),
        st.len() > 0,
        c < st.last(),
        w[c as int] is None,
        live_from(heap, c as int),
        reaches(heap, first as int, c as int),
    ensures
        stack_ok(heap, w, st.push(c), first),
{
    let s2 = st.push(c);
    assert forall|i: int| 0 < i < s2.len() implies #[trigger] s2[i] < s2[i - 1] by {
        if i < st.len() {
            assert(st[i] < st[i - 1]);
        }
    }
    assert forall|i: int|
        0 <= i < s2.len() implies #[trigger] s2[i] < heap.len() && w[s2[i] as int] is None
            && live_from(heap, s2[i] as int) && s2[i] + i <= first && reaches(
            heap,
            first as int,
            s2[i] as int,
        ) by {
        if i < st.len() {
            assert(st[i] + i <= first);
        } else {
            assert(st[st.len() - 1] + st.len() - 1 <= first);
        }
    }
}

proof fn lemma_pop_keeps_stack(
    heap: Seq<Option<NodeView>>,
    w: Seq<Option<u64>>,
    w2: Seq<Option<u64>>,
    st: Seq<usize>,
    first: usize,
)
    requires
        stack_ok(heap, w, st, first),
        st.len() > 0,
        w2.len() == w.len(),
        w2[st.last() as int] is Some,
        forall|s: int| 0 <= s < w.len() && s != st.last() ==> #[trigger] w2[s] == w[s],
    ensures
        stack_ok(heap, w2, st.drop_last(), first),
{
    let s2 = st.drop_last();
    assert forall|i: int|
        0 <= i < s2.len() implies #[trigger] s2[i] < heap.len() && w2[s2[i] as int] is None
            && live_from(heap, s2[i] as int) && s2[i] + i <= first && reaches(
            heap,
            first as int,
            s2[i] as int,
        ) by {
        assert(st[i] == s2[i]);
        assert(st[i] + i <= first);
        lemma_decreasing(st, i, st.len() - 1);
    }
    assert forall|i: int| 0 < i < s2.len() implies #[trigger] s2[i] < s2[i - 1] by {
        assert(st[i] < st[i - 1]);
    }
}

proof fn lemma_decreasing(st: Seq<usize>, i: int, m: int)
    requires
        0 <= i < m < st.len(),
        forall|j: int| 0 < j < st.len() ==> #[trigger] st[j] < st[j - 1],
    ensures
        st[i] > st[m],
    decreases m - i,
{
    if m > i + 1 {
        lemma_decreasing(st, i, m - 1);
    }
}

proof fn lemma_saved_after_write(
    heap: Seq<Option<NodeView>>,
    w: Seq<Option<u64>>,
    base: nat,
    p_old: Seq<u8>,
    p_new: Seq<u8>,
    slot: int,
    o: u64,
    buf: Seq<u8>,
)
    requires
        all_saved(heap, w, base, p_old),
        0 <= slot < w.len(),
        w[slot] is None,
        heap[slot] is Some,
        o == base + p_old.len(),
        p_old.is_prefix_of(p_new),
        p_old.len() + buf.len() <= p_new.len(),
        p_new.subrange(p_old.len() as int, (p_old.len() + buf.len()) as int) == buf,
        buf == node_blob(node_at(heap, slot), w, o),
        forall|k: int|
            0 <= k < node_at(heap, slot).children.len() ==> ready(
                w,
                #[trigger] node_at(heap, slot).children[k],
            ),
        forall|k: int|
            0 <= k < node_at(heap, slot).children.len() && (#[trigger] node_at(
                heap,
                slot,
            ).children[k]).kind_spec() is Ptr ==> resolve(w, node_at(heap, slot).children[k], o)
                <= o,
    ensures
        all_saved(heap, w.update(slot, Some(o)), base, p_new),
{
    let w2 = w.update(slot, Some(o));
    assert forall|s: int| 0 <= s < w2.len() && #[trigger] w2[s] is Some implies saved_slot(
        heap,
        w2,
        base,
        p_new,
        s,
    ) by {
        let n = node_at(heap, s);
        let os = written_at(w2, s);
        if s == slot {
            lemma_child_words_stable(n.children, w, w2, o);
            assert(node_blob(n, w2, o) == buf);
            assert forall|k: int| 0 <= k < n.children.len() implies ready(
                w2,
                #[trigger] n.children[k],
            ) && (n.children[k].kind_spec() is Ptr ==> resolve(w2, n.children[k], o) <= o) by {
                assert(ready(w, n.children[k]));
            }
        } else {
            assert(w[s] is Some);
            assert(saved_slot(heap, w, base, p_old, s));
            assert forall|k: int| 0 <= k < n.children.len() implies ready(
                w,
                #[trigger] n.children[k],
            ) by {}
            lemma_child_words_stable(n.children, w, w2, os);
            let blob = node_blob(n, w, os);
            assert(p_new.subrange(os - base, os - base + blob.len()) =~= p_old.subrange(
                os - base,
                os - base + blob.len(),
            ));
            assert forall|k: int| 0 <= k < n.children.len() implies ready(
                w2,
                #[trigger] n.children[k],
            ) && (n.children[k].kind_spec() is Ptr ==> resolve(w2, n.children[k], os) <= os) by {
                assert(ready(w, n.children[k]));
            }
        }
    }
}

/// The address of slot `c`.
pub open spec fn slot_addr_of(c: usize) -> u64 {
    (2 * c + 4) as u64
}

/// The encoding of offset `v`.
fn offset_bytes(v: u64) -> (r: Vec<u8>)
    requires
        v <= OFFSET_MAX,
    ensures
        r@ == spec_u64_to_le_bytes(offset_word(v)),
{
    u64_to_le_bytes(2 * v + 1)
}

} // verus!
