//! The transient zone: values live in an arena of slots, addressed by even
//! words so that a dual-mode pointer can carry them. Slot `i` has address
//! `2 * i + 4`; the address 2 (the transient alignment) stands for any value
//! of size zero and is never allocated.
use vstd::prelude::*;

use crate::marshal::Encode;
use crate::offset::{Kind, Offset, OffsetMut, OFFSET_MAX};
use crate::save::{node_at, reaches};
use crate::zone::FatPtr;

verus! {

/// The address given to values of size zero; nothing is allocated for them.
pub const ZERO_SIZE_ADDR: u64 = 2;

/// The address of slot `i`.
pub open spec fn slot_addr(i: int) -> u64 {
    (2 * i + 4) as u64
}

/// The slot that address `a` names.
pub open spec fn addr_slot(a: u64) -> int {
    a / 2 - 2
}

/// Every slot of `cur` is free or as in `old`.
pub open spec fn view_le(cur: Seq<Option<NodeView>>, old: Seq<Option<NodeView>>) -> bool {
    &&& cur.len() == old.len()
    &&& forall|j: int| 0 <= j < old.len() ==> #[trigger] cur[j] is None || cur[j] == old[j]
}

/// The slot a pointer names, or -1 for a persisted or zero-size value.
pub open spec fn child_target(c: OffsetMut) -> int {
    match c.kind_spec() {
        Kind::Ptr(a) => if a != ZERO_SIZE_ADDR {
            addr_slot(a)
        } else {
            -1
        },
        Kind::Offset(_) => -1,
    }
}

/// Slots freed between `old` and `cur`, other than `i`, have had all they
/// reach freed too.
pub open spec fn freed_closed(old: Seq<Option<NodeView>>, cur: Seq<Option<NodeView>>, i: int) -> bool {
    forall|z: int, y: int|
        0 <= z < old.len() && z != i && old[z] is Some && cur[z] is None && #[trigger] reaches(
            old,
            z,
            y,
        ) ==> cur[y] is None
}

/// What is reachable in a heap with fewer live slots was reachable before.
proof fn lemma_reaches_mono(cur: Seq<Option<NodeView>>, old: Seq<Option<NodeView>>, a: int, y: int)
    requires
        view_le(cur, old),
        0 <= a,
        reaches(cur, a, y),
    ensures
        reaches(old, a, y),
    decreases a,
{
    assert(cur[a] == old[a]);
    if a != y {
        let m = choose|m: int|
            #![trigger node_at(cur, a).children[m]]
            0 <= m < node_at(cur, a).children.len() && match node_at(cur, a).children[m].kind_spec() {
                Kind::Offset(_) => false,
                Kind::Ptr(b) => b != ZERO_SIZE_ADDR && 0 <= addr_slot(b) < a && reaches(
                    cur,
                    addr_slot(b),
                    y,
                ),
            };
        if let Kind::Ptr(b) = node_at(cur, a).children[m].kind_spec() {
            lemma_reaches_mono(cur, old, addr_slot(b), y);
            assert(node_at(old, a).children[m] == node_at(cur, a).children[m]);
        }
    }
}

/// Only slots at or below a live slot can be reached from it.
proof fn lemma_reaches_range(h: Seq<Option<NodeView>>, a: int, y: int)
    requires
        0 <= a,
        reaches(h, a, y),
    ensures
        0 <= y <= a < h.len(),
    decreases a,
{
    if a != y {
        let m = choose|m: int|
            #![trigger node_at(h, a).children[m]]
            0 <= m < node_at(h, a).children.len() && match node_at(h, a).children[m].kind_spec() {
                Kind::Offset(_) => false,
                Kind::Ptr(d) => d != ZERO_SIZE_ADDR && 0 <= addr_slot(d) < a && reaches(
                    h,
                    addr_slot(d),
                    y,
                ),
            };
        if let Kind::Ptr(d) = node_at(h, a).children[m].kind_spec() {
            lemma_reaches_range(h, addr_slot(d), y);
        }
    }
}

/// Reaching is transitive.
proof fn lemma_reaches_trans(h: Seq<Option<NodeView>>, a: int, b: int, c: int)
    requires
        0 <= a,
        0 <= b,
        reaches(h, a, b),
        reaches(h, b, c),
    ensures
        reaches(h, a, c),
    decreases a,
{
    if a != b {
        let m = choose|m: int|
            #![trigger node_at(h, a).children[m]]
            0 <= m < node_at(h, a).children.len() && match node_at(h, a).children[m].kind_spec() {
                Kind::Offset(_) => false,
                Kind::Ptr(d) => d != ZERO_SIZE_ADDR && 0 <= addr_slot(d) < a && reaches(
                    h,
                    addr_slot(d),
                    b,
                ),
            };
        if let Kind::Ptr(d) = node_at(h, a).children[m].kind_spec() {
            lemma_reaches_trans(h, addr_slot(d), b, c);
        }
    }
}

/// One step down from a live slot to the slot its `k`th pointer names.
proof fn lemma_reaches_via(h: Seq<Option<NodeView>>, i: int, k: int, y: int)
    requires
        0 <= i < h.len(),
        h[i] is Some,
        0 <= k < node_at(h, i).children.len(),
        0 <= child_target(node_at(h, i).children[k]) < i,
        reaches(h, child_target(node_at(h, i).children[k]), y),
    ensures
        reaches(h, i, y),
{
    let c = node_at(h, i).children[k];
    if let Kind::Ptr(a) = c.kind_spec() {
        assert(a != ZERO_SIZE_ADDR && 0 <= addr_slot(a) < i && reaches(h, addr_slot(a), y));
    }
}

/// Below slot `i`, a path of `old` either survives in `cur` or ends in a
/// slot freed since.
proof fn lemma_below(old: Seq<Option<NodeView>>, cur: Seq<Option<NodeView>>, i: int, z: int, y: int)
    requires
        view_le(cur, old),
        freed_closed(old, cur, i),
        0 <= z < i,
        z < old.len(),
        reaches(old, z, y),
    ensures
        cur[y] is None || reaches(cur, z, y),
    decreases z,
{
    if cur[z] is None {
        assert(reaches(old, z, y));
    } else {
        assert(cur[z] == old[z]);
        if z != y {
            let m = choose|m: int|
                #![trigger node_at(old, z).children[m]]
                0 <= m < node_at(old, z).children.len() && match node_at(old, z).children[m].kind_spec() {
                    Kind::Offset(_) => false,
                    Kind::Ptr(b) => b != ZERO_SIZE_ADDR && 0 <= addr_slot(b) < z && reaches(
                        old,
                        addr_slot(b),
                        y,
                    ),
                };
            if let Kind::Ptr(b) = node_at(old, z).children[m].kind_spec() {
                lemma_below(old, cur, i, addr_slot(b), y);
                assert(node_at(cur, z).children[m] == node_at(old, z).children[m]);
            }
        }
    }
}

/// A transient value: its bytes and the pointers it holds.
pub struct Node {
    pub data: Vec<u8>,
    pub children: Vec<OffsetMut>,
}

/// The mathematical form of a node.
pub struct NodeView {
    pub data: Seq<u8>,
    pub children: Seq<OffsetMut>,
}

impl View for Node {
    type V = NodeView;

    open spec fn view(&self) -> NodeView {
        NodeView { data: self.data@, children: self.children@ }
    }
}

impl NodeView {
    /// A value of size zero.
    pub open spec fn is_empty(self) -> bool {
        self.data.len() == 0 && self.children.len() == 0
    }
}

impl Node {
    pub fn new(data: Vec<u8>, children: Vec<OffsetMut>) -> (r: Node)
        ensures
            r@.data == data@,
            r@.children == children@,
    {
        Node { data, children }
    }

    pub fn empty() -> (r: Node)
        ensures
            r@.is_empty(),
    {
        Node { data: Vec::new(), children: Vec::new() }
    }

    pub fn is_empty(&self) -> (r: bool)
        ensures
            r == self@.is_empty(),
    {
        self.data.len() == 0 && self.children.len() == 0
    }
}

/// Exclusive ownership of one value, through a fat pointer whose metadata
/// is the value's byte length. Not `Clone`: it is released exactly once.
pub struct Own {
    ptr: FatPtr<OffsetMut, usize>,
}

impl Own {
    pub closed spec fn raw(&self) -> OffsetMut {
        self.ptr.raw
    }

    pub closed spec fn metadata(&self) -> usize {
        self.ptr.metadata
    }

    /// Ownership of a persisted value at `offset`: nothing to release.
    pub fn from_offset(offset: Offset, metadata: usize) -> (r: Own)
        requires
            offset.wf(),
        ensures
            r.raw().valid(),
            r.raw().kind_spec() == Kind::Offset(offset),
            r.metadata() == metadata,
    {
        Own { ptr: FatPtr { raw: OffsetMut::from_offset(offset), metadata } }
    }

    pub fn kind(&self) -> (r: Kind)
        ensures
            r == self.raw().kind_spec(),
    {
        self.ptr.raw.kind()
    }

    pub fn raw_ref(&self) -> (r: &OffsetMut)
        ensures
            *r == self.raw(),
    {
        &self.ptr.raw
    }

    pub fn metadata_len(&self) -> (r: usize)
        ensures
            r == self.metadata(),
    {
        self.ptr.metadata
    }

    /// The fat pointer, ending ownership without releasing anything.
    pub fn into_inner(self) -> (r: FatPtr<OffsetMut, usize>)
        ensures
            r.raw == self.raw(),
            r.metadata == self.metadata(),
    {
        self.ptr
    }
}

/// The arena of transient values.
pub struct Heap {
    slots: Vec<Option<Node>>,
}

impl Heap {
    /// Each slot: the value it holds, or `None` once freed.
    pub closed spec fn view(&self) -> Seq<Option<NodeView>> {
        Seq::new(
            self.slots@.len(),
            |i: int|
                match self.slots@[i] {
                    Some(n) => Some(n@),
                    None => None,
                },
        )
    }

    /// A pointer that a value in slot `i` may hold: well formed, and if
    /// transient, either the zero-size address or an earlier slot.
    pub open spec fn child_ok(i: int, c: OffsetMut) -> bool {
        &&& c.valid()
        &&& (c.kind_spec() matches Kind::Ptr(a) ==> a == ZERO_SIZE_ADDR || (a >= 4 && addr_slot(a)
            < i))
    }

    /// Every pointer that the value in slot `i` holds is acceptable there.
    pub open spec fn node_ok(i: int, n: NodeView) -> bool {
        forall|k: int| 0 <= k < n.children.len() ==> Self::child_ok(i, #[trigger] n.children[k])
    }

    /// Values only point to values allocated before them, so that the graph
    /// of transient pointers has no cycle.
    pub open spec fn wf(&self) -> bool {
        &&& self.view().len() < OFFSET_MAX
        &&& forall|i: int|
            0 <= i < self.view().len() ==> match #[trigger] self.view()[i] {
                Some(n) => Self::node_ok(i, n),
                None => true,
            }
    }

    /// Whether `own` may be released or taken from this heap: a transient
    /// pointer names the zero-size address (with length 0) or a live slot
    /// whose value has the recorded length.
    pub open spec fn holds(&self, own: &Own) -> bool {
        &&& own.raw().valid()
        &&& match own.raw().kind_spec() {
            Kind::Offset(_) => true,
            Kind::Ptr(a) => if a == ZERO_SIZE_ADDR {
                own.metadata() == 0
            } else {
                &&& a >= 4
                &&& 0 <= addr_slot(a) < self.view().len()
                &&& self.view()[addr_slot(a)] matches Some(n)
                &&& n.data.len() == own.metadata()
            },
        }
    }

    pub fn new() -> (r: Heap)
        ensures
            r.wf(),
            r.view() == Seq::<Option<NodeView>>::empty(),
    {
        let r = Heap { slots: Vec::new() };
        assert(r.view() =~= Seq::<Option<NodeView>>::empty());
        r
    }

    /// Moves `node` into a fresh slot, or, for a value of size zero, hands
    /// out the zero-size address without allocating.
    pub fn allocate(&mut self, node: Node) -> (r: Own)
        requires
            old(self).wf(),
            old(self).view().len() + 1 < OFFSET_MAX,
            forall|k: int|
                0 <= k < node@.children.len() ==> Self::child_ok(
                    old(self).view().len() as int,
                    #[trigger] node@.children[k],
                ),
        ensures
            final(self).wf(),
            final(self).holds(&r),
            r.metadata() == node@.data.len(),
            node@.is_empty() ==> final(self).view() == old(self).view() && r.raw().kind_spec()
                == Kind::Ptr(ZERO_SIZE_ADDR),
            !node@.is_empty() ==> final(self).view() == old(self).view().push(Some(node@))
                && r.raw().kind_spec() == Kind::Ptr(slot_addr(old(self).view().len() as int)),
    {
        let metadata = node.data.len();
        if node.is_empty() {
            let raw = OffsetMut::from_ptr(ZERO_SIZE_ADDR);
            Own { ptr: FatPtr { raw, metadata } }
        } else {
            let i = self.slots.len();
            let ghost node_view = node@;
            self.slots.push(Some(node));
            assert(self.view() =~= old(self).view().push(Some(node_view)));
            let addr: u64 = 2 * (i as u64) + 4;
            let raw = OffsetMut::from_ptr(addr);
            Own { ptr: FatPtr { raw, metadata } }
        }
    }

    /// Gives the value back and frees its slot. A persisted pointer has no
    /// value here: its offset comes back as the error, and it must be read
    /// from the persisted bytes instead.
    pub fn try_take(&mut self, own: Own) -> (r: Result<Node, Offset>)
        requires
            old(self).wf(),
            old(self).holds(&own),
        ensures
            final(self).wf(),
            match own.raw().kind_spec() {
                Kind::Offset(o) => r == Err::<Node, Offset>(o) && final(self).view() == old(
                    self,
                ).view(),
                Kind::Ptr(a) => if a == ZERO_SIZE_ADDR {
                    r matches Ok(n) && n@.is_empty() && final(self).view() == old(self).view()
                } else {
                    &&& r matches Ok(n) && Some(n@) == old(self).view()[addr_slot(a)]
                    &&& final(self).view() == old(self).view().update(addr_slot(a), None)
                },
            },
    {
        match own.kind() {
            Kind::Offset(offset) => Err(offset),
            Kind::Ptr(addr) => {
                if addr == ZERO_SIZE_ADDR {
                    Ok(Node::empty())
                } else {
                    assert(self.slots.len() == self.slots@.len());
                    let i = (addr / 2 - 2) as usize;
                    let taken = self.take_slot(i);
                    match taken {
                        Some(node) => Ok(node),
                        None => Ok(Node::empty()),
                    }
                }
            },
        }
    }

    /// Releases `own`: a persisted pointer owns nothing here; a transient
    /// value is freed together with every live value it points to.
    pub fn dealloc(&mut self, own: Own)
        requires
            old(self).wf(),
            old(self).holds(&own),
        ensures
            final(self).wf(),
            final(self).view().len() == old(self).view().len(),
            forall|j: int|
                0 <= j < old(self).view().len() ==> #[trigger] final(self).view()[j] is None
                    || final(self).view()[j] == old(self).view()[j],
            match own.raw().kind_spec() {
                Kind::Offset(_) => final(self).view() == old(self).view(),
                Kind::Ptr(a) => if a == ZERO_SIZE_ADDR {
                    final(self).view() == old(self).view()
                } else {
                    &&& final(self).view()[addr_slot(a)] is None
                    &&& forall|j: int|
                        0 <= j < old(self).view().len() && #[trigger] final(self).view()[j]
                            != old(self).view()[j] ==> reaches(old(self).view(), addr_slot(a), j)
                    &&& forall|j: int|
                        #[trigger] reaches(old(self).view(), addr_slot(a), j)
                            ==> final(self).view()[j] is None
                },
            },
    {
        match own.kind() {
            Kind::Offset(_) => {},
            Kind::Ptr(addr) => {
                if addr != ZERO_SIZE_ADDR {
                    assert(self.slots.len() == self.slots@.len());
                    let i = (addr / 2 - 2) as usize;
                    self.release(i);
                }
            },
        }
    }

    /// Frees slot `i` and, first, every live slot that its value reaches.
    /// Exactly the slots reachable from slot `i` are freed.
    fn release(&mut self, i: usize)
        requires
            old(self).wf(),
            i < old(self).view().len(),
        ensures
            final(self).wf(),
            final(self).view().len() == old(self).view().len(),
            final(self).view()[i as int] is None,
            view_le(final(self).view(), old(self).view()),
            forall|j: int| i < j < old(self).view().len() ==> #[trigger] final(self).view()[j] == old(self).view()[j],
            forall|j: int|
                0 <= j < old(self).view().len() && #[trigger] final(self).view()[j] != old(
                    self,
                ).view()[j] ==> reaches(old(self).view(), i as int, j),
            forall|j: int|
                #[trigger] reaches(old(self).view(), i as int, j) ==> final(self).view()[j] is None,
        decreases i,
    {
        let ghost v0 = self.view();
        let taken = self.take_slot(i);
        if let Some(node) = taken {
            let ghost n = node@;
            assert(Self::node_ok(i as int, n));
            let mut k: usize = 0;
            while k < node.children.len()
                invariant
                    self.wf(),
                    i < self.view().len(),
                    self.view().len() == v0.len(),
                    v0 == old(self).view(),
                    self.view()[i as int] is None,
                    Some(n) == v0[i as int],
                    node@ == n,
                    Self::node_ok(i as int, n),
                    view_le(self.view(), v0),
                    forall|j: int| i < j < v0.len() ==> #[trigger] self.view()[j] == v0[j],
                    forall|j: int|
                        0 <= j < v0.len() && #[trigger] self.view()[j] != v0[j] ==> reaches(
                            v0,
                            i as int,
                            j,
                        ),
                    freed_closed(v0, self.view(), i as int),
                    k <= n.children.len(),
                    forall|m: int, y: int|
                        0 <= m < k && child_target(n.children[m]) >= 0 && #[trigger] reaches(
                            v0,
                            child_target(n.children[m]),
                            y,
                        ) ==> self.view()[y] is None,
                decreases node.children.len() - k,
            {
                let child = &node.children[k];
                let ghost pre = self.view();
                let ghost t = child_target(n.children[k as int]);
                assert(Self::child_ok(i as int, n.children[k as int]));
                match child.kind() {
                    Kind::Ptr(addr) => {
                        if addr != ZERO_SIZE_ADDR {
                            assert(self.slots.len() == self.slots@.len());
                            let j = (addr / 2 - 2) as usize;
                            self.release(j);
                        }
                    },
                    Kind::Offset(_) => {},
                }
                proof {
                    let cur = self.view();
                    if t >= 0 {
                        assert(t < i);
                        assert forall|j: int|
                            0 <= j < v0.len() && #[trigger] cur[j] != v0[j] implies reaches(
                                v0,
                                i as int,
                                j,
                            ) by {
                            if cur[j] != pre[j] {
                                lemma_reaches_mono(pre, v0, t, j);
                                lemma_reaches_via(v0, i as int, k as int, j);
                            }
                        }
                        assert forall|z: int, y: int|
                            0 <= z < v0.len() && z != i && v0[z] is Some && cur[z] is None
                                && #[trigger] reaches(v0, z, y) implies cur[y] is None by {
                            lemma_reaches_range(v0, z, y);
                            if z > i {
                                assert(pre[z] == v0[z]);
                                assert(cur[z] == pre[z]);
                            }
                            if pre[z] is Some {
                                assert(cur[z] != pre[z]);
                                assert(reaches(pre, t, z));
                                lemma_reaches_range(pre, t, z);
                                lemma_below(v0, pre, i as int, z, y);
                                if pre[y] is Some {
                                    lemma_reaches_trans(pre, t, z, y);
                                }
                            } else {
                                assert(pre[y] is None);
                            }
                            assert(cur[y] is None || cur[y] == pre[y]);
                        }
                        assert forall|m: int, y: int|
                            0 <= m < k + 1 && child_target(n.children[m]) >= 0 && #[trigger] reaches(
                                v0,
                                child_target(n.children[m]),
                                y,
                            ) implies cur[y] is None by {
                            lemma_reaches_range(v0, child_target(n.children[m]), y);
                            if m == k {
                                lemma_below(v0, pre, i as int, t, y);
                            } else {
                                assert(pre[y] is None);
                            }
                            assert(cur[y] is None || cur[y] == pre[y]);
                        }
                    } else {
                        assert(cur =~= pre);
                    }
                }
                k += 1;
            }
            proof {
                let cur = self.view();
                assert forall|j: int| #[trigger] reaches(v0, i as int, j) implies cur[j] is None by {
                    if j != i {
                        let m = choose|m: int|
                            #![trigger node_at(v0, i as int).children[m]]
                            0 <= m < node_at(v0, i as int).children.len() && match node_at(
                                v0,
                                i as int,
                            ).children[m].kind_spec() {
                                Kind::Offset(_) => false,
                                Kind::Ptr(a) => a != ZERO_SIZE_ADDR && 0 <= addr_slot(a) < i
                                    && reaches(v0, addr_slot(a), j),
                            };
                        assert(node_at(v0, i as int) == n);
                        assert(child_target(n.children[m]) >= 0);
                        assert(reaches(v0, child_target(n.children[m]), j));
                    }
                }
            }
        }
    }

    /// Takes the value out of slot `i`, leaving it free.
    fn take_slot(&mut self, i: usize) -> (r: Option<Node>)
        requires
            old(self).wf(),
            i < old(self).view().len(),
        ensures
            final(self).wf(),
            final(self).view() == old(self).view().update(i as int, None),
            r matches Some(n) ==> old(self).view()[i as int] == Some(n@),
            r is None ==> old(self).view()[i as int] is None,
    {
        let mut taken: Option<Node> = None;
        std::mem::swap(&mut taken, &mut self.slots[i]);
        proof {
            assert(self.view() =~= old(self).view().update(i as int, None));
        }
        taken
    }

    /// The number of slots, live or free.
    pub fn len(&self) -> (r: usize)
        ensures
            r == self.view().len(),
    {
        self.slots.len()
    }

    /// The value in live slot `i`.
    pub fn node(&self, i: usize) -> (r: &Node)
        requires
            i < self.view().len(),
            self.view()[i as int] is Some,
        ensures
            Some(r@) == self.view()[i as int],
    {
        match &self.slots[i] {
            Some(node) => node,
            None => {
                assert(false);
                &self.slots[i].as_ref().unwrap()
            },
        }
    }

    /// The value that a transient pointer names, or the offset of a
    /// persisted one.
    pub fn get<'a>(&'a self, own: &Own) -> (r: Result<&'a Node, Offset>)
        requires
            self.holds(own),
            own.raw().kind_spec() matches Kind::Ptr(a) ==> a != ZERO_SIZE_ADDR,
        ensures
            match own.raw().kind_spec() {
                Kind::Offset(o) => r == Err::<&Node, Offset>(o),
                Kind::Ptr(a) => r matches Ok(n) && Some(n@) == self.view()[addr_slot(a)],
            },
    {
        match own.kind() {
            Kind::Offset(offset) => Err(offset),
            Kind::Ptr(addr) => {
                assert(self.slots.len() == self.slots@.len());
                let i = (addr / 2 - 2) as usize;
                match &self.slots[i] {
                    Some(node) => Ok(node),
                    None => {
                        assert(false);
                        Err(Offset::new(0).unwrap())
                    },
                }
            },
        }
    }
}

} // verus!
