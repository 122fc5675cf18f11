//! An owned value held in a transient zone of its own.
use vstd::prelude::*;

use crate::file::{padded_len, Tx};
use crate::heap::{addr_slot, Heap, Node, Own, ZERO_SIZE_ADDR};
use crate::marshal::{zeros, Decode, Encode};
use crate::offset::{Kind, OFFSET_MAX};
use crate::save::SaveError;

verus! {

/// An owned pointer to a value, together with the zone that holds it.
pub struct Bag<T> {
    ptr: Own,
    zone: Heap,
    value: Ghost<T>,
}

impl<T: Decode> Bag<T> {
    /// The value held.
    pub closed spec fn view(&self) -> T {
        self.value@
    }

    /// The zone holds the value's encoding where the pointer says.
    pub closed spec fn wf(&self) -> bool {
        &&& self.zone.wf()
        &&& self.zone.holds(&self.ptr)
        &&& self.value@.wf()
        &&& T::layout_spec().fits()
        &&& match self.ptr.raw().kind_spec() {
            Kind::Ptr(a) => if a == ZERO_SIZE_ADDR {
                self.value@.encoding().len() == 0
            } else {
                &&& self.zone.view()[addr_slot(a)] matches Some(n)
                &&& n.data == self.value@.encoding()
                &&& n.children.len() == 0
            },
            Kind::Offset(_) => false,
        }
    }

    /// Moves `value` into `zone`.
    pub fn new_in(value: T, zone: Heap) -> (r: Bag<T>)
        requires
            value.wf(),
            zone.wf(),
            zone.view().len() + 1 < OFFSET_MAX,
            T::layout_spec().fits(),
        ensures
            r.wf(),
            r@ == value,
    {
        let mut zone = zone;
        let mut data: Vec<u8> = Vec::new();
        value.encode_blob(&mut data);
        assert(data@ =~= value.encoding());
        let node = Node::new(data, Vec::new());
        let ptr = zone.allocate(node);
        Bag { ptr, zone, value: Ghost(value) }
    }

    /// Moves `value` into a fresh zone.
    pub fn new(value: T) -> (r: Bag<T>)
        requires
            value.wf(),
            T::layout_spec().fits(),
        ensures
            r.wf(),
            r@ == value,
    {
        Bag::new_in(value, Heap::new())
    }

    /// A copy of the value, decoded from its blob.
    pub fn get(&self) -> (r: T)
        requires
            self.wf(),
        ensures
            r == self@,
    {
        proof {
            self.value@.lemma_round_trip();
            self.value@.lemma_encoding();
        }
        match self.ptr.kind() {
            Kind::Ptr(a) => {
                if a == ZERO_SIZE_ADDR {
                    let empty: Vec<u8> = Vec::new();
                    assert(empty@ =~= self.value@.encoding());
                    T::decode_blob(empty.as_slice())
                } else {
                    match self.zone.get(&self.ptr) {
                        Ok(node) => T::decode_blob(node.data.as_slice()),
                        Err(_) => {
                            let empty: Vec<u8> = Vec::new();
                            assert(false);
                            T::decode_blob(empty.as_slice())
                        },
                    }
                }
            },
            Kind::Offset(_) => {
                let empty: Vec<u8> = Vec::new();
                assert(false);
                T::decode_blob(empty.as_slice())
            },
        }
    }

    /// The value, releasing its place in the zone.
    pub fn take(self) -> (r: T)
        requires
            self.wf(),
        ensures
            r == self@,
    {
        proof {
            self.value@.lemma_round_trip();
            self.value@.lemma_encoding();
        }
        let Bag { ptr, zone, value } = self;
        let mut zone = zone;
        match zone.try_take(ptr) {
            Ok(node) => {
                assert(node@.data =~= value@.encoding());
                T::decode_blob(node.data.as_slice())
            },
            Err(_) => {
                let empty: Vec<u8> = Vec::new();
                assert(false);
                T::decode_blob(empty.as_slice())
            },
        }
    }

    /// The state of a save of this bag: nothing written yet.
    pub fn save_poll(&self) -> (r: BagSaver)
        ensures
            r.written() is None,
    {
        BagSaver { written: None }
    }
}

/// Saving a bag: where its value was written, once it has been.
pub struct BagSaver {
    written: Option<u64>,
}

impl BagSaver {
    pub closed spec fn written(&self) -> Option<u64> {
        self.written
    }

    /// Writes the bag's value into `tx` and returns its offset: the end of
    /// the body before the call, where the value's encoding now lies. It
    /// fails exactly when the encoding, padded to whole words, would end
    /// past the largest offset; then nothing is written.
    pub fn encode_blob<T: Decode>(&mut self, bag: &Bag<T>, tx: &mut Tx) -> (r: Result<u64, SaveError>)
        requires
            bag.wf(),
            old(self).written() is None,
            old(tx).wf(),
        ensures
            final(tx).wf(),
            final(tx).base() == old(tx).base(),
            r is Err <==> old(tx).end() + padded_len(bag@.encoding().len()) > OFFSET_MAX,
            match r {
                Ok(o) => {
                    &&& o == old(tx).end()
                    &&& final(self).written() == Some(o)
                    &&& final(tx).pending() == old(tx).pending() + bag@.encoding() + zeros(
                        (padded_len(bag@.encoding().len()) - bag@.encoding().len()) as nat,
                    )
                    &&& final(tx).end() == old(tx).end() + padded_len(bag@.encoding().len())
                },
                Err(e) => {
                    &&& e == SaveError::OutOfRange(bag@.encoding().len() as u64)
                    &&& final(self).written() is None
                    &&& final(tx).pending() == old(tx).pending()
                },
            },
    {
        let r = match bag.ptr.kind() {
            Kind::Ptr(a) => {
                if a == ZERO_SIZE_ADDR {
                    let empty: Vec<u8> = Vec::new();
                    assert(empty@ =~= bag@.encoding());
                    tx.write_blob(empty.as_slice())
                } else {
                    match bag.zone.get(&bag.ptr) {
                        Ok(node) => tx.write_blob(node.data.as_slice()),
                        Err(_) => {
                            assert(false);
                            Err(SaveError::OutOfRange(0))
                        },
                    }
                }
            },
            Kind::Offset(_) => {
                assert(false);
                Err(SaveError::OutOfRange(0))
            },
        };
        if let Ok(o) = r {
            self.written = Some(o);
        }
        r
    }
}

/// A value saved into a write at offset `o` (its encoding lies in the
/// pending bytes there) is read back as the same value, by validation and
/// then decoding, from the body that the commit leaves: the committed bytes,
/// the pending bytes, and whatever the commit appends after them.
pub proof fn lemma_committed_value_loads<T: Decode>(
    committed: Seq<u8>,
    pending: Seq<u8>,
    tail: Seq<u8>,
    o: int,
    v: T,
)
    requires
        v.wf(),
        committed.len() <= o,
        o - committed.len() + v.encoding().len() <= pending.len(),
        pending.subrange(o - committed.len(), o - committed.len() + v.encoding().len())
            == v.encoding(),
    ensures
        ({
            let blob = (committed + pending + tail).subrange(o, o + T::layout_spec().size);
            T::validate_spec(blob) is Ok && T::decode_spec(blob) == v
        }),
{
    v.lemma_encoding();
    v.lemma_round_trip();
    let body = committed + pending + tail;
    let k = o - committed.len();
    assert(body.subrange(o, o + T::layout_spec().size) =~= pending.subrange(
        k,
        k + v.encoding().len(),
    ));
}

} // verus!
