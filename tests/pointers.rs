use hoard::heap::{Heap, Node, Own};
use hoard::marshal::{Decode, Encode};
use hoard::offset::{DecodeOffsetError, Kind, Offset, OffsetMut, OFFSET_MAX};
use hoard::zone::{make_missing_ptr, Missing, MissingError};

fn encode<T: Encode>(value: &T) -> Vec<u8> {
    let mut dst = Vec::new();
    value.encode_blob(&mut dst);
    dst
}

fn decode<T: Decode>(bytes: &[u8]) -> Result<T, T::Error> {
    T::validate_blob(bytes)?;
    Ok(T::decode_blob(bytes))
}

#[test]
fn offset_round_trip() {
    for o in [0u64, 1, 16, 12345, OFFSET_MAX - 1, OFFSET_MAX] {
        let offset = Offset::new(o).unwrap();
        assert_eq!(offset.get(), o);
        assert_eq!(offset.raw(), 2 * o + 1);
        let bytes = encode(&offset);
        assert_eq!(bytes.len(), 8);
        let back: Offset = decode(&bytes).unwrap();
        assert_eq!(back.get(), o);
        assert_eq!(back, offset);
    }
}

#[test]
fn offset_range() {
    assert_eq!(OFFSET_MAX, (1u64 << 62) - 1);
    assert!(Offset::new(OFFSET_MAX).is_some());
    assert!(Offset::new(OFFSET_MAX + 1).is_none());
    assert!(Offset::new(u64::MAX).is_none());
}

#[test]
fn offset_encoding_bytes() {
    let offset = Offset::new(16).unwrap();
    assert_eq!(encode(&offset), vec![33, 0, 0, 0, 0, 0, 0, 0]);
    assert_eq!(offset.to_static(), offset);
}

#[test]
fn offset_decode_errors() {
    assert_eq!(
        decode::<Offset>(&[2, 0, 0, 0, 0, 0, 0, 0]),
        Err(DecodeOffsetError::Ptr(2))
    );
    assert_eq!(decode::<Offset>(&[0; 8]), Err(DecodeOffsetError::Ptr(0)));
    assert_eq!(
        decode::<Offset>(&[1, 0, 0, 0, 0, 0, 0, 0x80]),
        Err(DecodeOffsetError::OutOfRange(1u64 << 62))
    );
    assert_eq!(
        decode::<Offset>(&[0xff; 8]),
        Err(DecodeOffsetError::OutOfRange(u64::MAX >> 1))
    );
}

#[test]
fn kind_follows_tag_bit() {
    let offset = Offset::new(5).unwrap();
    let p = OffsetMut::from_offset(offset);
    assert_eq!(p.kind(), Kind::Offset(offset));

    let q = OffsetMut::from_ptr(4);
    assert_eq!(q.kind(), Kind::Ptr(4));

    let bytes = encode(&offset);
    assert_eq!(bytes[0] & 1, 1);
    let back: Offset = decode(&bytes).unwrap();
    assert_eq!(OffsetMut::from_offset(back).kind(), Kind::Offset(offset));
    assert_eq!(q.duplicate(), q);
}

#[test]
fn heap_allocates_and_takes() {
    let mut heap = Heap::new();
    let own = heap.allocate(Node::new(vec![1, 2, 3], vec![]));
    assert_eq!(own.kind(), Kind::Ptr(4));
    assert_eq!(own.metadata_len(), 3);
    assert_eq!(heap.len(), 1);
    let second = heap.allocate(Node::new(vec![9], vec![]));
    assert_eq!(second.kind(), Kind::Ptr(6));
    match heap.get(&second) {
        Ok(node) => assert_eq!(node.data, vec![9]),
        Err(_) => panic!("transient value expected"),
    }
    let node = heap.try_take(own).ok().unwrap();
    assert_eq!(node.data, vec![1, 2, 3]);
    heap.dealloc(second);
    assert_eq!(heap.len(), 2);
}

#[test]
fn heap_zero_size_uses_sentinel() {
    let mut heap = Heap::new();
    let own = heap.allocate(Node::empty());
    assert_eq!(own.kind(), Kind::Ptr(2));
    assert_eq!(heap.len(), 0);
    let node = heap.try_take(own).ok().unwrap();
    assert!(node.is_empty());
}

#[test]
fn heap_offset_is_not_taken() {
    let mut heap = Heap::new();
    let offset = Offset::new(8).unwrap();
    let own = Own::from_offset(offset, 1);
    match heap.try_take(own) {
        Ok(_) => panic!("a persisted value has no transient copy"),
        Err(o) => assert_eq!(o, offset),
    }
    heap.dealloc(Own::from_offset(offset, 1));
    assert_eq!(heap.len(), 0);
}

#[test]
fn heap_slots_are_not_reused() {
    let mut heap = Heap::new();
    let child = heap.allocate(Node::new(vec![1], vec![]));
    let raw = child.into_inner().raw;
    let parent = heap.allocate(Node::new(vec![2], vec![raw]));
    heap.dealloc(parent);
    let again = heap.allocate(Node::new(vec![3], vec![]));
    assert_eq!(again.kind(), Kind::Ptr(8));
}

#[test]
fn alloc_drops() {
    let ptr = Missing.allocate(vec![1, 2, 3]);
    assert_eq!(ptr.metadata, 3);
    let ptr = Missing.duplicate().allocate(Vec::new());
    assert_eq!(ptr.metadata, 0);
    assert_eq!(Missing.try_get(&ptr), Err(MissingError));
    let missing = make_missing_ptr(7usize);
    match Missing.try_get_dirty(&missing) {
        Ok(_) => panic!("missing values are never present"),
        Err(p) => assert_eq!(p.metadata, 7),
    }
}

#[test]
fn offset_mut_blobs() {
    let p = OffsetMut::from_offset(Offset::new(3).unwrap());
    let bytes = encode(&p);
    assert_eq!(bytes, vec![7, 0, 0, 0, 0, 0, 0, 0]);
    let back: OffsetMut = decode(&bytes).unwrap();
    assert_eq!(back.kind(), Kind::Offset(Offset::new(3).unwrap()));
    assert_eq!(decode::<OffsetMut>(&[4, 0, 0, 0, 0, 0, 0, 0]), Err(DecodeOffsetError::Ptr(4)));
}

#[test]
fn dealloc_keeps_unreached_values() {
    let mut heap = Heap::new();
    let a = heap.allocate(Node::new(vec![1], vec![]));
    let b = heap.allocate(Node::new(vec![2], vec![]));
    let a_raw = a.into_inner().raw;
    let c = heap.allocate(Node::new(vec![3], vec![a_raw]));
    heap.dealloc(c);
    let node = heap.try_take(b).ok().unwrap();
    assert_eq!(node.data, vec![2]);
}
