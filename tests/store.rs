use std::sync::Arc;

use hoard::bag::Bag;
use hoard::file::{FileHeader, Hoard, IterRoots, LoadError, Snapshot, Tx, HEADER_SIZE};
use hoard::heap::{Heap, Node};
use hoard::offset::{OffsetMut, OFFSET_MAX};
use hoard::save::{SaveError, Saver};

fn empty_file() -> Vec<u8> {
    FileHeader::new().to_bytes()
}

fn reopen(file: &[u8], appended: &[u8]) -> Hoard {
    let mut bytes = file.to_vec();
    bytes.extend_from_slice(appended);
    Hoard::open_bytes(Arc::new(bytes)).unwrap()
}

#[test]
fn bag_test() {
    let _bag: Bag<u8> = Bag::new(42u8);

    let _bag = Bag::new_in(42u8, Heap::new());

    let bag = Bag::new_in(42u8, Heap::new());
    assert_eq!(bag.get(), 42u8);
    assert_eq!(bag.take(), 42u8);
}

#[test]
fn bag_of_unit_and_options() {
    let unit = Bag::new(());
    assert_eq!(unit.get(), ());
    let opt = Bag::new(Some(7u8));
    assert_eq!(opt.get(), Some(7u8));
    assert_eq!(opt.take(), Some(7u8));
}

#[test]
fn bag_saves_its_value() {
    let bag = Bag::new(Some(24u8));
    let mut saver = bag.save_poll();
    let mut tx = Tx::new(0);
    let offset = saver.encode_blob(&bag, &mut tx).unwrap();
    assert_eq!(offset, 0);
    let appended = tx.commit();
    assert_eq!(&appended[..2], &[1, 24]);
}

#[test]
fn hoardfile() {
    let file = empty_file();
    assert_eq!(file.len(), HEADER_SIZE);
    let hoard = reopen(&file, &[]);
    let snap1 = hoard.snapshot();
    assert_eq!(snap1.len(), 0);

    let mut tx = Tx::new(snap1.len() as u64);
    assert_eq!(tx.write_blob(&[]), Ok(0));
    assert_eq!(tx.write_blob(&[]), Ok(0));

    assert_eq!(tx.write_blob(&[1]), Ok(0));
    assert_eq!(tx.write_blob(&[2]), Ok(8));
    assert_eq!(tx.write_blob(&[]), Ok(16));
    assert_eq!(tx.write_blob(&[]), Ok(16));

    let appended = tx.commit();

    let hoard = reopen(&file, &appended);
    let snap2 = hoard.snapshot();
    assert_eq!(snap2.len(), 24);
    assert_eq!(
        snap2.bytes(),
        &[1, 0, 0, 0, 0, 0, 0, 0, 2, 0, 0, 0, 0, 0, 0, 0, 0xfd, 0xff, 0xff, 0xff, 0xff, 0xff, 0xff, 0xff]
    );
    assert_eq!(snap2.mark_offsets(), vec![16]);
}

#[test]
fn end_to_end_roots() {
    let file = empty_file();
    let mut tx = Tx::new(0);
    assert_eq!(tx.write_blob(&[]), Ok(0));
    assert_eq!(tx.write_blob(&[1]), Ok(0));
    assert_eq!(tx.write_blob(&[2]), Ok(8));
    assert_eq!(tx.write_blob(&[]), Ok(16));
    let appended = tx.commit();

    let hoard = reopen(&file, &appended);
    assert_eq!(hoard.header(), FileHeader::new());
    let snap = hoard.snapshot();
    assert_eq!(snap.len(), 24);
    assert_eq!(&snap.bytes()[..16], &[1, 0, 0, 0, 0, 0, 0, 0, 2, 0, 0, 0, 0, 0, 0, 0]);
    assert_eq!(snap.mark_offsets(), vec![16]);

    let mut roots = hoard.roots::<u8>();
    let root = roots.next().unwrap();
    assert_eq!(root.mark_offset(), 16);
    assert_eq!(root.validate::<u8>(), Ok(2u8));
    assert!(roots.next().is_none());
}

fn three_roots() -> Hoard {
    let file = empty_file();
    let mut tx = Tx::new(0);
    tx.write_blob(&[7]).unwrap();
    let first = tx.commit();
    let mut tx = Tx::new(first.len() as u64);
    tx.write_blob(&[8]).unwrap();
    tx.write_blob(&[9]).unwrap();
    let second = tx.commit();
    let mut all = first.clone();
    all.extend_from_slice(&second);
    let mut tx = Tx::new(all.len() as u64);
    tx.write_blob(&[10]).unwrap();
    let third = tx.commit();
    all.extend_from_slice(&third);
    reopen(&file, &all)
}

#[test]
fn roots_forward_and_backward_agree() {
    let hoard = three_roots();
    let forward = hoard.roots::<u8>().collect_offsets();
    assert_eq!(forward, vec![8, 32, 48]);
    let mut backward = hoard.roots::<u8>().collect_offsets_back();
    assert_eq!(backward, vec![48, 32, 8]);
    backward.reverse();
    assert_eq!(forward, backward);

    let mut roots = hoard.roots::<u8>();
    assert_eq!(roots.next_back().unwrap().validate::<u8>(), Ok(10));
    assert_eq!(roots.next().unwrap().validate::<u8>(), Ok(7));
    assert_eq!(roots.next().unwrap().validate::<u8>(), Ok(9));
    assert!(roots.next().is_none());
    assert!(roots.next_back().is_none());
}

#[test]
fn corrupt_mark_is_skipped() {
    let file = empty_file();
    let mut tx = Tx::new(0);
    tx.write_blob(&[7]).unwrap();
    let mut appended = tx.commit();
    appended[8] ^= 1;
    let hoard = reopen(&file, &appended);
    assert_eq!(hoard.snapshot().mark_offsets(), Vec::<usize>::new());
    assert!(hoard.roots::<u8>().next().is_none());
}

#[test]
fn snapshot_truncates_only() {
    let mapping = Arc::new(vec![1u8, 2, 3, 4, 5]);
    let mut snap = Snapshot::new(mapping.clone(), 1).unwrap();
    assert_eq!(snap.bytes(), &[2, 3, 4, 5]);
    let other = snap.share();
    snap.truncate(2);
    assert_eq!(snap.bytes(), &[2, 3]);
    snap.truncate(4);
    assert_eq!(snap.bytes(), &[2, 3]);
    assert_eq!(other.bytes(), &[2, 3, 4, 5]);
    assert!(Snapshot::new(mapping, 6).is_none());
    assert!(Hoard::open_bytes(Arc::new(vec![0; HEADER_SIZE - 1])).is_none());
    let _ = IterRoots::new::<u8>(other);
}

#[test]
fn save_writes_children_first() {
    let mut heap = Heap::new();
    let a = heap.allocate(Node::new(vec![1], vec![]));
    let b = heap.allocate(Node::new(vec![2, 3], vec![]));
    let a_raw = a.into_inner().raw;
    let b_raw = b.into_inner().raw;
    let zero = heap.allocate(Node::empty()).into_inner().raw;
    let parent = heap.allocate(Node::new(vec![9], vec![a_raw, b_raw, zero]));
    let root = parent.into_inner().raw;

    let mut saver = Saver::new(&heap);
    let mut tx = Tx::new(0);
    let offset = saver.save(&heap, &root, &mut tx).unwrap();
    assert_eq!(offset, 16);
    assert_eq!(tx.end_offset(), 48);

    let again = saver.save(&heap, &root, &mut tx).unwrap();
    assert_eq!(again, 16);
    assert_eq!(tx.end_offset(), 48);

    let bytes = tx.commit();
    let mut expected = vec![1, 0, 0, 0, 0, 0, 0, 0, 2, 3, 0, 0, 0, 0, 0, 0, 9];
    expected.extend_from_slice(&1u64.to_le_bytes());
    expected.extend_from_slice(&17u64.to_le_bytes());
    expected.extend_from_slice(&33u64.to_le_bytes());
    expected.extend_from_slice(&[0; 7]);
    expected.extend_from_slice(&(u64::MAX - 6).to_le_bytes());
    assert_eq!(bytes, expected);
}

#[test]
fn save_of_offset_writes_nothing() {
    let heap = Heap::new();
    let root = OffsetMut::from_offset(hoard::offset::Offset::new(40).unwrap());
    let mut saver = Saver::new(&heap);
    let mut tx = Tx::new(64);
    assert_eq!(saver.save(&heap, &root, &mut tx), Ok(40));
    assert_eq!(tx.end_offset(), 64);
}

#[test]
fn save_reports_out_of_range() {
    let mut heap = Heap::new();
    let root = heap.allocate(Node::new(vec![1; 8], vec![])).into_inner().raw;
    let mut saver = Saver::new(&heap);
    let mut tx = Tx::new(OFFSET_MAX - 7);
    assert_eq!(saver.save(&heap, &root, &mut tx), Err(SaveError::OutOfRange(8)));
    assert_eq!(tx.end_offset(), OFFSET_MAX - 7);
}

#[test]
fn snapshot_loads_validated_values() {
    let mapping = Arc::new(vec![9u8, 1, 24, 0, 0, 0, 0, 0, 0, 0, 3]);
    let snap = Snapshot::new(mapping, 1).unwrap();
    let at = |o: u64| hoard::offset::Offset::new(o).unwrap();
    assert_eq!(snap.load::<Option<u8>>(at(0)), Ok(Some(24u8)));
    assert_eq!(snap.load::<bool>(at(2)), Ok(false));
    assert_eq!(
        snap.load::<bool>(at(9)),
        Err(LoadError::Value(hoard::scalars::BoolError(3)))
    );
    assert_eq!(
        snap.load::<Option<u8>>(at(9)),
        Err(LoadError::Ptr { offset: 9, size: 2 })
    );
    assert_eq!(snap.load::<u8>(at(100)), Err(LoadError::Ptr { offset: 100, size: 1 }));
}

#[test]
fn saved_bag_reads_back() {
    let file = empty_file();
    let mut tx = Tx::new(0);
    tx.write_blob(&[5, 5, 5]).unwrap();
    let bag = Bag::new(Some(Some(3u8)));
    let mut saver = bag.save_poll();
    let offset = saver.encode_blob(&bag, &mut tx).unwrap();
    assert_eq!(offset, 8);
    let appended = tx.commit();
    let hoard = reopen(&file, &appended);
    let at = hoard::offset::Offset::new(offset).unwrap();
    assert_eq!(hoard.snapshot().load::<Option<Option<u8>>>(at), Ok(Some(Some(3u8))));
}

#[test]
fn write_past_largest_offset_is_refused() {
    let mut tx = Tx::new(OFFSET_MAX - 7);
    assert_eq!(tx.write_blob(&[1; 8]), Err(SaveError::OutOfRange(8)));
    assert_eq!(tx.write_blob(&[1]), Err(SaveError::OutOfRange(1)));
    assert_eq!(tx.write_blob(&[]), Ok(OFFSET_MAX - 7));
    assert_eq!(tx.end_offset(), OFFSET_MAX - 7);
    let mut tx = Tx::new(OFFSET_MAX - 15);
    assert_eq!(tx.write_blob(&[1; 8]), Ok(OFFSET_MAX - 15));
}

#[test]
fn bag_save_past_largest_offset_is_refused() {
    let bag = Bag::new(Some(1u8));
    let mut saver = bag.save_poll();
    let mut tx = Tx::new(OFFSET_MAX - 7);
    assert_eq!(saver.encode_blob(&bag, &mut tx), Err(SaveError::OutOfRange(2)));
    assert_eq!(tx.end_offset(), OFFSET_MAX - 7);

    let unit = Bag::new(());
    let mut saver = unit.save_poll();
    assert_eq!(saver.encode_blob(&unit, &mut tx), Ok(OFFSET_MAX - 7));
}
