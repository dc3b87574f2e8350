use configmaton::ancha::vec::AnchaVec;
use configmaton::ancha::{BuildCursor, Reserve};
use configmaton::blob::traits::{BlobDeserialize, BlobReserve, BlobSerialize};
use configmaton::blob::vec::BlobVec;
use configmaton::guards::Guard;

#[test]
fn test_serialize_u8() {
    // Test u8
    let origin = 42u8;
    let mut sz = Reserve(0);
    let addr = u8::reserve(&origin, &mut sz);
    assert_eq!(addr, 0);

    let mut buf = vec![0u8; sz.0];
    let cur = BuildCursor::<u8>::new(0);
    u8::serialize_elem(&origin, &mut buf, cur.clone(), &());
    u8::deserialize_elem(&buf, cur, &());

    let value = buf[0];
    assert_eq!(value, 42);
}

#[test]
fn test_serialize_usize() {
    let origin = 12345usize;
    let mut sz = Reserve(0);
    let addr = usize::reserve(&origin, &mut sz);
    assert_eq!(addr, 0);

    let mut buf = vec![0u8; sz.0];
    let cur = BuildCursor::<usize>::new(0);
    usize::serialize_elem(&origin, &mut buf, cur.clone(), &());
    usize::deserialize_elem(&buf, cur, &());

    let value = usize::from_le_bytes(buf[..8].try_into().unwrap());
    assert_eq!(value, 12345);
}

#[test]
fn test_blobvec_with_traits() {
    // Test BlobVec<usize> using the new traits
    let origin = vec![1usize, 3, 5];
    let mut sz = Reserve(0);
    let addr = BlobVec::<usize>::reserve(&origin, &mut sz);
    assert_eq!(addr, 0);

    let mut buf = vec![0u8; sz.0];
    let cur = BuildCursor::<BlobVec<usize>>::new(0);

    let end = BlobVec::<usize>::serialize_elem(&origin, &mut buf, cur.clone(), &());
    let walked = BlobVec::<usize>::deserialize_elem(&buf, cur, &());
    assert_eq!(end.cur, walked.cur);

    let blobvec = AnchaVec::<usize>::from_blob(&buf, 0);
    assert_eq!(blobvec.as_ref(), vec![1, 3, 5]);
}

#[test]
fn reserve_pads_to_alignment() {
    let mut sz = Reserve(3);
    let addr = usize::reserve(&7usize, &mut sz);
    assert_eq!(addr, 8);
    assert_eq!(sz.0, 16);
    let mut sz = Reserve(1);
    let addr = BlobVec::<u8>::reserve(&vec![1u8, 2, 3], &mut sz);
    assert_eq!(addr, 8);
    assert_eq!(sz.0, 19);
}

#[test]
fn guard_copies_through() {
    let g = Guard::from_range((b'a', b'f'));
    let mut sz = Reserve(0);
    let addr = Guard::reserve(&g, &mut sz);
    assert_eq!(addr, 0);
    let mut buf = vec![0u8; sz.0];
    let end = Guard::serialize_elem(&g, &mut buf, BuildCursor::<Guard>::new(0), &());
    assert_eq!(end.cur, sz.0);
    let walked = Guard::deserialize_elem(&buf, BuildCursor::<Guard>::new(0), &());
    assert_eq!(walked.cur, sz.0);
}

#[test]
fn test_blobvec() {
    let origin = vec![1usize, 3, 5];
    let mut sz = Reserve(0);
    let my_addr = BlobVec::<usize>::reserve(&origin, &mut sz);
    assert_eq!(my_addr, 0);
    assert_eq!(sz.0, 4 * std::mem::size_of::<usize>());
    let mut buf = vec![0u8; sz.0];
    let cur = BlobVec::<usize>::serialize_elem(&origin, &mut buf, BuildCursor::new(0), &());
    assert_eq!(cur.cur, sz.0);
    let cur = BlobVec::<usize>::deserialize_elem(&buf, BuildCursor::new(0), &());
    assert_eq!(cur.cur, sz.0);
    let blobvec = BlobVec::<usize>::from_blob(&buf, 0);
    assert_eq!(blobvec.len, 3);
    assert_eq!(blobvec.get(0), 1);
    assert_eq!(blobvec.get(1), 3);
    assert_eq!(blobvec.get(2), 5);
    let mut iter = blobvec.iter();
    assert_eq!(iter.next(), Some(1));
    assert_eq!(iter.next(), Some(3));
    assert_eq!(iter.next(), Some(5));
    assert_eq!(iter.next(), None);
    assert_eq!(blobvec.as_ref(), vec![1, 3, 5]);
}
