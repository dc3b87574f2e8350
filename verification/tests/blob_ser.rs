use configmaton::ancha::vec::AnchaVec;
use configmaton::ancha::{BuildCursor, Reserve};
use configmaton::blob::ser::{
    BlobVecSer, DirectCopy, DynamicSerialization, MultiplyBy2, StaticSerialization, StaticToDynamic,
};

#[test]
fn test_direct_copy() {
    let ser = DirectCopy::<u8>::new();
    let origin = 42u8;
    let mut target = 0u8;
    ser.serialize(&origin, &mut target);
    assert_eq!(target, 42);
}

#[test]
fn test_multiply_by_2() {
    let ser = MultiplyBy2;
    let origin = 21usize;
    let mut target = 0usize;
    ser.serialize(&origin, &mut target);
    assert_eq!(target, 42);
}

#[test]
fn test_static_to_dynamic() {
    let ser = StaticToDynamic::new(DirectCopy::<usize>::new());
    let origin = 42usize;

    let mut sz = Reserve(0);
    let addr = ser.reserve(&origin, &mut sz);
    assert_eq!(addr, 0);

    let mut buf = vec![0u8; sz.0];
    let cur = BuildCursor::new(0);
    let _end: BuildCursor<()> = ser.serialize(&origin, &mut buf, cur.clone());
    let _walked: BuildCursor<()> = ser.deserialize(&buf, cur);

    let value = usize::from_le_bytes(buf[0..8].try_into().unwrap());
    assert_eq!(value, 42);
}

#[test]
fn test_blobvec_with_default() {
    let ser = BlobVecSer::new(DirectCopy::<u8>::new());
    let origin = vec![1u8, 2, 3];

    let mut sz = Reserve(0);
    let addr = ser.reserve(&origin, &mut sz);
    assert_eq!(addr, 0);

    let mut buf = vec![0u8; sz.0];
    let cur = BuildCursor::new(0);
    let _end: BuildCursor<()> = ser.serialize(&origin, &mut buf, cur.clone());
    let walked: BuildCursor<()> = ser.deserialize(&buf, cur);
    assert_eq!(walked.cur, sz.0);

    let blobvec = AnchaVec::<u8>::from_blob(&buf, 0);
    assert_eq!(blobvec.as_ref(), vec![1, 2, 3]);
}

#[test]
fn test_blobvec_with_custom() {
    let ser = BlobVecSer::new(MultiplyBy2);
    let origin = vec![1usize, 2, 3];

    let mut sz = Reserve(0);
    let addr = ser.reserve(&origin, &mut sz);
    assert_eq!(addr, 0);

    let mut buf = vec![0u8; sz.0];
    let cur = BuildCursor::new(0);
    let _end: BuildCursor<()> = ser.serialize(&origin, &mut buf, cur.clone());
    let _walked: BuildCursor<()> = ser.deserialize(&buf, cur);

    let blobvec = AnchaVec::<usize>::from_blob(&buf, 0);
    assert_eq!(blobvec.as_ref(), vec![2, 4, 6]);
}

#[test]
fn static_to_dynamic_aligns_its_cell() {
    let ser = StaticToDynamic::new(MultiplyBy2);
    let mut sz = Reserve(3);
    let addr = ser.reserve(&5usize, &mut sz);
    assert_eq!(addr, 8);
    assert_eq!(sz.0, 16);
    let mut buf = vec![0u8; 16];
    let end: BuildCursor<()> = ser.serialize(&5usize, &mut buf, BuildCursor { cur: 3, buf: 0, _phantom: std::marker::PhantomData });
    assert_eq!(end.cur, 16);
    assert_eq!(usize::from_le_bytes(buf[8..16].try_into().unwrap()), 10);
}
