use configmaton::ancha::vec::{AnchaVec, VecAnchizeFromVec, VecDeanchize};
use configmaton::ancha::{Anchize, BuildCursor, CopyAnchize, Deanchize, NoopDeanchize, Reserve};

#[test]
fn vec_test_anchavec_basic() {
    let anchize: VecAnchizeFromVec<CopyAnchize<u8, ()>> = VecAnchizeFromVec::default();
    let deanchize: VecDeanchize<NoopDeanchize<u8>> = VecDeanchize::default();
    let origin = vec![1u8, 2, 3];

    let mut sz = Reserve(0);
    anchize.reserve(&origin, &(), &mut sz);

    let mut buf = vec![0u8; sz.0];
    let cur = BuildCursor::new(0);

    let end: BuildCursor<()> = anchize.anchize(&origin, &(), &mut buf, cur.clone());
    let dend: BuildCursor<()> = deanchize.deanchize(&buf, cur);
    assert_eq!(end.cur, dend.cur);

    let anchavec = AnchaVec::<u8>::from_blob(&buf, 0);
    assert_eq!(anchavec.as_ref(), &[1, 2, 3]);
}

#[test]
fn anchavec_usize_layout() {
    let anchize: VecAnchizeFromVec<CopyAnchize<usize, ()>> = VecAnchizeFromVec::default();
    let origin = vec![1usize, 3, 5];
    let mut sz = Reserve(0);
    anchize.reserve(&origin, &(), &mut sz);
    assert_eq!(sz.0, 32);
    let mut buf = vec![0u8; sz.0];
    let _: BuildCursor<()> = anchize.anchize(&origin, &(), &mut buf, BuildCursor::new(0));
    let v = AnchaVec::<usize>::from_blob(&buf, 0);
    assert_eq!(v.len, 3);
    assert_eq!(v.get(1), 3);
    let mut it = v.iter();
    assert_eq!(it.next(), Some(1));
    assert_eq!(it.next(), Some(3));
    assert_eq!(it.next(), Some(5));
    assert_eq!(it.next(), None);
    assert_eq!(v.behind::<u8>(), 32);
}

#[test]
fn reserve_addr_gives_the_aligned_start() {
    let strategy: VecAnchizeFromVec<CopyAnchize<u8, ()>> = VecAnchizeFromVec::new(CopyAnchize::new());
    let mut sz = Reserve(3);
    let at = configmaton::ancha::reserve_addr(&strategy, &vec![1u8, 2, 3], &(), &mut sz);
    assert_eq!(at, 8);
    assert_eq!(sz.0, 19);
}

#[test]
fn vec_reserve_is_header_then_aligned_elements() {
    // header at 8 (aligned up from 5), its 8 bytes, then three u32 at 16
    let strategy: VecAnchizeFromVec<CopyAnchize<u32, ()>> = VecAnchizeFromVec::new(CopyAnchize::new());
    let mut sz = Reserve(5);
    let at = configmaton::ancha::reserve_addr(&strategy, &vec![1u32, 2, 3], &(), &mut sz);
    assert_eq!(at, 8);
    assert_eq!(sz.0, 8 + 8 + 3 * 4);
}
