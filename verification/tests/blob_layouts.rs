use configmaton::ancha::bdd::{BddAnchize, BddDeanchize, BddOrigin};
use configmaton::ancha::vec::{AnchaVec, VecAnchizeFromVec, VecDeanchize};
use configmaton::ancha::vecmap::VecMapAncha;
use configmaton::ancha::{Anchize, AnyMatch, BuildCursor, CopyAnchize, Deanchize, EqMatch, NoopDeanchize, Reserve};
use configmaton::blob::bdd::Bdd;
use configmaton::blob::vec::BlobVec;
use configmaton::blob::vecmap::VecMap;

type VecU8 = VecAnchizeFromVec<CopyAnchize<u8, ()>>;
type VecU8D = VecDeanchize<NoopDeanchize<u8>>;

fn vec_at(buf: &[u8], at: usize) -> Vec<u8> {
    AnchaVec::<u8>::from_blob(buf, at).as_ref()
}

#[test]
fn test_vecmap() {
    let origin = vec![(1usize, b"foo".to_vec()), (3, b"hello".to_vec()), (5, b"".to_vec())];
    let strategy: VecMapAncha<CopyAnchize<usize, ()>, VecU8> =
        VecMapAncha::new(CopyAnchize::new(), VecAnchizeFromVec::new(CopyAnchize::new()));
    let mut sz = Reserve(1);
    let addr = VecMap::<usize, BlobVec<u8>>::reserve(&strategy, &origin, &(), &mut sz);
    assert_eq!(addr, if std::mem::align_of::<usize>() == 1 { 0 } else { std::mem::align_of::<usize>() });
    let mut buf = vec![0u8; sz.0];
    let cur = BuildCursor::new(addr);
    let _: BuildCursor<()> = strategy.anchize(&origin, &(), &mut buf, cur.clone());
    let deancha: VecMapAncha<CopyAnchize<usize, ()>, VecU8D> =
        VecMapAncha::new(CopyAnchize::new(), VecDeanchize::new(NoopDeanchize::new()));
    let _: BuildCursor<()> = deancha.deanchize(&buf, cur);
    let blob = &buf[addr..];
    let vecmap = VecMap::<usize, BlobVec<u8>>::from_blob(blob, 0);

    let mut iter = vecmap.iter_matches(&EqMatch(&3));
    let item = iter.next().unwrap();
    assert_eq!((item.key, vec_at(blob, item.val)), (3, b"hello".to_vec()));
    assert_eq!(iter.next().is_none(), true);

    let mut iter = vecmap.iter_matches(&AnyMatch);
    let item = iter.next().unwrap();
    assert_eq!((item.key, vec_at(blob, item.val)), (1, b"foo".to_vec()));
    let item = iter.next().unwrap();
    assert_eq!((item.key, vec_at(blob, item.val)), (3, b"hello".to_vec()));
    let item = iter.next().unwrap();
    assert_eq!((item.key, vec_at(blob, item.val)), (5, b"".to_vec()));
    assert!(iter.next().is_none());
}

#[test]
fn vecmap_key_addr_steps_by_item() {
    // An item of a usize-keyed map is the key and the value's position.
    assert_eq!(VecMap::<usize, BlobVec<u8>>::key_addr(0, 0), 8);
    assert_eq!(VecMap::<usize, BlobVec<u8>>::key_addr(0, 1), 24);
    assert_eq!(VecMap::<usize, BlobVec<u8>>::key_addr(8, 2), 48);
    // u8 keys are padded to the position that follows them.
    assert_eq!(VecMap::<u8, BlobVec<u8>>::key_addr(0, 2), 40);
}

#[test]
fn vecmap_no_match() {
    let origin = vec![(2usize, b"x".to_vec()), (2, b"y".to_vec())];
    let strategy: VecMapAncha<CopyAnchize<usize, ()>, VecU8> =
        VecMapAncha::new(CopyAnchize::new(), VecAnchizeFromVec::new(CopyAnchize::new()));
    let mut sz = Reserve(0);
    let addr = VecMap::<usize, BlobVec<u8>>::reserve(&strategy, &origin, &(), &mut sz);
    assert_eq!(addr, 0);
    let mut buf = vec![0u8; sz.0];
    let _: BuildCursor<()> = strategy.anchize(&origin, &(), &mut buf, BuildCursor::new(0));
    let vecmap = VecMap::<usize, BlobVec<u8>>::from_blob(&buf, 0);
    assert!(vecmap.iter_matches(&EqMatch(&7)).next().is_none());
    // Both items with the same key come out, first to last.
    let mut iter = vecmap.iter_matches(&EqMatch(&2));
    assert_eq!(vec_at(&buf, iter.next().unwrap().val), b"x".to_vec());
    assert_eq!(vec_at(&buf, iter.next().unwrap().val), b"y".to_vec());
    assert!(iter.next().is_none());
}

// c & (a == b); the two "b" nodes share the leaves.
#[test]
fn test_bdd() {
    let (a, b, c) = (0u8, 1u8, 2u8);
    let leaf_false = Box::new(BddOrigin::Leaf(b"false".to_vec()));
    let leaf_true = Box::new(BddOrigin::Leaf(b"true".to_vec()));
    // Nodes are numbered in preorder, positive child first.
    let ptr_true: usize = 3;
    let ptr_false: usize = 5;
    let node_b_pos = BddOrigin::NodePosOwned { var: b, pos: leaf_true, neg: ptr_false };
    let node_b_neg = BddOrigin::NodeNoOwned { var: b, pos: ptr_false, neg: ptr_true };
    let node_a = BddOrigin::NodeBothOwned { var: a, pos: Box::new(node_b_pos), neg: Box::new(node_b_neg) };
    let node_c = BddOrigin::NodeBothOwned { var: c, pos: Box::new(node_a), neg: leaf_false };

    let anchize: BddAnchize<CopyAnchize<u8, ()>, VecU8> = BddAnchize::default();
    let mut sz = Reserve(0);
    anchize.reserve(&node_c, &(), &mut sz);
    let mut buf = vec![0u8; sz.0];
    let cur = BuildCursor::new(0);
    let _: BuildCursor<()> = anchize.anchize(&node_c, &(), &mut buf, cur.clone());
    let deanchize: BddDeanchize<NoopDeanchize<u8>, VecU8D> = BddDeanchize::default();
    let _: BuildCursor<()> = deanchize.deanchize(&buf, cur);
    let bdd = Bdd::<u8, BlobVec<u8>>::from_blob(&buf, 0);

    let leaf = vec_at(&buf, bdd.evaluate(&|x: &u8| [false, false, false][*x as usize]).unwrap());
    assert_eq!(leaf, b"false".to_vec());
    let leaf = vec_at(&buf, bdd.evaluate(&|x: &u8| [false, false, true][*x as usize]).unwrap());
    assert_eq!(leaf, b"true".to_vec());
    let leaf = vec_at(&buf, bdd.evaluate(&|x: &u8| [false, true, true][*x as usize]).unwrap());
    assert_eq!(leaf, b"false".to_vec());
    let leaf = vec_at(&buf, bdd.evaluate(&|x: &u8| [true, true, true][*x as usize]).unwrap());
    assert_eq!(leaf, b"true".to_vec());
}
