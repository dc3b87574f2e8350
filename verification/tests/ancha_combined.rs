use configmaton::ancha::bdd::{AnchaBdd, BddOrigin};
use configmaton::ancha::combined::{BddAncha, ListAncha, VecAncha};
use configmaton::ancha::list::AnchaList;
use configmaton::ancha::vec::AnchaVec;
use configmaton::ancha::{Anchize, BuildCursor, CopyAnchize, Deanchize, Reserve, StaticAnchize};
use configmaton::blob::ser::{MultiplyBy2, SerAnchize};

fn direct_u8() -> CopyAnchize<u8, ()> {
    CopyAnchize::new()
}

#[test]
fn vec_test_anchavec_basic_combined() {
    let ancha = VecAncha::new(direct_u8());
    let origin = vec![1u8, 2, 3];

    let mut sz = Reserve(0);
    ancha.reserve(&origin, &(), &mut sz);

    let mut buf = vec![0u8; sz.0];
    let cur = BuildCursor::new(0);
    let _end: BuildCursor<()> = ancha.anchize(&origin, &(), &mut buf, cur.clone());
    let walked: BuildCursor<()> = ancha.deanchize(&buf, cur);
    assert_eq!(walked.cur, sz.0);

    let anchavec = AnchaVec::<u8>::from_blob(&buf, 0);
    assert_eq!(anchavec.as_ref(), vec![1, 2, 3]);
}

#[test]
fn test_anchavec_with_custom() {
    let ser = MultiplyBy2;
    let ancha = VecAncha::new(SerAnchize(&ser));
    let origin = vec![1usize, 2, 3];

    let mut sz = Reserve(0);
    ancha.reserve(&origin, &(), &mut sz);

    let mut buf = vec![0u8; sz.0];
    let cur = BuildCursor::new(0);
    let _end: BuildCursor<()> = ancha.anchize(&origin, &(), &mut buf, cur.clone());
    let _walked: BuildCursor<()> = ancha.deanchize(&buf, cur);

    let anchavec = AnchaVec::<usize>::from_blob(&buf, 0);
    assert_eq!(anchavec.as_ref(), vec![2, 4, 6]);
}

#[test]
fn test_list_with_vectors() {
    let list_ancha = ListAncha::new(VecAncha::new(direct_u8()));
    let origin = vec![b"hello".to_vec(), b"world".to_vec()];

    let mut sz = Reserve(0);
    list_ancha.reserve(&origin, &(), &mut sz);

    let mut buf = vec![0u8; sz.0];
    let cur = BuildCursor::new(0);
    let _end: BuildCursor<()> = list_ancha.anchize(&origin, &(), &mut buf, cur.clone());
    let walked: BuildCursor<()> = list_ancha.deanchize(&buf, cur);
    assert_eq!(walked.cur, sz.0);

    let list = AnchaList::<AnchaVec<u8>>::from_blob(&buf, 0);
    let mut results = vec![];
    let mut it = list.iter();
    while let Some(at) = it.next() {
        results.push(AnchaVec::<u8>::from_blob(&buf, at).as_ref());
    }
    assert_eq!(results[0], b"hello".to_vec());
    assert_eq!(results[1], b"world".to_vec());
}

fn leaf_of(buf: &[u8], at: Option<usize>) -> Vec<u8> {
    AnchaVec::<u8>::from_blob(buf, at.unwrap()).as_ref()
}

// c & (a == b); nodes in preorder, positive child first: 0: c, 1: a, 2: b,
// 3: leaf "true", 4: b, 5: leaf "false".
#[test]
fn test_bdd_with_default_anchization() {
    let (a, b, c) = (0u8, 1u8, 2u8);
    let leaf_false = Box::new(BddOrigin::Leaf(b"false".to_vec()));
    let leaf_true = Box::new(BddOrigin::Leaf(b"true".to_vec()));
    let ptr_false: usize = 5;
    let ptr_true: usize = 3;
    let node_b_pos = BddOrigin::NodePosOwned { var: b, pos: leaf_true, neg: ptr_false };
    let node_b_neg = BddOrigin::NodeNoOwned { var: b, pos: ptr_false, neg: ptr_true };
    let node_a = BddOrigin::NodeBothOwned { var: a, pos: Box::new(node_b_pos), neg: Box::new(node_b_neg) };
    let node_c = BddOrigin::NodeBothOwned { var: c, pos: Box::new(node_a), neg: leaf_false };

    let ancha = BddAncha::new(direct_u8(), VecAncha::new(direct_u8()));

    let mut sz = Reserve(0);
    ancha.reserve(&node_c, &(), &mut sz);
    let mut buf = vec![0u8; sz.0];
    let cur = BuildCursor::new(0);
    let _end: BuildCursor<()> = ancha.anchize(&node_c, &(), &mut buf, cur.clone());
    let walked: BuildCursor<()> = ancha.deanchize(&buf, cur);
    assert_eq!(walked.cur, sz.0);

    let bdd = AnchaBdd::<u8, AnchaVec<u8>>::from_blob(&buf, 0);
    let leaf = leaf_of(&buf, bdd.evaluate(&|x: &u8| [false, false, false][*x as usize]));
    assert_eq!(leaf, b"false".to_vec());
    let leaf = leaf_of(&buf, bdd.evaluate(&|x: &u8| [false, false, true][*x as usize]));
    assert_eq!(leaf, b"true".to_vec());
    let leaf = leaf_of(&buf, bdd.evaluate(&|x: &u8| [false, true, true][*x as usize]));
    assert_eq!(leaf, b"false".to_vec());
    let leaf = leaf_of(&buf, bdd.evaluate(&|x: &u8| [true, true, true][*x as usize]));
    assert_eq!(leaf, b"true".to_vec());
}

struct MultiplyBy10;

impl StaticAnchize for MultiplyBy10 {
    type Origin = u8;
    type Context = ();
    type Ancha = u8;

    fn spec_accepts(&self, origin: u8, _context: ()) -> bool {
        origin <= 25
    }

    fn spec_anchize_static(&self, origin: u8, _context: ()) -> u8 {
        origin * 10
    }

    fn anchize_static(&self, origin: &u8, _context: &(), ancha: &mut u8) {
        *ancha = *origin * 10;
    }
}

#[test]
fn test_bdd_with_custom_var_anchization() {
    let leaf_a = Box::new(BddOrigin::Leaf(b"a".to_vec()));
    let leaf_b = Box::new(BddOrigin::Leaf(b"b".to_vec()));
    // Preorder: 0: the node, 1: leaf "b" (positive, owned), 2: leaf "a",
    // which the node does not own: it lies outside the node's tree and is
    // referred to by the node only.
    let ptr_a: usize = 2;
    let owner = BddOrigin::NodePosOwned { var: 5u8, pos: leaf_b, neg: ptr_a };
    let node = BddOrigin::WithDetached { first: Box::new(owner), rest: leaf_a };

    let ancha = BddAncha::new(MultiplyBy10, VecAncha::new(direct_u8()));

    let mut sz = Reserve(0);
    ancha.reserve(&node, &(), &mut sz);
    let mut buf = vec![0u8; sz.0];
    let cur = BuildCursor::new(0);
    let _end: BuildCursor<()> = ancha.anchize(&node, &(), &mut buf, cur.clone());
    let _walked: BuildCursor<()> = ancha.deanchize(&buf, cur);

    let bdd = AnchaBdd::<u8, AnchaVec<u8>>::from_blob(&buf, 0);
    let leaf = leaf_of(&buf, bdd.evaluate(&|x: &u8| *x >= 50));
    assert_eq!(leaf, b"b".to_vec());
    let leaf = leaf_of(&buf, bdd.evaluate(&|x: &u8| *x < 50));
    assert_eq!(leaf, b"a".to_vec());
}
