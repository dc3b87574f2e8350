use configmaton::ancha::bdd::{AnchaBdd, BddAnchize, BddDeanchize, BddOrigin};
use configmaton::ancha::vec::{AnchaVec, VecAnchizeFromVec, VecDeanchize};
use configmaton::ancha::{Anchize, BuildCursor, CopyAnchize, Deanchize, NoopDeanchize, Reserve};

type TestAnchize = BddAnchize<CopyAnchize<u8, ()>, VecAnchizeFromVec<CopyAnchize<u8, ()>>>;
type TestDeanchize = BddDeanchize<NoopDeanchize<u8>, VecDeanchize<NoopDeanchize<u8>>>;

fn build(origin: &BddOrigin<u8, Vec<u8>>) -> Vec<u8> {
    let anchize: TestAnchize = BddAnchize::default();
    let deanchize: TestDeanchize = BddDeanchize::default();
    let mut sz = Reserve(0);
    anchize.reserve(origin, &(), &mut sz);
    let mut buf = vec![0u8; sz.0];
    let cur = BuildCursor::new(0);
    let end: BuildCursor<()> = anchize.anchize(origin, &(), &mut buf, cur.clone());
    let dend: BuildCursor<()> = deanchize.deanchize(&buf, cur);
    assert_eq!(end.cur, dend.cur);
    assert_eq!(end.cur, sz.0);
    buf
}

fn leaf_of(buf: &[u8], at: Option<usize>) -> Vec<u8> {
    AnchaVec::<u8>::from_blob(buf, at.unwrap()).as_ref()
}

// Test: c & (a == b). Nodes are numbered in preorder, positive child first:
// 0: c, 1: a, 2: b (positive), 3: leaf "true", 4: b (negative), 5: leaf "false".
#[test]
fn test_bdd_complex() {
    let (a, b, c) = (0u8, 1u8, 2u8);

    let leaf_false = Box::new(BddOrigin::Leaf(b"false".to_vec()));
    let leaf_true = Box::new(BddOrigin::Leaf(b"true".to_vec()));
    let ptr_true: usize = 3;
    let ptr_false: usize = 5;

    // node_b_pos: if b is true, return true; else return false
    let node_b_pos = BddOrigin::NodePosOwned { var: b, pos: leaf_true, neg: ptr_false };
    // node_b_neg: if b is true, return false; else return true (inverted)
    let node_b_neg = BddOrigin::NodeNoOwned { var: b, pos: ptr_false, neg: ptr_true };
    // node_a: if a is true, use node_b_pos; else use node_b_neg (a == b)
    let node_a =
        BddOrigin::NodeBothOwned { var: a, pos: Box::new(node_b_pos), neg: Box::new(node_b_neg) };
    // node_c: if c is true, use node_a; else return false (c & (a == b))
    let node_c = BddOrigin::NodeBothOwned { var: c, pos: Box::new(node_a), neg: leaf_false };

    let buf = build(&node_c);
    let bdd = AnchaBdd::<u8, AnchaVec<u8>>::from_blob(&buf, 0);

    // [a, b, c] = [false, false, false] -> false (c is false)
    let leaf = leaf_of(&buf, bdd.evaluate(&|x: &u8| [false, false, false][*x as usize]));
    assert_eq!(leaf, b"false".to_vec());

    // [a, b, c] = [false, false, true] -> true (c is true, a == b)
    let leaf = leaf_of(&buf, bdd.evaluate(&|x: &u8| [false, false, true][*x as usize]));
    assert_eq!(leaf, b"true".to_vec());

    // [a, b, c] = [false, true, true] -> false (c is true, but a != b)
    let leaf = leaf_of(&buf, bdd.evaluate(&|x: &u8| [false, true, true][*x as usize]));
    assert_eq!(leaf, b"false".to_vec());

    // [a, b, c] = [true, true, true] -> true (c is true, a == b)
    let leaf = leaf_of(&buf, bdd.evaluate(&|x: &u8| [true, true, true][*x as usize]));
    assert_eq!(leaf, b"true".to_vec());
}

#[test]
fn test_bdd_simple_leaf() {
    let origin = BddOrigin::Leaf(vec![42u8, 43, 44]);
    let buf = build(&origin);
    let bdd = AnchaBdd::<u8, AnchaVec<u8>>::from_blob(&buf, 0);
    assert_eq!(u32::from_le_bytes([buf[0], buf[1], buf[2], buf[3]]), 0);

    // A leaf BDD always returns the leaf value
    let leaf = leaf_of(&buf, bdd.evaluate(&|_: &u8| -> bool { panic!("Should not evaluate variables") }));
    assert_eq!(leaf, &[42u8, 43, 44]);
}

#[test]
fn test_bdd_single_node() {
    let leaf_true = Box::new(BddOrigin::Leaf(vec![1u8]));
    let leaf_false = Box::new(BddOrigin::Leaf(vec![0u8]));
    let node = BddOrigin::NodeBothOwned { var: 0u8, pos: leaf_true, neg: leaf_false };

    let buf = build(&node);
    let bdd = AnchaBdd::<u8, AnchaVec<u8>>::from_blob(&buf, 0);

    // Variable 0 = true -> return [1]
    assert_eq!(leaf_of(&buf, bdd.evaluate(&|_: &u8| true)), &[1u8]);
    // Variable 0 = false -> return [0]
    assert_eq!(leaf_of(&buf, bdd.evaluate(&|_: &u8| false)), &[0u8]);
}

#[test]
fn bdd_origin_accessors() {
    let node = BddOrigin::NodePosOwned { var: 7u8, pos: Box::new(BddOrigin::Leaf(vec![1u8])), neg: 1usize };
    assert_eq!(*node.get_var(), 7u8);
    assert!(node.owns_pos());
    assert!(!node.owns_neg());
    let node: BddOrigin<u8, Vec<u8>> = BddOrigin::NodeNoOwned { var: 3u8, pos: 0, neg: 0 };
    assert!(!node.owns_pos());
    assert!(!node.owns_neg());
}

#[test]
fn detached_nodes_are_shared() {
    // Two nodes on variable 1 refer to leaves that no node owns.
    let x = BddOrigin::NodeNoOwned { var: 1u8, pos: 3, neg: 4 };
    let y = BddOrigin::NodeNoOwned { var: 1u8, pos: 4, neg: 3 };
    let root = BddOrigin::NodeBothOwned { var: 0u8, pos: Box::new(x), neg: Box::new(y) };
    let leaves = BddOrigin::WithDetached {
        first: Box::new(BddOrigin::Leaf(b"yes".to_vec())),
        rest: Box::new(BddOrigin::Leaf(b"no".to_vec())),
    };
    let origin = BddOrigin::WithDetached { first: Box::new(root), rest: Box::new(leaves) };
    let anchize: TestAnchize = BddAnchize::default();
    let mut sz = Reserve(0);
    anchize.reserve(&origin, &(), &mut sz);
    let mut buf = vec![0u8; sz.0];
    let end: BuildCursor<()> = anchize.anchize(&origin, &(), &mut buf, BuildCursor::new(0));
    assert_eq!(end.cur, sz.0);
    let bdd = AnchaBdd::<u8, AnchaVec<u8>>::from_blob(&buf, 0);
    assert_eq!(leaf_of(&buf, bdd.evaluate(&|v: &u8| [true, true][*v as usize])), b"yes".to_vec());
    assert_eq!(leaf_of(&buf, bdd.evaluate(&|v: &u8| [true, false][*v as usize])), b"no".to_vec());
    assert_eq!(leaf_of(&buf, bdd.evaluate(&|v: &u8| [false, true][*v as usize])), b"no".to_vec());
    assert_eq!(leaf_of(&buf, bdd.evaluate(&|v: &u8| [false, false][*v as usize])), b"yes".to_vec());
}
