use configmaton::ancha::bdd::BddOrigin;
use configmaton::ancha::sediment::AnchaSediment;
use configmaton::ancha::vec::AnchaVec;
use configmaton::ancha::{Anchize, BuildCursor, Deanchize, Reserve};
use configmaton::my_ancha::automaton::AutomatonContext;
use configmaton::my_ancha::keyval_state::{
    KeyValState, KeyValStateAnchize, KeyValStateDeanchize, LeafAnchize, LeafDeanchize, LeafOrigin,
    StateOrigin, TranOrigin,
};

type TestContext = AutomatonContext;

#[test]
fn test_keyval_state_basic() {
    let state_origin = StateOrigin {
        transitions: vec![TranOrigin {
            key: b"test".to_vec(),
            dfa_inits: vec![0],
            bdd: BddOrigin::Leaf(LeafOrigin { states: vec![0], get_olds: vec![b"get1".to_vec()], exts: vec![] }),
        }],
    };

    let u8qptrs = vec![256usize];
    let kvqptrs = vec![1000usize];
    let context = TestContext { u8qptrs, kvqptrs };

    let mut sz = Reserve(0);
    let kv_ancha: KeyValStateAnchize<TestContext> = KeyValStateAnchize::default();
    kv_ancha.reserve(&state_origin, &context, &mut sz);

    let mut buf = vec![0u8; sz.0];
    let cur = BuildCursor::new(0);
    let end: BuildCursor<()> = kv_ancha.anchize(&state_origin, &context, &mut buf, cur);
    assert_eq!(end.cur, sz.0);

    let kv_deancha: KeyValStateDeanchize = KeyValStateDeanchize::default();
    let cur = BuildCursor::new(0);
    let walked: BuildCursor<()> = kv_deancha.deanchize(&buf, cur);
    assert_eq!(walked.cur, sz.0);

    // The state starts at the anchor, aligned for its type.
    assert_eq!(0 % <KeyValState as configmaton::ancha::Layout>::align(), 0);
}

#[test]
fn test_leaf_origin() {
    let leaf = LeafOrigin {
        states: vec![0, 1, 2],
        get_olds: vec![b"old1".to_vec(), b"old2".to_vec()],
        exts: vec![b"ext1".to_vec()],
    };

    let context = TestContext { u8qptrs: Vec::new(), kvqptrs: vec![100, 200, 300] };

    let ancha: LeafAnchize<TestContext> = LeafAnchize::default();

    let mut sz = Reserve(0);
    ancha.reserve(&leaf, &context, &mut sz);

    let mut buf = vec![0u8; sz.0];
    let cur = BuildCursor::new(0);
    let _end: BuildCursor<()> = ancha.anchize(&leaf, &context, &mut buf, cur);

    let leaf0 = AnchaVec::<usize>::from_blob(&buf, 0);
    assert_eq!(leaf0.len, 3);
}

#[test]
fn leaf_reads_back() {
    let leaf = LeafOrigin {
        states: vec![0, 1, 2],
        get_olds: vec![b"old1".to_vec(), b"old2".to_vec()],
        exts: vec![b"ext1".to_vec()],
    };
    let context = TestContext { u8qptrs: Vec::new(), kvqptrs: vec![100, 200, 300] };
    let ancha: LeafAnchize<TestContext> = LeafAnchize::default();
    let mut sz = Reserve(0);
    ancha.reserve(&leaf, &context, &mut sz);
    let mut buf = vec![0u8; sz.0];
    let end: BuildCursor<()> = ancha.anchize(&leaf, &context, &mut buf, BuildCursor::new(0));
    assert_eq!(end.cur, sz.0);
    let walked: BuildCursor<()> = LeafDeanchize::default().deanchize(&buf, BuildCursor::new(0));
    assert_eq!(walked.cur, sz.0);

    let states = AnchaVec::<usize>::from_blob(&buf, 0);
    assert_eq!(states.as_ref(), vec![100, 200, 300]);
    let gets_at = states.behind::<AnchaSediment<AnchaVec<u8>>>();
    let gets = AnchaSediment::<AnchaVec<u8>>::from_blob(&buf, gets_at);
    assert_eq!(gets.len, 2);
}
