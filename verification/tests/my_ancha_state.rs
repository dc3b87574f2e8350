use configmaton::ancha::arrmap::AnchaArrMap;
use configmaton::ancha::vec::{AnchaVec, VecAnchizeFromVec, VecDeanchize};
use configmaton::ancha::{Anchize, BuildCursor, CopyAnchize, Deanchize, NoopDeanchize, Reserve};
use configmaton::blob::state::U8BuildParams;
use configmaton::char_nfa::{OrderedIxs, State};
use configmaton::guards::Guard;
use configmaton::my_ancha::automaton::AutomatonContext;
use configmaton::my_ancha::state::{
    U8DenseStatePrepared, U8SparseStatePrepared, U8State, U8StateAnchize, U8StateDeanchize,
    U8StateIterator, U8StatePrepared, StatePointerDeanchize,
};

type TestContext = AutomatonContext;

fn context(qptrs: Vec<usize>) -> TestContext {
    AutomatonContext { u8qptrs: qptrs, kvqptrs: vec![] }
}

const TEST_U8_BUILD_CONFIG: U8BuildParams =
    U8BuildParams { guard_size_keep: 2, hashmap_cap_power: 1, dense_guard_count: 3 };

/// Lays one state out at the start of a blob, with the given state positions.
fn lay_out_one(origin: &U8StatePrepared, qptrs: Vec<usize>) -> Vec<u8> {
    let anchize = U8StateAnchize::<TestContext>::new();
    let context = context(qptrs);
    let mut sz = Reserve(0);
    anchize.reserve(origin, &context, &mut sz);
    let mut buf = vec![0u8; sz.0];
    let end: BuildCursor<u8> = anchize.anchize(origin, &context, &mut buf, BuildCursor::new(0));
    assert_eq!(end.cur, sz.0);
    let deanch = U8StateDeanchize::new(0);
    let walked: BuildCursor<u8> = deanch.deanchize(&buf, BuildCursor::new(0));
    assert_eq!(walked.cur, sz.0);
    buf
}

/// Lays states out one behind the other; the targets are the states' own
/// positions.
fn create_states(states: &[U8StatePrepared]) -> (Vec<u8>, Vec<usize>) {
    let anchize = U8StateAnchize::<TestContext>::new();
    let dummy = context(vec![]);
    let mut sz = Reserve(0);
    let mut addrs = Vec::new();
    for state in states {
        sz.add::<U8State>(0);
        addrs.push(sz.0);
        anchize.reserve(state, &dummy, &mut sz);
    }
    let mut buf = vec![0u8; sz.0];
    let context = context(addrs.clone());
    for (i, state) in states.iter().enumerate() {
        let cur = BuildCursor { cur: addrs[i], buf: 0, _phantom: std::marker::PhantomData };
        let _end: BuildCursor<u8> = anchize.anchize(state, &context, &mut buf, cur);
    }
    let deanch = U8StateDeanchize::new(0);
    let mut cur: BuildCursor<U8State> = BuildCursor::new(0);
    for _ in states {
        cur = cur.align();
        cur = deanch.deanchize(&buf, cur);
    }
    assert_eq!(cur.cur, sz.0);
    (buf, addrs)
}

fn collect(mut it: U8StateIterator) -> Vec<usize> {
    let mut out = vec![];
    while let Some(q) = it.next() {
        out.push(q);
    }
    out
}

fn expect_dense(it: U8StateIterator) -> U8StateIterator {
    assert!(matches!(it, U8StateIterator::Dense(_)));
    it
}

fn expect_sparse(it: U8StateIterator) -> U8StateIterator {
    assert!(matches!(it, U8StateIterator::Sparse(_)));
    it
}

fn empty_table() -> [Vec<usize>; 256] {
    std::array::from_fn(|_| Vec::new())
}

#[test]
fn test_dense_state_basic() {
    let mut trans = empty_table();
    trans[b'a' as usize] = vec![1, 2];
    trans[b'b' as usize] = vec![3];
    let origin = U8StatePrepared::Dense(U8DenseStatePrepared { tags: vec![42, 100], trans });
    let buf = lay_out_one(&origin, vec![0x1000, 0x2000, 0x3000, 0x4000]);
    let state = U8State::from_blob(&buf, 0);
    assert!(state.is_dense());
    assert_eq!(state.get_tags(), vec![42, 100]);
    assert_eq!(collect(state.iter_matches(b'a')), vec![0x2000, 0x3000]);
    assert_eq!(collect(state.iter_matches(b'b')), vec![0x4000]);
}

#[test]
fn test_sparse_state_basic() {
    let origin = U8StatePrepared::Sparse(U8SparseStatePrepared {
        tags: vec![7, 8, 9],
        pattern_trans: vec![(Guard(1, 0), vec![0, 1]), (Guard(2, 0), vec![2])],
        explicit_trans: vec![vec![(b'x', vec![3])], vec![], vec![(b'y', vec![4, 5])], vec![]],
    });
    let buf = lay_out_one(&origin, vec![0x1000, 0x2000, 0x3000, 0x4000, 0x5000, 0x6000]);
    let state = U8State::from_blob(&buf, 0);
    assert!(!state.is_dense());
    assert_eq!(state.get_tags(), vec![7, 8, 9]);
    assert_eq!(collect(state.iter_matches(0)), vec![0x1000, 0x2000]);
    assert_eq!(collect(state.iter_matches(1)), vec![0x3000]);
    assert_eq!(collect(state.iter_matches(b'x')), vec![0x4000]);
    // 'y' falls into bucket 1 of 4; the list in bucket 2 is not searched for it.
    assert_eq!(collect(state.iter_matches(b'y')), Vec::<usize>::new());
    assert_eq!(collect(state.iter_matches(b'z')), Vec::<usize>::new());
}

#[test]
fn test_state_no_tags() {
    let origin = U8StatePrepared::Dense(U8DenseStatePrepared { tags: vec![], trans: empty_table() });
    let buf = lay_out_one(&origin, vec![]);
    let state = U8State::from_blob(&buf, 0);
    assert_eq!(state.get_tags().len(), 0);
}

#[test]
fn test_state_pointer_shifting() {
    let mut trans = empty_table();
    trans[0] = vec![0, 1, 2];
    let origin = U8StatePrepared::Dense(U8DenseStatePrepared { tags: vec![], trans });
    let buf = lay_out_one(&origin, vec![0x10, 0x20, 0x30]);
    let state = U8State::from_blob(&buf, 0);
    let ptrs = collect(state.iter_matches(0));
    assert_eq!(ptrs.len(), 3);
    assert!(ptrs[0] != 0);
    assert!(ptrs[1] != 0);
    assert!(ptrs[2] != 0);

    // The same state laid out at anchor 32 of a larger blob: its links are
    // offsets from the anchor until they are fixed up, then absolute.
    let anchor = 32;
    let anchize = U8StateAnchize::<TestContext>::new();
    let ctx = context(vec![0x10, 0x20, 0x30]);
    let mut sz = Reserve(0);
    anchize.reserve(&origin, &ctx, &mut sz);
    let mut big = vec![0u8; anchor + sz.0];
    let _: BuildCursor<u8> = anchize.anchize(&origin, &ctx, &mut big, BuildCursor::new(anchor));
    let (table, v) = {
        let state = U8State::from_blob(&big[anchor..], 0);
        let table = state.dense().trans;
        (table, AnchaArrMap::<256, AnchaVec<usize>>::from_blob(&big[anchor..], table).get(0))
    };
    assert!(table > 0);
    assert_eq!(AnchaVec::<usize>::from_blob(&big[anchor..], v).as_ref(), vec![0x10, 0x20, 0x30]);
    let fix = VecDeanchize::new(StatePointerDeanchize::new(anchor));
    let cur: BuildCursor<AnchaVec<usize>> = BuildCursor::<u8>::new(anchor).goto(anchor + v);
    let _: BuildCursor<u8> = fix.fix_up(&mut big, cur);
    assert_eq!(AnchaVec::<usize>::from_blob(&big[anchor..], v).as_ref(), vec![0x30, 0x40, 0x50]);
}

#[test]
fn fix_up_keeps_plain_values() {
    // A vector of plain values is walked over and kept as it is.
    let anchize: VecAnchizeFromVec<CopyAnchize<usize, ()>> = VecAnchizeFromVec::new(CopyAnchize::new());
    let origin = vec![5usize, 6];
    let mut sz = Reserve(0);
    anchize.reserve(&origin, &(), &mut sz);
    let mut buf = vec![0u8; 8 + sz.0];
    let end: BuildCursor<u8> = anchize.anchize(&origin, &(), &mut buf, BuildCursor::new(8));
    let fix = VecDeanchize::new(NoopDeanchize::<usize>::new());
    let walked: BuildCursor<u8> = fix.fix_up(&mut buf, BuildCursor::new(8));
    assert_eq!(walked.cur, end.cur);
    assert_eq!(AnchaVec::<usize>::from_blob(&buf[8..], 0).as_ref(), vec![5, 6]);
}

#[test]
fn test_composition_demonstration() {
    let mut trans = empty_table();
    trans[b'a' as usize] = vec![0, 1];
    trans[b'b' as usize] = vec![2, 3, 4];
    trans[b'z' as usize] = vec![5];
    let origin = U8StatePrepared::Dense(U8DenseStatePrepared { tags: vec![999], trans });
    let buf = lay_out_one(&origin, (0..6).map(|i| 0x100 + i * 8).collect());
    let state = U8State::from_blob(&buf, 0);
    assert!(state.is_dense());
    assert_eq!(state.get_tags(), vec![999]);
    assert_eq!(collect(state.iter_matches(b'a')).len(), 2);
    assert_eq!(collect(state.iter_matches(b'b')).len(), 3);
    assert_eq!(collect(state.iter_matches(b'z')).len(), 1);
    assert_eq!(collect(state.iter_matches(b'c')).len(), 0);
}

#[test]
fn state_test_states() {
    let mut arr = empty_table();
    arr[97] = vec![0, 1];
    arr[98] = vec![0, 1];
    for i in b'd'..=b'z' {
        arr[i as usize] = vec![1];
    }
    let prepared_states = vec![
        U8StatePrepared::Dense(U8DenseStatePrepared { tags: vec![], trans: arr }),
        U8StatePrepared::Sparse(U8SparseStatePrepared {
            tags: vec![1, 2],
            explicit_trans: vec![vec![], vec![]],
            pattern_trans: vec![(Guard::from_range((b'b', b'm')), vec![0])],
        }),
    ];
    let (buf, addrs) = create_states(&prepared_states);
    let state0 = U8State::from_blob(&buf, addrs[0]);
    let state1 = U8State::from_blob(&buf, addrs[1]);

    assert!(collect(expect_dense(state0.iter_matches(b'c'))).is_empty());

    let mut succs = collect(expect_dense(state0.iter_matches(b'a')));
    succs.sort();
    assert_eq!(succs, vec![addrs[0], addrs[1]]);

    assert_eq!(collect(expect_dense(state0.iter_matches(b'p'))), vec![addrs[1]]);

    assert!(collect(expect_sparse(state1.iter_matches(b'a'))).is_empty());

    assert_eq!(collect(expect_sparse(state1.iter_matches(b'c'))), vec![addrs[0]]);

    assert_eq!(state0.get_tags(), Vec::<usize>::new());
    assert_eq!(state1.get_tags(), vec![1usize, 2]);
}

#[test]
fn blob_test_states() {
    let states = vec![
        State {
            tags: OrderedIxs(vec![]),
            transitions: vec![
                (Guard::from_range((b'a', b'b')), 0),
                (Guard::from_range((b'a', b'a')), 1),
                (Guard::from_range((b'd', b'z')), 1),
            ],
            is_deterministic: false,
        },
        State {
            tags: OrderedIxs(vec![1, 2]),
            transitions: vec![(Guard::from_range((b'b', b'm')), 0)],
            is_deterministic: false,
        },
    ];
    let prepared: Vec<U8StatePrepared> =
        states.iter().map(|q| U8StatePrepared::prepare(q, &TEST_U8_BUILD_CONFIG)).collect();
    let (buf, addrs) = create_states(&prepared);
    let state0 = U8State::from_blob(&buf, addrs[0]);
    let state1 = U8State::from_blob(&buf, addrs[1]);

    assert!(collect(expect_dense(state0.iter_matches(b'c'))).is_empty());

    let mut succs = collect(expect_dense(state0.iter_matches(b'a')));
    succs.sort();
    assert_eq!(succs, vec![addrs[0], addrs[1]]);

    assert_eq!(collect(expect_dense(state0.iter_matches(b'p'))), vec![addrs[1]]);

    assert!(collect(expect_sparse(state1.iter_matches(b'a'))).is_empty());

    assert_eq!(collect(expect_sparse(state1.iter_matches(b'c'))), vec![addrs[0]]);

    assert_eq!(state0.get_tags(), Vec::<usize>::new());
    assert_eq!(state1.get_tags(), vec![1usize, 2]);
}

#[test]
fn prepare_small_guards_go_to_buckets() {
    let state = State {
        tags: OrderedIxs(vec![3]),
        transitions: vec![(Guard::from_range((b'x', b'x')), 4), (Guard::from_range((b'a', b'c')), 5)],
        is_deterministic: false,
    };
    match U8StatePrepared::prepare(&state, &TEST_U8_BUILD_CONFIG) {
        U8StatePrepared::Sparse(s) => {
            assert_eq!(s.tags, vec![3]);
            assert_eq!(s.pattern_trans.len(), 1);
            assert_eq!(s.pattern_trans[0].0, Guard::from_range((b'a', b'c')));
            assert_eq!(s.pattern_trans[0].1, vec![5]);
            assert_eq!(s.explicit_trans.len(), 2);
            assert_eq!(s.explicit_trans[(b'x' as usize) % 2], vec![(b'x', vec![4])]);
            assert!(s.explicit_trans[1 - (b'x' as usize) % 2].is_empty());
        }
        U8StatePrepared::Dense(_) => panic!("expected a sparse state"),
    }
}

#[test]
fn tags_take_room_only_where_there_are_some() {
    let anchize = U8StateAnchize::<TestContext>::new();
    let ctx = context(vec![0]);
    let bare = U8StatePrepared::Dense(U8DenseStatePrepared { tags: vec![], trans: empty_table() });
    let tagged = U8StatePrepared::Dense(U8DenseStatePrepared { tags: vec![7, 9], trans: empty_table() });
    let mut sz_bare = Reserve(3);
    anchize.reserve(&bare, &ctx, &mut sz_bare);
    let mut sz_tagged = Reserve(3);
    anchize.reserve(&tagged, &ctx, &mut sz_tagged);
    // the tags: a length and two entries, behind the transitions
    assert!(sz_tagged.0 >= sz_bare.0 + 8 + 2 * 8);
}
