use configmaton::ancha::arrmap::{AnchaArrMap, ArrMapAnchizeFromArray, ArrMapDeanchize};
use configmaton::ancha::assoc_list::{AnchaAssocList, AssocListAnchizeFromVec, AssocListDeanchize};
use configmaton::ancha::flagellum::{AnchaFlagellum, FlagellumAnchizeFromTuple, FlagellumDeanchize};
use configmaton::ancha::hashmap::{AnchaHashMap, HashMapAnchizeFromVec, HashMapDeanchize};
use configmaton::ancha::list::{AnchaList, ListAnchizeFromVec, ListDeanchize};
use configmaton::ancha::listmap::{AnchaListMap, ListMapAnchizeFromVec, ListMapDeanchize};
use configmaton::ancha::sediment::{AnchaSediment, SedimentAnchizeFromVec, SedimentDeanchize};
use configmaton::ancha::tupellum::{TupellumAnchizeFromTuple, TupellumDeanchizeFromTuple};
use configmaton::ancha::vec::{AnchaVec, VecAnchizeFromVec, VecDeanchize};
use configmaton::ancha::vecmap::{AnchaVecMap, VecMapAncha};
use configmaton::ancha::{
    Anchize, AnyMatch, BuildCursor, CopyAnchize, Deanchize, EqMatch, NoopDeanchize, Reserve,
};

type VecU8 = VecAnchizeFromVec<CopyAnchize<u8, ()>>;
type VecU8D = VecDeanchize<NoopDeanchize<u8>>;

fn vec_at(buf: &[u8], at: usize) -> Vec<u8> {
    AnchaVec::<u8>::from_blob(buf, at).as_ref()
}

fn list_values(buf: &[u8], at: usize) -> Vec<usize> {
    let mut it = AnchaList::<AnchaVec<u8>>::from_blob(buf, at).iter();
    let mut r = Vec::new();
    while let Some(p) = it.next() {
        r.push(p);
    }
    r
}

#[test]
fn test_flagellum_basic() {
    let origin = (42u32, vec![1u8, 2, 3]);
    let anchize: FlagellumAnchizeFromTuple<CopyAnchize<u32, ()>, VecU8> =
        FlagellumAnchizeFromTuple::default();
    let deanchize: FlagellumDeanchize<NoopDeanchize<u32>, VecU8D> = FlagellumDeanchize::default();

    let mut sz = Reserve(0);
    anchize.reserve(&origin, &(), &mut sz);
    let mut buf = vec![0u8; sz.0];
    let cur = BuildCursor::new(0);
    let end: BuildCursor<()> = anchize.anchize(&origin, &(), &mut buf, cur.clone());
    let dend: BuildCursor<()> = deanchize.deanchize(&buf, cur);
    assert_eq!(end.cur, dend.cur);

    let flagellum = AnchaFlagellum::<u32, AnchaVec<u8>>::from_blob(&buf, 0);
    assert_eq!(flagellum.key(), 42u32);
    assert_eq!(vec_at(&buf, flagellum.val()), &[1u8, 2, 3]);
}

#[test]
fn test_flagellum_multiple() {
    let origin1 = (1u8, vec![10u8, 20]);
    let origin2 = (2u8, vec![30u8, 40, 50]);
    let anchize: FlagellumAnchizeFromTuple<CopyAnchize<u8, ()>, VecU8> =
        FlagellumAnchizeFromTuple::default();
    let deanchize: FlagellumDeanchize<NoopDeanchize<u8>, VecU8D> = FlagellumDeanchize::default();

    let mut sz = Reserve(0);
    anchize.reserve(&origin1, &(), &mut sz);
    anchize.reserve(&origin2, &(), &mut sz);
    let mut buf = vec![0u8; sz.0];
    let cur = BuildCursor::new(0);
    let mid: BuildCursor<_> = anchize.anchize(&origin1, &(), &mut buf, cur);
    let _: BuildCursor<()> = anchize.anchize(&origin2, &(), &mut buf, mid);

    let cur = BuildCursor::new(0);
    let mid: BuildCursor<_> = deanchize.deanchize(&buf, cur);
    let _: BuildCursor<()> = deanchize.deanchize(&buf, mid);

    let flag1 = AnchaFlagellum::<u8, AnchaVec<u8>>::from_blob(&buf, 0);
    assert_eq!(flag1.key(), 1u8);
    assert_eq!(vec_at(&buf, flag1.val()), &[10u8, 20]);
}

#[test]
fn test_list_basic() {
    let origin = vec![vec![1u8, 2, 3], vec![4, 5], vec![6, 7, 8, 9]];
    let anchize: ListAnchizeFromVec<VecU8> = ListAnchizeFromVec::default();
    let deanchize: ListDeanchize<VecU8D> = ListDeanchize::default();

    let mut sz = Reserve(0);
    anchize.reserve(&origin, &(), &mut sz);
    let mut buf = vec![0u8; sz.0];
    let cur = BuildCursor::new(0);
    let _: BuildCursor<()> = anchize.anchize(&origin, &(), &mut buf, cur.clone());
    let _: BuildCursor<()> = deanchize.deanchize(&buf, cur);

    let collected: Vec<Vec<u8>> = list_values(&buf, 0).into_iter().map(|p| vec_at(&buf, p)).collect();
    assert_eq!(collected, origin);
}

#[test]
fn test_list_empty() {
    let origin: Vec<Vec<u8>> = vec![];
    let anchize: ListAnchizeFromVec<VecU8> = ListAnchizeFromVec::default();

    let mut sz = Reserve(0);
    anchize.reserve(&origin, &(), &mut sz);

    // Empty list should just have alignment
    assert!(sz.0 <= 8);
}

#[test]
fn test_list_single_element() {
    let origin = vec![vec![42u8]];
    let anchize: ListAnchizeFromVec<VecU8> = ListAnchizeFromVec::default();
    let deanchize: ListDeanchize<VecU8D> = ListDeanchize::default();

    let mut sz = Reserve(0);
    anchize.reserve(&origin, &(), &mut sz);
    let mut buf = vec![0u8; sz.0];
    let cur = BuildCursor::new(0);
    let _: BuildCursor<()> = anchize.anchize(&origin, &(), &mut buf, cur.clone());
    let _: BuildCursor<()> = deanchize.deanchize(&buf, cur);

    let collected: Vec<Vec<u8>> = list_values(&buf, 0).into_iter().map(|p| vec_at(&buf, p)).collect();
    assert_eq!(collected, vec![vec![42u8]]);
}

type FlagU32VecU8 = FlagellumAnchizeFromTuple<CopyAnchize<u32, ()>, VecU8>;
type FlagU32VecU8D = FlagellumDeanchize<NoopDeanchize<u32>, VecU8D>;
type TestFlagellum<'a> = AnchaFlagellum<'a, u32, AnchaVec<'a, u8>>;

#[test]
fn test_assoc_list_basic() {
    let origin = vec![(1u32, vec![10u8, 20]), (2u32, vec![30u8, 40]), (3u32, vec![50u8, 60])];
    let anchize: AssocListAnchizeFromVec<FlagU32VecU8> = AssocListAnchizeFromVec::default();
    let deanchize: AssocListDeanchize<FlagU32VecU8D> = AssocListDeanchize::default();

    let mut sz = Reserve(0);
    anchize.reserve(&origin, &(), &mut sz);
    let mut buf = vec![0u8; sz.0];
    let cur = BuildCursor::new(0);
    let _: BuildCursor<()> = anchize.anchize(&origin, &(), &mut buf, cur.clone());
    let _: BuildCursor<()> = deanchize.deanchize(&buf, cur);

    let assoc_list = AnchaAssocList::<TestFlagellum>::from_blob(&buf, 0);

    // Search for key 2
    let key = 2u32;
    let m = EqMatch(&key);
    let mut iter = assoc_list.iter_matches(&m);
    let (k, v) = iter.next().unwrap();
    assert_eq!(k, 2u32);
    assert_eq!(vec_at(&buf, v), &[30u8, 40]);
    assert!(iter.next().is_none());

    // Iterate all with AnyMatch
    let mut iter = assoc_list.iter_matches(&AnyMatch);
    let mut collected: Vec<(u32, Vec<u8>)> = Vec::new();
    while let Some((k, v)) = iter.next() {
        collected.push((k, vec_at(&buf, v)));
    }
    assert_eq!(collected.len(), 3);
    assert_eq!(collected[0], (1u32, vec![10u8, 20]));
    assert_eq!(collected[1], (2u32, vec![30u8, 40]));
    assert_eq!(collected[2], (3u32, vec![50u8, 60]));
}

#[test]
fn test_assoc_list_empty() {
    let origin: Vec<(u32, Vec<u8>)> = vec![];
    let anchize: AssocListAnchizeFromVec<FlagU32VecU8> = AssocListAnchizeFromVec::default();

    let mut sz = Reserve(0);
    anchize.reserve(&origin, &(), &mut sz);

    // Empty list should have minimal size
    assert!(sz.0 <= 8);
}

type HashAnchize = HashMapAnchizeFromVec<AssocListAnchizeFromVec<FlagU32VecU8>>;
type HashDeanchize = HashMapDeanchize<AssocListDeanchize<FlagU32VecU8D>>;

#[test]
fn test_hashmap_basic() {
    // Bucket 0: [(0, 100), (4, 104)]; bucket 1: [(1, 101)]; bucket 2: []; bucket 3: [(3, 103)]
    let origin: Vec<Vec<(u32, Vec<u8>)>> = vec![
        vec![(0u32, vec![100u8]), (4u32, vec![104u8])],
        vec![(1u32, vec![101u8])],
        vec![],
        vec![(3u32, vec![103u8])],
    ];
    let anchize: HashAnchize = HashMapAnchizeFromVec::default();
    let deanchize: HashDeanchize = HashMapDeanchize::default();

    let mut sz = Reserve(0);
    anchize.reserve(&origin, &(), &mut sz);
    let mut buf = vec![0u8; sz.0];
    let cur = BuildCursor::new(0);
    let _: BuildCursor<()> = anchize.anchize(&origin, &(), &mut buf, cur.clone());
    let _: BuildCursor<()> = deanchize.deanchize(&buf, cur);

    let hashmap = AnchaHashMap::<AnchaAssocList<TestFlagellum>>::from_blob(&buf, 0);
    let first = |k: u32| hashmap.get(&k).map(|v| vec_at(&buf, v)[0]);
    assert_eq!(first(0), Some(100u8));
    assert_eq!(first(1), Some(101u8));
    assert_eq!(first(3), Some(103u8));
    assert_eq!(first(4), Some(104u8));
    assert!(hashmap.get(&2u32).is_none()); // Empty bucket
    assert!(hashmap.get(&5u32).is_none()); // Not in table
}

#[test]
fn test_hashmap_empty() {
    let origin: Vec<Vec<(u32, Vec<u8>)>> = vec![vec![], vec![], vec![], vec![]];
    let anchize: HashAnchize = HashMapAnchizeFromVec::default();

    let mut sz = Reserve(0);
    anchize.reserve(&origin, &(), &mut sz);

    // Should just have mask + pointer array
    assert!(sz.0 <= 64);
}

#[test]
fn test_arrmap_basic() {
    let origin = [vec![1u8, 2, 3], vec![4, 5], vec![6, 7, 8, 9]];
    let anchize: ArrMapAnchizeFromArray<3, VecU8> = ArrMapAnchizeFromArray::default();
    let deanchize: ArrMapDeanchize<3, VecU8D> = ArrMapDeanchize::default();

    let mut sz = Reserve(0);
    anchize.reserve(&origin, &(), &mut sz);
    let mut buf = vec![0u8; sz.0];
    let cur = BuildCursor::new(0);
    let _: BuildCursor<()> = anchize.anchize(&origin, &(), &mut buf, cur.clone());
    let _: BuildCursor<()> = deanchize.deanchize(&buf, cur);

    let arrmap = AnchaArrMap::<3, AnchaVec<u8>>::from_blob(&buf, 0);
    assert_eq!(vec_at(&buf, arrmap.get(0)), &[1u8, 2, 3]);
    assert_eq!(vec_at(&buf, arrmap.get(1)), &[4u8, 5]);
    assert_eq!(vec_at(&buf, arrmap.get(2)), &[6u8, 7, 8, 9]);
}

#[test]
fn test_arrmap_single_element() {
    let origin = [vec![42u8]];
    let anchize: ArrMapAnchizeFromArray<1, VecU8> = ArrMapAnchizeFromArray::default();
    let deanchize: ArrMapDeanchize<1, VecU8D> = ArrMapDeanchize::default();

    let mut sz = Reserve(0);
    anchize.reserve(&origin, &(), &mut sz);
    let mut buf = vec![0u8; sz.0];
    let cur = BuildCursor::new(0);
    let _: BuildCursor<()> = anchize.anchize(&origin, &(), &mut buf, cur.clone());
    let _: BuildCursor<()> = deanchize.deanchize(&buf, cur);

    let arrmap = AnchaArrMap::<1, AnchaVec<u8>>::from_blob(&buf, 0);
    assert_eq!(vec_at(&buf, arrmap.get(0)), &[42u8]);
}

#[test]
fn test_arrmap_large() {
    let origin = [vec![1u8], vec![2u8], vec![3u8], vec![4u8], vec![5u8]];
    let anchize: ArrMapAnchizeFromArray<5, VecU8> = ArrMapAnchizeFromArray::default();
    let deanchize: ArrMapDeanchize<5, VecU8D> = ArrMapDeanchize::default();

    let mut sz = Reserve(0);
    anchize.reserve(&origin, &(), &mut sz);
    let mut buf = vec![0u8; sz.0];
    let cur = BuildCursor::new(0);
    let _: BuildCursor<()> = anchize.anchize(&origin, &(), &mut buf, cur.clone());
    let _: BuildCursor<()> = deanchize.deanchize(&buf, cur);

    let arrmap = AnchaArrMap::<5, AnchaVec<u8>>::from_blob(&buf, 0);
    for i in 0..5 {
        assert_eq!(vec_at(&buf, arrmap.get(i)), &[(i + 1) as u8]);
    }
}

#[test]
fn test_listmap_basic() {
    let origin = vec![(1u32, vec![10u8, 20]), (2u32, vec![30u8, 40]), (3u32, vec![50u8, 60])];
    let anchize: ListMapAnchizeFromVec<CopyAnchize<u32, ()>, VecU8> = ListMapAnchizeFromVec::default();
    let deanchize: ListMapDeanchize<NoopDeanchize<u32>, VecU8D> = ListMapDeanchize::default();

    let mut sz = Reserve(0);
    anchize.reserve(&origin, &(), &mut sz);
    let mut buf = vec![0u8; sz.0];
    let cur = BuildCursor::new(0);
    let _: BuildCursor<()> = anchize.anchize(&origin, &(), &mut buf, cur.clone());
    let _: BuildCursor<()> = deanchize.deanchize(&buf, cur);

    let listmap = AnchaListMap::<u32, AnchaVec<u8>>::from_blob(&buf, 0);
    let key = 2u32;
    let m = EqMatch(&key);
    let mut iter = listmap.iter_matches(&m);
    let item = iter.next().unwrap();
    assert_eq!(item.key, 2u32);
    assert_eq!(vec_at(&buf, item.val), &[30u8, 40]);
    assert!(iter.next().is_none());

    let mut iter = listmap.iter_matches(&AnyMatch);
    let mut collected: Vec<(u32, Vec<u8>)> = Vec::new();
    while let Some(item) = iter.next() {
        collected.push((item.key, vec_at(&buf, item.val)));
    }
    assert_eq!(collected.len(), 3);
    assert_eq!(collected[0], (1u32, vec![10u8, 20]));
    assert_eq!(collected[1], (2u32, vec![30u8, 40]));
    assert_eq!(collected[2], (3u32, vec![50u8, 60]));
}

#[test]
fn test_listmap_empty() {
    let origin: Vec<(u32, Vec<u8>)> = vec![];
    let anchize: ListMapAnchizeFromVec<CopyAnchize<u32, ()>, VecU8> = ListMapAnchizeFromVec::default();

    let mut sz = Reserve(0);
    anchize.reserve(&origin, &(), &mut sz);

    assert!(sz.0 <= 8);
}

#[test]
fn test_sediment_of_vecs() {
    let origin = vec![vec![1u8, 2], vec![3, 4, 5, 6], vec![7]];
    let anchize: SedimentAnchizeFromVec<VecU8> = SedimentAnchizeFromVec::default();
    let deanchize: SedimentDeanchize<VecU8D> = SedimentDeanchize::default();

    let mut sz = Reserve(0);
    anchize.reserve(&origin, &(), &mut sz);
    let mut buf = vec![0u8; sz.0];
    let cur = BuildCursor::new(0);
    let _: BuildCursor<()> = anchize.anchize(&origin, &(), &mut buf, cur.clone());
    let _: BuildCursor<()> = deanchize.deanchize(&buf, cur);

    let sediment = AnchaSediment::<AnchaVec<u8>>::from_blob(&buf, 0);
    assert_eq!(sediment.len, 3);

    let mut at = sediment.first();
    let mut idx = 0;
    while idx < sediment.len {
        let vec = AnchaVec::<u8>::from_blob(&buf, at);
        let expected = &origin[idx];
        assert_eq!(vec.len, expected.len());
        assert_eq!(vec.as_ref(), expected.as_slice());
        idx += 1;
        at = vec.behind::<AnchaVec<u8>>();
    }
    assert_eq!(idx, 3);
}

#[test]
fn test_sediment_empty() {
    let origin: Vec<Vec<u8>> = vec![];
    let anchize: SedimentAnchizeFromVec<VecU8> = SedimentAnchizeFromVec::default();
    let deanchize: SedimentDeanchize<VecU8D> = SedimentDeanchize::default();

    let mut sz = Reserve(0);
    anchize.reserve(&origin, &(), &mut sz);
    let mut buf = vec![0u8; sz.0];
    let cur = BuildCursor::new(0);
    let _: BuildCursor<()> = anchize.anchize(&origin, &(), &mut buf, cur.clone());
    let _: BuildCursor<()> = deanchize.deanchize(&buf, cur);

    let sediment = AnchaSediment::<AnchaVec<u8>>::from_blob(&buf, 0);
    assert_eq!(sediment.len, 0);
}

#[test]
fn test_sediment_single_element() {
    let origin = vec![vec![42u8, 43, 44]];
    let anchize: SedimentAnchizeFromVec<VecU8> = SedimentAnchizeFromVec::default();
    let deanchize: SedimentDeanchize<VecU8D> = SedimentDeanchize::default();

    let mut sz = Reserve(0);
    anchize.reserve(&origin, &(), &mut sz);
    let mut buf = vec![0u8; sz.0];
    let cur = BuildCursor::new(0);
    let _: BuildCursor<()> = anchize.anchize(&origin, &(), &mut buf, cur.clone());
    let _: BuildCursor<()> = deanchize.deanchize(&buf, cur);

    let sediment = AnchaSediment::<AnchaVec<u8>>::from_blob(&buf, 0);
    assert_eq!(sediment.len, 1);
    assert_eq!(vec_at(&buf, sediment.first()), &[42u8, 43, 44]);
}

#[test]
fn test_tupellum() {
    let origin = (vec![1u8, 2, 3], vec![4u8, 5, 6, 7]);
    let anchize: TupellumAnchizeFromTuple<VecU8, VecU8> = TupellumAnchizeFromTuple::default();
    let deanchize: TupellumDeanchizeFromTuple<VecU8D, VecU8D> = TupellumDeanchizeFromTuple::default();

    let mut sz = Reserve(0);
    anchize.reserve(&origin, &(), &mut sz);
    let mut buf = vec![0u8; sz.0];
    let cur = BuildCursor::new(0);
    let _: BuildCursor<()> = anchize.anchize(&origin, &(), &mut buf, cur.clone());
    let _: BuildCursor<()> = deanchize.deanchize(&buf, cur);

    // Verify first vector
    let first = AnchaVec::<u8>::from_blob(&buf, 0);
    assert_eq!(first.as_ref(), &[1u8, 2, 3]);

    // Verify second vector (stored behind the first)
    assert_eq!(vec_at(&buf, first.behind::<AnchaVec<u8>>()), &[4u8, 5, 6, 7]);
}

#[test]
fn test_vecmap_with_vectors() {
    let map_ancha: VecMapAncha<CopyAnchize<u8, ()>, VecU8> =
        VecMapAncha::new(CopyAnchize::new(), VecAnchizeFromVec::new(CopyAnchize::new()));
    let origin = vec![(1u8, b"hello".to_vec()), (2u8, b"world".to_vec())];

    let mut sz = Reserve(0);
    map_ancha.reserve(&origin, &(), &mut sz);
    let mut buf = vec![0u8; sz.0];
    let cur = BuildCursor::new(0);
    let _: BuildCursor<()> = map_ancha.anchize(&origin, &(), &mut buf, cur.clone());

    let map_deancha: VecMapAncha<CopyAnchize<u8, ()>, VecU8D> =
        VecMapAncha::new(CopyAnchize::new(), VecDeanchize::new(NoopDeanchize::new()));
    let _: BuildCursor<()> = map_deancha.deanchize(&buf, cur);

    let map = AnchaVecMap::<u8, AnchaVec<u8>>::from_blob(&buf, 0);
    let items = map.items();
    assert_eq!(items.len(), 2);
    assert_eq!(items[0].key, 1);
    assert_eq!(vec_at(&buf, items[0].val), b"hello");
    assert_eq!(items[1].key, 2);
    assert_eq!(vec_at(&buf, items[1].val), b"world");
}

#[test]
fn list_reserve_ends_aligned_for_a_node() {
    let anchize: ListAnchizeFromVec<VecU8> = ListAnchizeFromVec::new(VecAnchizeFromVec::new(CopyAnchize::new()));
    let origin = vec![vec![7u8]];
    let mut sz = Reserve(0);
    anchize.reserve(&origin, &(), &mut sz);
    assert_eq!(sz.0, 24);
    let mut buf = vec![0u8; sz.0];
    let end: BuildCursor<()> = anchize.anchize(&origin, &(), &mut buf, BuildCursor::new(0));
    assert_eq!(end.cur, 24);
    let deanchize: ListDeanchize<VecU8D> = ListDeanchize::new(VecDeanchize::new(NoopDeanchize::new()));
    let walked: BuildCursor<()> = deanchize.deanchize(&buf, BuildCursor::new(0));
    assert_eq!(walked.cur, 24);
    // An empty list reserves nothing behind its aligned start.
    let mut sz = Reserve(3);
    anchize.reserve(&vec![], &(), &mut sz);
    assert_eq!(sz.0, 8);
}
