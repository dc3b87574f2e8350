use configmaton::ancha::assoc_list::{AnchaAssocList, AssocListAnchizeFromVec, AssocListDeanchize};
use configmaton::ancha::bdd::BddOrigin;
use configmaton::ancha::flagellum::{AnchaFlagellum, FlagellumAnchizeFromTuple, FlagellumDeanchize};
use configmaton::ancha::hashmap::{AnchaHashMap, HashMapAnchizeFromVec, HashMapDeanchize};
use configmaton::ancha::sediment::{SedimentAnchizeFromVec, SedimentDeanchize};
use configmaton::ancha::tupellum::{TupellumAnchizeFromTuple, TupellumDeanchizeFromTuple};
use configmaton::ancha::vec::{AnchaVec, VecAnchizeFromVec, VecDeanchize};
use configmaton::ancha::{Anchize, BuildCursor, CopyAnchize, Deanchize, NoopDeanchize, Reserve};
use configmaton::keyval_runner::{read_cells, read_sediment};
use configmaton::my_ancha::automaton::AutomatonContext;
use configmaton::my_ancha::keyval_state::{
    Finals, KeyValState, KeyValStateAnchize, KeyValStateDeanchize, LeafOrigin, StateOrigin, TranOrigin,
};

type VecU8 = VecAnchizeFromVec<CopyAnchize<u8, ()>>;
type VecU8D = VecDeanchize<NoopDeanchize<u8>>;

fn align_up(x: usize, a: usize) -> usize {
    (x + a - 1) / a * a
}

fn vec_at(buf: &[u8], at: usize) -> Vec<u8> {
    AnchaVec::<u8>::from_blob(buf, at).as_ref()
}

#[test]
fn test_blobhashmap() {
    let origin0 = vec![(1u8, b"foo".to_vec()), (3, b"hello".to_vec()), (5, b"".to_vec())];
    let mut origin: Vec<Vec<(u8, Vec<u8>)>> = vec![vec![], vec![], vec![], vec![]];
    for (k, v) in origin0 {
        origin[k as usize & 3].push((k, v));
    }
    let anchize: HashMapAnchizeFromVec<AssocListAnchizeFromVec<FlagellumAnchizeFromTuple<CopyAnchize<u8, ()>, VecU8>>> =
        HashMapAnchizeFromVec::default();
    let mut sz = Reserve(0);
    let my_addr = configmaton::ancha::reserve_addr(&anchize, &origin, &(), &mut sz);
    assert_eq!(my_addr, 0);
    let mut buf = vec![0u8; sz.0];
    let cur = BuildCursor::new(0);
    let _: BuildCursor<()> = anchize.anchize(&origin, &(), &mut buf, cur.clone());
    let deanchize: HashMapDeanchize<AssocListDeanchize<FlagellumDeanchize<NoopDeanchize<u8>, VecU8D>>> =
        HashMapDeanchize::default();
    let _: BuildCursor<()> = deanchize.deanchize(&buf, cur);
    let hash = AnchaHashMap::<AnchaAssocList<AnchaFlagellum<u8, AnchaVec<u8>>>>::from_blob(&buf, 0);
    assert_eq!(vec_at(&buf, hash.get(&3u8).unwrap()), b"hello".to_vec());
}

#[test]
fn test_sediment_and_tupellum() {
    let origin = (vec![b"".to_vec(), b"foo".to_vec(), b"hello".to_vec()], b"barr".to_vec());
    let anchize: TupellumAnchizeFromTuple<SedimentAnchizeFromVec<VecU8>, VecU8> =
        TupellumAnchizeFromTuple::default();
    let mut sz = Reserve(0);
    anchize.reserve(&origin, &(), &mut sz);
    let mut buf = vec![0u8; sz.0];
    let cur = BuildCursor::new(0);
    let _: BuildCursor<()> = anchize.anchize(&origin, &(), &mut buf, cur.clone());
    let deanchize: TupellumDeanchizeFromTuple<SedimentDeanchize<VecU8D>, VecU8D> =
        TupellumDeanchizeFromTuple::default();
    let _: BuildCursor<()> = deanchize.deanchize(&buf, cur);
    let (contents, behind) = read_sediment(&buf, 0).unwrap();
    assert_eq!(contents, vec![b"".to_vec(), b"foo".to_vec(), b"hello".to_vec()]);
    assert_eq!(vec_at(&buf, align_up(behind, 8)), b"barr".to_vec());
}

#[test]
fn test_keyval_state() {
    let state_origin = StateOrigin {
        transitions: vec![TranOrigin {
            key: b"key1".to_vec(),
            dfa_inits: vec![0, 2],
            bdd: BddOrigin::NodeBothOwned {
                var: 3,
                pos: Box::new(BddOrigin::Leaf(LeafOrigin {
                    states: vec![0],
                    get_olds: vec![b"get1a".to_vec(), b"get1b".to_vec()],
                    exts: vec![],
                })),
                neg: Box::new(BddOrigin::Leaf(LeafOrigin {
                    states: vec![],
                    get_olds: vec![],
                    exts: vec![b"ext1a".to_vec()],
                })),
            },
        }],
    };
    // The one state is laid out at the anchor: its position is 0.
    let context = AutomatonContext { u8qptrs: vec![256, 1024, 4096], kvqptrs: vec![0] };
    let anchize: KeyValStateAnchize<AutomatonContext> = KeyValStateAnchize::default();
    let mut sz = Reserve(0);
    let addr = configmaton::ancha::reserve_addr(&anchize, &state_origin, &context, &mut sz);
    assert_eq!(addr, 0);
    let mut buf = vec![0u8; sz.0];
    let _: BuildCursor<()> = anchize.anchize(&state_origin, &context, &mut buf, BuildCursor::new(0));
    let _: BuildCursor<()> = KeyValStateDeanchize::default().deanchize(&buf, BuildCursor::new(0));

    let q0 = KeyValState::from_blob(&buf, addr);
    let keyvals = q0.keyvals();
    assert_eq!(keyvals.len(), 1);
    assert_eq!(keyvals[0].0, b"key1".to_vec());
    let (inits, e) = read_cells::<usize>(&buf, keyvals[0].1).unwrap();
    assert_eq!(inits, vec![256, 4096]);
    let bdd = Finals::from_blob(&buf, align_up(e, 4));

    let leaf = bdd.evaluate(&|var: &usize| match *var {
        3 => true,
        _ => unreachable!(),
    }).unwrap();
    let (states, e1) = read_cells::<usize>(&buf, leaf).unwrap();
    assert_eq!(states, vec![addr]);
    let (getolds, e2) = read_sediment(&buf, e1).unwrap();
    assert_eq!(getolds, vec![b"get1a".to_vec(), b"get1b".to_vec()]);
    let (exts, _) = read_sediment(&buf, e2).unwrap();
    assert!(exts.is_empty());

    let leaf = bdd.evaluate(&|var: &usize| match *var {
        3 => false,
        _ => unreachable!(),
    }).unwrap();
    let (states, e1) = read_cells::<usize>(&buf, leaf).unwrap();
    assert!(states.is_empty());
    let (getolds, e2) = read_sediment(&buf, e1).unwrap();
    assert!(getolds.is_empty());
    let (exts, _) = read_sediment(&buf, e2).unwrap();
    assert_eq!(exts, vec![b"ext1a".to_vec()]);
}
