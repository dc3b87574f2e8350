use configmaton::ancha::bdd::BddOrigin;
use configmaton::ancha::sediment::AnchaSediment;
use configmaton::ancha::vec::AnchaVec;
use configmaton::ancha::{BuildCursor, Deanchize};
use configmaton::blob::state::{BuildConfig, U8BuildConfig, U8BuildParams};
use configmaton::char_nfa::{OrderedIxs, State};
use configmaton::guards::Guard;
use configmaton::my_ancha::automaton::{AutomatonAnchize, AutomatonDeanchize, AutomatonOrigin};
use configmaton::my_ancha::keyval_state::{LeafOrigin, StateOrigin, TranOrigin};
use configmaton::my_ancha::state::{U8State, U8StatePrepared};

fn sample() -> AutomatonOrigin {
    let nfa_state = State {
        tags: OrderedIxs(vec![0]),
        transitions: vec![(Guard::from_range((b'a', b'z')), 0)],
        is_deterministic: false,
    };
    let cfg = U8BuildParams { guard_size_keep: 2, hashmap_cap_power: 1, dense_guard_count: 3 };
    AutomatonOrigin {
        get_olds: vec![b"foo".to_vec()],
        exts: vec![b"start".to_vec()],
        inits: vec![0],
        kv_states: vec![StateOrigin {
            transitions: vec![TranOrigin {
                key: b"foo".to_vec(),
                dfa_inits: vec![0],
                bdd: BddOrigin::NodeBothOwned {
                    var: 0,
                    pos: Box::new(BddOrigin::Leaf(LeafOrigin {
                        states: vec![0],
                        get_olds: vec![],
                        exts: vec![b"matched".to_vec()],
                    })),
                    neg: Box::new(BddOrigin::Leaf(LeafOrigin { states: vec![0], get_olds: vec![], exts: vec![] })),
                },
            }],
        }],
        u8_states: vec![U8StatePrepared::prepare(&nfa_state, &cfg)],
    }
}

#[test]
fn automaton_builds_and_walks() {
    let origin = sample();
    let anchize = AutomatonAnchize::new();
    let (buf, context) = anchize.build(&origin);
    assert_eq!(context.kvqptrs.len(), 1);
    assert_eq!(context.u8qptrs.len(), 1);

    let walked: BuildCursor<()> = AutomatonDeanchize::new(0).deanchize(&buf, BuildCursor::new(0));
    assert_eq!(walked.cur, buf.len());

    // The initial gets come first.
    let getolds = AnchaSediment::<AnchaVec<u8>>::from_blob(&buf, 0);
    assert_eq!(getolds.len, 1);
    let first = AnchaVec::<u8>::from_blob(&buf, getolds.first());
    assert_eq!(first.as_ref(), b"foo".to_vec());

    // The byte state reads back where it was recorded.
    let q = U8State::from_blob(&buf, context.u8qptrs[0]);
    assert_eq!(q.get_tags(), vec![0]);
    let mut it = q.iter_matches(b'q');
    assert_eq!(it.next(), Some(context.u8qptrs[0]));
    assert_eq!(it.next(), None);
}

#[test]
fn default_build_config_values() {
    let cfg = BuildConfig;
    assert_eq!(cfg.guard_size_keep(), 10);
    assert_eq!(cfg.hashmap_cap_power_fn(100), 3);
    assert_eq!(cfg.dense_guard_count(), 15);
}
