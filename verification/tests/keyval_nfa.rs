use configmaton::ancha::bdd::BddOrigin;
use configmaton::blob::state::U8BuildParams;
use configmaton::char_nfa::{OrderedIxs, State};
use configmaton::guards::Guard;
use configmaton::keyval_nfa::{join_leaves, prepare_states, Cmd, CmdError, CmdFields, CmdKey, Msg};
use configmaton::my_ancha::automaton::AutomatonAnchize;
use configmaton::my_ancha::keyval_state::{LeafOrigin, StateOrigin, TranOrigin};
use configmaton::my_ancha::state::U8State;

#[test]
fn join_leaves_unions_without_repeats() {
    let a = LeafOrigin { states: vec![1, 2], get_olds: vec![b"x".to_vec()], exts: vec![b"r".to_vec()] };
    let b = LeafOrigin { states: vec![2, 3], get_olds: vec![b"x".to_vec(), b"y".to_vec()], exts: vec![] };
    let mut j = join_leaves(vec![a, b]);
    j.states.sort();
    j.get_olds.sort();
    assert_eq!(j.states, vec![1, 2, 3]);
    assert_eq!(j.get_olds, vec![b"x".to_vec(), b"y".to_vec()]);
    assert_eq!(j.exts, vec![b"r".to_vec()]);
}

#[test]
fn join_no_leaves() {
    let j = join_leaves(vec![]);
    assert!(j.states.is_empty());
    assert!(j.get_olds.is_empty());
    assert!(j.exts.is_empty());
}

#[test]
fn cmd_fields_make_a_match() {
    let mut f: CmdFields = CmdFields::new();
    assert!(!f.has(CmdKey::When));
    f.when = Some(vec![("foo".to_string(), "a".to_string())]);
    assert!(f.has(CmdKey::When));
    match f.finish() {
        Ok(Cmd::Match(m)) => {
            assert_eq!(m.when, vec![("foo".to_string(), "a".to_string())]);
            assert!(m.run.is_empty());
            assert!(m.then_cmds.is_empty());
        }
        _ => panic!("expected a match"),
    }
}

#[test]
fn cmd_fields_errors() {
    let mut f: CmdFields = CmdFields::new();
    f.label = Some("l".to_string());
    assert!(matches!(f.finish(), Err(CmdError::MissingBody)));

    let mut f: CmdFields = CmdFields::new();
    f.goto = Some("l".to_string());
    f.label = Some("l".to_string());
    assert!(matches!(f.finish(), Err(CmdError::ExactlyOne)));

    let f: CmdFields = CmdFields::new();
    assert!(matches!(f.finish(), Err(CmdError::ExactlyOne)));

    let mut f: CmdFields = CmdFields::new();
    f.goto = Some("there".to_string());
    assert!(matches!(f.finish(), Ok(Cmd::Goto(g)) if g == "there"));
}

#[test]
fn msg_serializes_an_automaton() {
    let nfa = vec![State {
        tags: OrderedIxs(vec![0]),
        transitions: vec![(Guard::from_range((b'a', b'a')), 0)],
        is_deterministic: false,
    }];
    let cfg = U8BuildParams { guard_size_keep: 2, hashmap_cap_power: 1, dense_guard_count: 3 };
    let u8_states = prepare_states(&nfa, &cfg);
    let kv_states = vec![StateOrigin {
        transitions: vec![TranOrigin {
            key: b"foo".to_vec(),
            dfa_inits: vec![0],
            bdd: BddOrigin::Leaf(LeafOrigin { states: vec![0], get_olds: vec![], exts: vec![b"bar".to_vec()] }),
        }],
    }];
    let init = LeafOrigin { states: vec![0], get_olds: vec![], exts: vec![] };
    let msg = Msg::serialize(&AutomatonAnchize::new(), kv_states, u8_states, init);
    assert_eq!(msg.data_len(), msg.owner.len());
    let q = U8State::from_blob(&msg.owner, msg.context.u8qptrs[0]);
    let mut it = q.iter_matches(b'a');
    assert_eq!(it.next(), Some(msg.context.u8qptrs[0]));
    assert_eq!(it.next(), None);
    assert_eq!(q.get_tags(), vec![0]);
}

#[test]
fn a_field_may_come_once() {
    let mut fields: CmdFields = CmdFields::new();
    assert_eq!(fields.check_new(CmdKey::Goto), Ok(()));
    fields.goto = Some("x".to_string());
    assert_eq!(fields.check_new(CmdKey::Goto), Err(CmdError::DuplicateField(CmdKey::Goto)));
    assert_eq!(fields.check_new(CmdKey::When), Ok(()));
}
