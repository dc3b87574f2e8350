use configmaton::ancha::bdd::BddOrigin;
use configmaton::keyval_nfa::{match_states, Cmd, DfaIx, DfaStateIx, Match, ParseError, Parser};
use configmaton::my_ancha::keyval_state::{LeafOrigin, StateOrigin};

fn leaf(states: Vec<usize>, get_olds: Vec<&[u8]>, exts: Vec<&[u8]>) -> LeafOrigin {
    LeafOrigin {
        states,
        get_olds: get_olds.into_iter().map(|g| g.to_vec()).collect(),
        exts: exts.into_iter().map(|e| e.to_vec()).collect(),
    }
}

fn same_leaf(a: &LeafOrigin, b: &LeafOrigin) -> bool {
    a.states == b.states && a.get_olds == b.get_olds && a.exts == b.exts
}

/// The key, first byte state, automaton and the two leaves of a state's
/// only transition.
fn guard_of(s: &StateOrigin) -> (Vec<u8>, Vec<usize>, usize, &LeafOrigin, &LeafOrigin) {
    assert_eq!(s.transitions.len(), 1);
    let t = &s.transitions[0];
    match &t.bdd {
        BddOrigin::NodeBothOwned { var, pos, neg } => match (&**pos, &**neg) {
            (BddOrigin::Leaf(p), BddOrigin::Leaf(n)) => (t.key.clone(), t.dfa_inits.clone(), *var, p, n),
            _ => panic!("expected two leaves"),
        },
        _ => panic!("expected a node that owns both children"),
    }
}

fn when(pairs: &[(&str, &str)], run: &[&str], then_cmds: Vec<Cmd>) -> Cmd {
    Cmd::Match(Match {
        when: pairs.iter().map(|(k, v)| (k.to_string(), v.to_string())).collect(),
        run: run.iter().map(|r| r.as_bytes().to_vec()).collect(),
        then_cmds,
    })
}

fn label(name: &str, body: Cmd) -> Cmd {
    Cmd::Label(name.to_string(), Box::new(body))
}

fn goto(name: &str) -> Cmd {
    Cmd::Goto(name.to_string())
}

fn patterns(ps: &[&str]) -> Vec<(String, (DfaStateIx, DfaIx))> {
    ps.iter().enumerate().map(|(i, p)| (p.to_string(), (DfaStateIx(10 * i), DfaIx(i)))).collect()
}

#[test]
fn a_match_without_guards_is_its_leaf() {
    let mut states = Vec::new();
    let then = leaf(vec![4], vec![], vec![b"x"]);
    let r = match_states(&mut states, vec![], leaf(vec![4], vec![], vec![b"x"]));
    assert!(same_leaf(&r, &then));
    assert!(states.is_empty());
}

#[test]
fn one_guard_makes_one_state() {
    let mut states = vec![StateOrigin { transitions: vec![] }];
    let r = match_states(&mut states, vec![(b"foo".to_vec(), (7, 2))], leaf(vec![0], vec![], vec![b"m"]));
    assert_eq!(states.len(), 2);
    let (key, inits, var, pos, neg) = guard_of(&states[1]);
    assert_eq!(key, b"foo".to_vec());
    assert_eq!(inits, vec![7]);
    assert_eq!(var, 2);
    assert!(same_leaf(pos, &leaf(vec![0], vec![], vec![b"m"])));
    assert!(same_leaf(neg, &leaf(vec![1], vec![], vec![])));
    assert!(same_leaf(&r, &leaf(vec![1], vec![b"foo"], vec![])));
}

#[test]
fn two_guards_make_a_chain_of_three() {
    let mut states = Vec::new();
    let guards = vec![(b"k0".to_vec(), (10, 0)), (b"k1".to_vec(), (20, 1))];
    let r = match_states(&mut states, guards, leaf(vec![], vec![], vec![b"win"]));
    assert_eq!(states.len(), 3);

    let (key, inits, var, pos, neg) = guard_of(&states[0]);
    assert_eq!((key, inits, var), (b"k0".to_vec(), vec![10], 0));
    assert!(same_leaf(pos, &leaf(vec![], vec![], vec![b"win"])));
    assert!(same_leaf(neg, &leaf(vec![2], vec![], vec![])));

    let (key, inits, var, pos, neg) = guard_of(&states[1]);
    assert_eq!((key, inits, var), (b"k1".to_vec(), vec![20], 1));
    assert!(same_leaf(pos, &leaf(vec![0], vec![b"k0"], vec![])));
    assert!(same_leaf(neg, &leaf(vec![1], vec![], vec![])));

    let (key, inits, var, pos, neg) = guard_of(&states[2]);
    assert_eq!((key, inits, var), (b"k0".to_vec(), vec![10], 0));
    assert!(same_leaf(pos, &leaf(vec![1], vec![b"k1"], vec![])));
    assert!(same_leaf(neg, &leaf(vec![2], vec![], vec![])));

    assert!(same_leaf(&r, &leaf(vec![2], vec![b"k0"], vec![])));
}

#[test]
fn parse_a_simple_configuration() {
    let cmds = vec![when(&[("foo", "a"), ("bar", "b")], &["you win"], vec![])];
    let (p, init) = Parser::parse(cmds, patterns(&["a", "b"])).unwrap();
    assert_eq!(p.states.len(), 3);
    assert!(same_leaf(&init, &leaf(vec![2], vec![b"foo"], vec![])));
    let (key, inits, var, pos, _) = guard_of(&p.states[0]);
    assert_eq!((key, inits, var), (b"foo".to_vec(), vec![0], 0));
    assert!(same_leaf(pos, &leaf(vec![], vec![], vec![b"you win"])));
    let (key, inits, var, _, _) = guard_of(&p.states[1]);
    assert_eq!((key, inits, var), (b"bar".to_vec(), vec![10], 1));
    assert!(p.labels.is_empty());
}

#[test]
fn parse_without_guards_runs_at_once() {
    let cmds = vec![when(&[], &["m1", "m2"], vec![])];
    let (p, init) = Parser::parse(cmds, vec![]).unwrap();
    assert!(p.states.is_empty());
    assert!(init.states.is_empty());
    let mut exts = init.exts.clone();
    exts.sort();
    assert_eq!(exts, vec![b"m1".to_vec(), b"m2".to_vec()]);
}

#[test]
fn parse_an_unresolved_goto() {
    let cmds = vec![when(&[("foo", "a")], &[], vec![goto("nowhere")])];
    match Parser::parse(cmds, patterns(&["a"])) {
        Err(ParseError::UnresolvedGoto(t)) => assert_eq!(t, "nowhere"),
        _ => panic!("expected an unresolved goto"),
    }
}

#[test]
fn parse_an_unknown_pattern() {
    let cmds = vec![when(&[("foo", "a"), ("bar", "zz")], &[], vec![])];
    match Parser::parse(cmds, patterns(&["a"])) {
        Err(ParseError::UnknownPattern(p)) => assert_eq!(p, "zz"),
        _ => panic!("expected an unknown pattern"),
    }
}

#[test]
fn a_label_is_parsed_once_for_its_jumps() {
    let cmds = vec![label("l", when(&[("k", "p")], &["x"], vec![])), goto("l"), goto("l")];
    let (p, init) = Parser::parse(cmds, patterns(&["p"])).unwrap();
    // one state for the label, one for the labelled command itself
    assert_eq!(p.states.len(), 2);
    assert_eq!(p.labels.len(), 1);
    assert_eq!(p.labels[0].0, "l");
    assert!(same_leaf(&p.labels[0].1, &leaf(vec![0], vec![b"k"], vec![])));
    let mut s = init.states.clone();
    s.sort();
    assert_eq!(s, vec![0, 1]);
}

#[test]
fn a_cycle_of_labels_compiles() {
    let cmds = vec![
        when(&[("t", "a")], &[], vec![label("a", when(&[("step", "1")], &["sa"], vec![goto("b")]))]),
        when(&[("t", "b")], &[], vec![label("b", when(&[("step", "2")], &["sb"], vec![goto("a")]))]),
    ];
    let (p, init) = Parser::parse(cmds, patterns(&["a", "b", "1", "2"])).unwrap();
    assert_eq!(p.labels.len(), 2);
    assert_eq!(init.states.len(), 2);
    for (_, l) in p.labels.iter() {
        assert!(l.states.iter().all(|q| *q < p.states.len()));
    }
}

#[test]
fn goto_label_comprehensive_compiles() {
    let cmds = vec![
        when(&[("test_type", "basic")], &[], vec![label("basic_target", when(&[("action", "process")], &["basic_processed"], vec![]))]),
        when(&[("test_type", "basic_goto")], &[], vec![goto("basic_target")]),
        when(&[("test_type", "forward_ref")], &[], vec![goto("forward_target")]),
        when(&[("test_type", "cycle_a")], &[], vec![label("cycle_a", when(&[("step", "1")], &["cycle_a_step"], vec![goto("cycle_b")]))]),
        when(&[("test_type", "cycle_b")], &[], vec![label("cycle_b", when(&[("step", "2")], &["cycle_b_step"], vec![goto("cycle_a")]))]),
        when(
            &[("test_type", "nested")],
            &[],
            vec![when(&[("level", "outer")], &["outer_action"], vec![label("nested_target", when(&[("level", "inner")], &["inner_action"], vec![]))])],
        ),
        when(&[("test_type", "nested_goto")], &[], vec![goto("nested_target")]),
        label("forward_target", when(&[("action", "forward")], &["forward_processed"], vec![])),
    ];
    let pats = patterns(&[
        "basic", "process", "basic_goto", "forward_ref", "cycle_a", "1", "cycle_b", "2", "nested", "outer", "inner",
        "nested_goto", "forward",
    ]);
    let (p, init) = Parser::parse(cmds, pats).unwrap();
    assert!(p.states.len() > 0);
    assert!(init.states.len() > 0);
    assert_eq!(p.labels.len(), 5);
}
