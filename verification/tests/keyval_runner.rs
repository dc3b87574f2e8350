use configmaton::ancha::bdd::BddOrigin;
use configmaton::blob::state::{U8BuildParams};
use configmaton::char_nfa::{OrderedIxs, State};
use configmaton::char_runner::Runner as CharRunner;
use configmaton::guards::Guard;
use configmaton::keyval_runner::{same_bytes, Reaction, Runner};
use configmaton::keyval_simulator::{value_for, Simulation};
use configmaton::my_ancha::automaton::{AutomatonAnchize, AutomatonContext, AutomatonOrigin};
use configmaton::my_ancha::keyval_state::{KeyValState, LeafOrigin, StateOrigin, TranOrigin};
use configmaton::my_ancha::state::U8StatePrepared;

/// One key-value state listening for "foo"; the value decides by tag 0,
/// which the byte state carries while the value is lowercase letters.
fn sample() -> AutomatonOrigin {
    let nfa_state = State {
        tags: OrderedIxs(vec![0]),
        transitions: vec![(Guard::from_range((b'a', b'z')), 0)],
        is_deterministic: false,
    };
    let cfg = U8BuildParams { guard_size_keep: 2, hashmap_cap_power: 1, dense_guard_count: 3 };
    AutomatonOrigin {
        get_olds: vec![b"foo".to_vec()],
        exts: vec![b"start".to_vec()],
        inits: vec![0],
        kv_states: vec![StateOrigin {
            transitions: vec![TranOrigin {
                key: b"foo".to_vec(),
                dfa_inits: vec![0],
                bdd: BddOrigin::NodeBothOwned {
                    var: 0,
                    pos: Box::new(BddOrigin::Leaf(LeafOrigin {
                        states: vec![0],
                        get_olds: vec![b"bar".to_vec()],
                        exts: vec![b"matched".to_vec()],
                    })),
                    neg: Box::new(BddOrigin::Leaf(LeafOrigin { states: vec![], get_olds: vec![], exts: vec![] })),
                },
            }],
        }],
        u8_states: vec![U8StatePrepared::prepare(&nfa_state, &cfg)],
    }
}

fn build() -> (Vec<u8>, AutomatonContext) {
    AutomatonAnchize::new().build(&sample())
}

#[test]
fn runner_fires_on_matching_value() {
    let (buf, ctx) = build();
    let mut runner = Runner::new(&buf, &ctx.kvqptrs);
    let r = runner.read(&buf, b"foo", b"abc");
    assert_eq!(r.get_olds, vec![b"bar".to_vec()]);
    assert_eq!(r.exts, vec![b"matched".to_vec()]);
    // The state is back: it listens for "foo" again.
    let r = runner.read(&buf, b"foo", b"x");
    assert_eq!(r.exts, vec![b"matched".to_vec()]);
}

#[test]
fn runner_takes_the_other_branch() {
    let (buf, ctx) = build();
    let mut runner = Runner::new(&buf, &ctx.kvqptrs);
    let r = runner.read(&buf, b"foo", b"ABC");
    assert!(r.get_olds.is_empty());
    assert!(r.exts.is_empty());
    // The leaf had no states: nothing listens any more.
    let r = runner.read(&buf, b"foo", b"abc");
    assert!(r.exts.is_empty());
}

#[test]
fn runner_ignores_unknown_keys() {
    let (buf, ctx) = build();
    let mut runner = Runner::new(&buf, &ctx.kvqptrs);
    let r = runner.read(&buf, b"nope", b"abc");
    assert!(r.get_olds.is_empty());
    assert!(r.exts.is_empty());
    let r = runner.read(&buf, b"foo", b"");
    assert_eq!(r.exts, vec![b"matched".to_vec()]);
}

#[test]
fn char_runner_steps_and_tags() {
    let (buf, ctx) = build();
    let q = ctx.u8qptrs[0];
    let mut cr = CharRunner::new(&vec![q, q]);
    assert_eq!(cr.states, vec![q]);
    assert_eq!(cr.get_tags(&buf), vec![0]);
    cr.read(&buf, b'k');
    assert_eq!(cr.states, vec![q]);
    cr.read(&buf, b'K');
    assert!(cr.states.is_empty());
    assert!(cr.get_tags(&buf).is_empty());
}

#[test]
fn simulation_reads_and_gathers() {
    let (buf, _) = build();
    let mut sim = Simulation::new(&buf).unwrap();
    assert_eq!(sim.exts(), vec![b"start".to_vec()]);
    let key = sim.next_get_old().unwrap();
    assert_eq!(key, b"foo".to_vec());
    assert_eq!(sim.next_get_old(), None);
    sim.read(&buf, &key, b"abc");
    assert_eq!(sim.exts(), vec![b"start".to_vec(), b"matched".to_vec()]);
    assert_eq!(sim.next_get_old(), Some(b"bar".to_vec()));
    // A second match reaches nothing new.
    sim.read(&buf, b"foo", b"zz");
    assert_eq!(sim.exts(), vec![b"start".to_vec(), b"matched".to_vec()]);
}

#[test]
fn simulation_refuses_a_short_blob() {
    assert!(Simulation::new(&[0u8; 4]).is_none());
}

#[test]
fn same_bytes_compares() {
    assert!(same_bytes(b"abc", b"abc"));
    assert!(!same_bytes(b"abc", b"abd"));
    assert!(!same_bytes(b"abc", b"ab"));
}

#[test]
fn keyvals_reads_the_transitions() {
    let (buf, ctx) = build();
    let ts = KeyValState::from_blob(&buf, ctx.kvqptrs[0]).keyvals();
    assert_eq!(ts.len(), 1);
    assert_eq!(ts[0].0, b"foo".to_vec());
    assert!(ts[0].1 > ctx.kvqptrs[0]);
}

#[test]
fn simulation_finishes_reads_from_values() {
    let (buf, _) = build();
    let mut sim = Simulation::new(&buf).unwrap();
    let values = vec![(b"foo".to_vec(), b"ABC".to_vec()), (b"foo".to_vec(), b"abc".to_vec())];
    // "foo" is asked for; its last value is read in and asks for "bar".
    assert!(sim.finish_step(&buf, &values));
    assert_eq!(sim.exts(), vec![b"start".to_vec(), b"matched".to_vec()]);
    // "bar" has no value: it is dropped.
    assert!(sim.finish_step(&buf, &values));
    assert!(!sim.finish_step(&buf, &values));
    assert_eq!(sim.exts(), vec![b"start".to_vec(), b"matched".to_vec()]);
}

#[test]
fn value_for_takes_the_last() {
    let values = vec![(b"a".to_vec(), b"1".to_vec()), (b"b".to_vec(), b"2".to_vec()), (b"a".to_vec(), b"3".to_vec())];
    assert_eq!(value_for(&values, b"a"), Some(&b"3".to_vec()));
    assert_eq!(value_for(&values, b"b"), Some(&b"2".to_vec()));
    assert_eq!(value_for(&values, b"c"), None);
}

#[test]
fn runner_reports_each_leaf_in_order() {
    let (buf, ctx) = build();
    let mut runner = Runner::new(&buf, &ctx.kvqptrs);
    let r = runner.read(&buf, b"foo", b"abc");
    assert_eq!(r.steps.len(), 2);
    assert!(matches!(&r.steps[0], Reaction::GetOld(k) if k == b"bar"));
    assert!(matches!(&r.steps[1], Reaction::RunExt(e) if e == b"matched"));
    let r = runner.read(&buf, b"nope", b"abc");
    assert!(r.steps.is_empty());
}
