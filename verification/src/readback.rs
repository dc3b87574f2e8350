//! What the runner reads of an automaton as it was laid out: each reader of
//! `keyval_runner` gives back what the layout wrote.
use vstd::prelude::*;

use crate::ancha::bdd::{bdd_at, bdd_eval, bdd_eval_expected, bdd_eval_origin, bdd_flat, bdd_kids, lemma_bdd_eval, BddOrigin};
use crate::ancha::list::{lemma_list_end_ge, lemma_list_mono, lemma_list_step, lemma_list_whole, list_link, list_node, list_node_holds, list_value};
use crate::ancha::sediment::lemma_sediment_first;
use crate::ancha::vec::{lemma_vec_end, vec_holds_elem, VecAnchizeFromVec};
use crate::ancha::{lemma_align_idem, lemma_align_up, lemma_align_up_aligned, lemma_seq_end, seq_end, seq_holds, spec_align_up, Anchize, CopyAnchize, Layout, StaticAnchize};
use crate::keyval_nfa::views;
use crate::keyval_runner::{bytes_run, cells_at, kv_trans, leaf_at, sediment_at, tag_val, tran_at, tran_leaf};
use crate::my_ancha::keyval_state::{BytesSedimentAnchize, GetQptrs, KeyValStateAnchize, LeafAnchize, LeafOrigin, StateOrigin, TranAnchize, TranOrigin, Tran0};

verus! {

/// A vector laid out from `os` reads back as the images of `os`, and ends
/// where the layout ends.
pub proof fn lemma_cells_read<E: StaticAnchize>(
    a: VecAnchizeFromVec<E>,
    os: Vec<E::Origin>,
    ctx: E::Context,
    bytes: Seq<u8>,
    pos: int,
)
    requires
        0 <= pos,
        a.spec_holds(os, ctx, bytes, pos),
    ensures
        cells_at::<E::Ancha>(bytes, pos) == Some(
            (os@.map_values(|o: E::Origin| a.elem_ancha.spec_anchize_static(o, ctx)), a.spec_end(os, pos)),
        ),
{
    let at = spec_align_up(pos, 8);
    lemma_align_up(pos, 8);
    lemma_vec_end::<E::Ancha>(at, os@.len() as int);
    let xs = Seq::new(
        os@.len(),
        |i: int| crate::ancha::cell_at::<E::Ancha>(bytes, crate::ancha::vec::vec_elem::<E::Ancha>(at, i)),
    );
    assert(xs =~= os@.map_values(|o: E::Origin| a.elem_ancha.spec_anchize_static(o, ctx))) by {
        assert forall|i: int| 0 <= i < os@.len() implies xs[i] == a.elem_ancha.spec_anchize_static(os@[i], ctx) by {
            assert(vec_holds_elem(a.elem_ancha, os@[i], ctx, bytes, at, i));
        }
    }
}

/// A byte string laid out reads back as itself.
pub proof fn lemma_bytes_read<Ctx>(
    a: VecAnchizeFromVec<CopyAnchize<u8, Ctx>>,
    o: Vec<u8>,
    ctx: Ctx,
    bytes: Seq<u8>,
    pos: int,
)
    requires
        0 <= pos,
        a.spec_holds(o, ctx, bytes, pos),
    ensures
        cells_at::<u8>(bytes, pos) == Some((o@, a.spec_end(o, pos))),
{
    lemma_cells_read(a, o, ctx, bytes, pos);
    assert(o@.map_values(|x: u8| a.elem_ancha.spec_anchize_static(x, ctx)) =~= o@);
}

/// Byte strings laid out one behind the other read back as they were.
proof fn lemma_bytes_run_read<Ctx>(
    e: VecAnchizeFromVec<CopyAnchize<u8, Ctx>>,
    os: Seq<Vec<u8>>,
    ctx: Ctx,
    bytes: Seq<u8>,
    p: int,
)
    requires
        0 <= p,
        seq_holds(e, os, ctx, bytes, p),
    ensures
        bytes_run(bytes, p, os.len()) == Some((views(os), seq_end(e, os, p))),
    decreases os.len(),
{
    if os.len() > 0 {
        let prev = os.drop_last();
        lemma_bytes_run_read(e, prev, ctx, bytes, p);
        lemma_seq_end(e, os, p, os.len() - 1);
        assert(os.take(os.len() - 1) =~= prev);
        let q = seq_end(e, prev, p);
        lemma_bytes_read(e, os.last(), ctx, bytes, q);
        assert(views(os) =~= views(prev).push(os.last()@));
        assert((os.len() - 1) as nat == prev.len());
    } else {
        assert(views(os) =~= Seq::<Seq<u8>>::empty());
    }
}

/// A list of byte strings laid out reads back as it was.
pub proof fn lemma_sediment_read<Ctx>(
    a: BytesSedimentAnchize<Ctx>,
    os: Vec<Vec<u8>>,
    ctx: Ctx,
    bytes: Seq<u8>,
    pos: int,
)
    requires
        0 <= pos,
        a.spec_holds(os, ctx, bytes, pos),
    ensures
        sediment_at(bytes, pos) == Some((views(os@), a.spec_end(os, pos))),
{
    let first = crate::ancha::sediment::sediment_first::<crate::my_ancha::keyval_state::Bytes<'static>>(pos);
    lemma_sediment_first::<crate::my_ancha::keyval_state::Bytes<'static>>(pos);
    lemma_seq_end(a.elem_ancha, os@, first, 0);
    assert(os@.take(0) =~= Seq::<Vec<u8>>::empty());
    assert(spec_align_up(pos, 8) + 8 <= bytes.len());
    assert(crate::ancha::cell_at::<usize>(bytes, spec_align_up(pos, 8)) as nat == os@.len());
    lemma_bytes_run_read(
        a.elem_ancha,
        os@,
        ctx,
        bytes,
        crate::ancha::sediment::sediment_first::<crate::my_ancha::keyval_state::Bytes<'static>>(pos),
    );
}

/// What a leaf reads back as: the positions of its states, its keys to get
/// and its extensions.
pub open spec fn leaf_view<Ctx: GetQptrs>(ctx: Ctx, l: LeafOrigin) -> (Seq<usize>, Seq<Seq<u8>>, Seq<Seq<u8>>) {
    (l.states@.map_values(|s: usize| ctx.spec_kvqptrs()[s as int]), views(l.get_olds@), views(l.exts@))
}

/// A leaf laid out reads back as it was.
pub proof fn lemma_leaf_read<Ctx: GetQptrs>(a: LeafAnchize<Ctx>, o: LeafOrigin, ctx: Ctx, bytes: Seq<u8>, pos: int)
    requires
        0 <= pos,
        a.spec_holds(o, ctx, bytes, pos),
    ensures
        leaf_at(bytes, pos) == Some(leaf_view(ctx, o)),
{
    crate::ancha::tupellum::lemma_trio_end(a.states, a.get_olds, a.exts, o.states, o.get_olds, o.exts, pos);
    lemma_cells_read(a.states, o.states, ctx, bytes, pos);
    let e1 = a.states.spec_end(o.states, pos);
    lemma_sediment_read(a.get_olds, o.get_olds, ctx, bytes, e1);
    let e2 = a.get_olds.spec_end(o.get_olds, e1);
    lemma_sediment_read(a.exts, o.exts, ctx, bytes, e2);
    assert(o.states@.map_values(|s: usize| a.states.elem_ancha.spec_anchize_static(s, ctx)) =~= o.states@.map_values(
        |s: usize| ctx.spec_kvqptrs()[s as int],
    ));
}

/// The leaf that a transition's diagram, as built, picks under the tags
/// `tags` (evaluated within `fuel` steps).
pub open spec fn origin_leaf(o: TranOrigin, tags: Seq<usize>, fuel: nat) -> Option<LeafOrigin> {
    let nodes = bdd_flat(o.bdd);
    match bdd_eval_origin(nodes, bdd_kids(o.bdd, 0), 0, tag_val(tags), fuel) {
        Some(i) => match nodes[i] {
            BddOrigin::Leaf(l) => Some(l),
            _ => None,
        },
        None => None,
    }
}

/// A transition laid out reads back as it was: its key; its initial byte
/// states, as positions; and, under any tags, the leaf that its diagram as
/// built picks.
pub proof fn lemma_tran_read<Ctx: GetQptrs>(a: TranAnchize<Ctx>, o: TranOrigin, ctx: Ctx, bytes: Seq<u8>, pos: int)
    requires
        0 <= pos,
        a.spec_accepts(o, ctx),
        a.spec_holds(o, ctx, bytes, pos),
    ensures
        cells_at::<u8>(bytes, pos) == Some((o.key@, a.key.spec_end(o.key, pos))),
        tran_at(bytes, a.key.spec_end(o.key, pos)) matches Some((inits, _)) && inits == o.dfa_inits@.map_values(
            |i: usize| ctx.spec_u8qptrs()[i as int],
        ),
        forall|tags: Seq<usize>|
            #[trigger] tran_leaf(bytes, a.key.spec_end(o.key, pos), tags) == match origin_leaf(
                o,
                tags,
                bytes.len() as nat,
            ) {
                Some(l) => Some(leaf_view(ctx, l)),
                None => None,
            },
{
    let k_end = a.key.spec_end(o.key, pos);
    let i_end = a.inits.spec_end(o.dfa_inits, k_end);
    crate::ancha::tupellum::lemma_trio_end(a.key, a.inits, a.finals, o.key, o.dfa_inits, o.bdd, pos);
    lemma_bytes_read(a.key, o.key, ctx, bytes, pos);
    lemma_cells_read(a.inits, o.dfa_inits, ctx, bytes, k_end);
    assert(o.dfa_inits@.map_values(|i: usize| a.inits.elem_ancha.spec_anchize_static(i, ctx)) =~= o.dfa_inits@.map_values(
        |i: usize| ctx.spec_u8qptrs()[i as int],
    ));
    let f = a.finals;
    let nodes = bdd_flat(o.bdd);
    let kids = bdd_kids(o.bdd, 0);
    let start = spec_align_up(i_end, 4);
    lemma_align_up(i_end, 4);
    assert forall|tags: Seq<usize>|
        #[trigger] tran_leaf(bytes, k_end, tags) == match origin_leaf(o, tags, bytes.len() as nat) {
            Some(l) => Some(leaf_view(ctx, l)),
            None => None,
        } by {
        let val = tag_val(tags);
        let fuel = bytes.len() as nat;
        lemma_bdd_eval(f, o.bdd, ctx, bytes, i_end, val, fuel);
        let valo = |v: usize| val(f.var_ancha.spec_anchize_static(v, ctx));
        assert(valo =~= tag_val(tags));
        match bdd_eval_origin(nodes, kids, 0, valo, fuel) {
            Some(i) => {
                lemma_eval_origin_leaf(nodes, kids, 0, valo, fuel);
                let p = bdd_at::<usize, usize, LeafAnchize<Ctx>>(f.leaf_ancha, nodes, start, i);
                assert(crate::ancha::bdd::bdd_node_holds(f.var_ancha, f.leaf_ancha, nodes, kids, ctx, bytes, start, i));
                crate::ancha::bdd::lemma_bdd_order::<usize, usize, LeafAnchize<Ctx>>(f.leaf_ancha, nodes, start, i, i + 1);
                crate::ancha::bdd::lemma_bdd_end_ge::<usize, usize, LeafAnchize<Ctx>>(f.leaf_ancha, nodes.take(i), start);
                crate::ancha::bdd::lemma_bdd_step::<usize, usize, LeafAnchize<Ctx>>(f.leaf_ancha, nodes, start, i);
                match nodes[i] {
                    BddOrigin::Leaf(l) => {
                        lemma_leaf_read(f.leaf_ancha, l, ctx, bytes, p + 4);
                        lemma_align_up(p + 4, 8);
                        lemma_align_idem(p + 4, 8);
                    },
                    _ => {},
                }
            },
            None => {},
        }
    }
}

/// Evaluating a diagram as built ends at a leaf.
proof fn lemma_eval_origin_leaf<VO, LO>(
    nodes: Seq<BddOrigin<VO, LO>>,
    kids: Seq<(int, int)>,
    k: int,
    val: spec_fn(VO) -> bool,
    fuel: nat,
)
    ensures
        bdd_eval_origin(nodes, kids, k, val, fuel) matches Some(i) ==> 0 <= i < nodes.len() && nodes[i] is Leaf,
    decreases fuel,
{
    if fuel > 0 && 0 <= k < nodes.len() && !(nodes[k] is Leaf) {
        lemma_eval_origin_leaf(
            nodes,
            kids,
            if val(crate::ancha::bdd::bdd_var(nodes[k])) { kids[k].0 } else { kids[k].1 },
            val,
            (fuel - 1) as nat,
        );
    }
}

/// What the transitions of a key-value state read back as, from its
/// transition `i` on: the key of each and the cursor behind the key.
pub open spec fn kv_expected<Ctx: GetQptrs>(e: TranAnchize<Ctx>, os: Seq<TranOrigin>, pos: int, i: int) -> Seq<
    (Seq<u8>, int),
> {
    Seq::new(
        (os.len() - i) as nat,
        |j: int| (os[i + j].key@, e.key.spec_end(os[i + j].key, list_node(e, os, pos, i + j) + 8)),
    )
}

proof fn lemma_kv_from<Ctx: GetQptrs>(
    e: TranAnchize<Ctx>,
    os: Seq<TranOrigin>,
    ctx: Ctx,
    bytes: Seq<u8>,
    pos: int,
    i: int,
)
    requires
        0 <= pos,
        0 <= i < os.len(),
        crate::ancha::list::list_end(e, os, pos) <= bytes.len(),
        forall|j: int| 0 <= j < os.len() ==> #[trigger] list_node_holds(e, os, ctx, bytes, pos, j),
        forall|j: int| 0 <= j < os.len() ==> e.spec_accepts(#[trigger] os[j], ctx),
    ensures
        kv_trans(bytes, list_node(e, os, pos, i)) == kv_expected(e, os, pos, i),
    decreases os.len() - i,
{
    Tran0::<'static>::lemma_layout();
    let n = os.len() as int;
    let p = list_node(e, os, pos, i);
    lemma_list_step(e, os, pos, i);
    lemma_list_end_ge(e, os.take(i), pos);
    lemma_list_mono(e, os, pos, i + 1, n);
    lemma_list_whole(e, os, pos);
    lemma_align_up(crate::ancha::list::list_end(e, os.take(i), pos), 8);
    lemma_align_up_aligned(p, 8);
    lemma_align_up(p + 8, 8);
    lemma_align_up_aligned(p + 8, 8);
    assert(list_value::<Tran0<'static>>(p) == p + 8);
    assert(list_node_holds(e, os, ctx, bytes, pos, i));
    lemma_tran_read(e, os[i], ctx, bytes, p + 8);
    let ke = e.key.spec_end(os[i].key, p + 8);
    if i + 1 < n {
        lemma_kv_from(e, os, ctx, bytes, pos, i + 1);
        let q = list_node(e, os, pos, i + 1);
        lemma_list_step(e, os, pos, i + 1);
        lemma_list_mono(e, os, pos, i + 2, n);
        assert(crate::ancha::cell_at::<usize>(bytes, p) == q);
        assert(p < q <= bytes.len());
        assert(kv_trans(bytes, p) == seq![(os[i].key@, ke)] + kv_trans(bytes, q));
        assert(kv_trans(bytes, p) =~= kv_expected(e, os, pos, i));
    } else {
        assert(crate::ancha::cell_at::<usize>(bytes, p) == 0);
        assert(kv_trans(bytes, p) == seq![(os[i].key@, ke)] + Seq::<(Seq<u8>, int)>::empty());
        assert(kv_trans(bytes, p) =~= kv_expected(e, os, pos, i));
    }
}

/// Reading the transitions from a cursor or from the aligned node it leads
/// to comes to the same, where the node's link leads forward or ends.
proof fn lemma_kv_trans_realign(bytes: Seq<u8>, pos: int)
    requires
        0 <= pos,
        ({
            let p0 = spec_align_up(pos, 8);
            let link = crate::ancha::cell_at::<usize>(bytes, p0) as int;
            link == 0 || p0 < link
        }),
    ensures
        kv_trans(bytes, pos) == kv_trans(bytes, spec_align_up(pos, 8)),
{
    lemma_align_up(pos, 8);
    lemma_align_idem(pos, 8);
}

/// The first node of a laid-out list links forward, or ends the list.
proof fn lemma_first_link<Ctx: GetQptrs>(e: TranAnchize<Ctx>, os: Seq<TranOrigin>, ctx: Ctx, bytes: Seq<u8>, pos: int)
    requires
        0 <= pos,
        os.len() > 0,
        crate::ancha::cell_at::<usize>(bytes, list_node(e, os, pos, 0)) == list_link(e, os, pos, 0),
    ensures
        ({
            let p0 = spec_align_up(pos, 8);
            let link = crate::ancha::cell_at::<usize>(bytes, p0) as int;
            link == 0 || p0 < link
        }),
{
    Tran0::<'static>::lemma_layout();
    assert(os.take(0) =~= Seq::<TranOrigin>::empty());
    lemma_align_up(pos, 8);
    lemma_align_idem(pos, 8);
    assert(list_node(e, os, pos, 0) == spec_align_up(pos, 8));
    lemma_list_step(e, os, pos, 0);
    if os.len() > 1 {
        lemma_list_step(e, os, pos, 1);
        lemma_align_up(crate::ancha::list::list_end(e, os.take(1), pos), 8);
    }
}

/// A key-value state laid out with at least one transition reads back as
/// it was: the runner finds its transitions in order, each with its key.
#[verifier::spinoff_prover]
pub proof fn lemma_kv_trans_read<Ctx: GetQptrs>(
    a: KeyValStateAnchize<Ctx>,
    o: StateOrigin,
    ctx: Ctx,
    bytes: Seq<u8>,
    pos: int,
)
    requires
        0 <= pos,
        o.transitions@.len() > 0,
        a.spec_accepts(o, ctx),
        a.spec_holds(o, ctx, bytes, pos),
    ensures
        kv_trans(bytes, pos) == kv_expected(a.sparse.elem_ancha, o.transitions@, pos, 0),
{
    let e = a.sparse.elem_ancha;
    let os = o.transitions@;
    assert(crate::ancha::list::list_holds(e, os, ctx, bytes, pos));
    assert forall|j: int| 0 <= j < os.len() implies e.spec_accepts(#[trigger] os[j], ctx) by {
        assert(e.spec_accepts(o.transitions@[j], ctx));
    }
    lemma_kv_from(e, os, ctx, bytes, pos, 0);
    assert(os.take(0) =~= Seq::<TranOrigin>::empty());
    assert(list_node(e, os, pos, 0) == spec_align_up(pos, 8));
    assert(list_node_holds(e, os, ctx, bytes, pos, 0));
    lemma_first_link(e, os, ctx, bytes, pos);
    lemma_kv_trans_realign(bytes, pos);
}

/// An automaton laid out at the start of a blob reads back as it was: the
/// simulation starts from its keys to get, its extensions, and the
/// positions of its initial key-value states.
pub proof fn lemma_automaton_read(
    a: crate::my_ancha::automaton::AutomatonAnchize,
    o: crate::my_ancha::automaton::AutomatonOrigin,
    ctx: crate::my_ancha::automaton::AutomatonContext,
    bytes: Seq<u8>,
)
    requires
        a.spec_holds(o, ctx, bytes, 0),
    ensures
        crate::keyval_simulator::automaton_at(bytes) == Some(
            (
                views(o.get_olds@),
                views(o.exts@),
                o.inits@.map_values(|s: usize| ctx.spec_kvqptrs()[s as int]),
            ),
        ),
{
    crate::ancha::tupellum::lemma_trio_end(a.get_olds, a.exts, a.inits, o.get_olds, o.exts, o.inits, 0);
    lemma_sediment_read(a.get_olds, o.get_olds, ctx, bytes, 0);
    let e1 = a.get_olds.spec_end(o.get_olds, 0);
    lemma_sediment_read(a.exts, o.exts, ctx, bytes, e1);
    let e2 = a.exts.spec_end(o.exts, e1);
    lemma_cells_read(a.inits, o.inits, ctx, bytes, e2);
    assert(o.inits@.map_values(|s: usize| a.inits.elem_ancha.spec_anchize_static(s, ctx)) =~= o.inits@.map_values(
        |s: usize| ctx.spec_kvqptrs()[s as int],
    ));
}

/// In an automaton laid out at the start of a blob, each key-value state
/// with transitions reads back, at the position recorded for it, as it was
/// built: the runner finds its transitions in order, each with its key.
#[verifier::spinoff_prover]
pub proof fn lemma_built_state_read(
    a: crate::my_ancha::automaton::AutomatonAnchize,
    o: crate::my_ancha::automaton::AutomatonOrigin,
    ctx: crate::my_ancha::automaton::AutomatonContext,
    bytes: Seq<u8>,
    i: int,
)
    requires
        bytes.len() <= crate::ancha::max_blob(),
        a.spec_accepts(o, ctx),
        a.spec_holds(o, ctx, bytes, 0),
        0 <= i < o.kv_states@.len(),
        o.kv_states@[i].transitions@.len() > 0,
    ensures
        kv_trans(bytes, a.kv_positions(o, 0)[i] as int) == kv_expected(
            a.kv_states.elem_ancha.inner.sparse.elem_ancha,
            o.kv_states@[i].transitions@,
            a.kv_positions(o, 0)[i] as int,
            0,
        ),
{
    let track = a.kv_states.elem_ancha;
    let inner = track.inner;
    let os = o.kv_states@;
    let k = a.kv_at(o, 0);
    let first = crate::ancha::sediment::sediment_first::<crate::my_ancha::keyval_state::KeyValState<'static>>(k);
    a.lemma_parts(o, 0);
    lemma_sediment_first::<crate::my_ancha::keyval_state::KeyValState<'static>>(k);
    assert(a.kv_states.spec_holds(o.kv_states, ctx, bytes, k));
    assert(seq_holds(track, os, ctx, bytes, first));
    crate::ancha::lemma_seq_holds_at(track, os, ctx, bytes, first, i);
    lemma_seq_end(track, os, first, i);
    let c = seq_end(track, os.take(i), first);
    assert(inner.spec_holds(os[i], ctx, bytes, c));
    inner.lemma_align_start(os[i], ctx, bytes, c);
    crate::my_ancha::keyval_state::KeyValState::<'static>::lemma_layout();
    let p = spec_align_up(c, 8);
    lemma_align_up(c, 8);
    assert(inner.spec_holds(os[i], ctx, bytes, p));
    assert(a.kv_positions(o, 0)[i] as int == p);
    assert(inner.spec_accepts(os[i], ctx));
    lemma_kv_trans_read(inner, os[i], ctx, bytes, p);
}

} // verus!
