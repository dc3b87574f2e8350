//! Binary decision diagrams laid out in a blob.
//!
//! A diagram is a tree of owned nodes in which a node may also refer to
//! nodes that it does not own (sharing). The nodes are numbered in preorder
//! of the ownership tree, positive child first; a node refers to a node that
//! it does not own by that number.
//!
//! Layout: the nodes in preorder, each aligned to 4. A node is
//! `[tag: u32]` followed by, for a leaf, the leaf's structure, and for an
//! inner node, `[padding][var][padding][ptr][ptr]` (no owned child) or
//! `[padding][var][padding][unowned ptr]` directly followed by its owned
//! child. A pointer holds the position of the node it leads to.
use core::marker::PhantomData;
use vstd::prelude::*;

use super::{
    cell_at, from_base, lemma_align_up, lemma_cell_from_base, lemma_unchanged_cell,
    lemma_unchanged_holds, lemma_write_cell, max_blob, spec_align_up, spec_max,
    unchanged_outside, Anchize, BuildCursor, Cell, Deanchize, Layout, Reserve, StaticAnchize,
    StaticDeanchize,
};

verus! {

/// A diagram as built by its user.
pub enum BddOrigin<Var, Leaf> {
    Leaf(Leaf),
    NodeNoOwned { var: Var, pos: usize, neg: usize },
    NodePosOwned { var: Var, pos: Box<BddOrigin<Var, Leaf>>, neg: usize },
    NodeNegOwned { var: Var, pos: usize, neg: Box<BddOrigin<Var, Leaf>> },
    NodeBothOwned { var: Var, pos: Box<BddOrigin<Var, Leaf>>, neg: Box<BddOrigin<Var, Leaf>> },
    /// The diagram `first`, with the nodes of `rest` laid out behind it: they
    /// belong to no node of `first`, and references may name them. No node
    /// is laid out for this itself.
    WithDetached { first: Box<BddOrigin<Var, Leaf>>, rest: Box<BddOrigin<Var, Leaf>> },
}

impl<Var, Leaf> BddOrigin<Var, Leaf> {
    /// The variable of an inner node.
    pub fn get_var(&self) -> (r: &Var)
        requires
            !(self is Leaf),
            !(self is WithDetached),
        ensures
            *r == bdd_var(*self),
    {
        match self {
            BddOrigin::Leaf(_) => vstd::pervasive::unreached(),
            BddOrigin::WithDetached { .. } => vstd::pervasive::unreached(),
            BddOrigin::NodeNoOwned { var, .. } => var,
            BddOrigin::NodePosOwned { var, .. } => var,
            BddOrigin::NodeNegOwned { var, .. } => var,
            BddOrigin::NodeBothOwned { var, .. } => var,
        }
    }

    /// Whether the node owns its positive child.
    pub fn owns_pos(&self) -> (r: bool)
        ensures
            r == (self is NodePosOwned || self is NodeBothOwned),
    {
        match self {
            BddOrigin::NodePosOwned { .. } => true,
            BddOrigin::NodeBothOwned { .. } => true,
            _ => false,
        }
    }

    /// Whether the node owns its negative child.
    pub fn owns_neg(&self) -> (r: bool)
        ensures
            r == (self is NodeNegOwned || self is NodeBothOwned),
    {
        match self {
            BddOrigin::NodeNegOwned { .. } => true,
            BddOrigin::NodeBothOwned { .. } => true,
            _ => false,
        }
    }
}

/// The variable of an inner node.
pub open spec fn bdd_var<Var, Leaf>(o: BddOrigin<Var, Leaf>) -> Var
    recommends
        !(o is Leaf),
{
    match o {
        BddOrigin::NodeNoOwned { var, .. } => var,
        BddOrigin::NodePosOwned { var, .. } => var,
        BddOrigin::NodeNegOwned { var, .. } => var,
        BddOrigin::NodeBothOwned { var, .. } => var,
        _ => arbitrary(),
    }
}

/// The nodes of a diagram in preorder of ownership, positive child first.
pub open spec fn bdd_flat<Var, Leaf>(o: BddOrigin<Var, Leaf>) -> Seq<BddOrigin<Var, Leaf>>
    decreases o,
{
    match o {
        BddOrigin::NodePosOwned { pos, .. } => seq![o] + bdd_flat(*pos),
        BddOrigin::NodeNegOwned { neg, .. } => seq![o] + bdd_flat(*neg),
        BddOrigin::NodeBothOwned { pos, neg, .. } => seq![o] + bdd_flat(*pos) + bdd_flat(*neg),
        BddOrigin::WithDetached { first, rest } => bdd_flat(*first) + bdd_flat(*rest),
        _ => seq![o],
    }
}

/// Whether a diagram has no detached parts: all its nodes lie in the tree
/// of ownership from its root.
pub open spec fn bdd_plain<Var, Leaf>(o: BddOrigin<Var, Leaf>) -> bool
    decreases o,
{
    match o {
        BddOrigin::WithDetached { .. } => false,
        BddOrigin::NodePosOwned { pos, .. } => bdd_plain(*pos),
        BddOrigin::NodeNegOwned { neg, .. } => bdd_plain(*neg),
        BddOrigin::NodeBothOwned { pos, neg, .. } => bdd_plain(*pos) && bdd_plain(*neg),
        _ => true,
    }
}

/// The numbers of the children of the nodes of a diagram whose root is
/// node `k0`, in the order of `bdd_flat`: for each node, its positive and
/// its negative child (a leaf has none; its entry is `(0, 0)`).
pub open spec fn bdd_kids<Var, Leaf>(o: BddOrigin<Var, Leaf>, k0: int) -> Seq<(int, int)>
    decreases o,
{
    match o {
        BddOrigin::Leaf(_) => seq![(0, 0)],
        BddOrigin::NodeNoOwned { pos, neg, .. } => seq![(pos as int, neg as int)],
        BddOrigin::NodePosOwned { pos, neg, .. } => seq![(k0 + 1, neg as int)] + bdd_kids(*pos, k0 + 1),
        BddOrigin::NodeNegOwned { pos, neg, .. } => seq![(pos as int, k0 + 1)] + bdd_kids(*neg, k0 + 1),
        BddOrigin::NodeBothOwned { pos, neg, .. } => seq![(k0 + 1, k0 + 1 + bdd_flat(*pos).len())]
            + bdd_kids(*pos, k0 + 1) + bdd_kids(*neg, k0 + 1 + bdd_flat(*pos).len()),
        BddOrigin::WithDetached { first, rest } => bdd_kids(*first, k0) + bdd_kids(*rest, k0 + bdd_flat(*first).len()),
    }
}

pub proof fn lemma_bdd_flat<Var, Leaf>(o: BddOrigin<Var, Leaf>, k0: int)
    ensures
        bdd_flat(o).len() >= 1,
        !(o is WithDetached) ==> bdd_flat(o)[0] == o,
        bdd_kids(o, k0).len() == bdd_flat(o).len(),
        forall|i: int|
            0 <= i < bdd_flat(o).len() ==> {
                let n = #[trigger] bdd_flat(o)[i];
                &&& !(n is WithDetached)
                &&& (n is NodePosOwned || n is NodeBothOwned) ==> bdd_kids(o, k0)[i].0 == k0 + i + 1
                &&& n is NodeNegOwned ==> bdd_kids(o, k0)[i].1 == k0 + i + 1
                &&& (n is NodePosOwned || n is NodeBothOwned || n is NodeNegOwned) ==> i + 1
                    < bdd_flat(o).len()
                &&& n is NodeBothOwned ==> i + 1 < bdd_kids(o, k0)[i].1 - k0 < bdd_flat(o).len()
            },
    decreases o,
{
    match o {
        BddOrigin::NodePosOwned { pos, .. } => {
            lemma_bdd_flat(*pos, k0 + 1);
            assert forall|i: int| 1 <= i < bdd_flat(o).len() implies #[trigger] bdd_flat(o)[i] == bdd_flat(
                *pos,
            )[i - 1] && bdd_kids(o, k0)[i] == bdd_kids(*pos, k0 + 1)[i - 1] by {}
        },
        BddOrigin::NodeNegOwned { neg, .. } => {
            lemma_bdd_flat(*neg, k0 + 1);
            assert forall|i: int| 1 <= i < bdd_flat(o).len() implies #[trigger] bdd_flat(o)[i] == bdd_flat(
                *neg,
            )[i - 1] && bdd_kids(o, k0)[i] == bdd_kids(*neg, k0 + 1)[i - 1] by {}
        },
        BddOrigin::NodeBothOwned { pos, neg, .. } => {
            let m = bdd_flat(*pos).len() as int;
            lemma_bdd_flat(*pos, k0 + 1);
            lemma_bdd_flat(*neg, k0 + 1 + m);
            assert forall|i: int| 1 <= i < bdd_flat(o).len() implies #[trigger] bdd_flat(o)[i] == (if i
                <= m {
                bdd_flat(*pos)[i - 1]
            } else {
                bdd_flat(*neg)[i - 1 - m]
            }) && bdd_kids(o, k0)[i] == (if i <= m {
                bdd_kids(*pos, k0 + 1)[i - 1]
            } else {
                bdd_kids(*neg, k0 + 1 + m)[i - 1 - m]
            }) by {}
        },
        BddOrigin::WithDetached { first, rest } => {
            let m = bdd_flat(*first).len() as int;
            lemma_bdd_flat(*first, k0);
            lemma_bdd_flat(*rest, k0 + m);
            assert forall|i: int| 0 <= i < bdd_flat(o).len() implies #[trigger] bdd_flat(o)[i] == (if i
                < m {
                bdd_flat(*first)[i]
            } else {
                bdd_flat(*rest)[i - m]
            }) && bdd_kids(o, k0)[i] == (if i < m {
                bdd_kids(*first, k0)[i]
            } else {
                bdd_kids(*rest, k0 + m)[i - m]
            }) by {}
        },
        _ => {},
    }
}

/// From `start` on, `nodes` and `kids` hold the nodes of `o` in preorder
/// and the numbers of their children.
pub open spec fn bdd_flat_at<Var, Leaf>(
    nodes: Seq<&BddOrigin<Var, Leaf>>,
    kids: Seq<(usize, usize)>,
    start: int,
    o: BddOrigin<Var, Leaf>,
) -> bool {
    forall|i: int|
        0 <= i < bdd_flat(o).len() ==> *nodes[start + i] == #[trigger] bdd_flat(o)[i] && kids[start
            + i].0 == bdd_kids(o, start)[i].0 && kids[start + i].1 == bdd_kids(o, start)[i].1
}

/// Collect the nodes of the diagram in preorder, with the numbers of their
/// children.
pub fn bdd_flatten<'b, Var, Leaf>(
    o: &'b BddOrigin<Var, Leaf>,
    nodes: &mut Vec<&'b BddOrigin<Var, Leaf>>,
    kids: &mut Vec<(usize, usize)>,
)
    requires
        old(nodes)@.len() == old(kids)@.len(),
        old(nodes)@.len() + bdd_flat(*o).len() <= usize::MAX,
    ensures
        final(nodes)@.len() == old(nodes)@.len() + bdd_flat(*o).len(),
        final(kids)@.len() == final(nodes)@.len(),
        forall|i: int| 0 <= i < old(nodes)@.len() ==> #[trigger] final(nodes)@[i] == old(nodes)@[i],
        forall|i: int| 0 <= i < old(nodes)@.len() ==> #[trigger] final(kids)@[i] == old(kids)@[i],
        bdd_flat_at(final(nodes)@, final(kids)@, old(nodes)@.len() as int, *o),
    decreases o,
{
    let k0 = nodes.len();
    let ghost n0 = old(nodes)@;
    let ghost q0 = old(kids)@;
    proof {
        lemma_bdd_flat(*o, k0 as int);
    }
    if let BddOrigin::WithDetached { first, rest } = o {
        let ghost m = bdd_flat(**first).len();
        proof {
            lemma_bdd_flat(**first, k0 as int);
        }
        bdd_flatten(&**first, nodes, kids);
        proof {
            lemma_bdd_flat(**rest, k0 + m);
        }
        bdd_flatten(&**rest, nodes, kids);
        proof {
            assert forall|i: int| 0 <= i < bdd_flat(*o).len() implies *nodes@[old(nodes)@.len() + i] == #[trigger] bdd_flat(
                *o,
            )[i] && kids@[old(nodes)@.len() + i].0 == bdd_kids(*o, old(nodes)@.len() as int)[i].0 && kids@[old(nodes)@.len() + i].1 == bdd_kids(
                *o,
                old(nodes)@.len() as int,
            )[i].1 by {
                if i < m {
                    assert(bdd_flat(**first)[i] == bdd_flat(*o)[i]);
                    assert(bdd_kids(*o, k0 as int)[i] == bdd_kids(**first, k0 as int)[i]);
                } else {
                    assert(bdd_flat(**rest)[i - m] == bdd_flat(*o)[i]);
                    assert(bdd_kids(*o, k0 as int)[i] == bdd_kids(**rest, k0 + m)[i - m]);
                }
            }
        }
        return;
    }
    nodes.push(o);
    match o {
        BddOrigin::WithDetached { .. } => {
            proof {
                assert(false);
            }
        },
        BddOrigin::Leaf(_) => {
            kids.push((0, 0));
            proof {
                assert(bdd_flat(*o) =~= seq![*o]);
                assert(bdd_kids(*o, k0 as int) =~= seq![(0int, 0int)]);
                assert forall|i: int| 0 <= i < bdd_flat(*o).len() implies *nodes@[k0 + i] == #[trigger] bdd_flat(
                    *o,
                )[i] && kids@[k0 + i].0 == bdd_kids(*o, k0 as int)[i].0 && kids@[k0 + i].1 == bdd_kids(
                    *o,
                    k0 as int,
                )[i].1 by {
                    assert(i == 0);
                }
            }
        },
        BddOrigin::NodeNoOwned { pos, neg, .. } => {
            kids.push((*pos, *neg));
            proof {
                assert(bdd_flat(*o) =~= seq![*o]);
                assert(bdd_kids(*o, k0 as int) =~= seq![(*pos as int, *neg as int)]);
                assert forall|i: int| 0 <= i < bdd_flat(*o).len() implies *nodes@[k0 + i] == #[trigger] bdd_flat(
                    *o,
                )[i] && kids@[k0 + i].0 == bdd_kids(*o, k0 as int)[i].0 && kids@[k0 + i].1 == bdd_kids(
                    *o,
                    k0 as int,
                )[i].1 by {
                    assert(i == 0);
                }
            }
        },
        BddOrigin::NodePosOwned { pos, neg, .. } => {
            kids.push((k0 + 1, *neg));
            let ghost n1 = nodes@;
            let ghost q1 = kids@;
            proof {
                lemma_bdd_flat(**pos, k0 + 1);
            }
            bdd_flatten(&**pos, nodes, kids);
            proof {
                assert forall|i: int| 0 <= i < bdd_flat(*o).len() implies *nodes@[k0 + i] == #[trigger] bdd_flat(
                    *o,
                )[i] && kids@[k0 + i].0 == bdd_kids(*o, k0 as int)[i].0 && kids@[k0 + i].1 == bdd_kids(
                    *o,
                    k0 as int,
                )[i].1 by {
                    if i > 0 {
                        assert(bdd_flat(**pos)[i - 1] == bdd_flat(*o)[i]);
                        assert(bdd_kids(*o, k0 as int)[i] == bdd_kids(**pos, k0 + 1)[i - 1]);
                        assert(*nodes@[k0 + i] == bdd_flat(*o)[i]);
                        assert(kids@[k0 + i].0 == bdd_kids(*o, k0 as int)[i].0);
                    } else {
                        assert(bdd_kids(*o, k0 as int)[0] == (k0 + 1, *neg as int));
                        assert(n1[k0 as int] == o);
                        assert(nodes@[k0 as int] == n1[k0 as int]);
                        assert(*nodes@[k0 + i] == bdd_flat(*o)[i]);
                        assert(kids@[k0 + i].0 == bdd_kids(*o, k0 as int)[i].0);
                    }
                }
            }
        },
        BddOrigin::NodeNegOwned { pos, neg, .. } => {
            kids.push((*pos, k0 + 1));
            proof {
                lemma_bdd_flat(**neg, k0 + 1);
            }
            bdd_flatten(&**neg, nodes, kids);
            proof {
                assert forall|i: int| 0 <= i < bdd_flat(*o).len() implies *nodes@[k0 + i] == #[trigger] bdd_flat(
                    *o,
                )[i] && kids@[k0 + i].0 == bdd_kids(*o, k0 as int)[i].0 && kids@[k0 + i].1 == bdd_kids(
                    *o,
                    k0 as int,
                )[i].1 by {
                    if i > 0 {
                        assert(bdd_flat(**neg)[i - 1] == bdd_flat(*o)[i]);
                        assert(bdd_kids(*o, k0 as int)[i] == bdd_kids(**neg, k0 + 1)[i - 1]);
                    } else {
                        assert(bdd_kids(*o, k0 as int)[0] == (*pos as int, k0 + 1));
                    }
                }
            }
        },
        BddOrigin::NodeBothOwned { pos, neg, .. } => {
            let ghost m = bdd_flat(**pos).len();
            proof {
                lemma_bdd_flat(**pos, k0 + 1);
            }
            kids.push((k0 + 1, 0));
            let at = kids.len() - 1;
            bdd_flatten(&**pos, nodes, kids);
            let negix = nodes.len();
            kids.set(at, (k0 + 1, negix));
            proof {
                lemma_bdd_flat(**neg, k0 + 1 + m);
            }
            bdd_flatten(&**neg, nodes, kids);
            proof {
                assert(kids@[at as int].0 == k0 + 1 && kids@[at as int].1 == k0 + 1 + m);
                assert forall|i: int| 0 <= i < bdd_flat(*o).len() implies *nodes@[k0 + i] == #[trigger] bdd_flat(
                    *o,
                )[i] && kids@[k0 + i].0 == bdd_kids(*o, k0 as int)[i].0 && kids@[k0 + i].1 == bdd_kids(
                    *o,
                    k0 as int,
                )[i].1 by {
                    if 0 < i <= m {
                        assert(bdd_flat(**pos)[i - 1] == bdd_flat(*o)[i]);
                        assert(bdd_kids(*o, k0 as int)[i] == bdd_kids(**pos, k0 + 1)[i - 1]);
                    } else if i > m {
                        assert(bdd_flat(**neg)[i - 1 - m] == bdd_flat(*o)[i]);
                        assert(bdd_kids(*o, k0 as int)[i] == bdd_kids(**neg, k0 + 1 + m)[i - 1 - m]);
                    } else {
                        assert(bdd_kids(*o, k0 as int)[0] == (k0 + 1, k0 + 1 + m));
                    }
                }
            }
        },
    }
    proof {
        assert(k0 == old(nodes)@.len());
        assert forall|i: int| 0 <= i < bdd_flat(*o).len() implies *nodes@[old(nodes)@.len() + i] == #[trigger] bdd_flat(
            *o,
        )[i] && kids@[old(nodes)@.len() + i].0 == bdd_kids(*o, old(nodes)@.len() as int)[i].0 && kids@[old(nodes)@.len() + i].1 == bdd_kids(
            *o,
            old(nodes)@.len() as int,
        )[i].1 by {
            assert(*nodes@[k0 + i] == bdd_flat(*o)[i]);
        }
        assert(bdd_flat_at(nodes@, kids@, old(nodes)@.len() as int, *o));
    }
}


/// The kinds of nodes, as tagged in a blob.
#[derive(Clone, Copy, PartialEq, Eq, Structural)]
pub enum BddType {
    Leaf,
    NodeNoOwned,
    NodePosOwned,
    NodeNegOwned,
    NodeBothOwned,
}

/// The tag of a kind.
pub open spec fn bdd_type_tag(t: BddType) -> u32 {
    match t {
        BddType::Leaf => 0,
        BddType::NodeNoOwned => 1,
        BddType::NodePosOwned => 2,
        BddType::NodeNegOwned => 3,
        BddType::NodeBothOwned => 4,
    }
}

/// The kind of a node.
pub open spec fn bdd_kind<Var, Leaf>(o: BddOrigin<Var, Leaf>) -> BddType {
    match o {
        BddOrigin::Leaf(_) => BddType::Leaf,
        BddOrigin::NodeNoOwned { .. } => BddType::NodeNoOwned,
        BddOrigin::NodePosOwned { .. } => BddType::NodePosOwned,
        BddOrigin::NodeNegOwned { .. } => BddType::NodeNegOwned,
        BddOrigin::NodeBothOwned { .. } => BddType::NodeBothOwned,
        BddOrigin::WithDetached { .. } => arbitrary(),
    }
}

impl BddType {
    /// The tag of this kind.
    pub fn tag(&self) -> (r: u32)
        ensures
            r == bdd_type_tag(*self),
    {
        match self {
            BddType::Leaf => 0,
            BddType::NodeNoOwned => 1,
            BddType::NodePosOwned => 2,
            BddType::NodeNegOwned => 3,
            BddType::NodeBothOwned => 4,
        }
    }

    /// The kind with the given tag, if any.
    pub fn from_tag(tag: u32) -> (r: Option<BddType>)
        ensures
            match r {
                Some(t) => bdd_type_tag(t) == tag,
                None => tag > 4,
            },
    {
        if tag == 0 {
            Some(BddType::Leaf)
        } else if tag == 1 {
            Some(BddType::NodeNoOwned)
        } else if tag == 2 {
            Some(BddType::NodePosOwned)
        } else if tag == 3 {
            Some(BddType::NodeNegOwned)
        } else if tag == 4 {
            Some(BddType::NodeBothOwned)
        } else {
            None
        }
    }
}

/// A diagram in a blob: the node at `at`.
pub struct AnchaBdd<'a, Var, Leaf> {
    pub blob: &'a [u8],
    pub at: usize,
    pub _phantom: PhantomData<(Var, Leaf)>,
}

/// The fixed-size head of a node is its tag.
impl<'a, Var, Leaf> Layout for AnchaBdd<'a, Var, Leaf> {
    open spec fn spec_size() -> nat {
        4
    }

    open spec fn spec_align() -> nat {
        4
    }

    fn size() -> (r: usize) {
        4
    }

    fn align() -> (r: usize) {
        4
    }

    proof fn lemma_layout() {
    }
}

/// An inner node without owned children, as read from a blob.
pub struct NodeNoOwned<'a, Var, Leaf> {
    pub var: Var,
    pub pos: usize,
    pub neg: usize,
    pub _phantom: PhantomData<&'a Leaf>,
}

/// An inner node with an owned child, as read from a blob: `owned` is the
/// position of the owned child, which follows the node.
pub struct NodeOwned<'a, Var, Leaf> {
    pub var: Var,
    pub unowned: usize,
    pub owned: usize,
    pub _phantom: PhantomData<&'a Leaf>,
}

/// Alignment of the body of an inner node with variables `V`.
pub open spec fn bdd_na<V: Layout>() -> nat {
    spec_max(8, V::spec_align())
}

/// Position of the variable of the inner node at `p`.
pub open spec fn bdd_h<V: Layout>(p: int) -> int {
    spec_align_up(p + 4, bdd_na::<V>() as int)
}

/// Position of the first pointer of the inner node at `p`.
pub open spec fn bdd_q<V: Layout>(p: int) -> int {
    spec_align_up(bdd_h::<V>(p) + V::spec_size(), 8)
}

pub proof fn lemma_bdd_q<V: Layout>(p: int)
    requires
        0 <= p,
    ensures
        p + 4 <= bdd_h::<V>(p) < p + 4 + 16,
        bdd_h::<V>(p) + V::spec_size() <= bdd_q::<V>(p) < bdd_h::<V>(p) + V::spec_size() + 8,
        bdd_q::<V>(p) % 8 == 0,
        spec_align_up(bdd_q::<V>(p) + 8, 4) == bdd_q::<V>(p) + 8,
        spec_align_up(bdd_q::<V>(p) + 16, 4) == bdd_q::<V>(p) + 16,
{
    V::lemma_layout();
    lemma_align_up(p + 4, bdd_na::<V>() as int);
    lemma_align_up(bdd_h::<V>(p) + V::spec_size(), 8);
    let q = bdd_q::<V>(p);
    assert((q + 8) % 4 == 0);
    assert((q + 16) % 4 == 0);
    super::lemma_align_up_aligned(q + 8, 4);
    super::lemma_align_up_aligned(q + 16, 4);
}

/// Position behind the node `o` laid out at `p`.
pub open spec fn bdd_node_end<VO, V: Layout, L: Anchize>(la: L, o: BddOrigin<VO, L::Origin>, p: int) -> int {
    match o {
        BddOrigin::Leaf(l) => la.spec_end(l, p + 4),
        BddOrigin::NodeNoOwned { .. } => bdd_q::<V>(p) + 16,
        _ => bdd_q::<V>(p) + 8,
    }
}

/// Position behind the nodes `nodes` laid out one after another from
/// `start` on, each aligned to 4.
pub open spec fn bdd_end<VO, V: Layout, L: Anchize>(la: L, nodes: Seq<BddOrigin<VO, L::Origin>>, start: int) -> int
    decreases nodes.len(),
{
    if nodes.len() == 0 {
        start
    } else {
        bdd_node_end::<VO, V, L>(la, nodes.last(), spec_align_up(bdd_end::<VO, V, L>(la, nodes.drop_last(), start), 4))
    }
}

/// Position of node `k`.
pub open spec fn bdd_at<VO, V: Layout, L: Anchize>(la: L, nodes: Seq<BddOrigin<VO, L::Origin>>, start: int, k: int) -> int {
    spec_align_up(bdd_end::<VO, V, L>(la, nodes.take(k), start), 4)
}

pub proof fn lemma_bdd_node_end<VO, V: Layout, L: Anchize>(la: L, o: BddOrigin<VO, L::Origin>, p: int)
    requires
        0 <= p,
    ensures
        p + 4 <= bdd_node_end::<VO, V, L>(la, o, p),
        !(o is Leaf) ==> bdd_q::<V>(p) + 8 <= bdd_node_end::<VO, V, L>(la, o, p),
        o is NodeNoOwned ==> bdd_q::<V>(p) + 16 == bdd_node_end::<VO, V, L>(la, o, p),
{
    lemma_bdd_q::<V>(p);
    V::lemma_layout();
    if let BddOrigin::Leaf(l) = o {
        la.lemma_end(l, p + 4);
    }
}

pub proof fn lemma_bdd_end_ge<VO, V: Layout, L: Anchize>(la: L, nodes: Seq<BddOrigin<VO, L::Origin>>, start: int)
    requires
        0 <= start,
    ensures
        start <= bdd_end::<VO, V, L>(la, nodes, start),
    decreases nodes.len(),
{
    if nodes.len() > 0 {
        lemma_bdd_end_ge::<VO, V, L>(la, nodes.drop_last(), start);
        let p = bdd_end::<VO, V, L>(la, nodes.drop_last(), start);
        lemma_align_up(p, 4);
        lemma_bdd_node_end::<VO, V, L>(la, nodes.last(), spec_align_up(p, 4));
    }
}

pub proof fn lemma_bdd_step<VO, V: Layout, L: Anchize>(la: L, nodes: Seq<BddOrigin<VO, L::Origin>>, start: int, k: int)
    requires
        0 <= start,
        0 <= k < nodes.len(),
    ensures
        bdd_end::<VO, V, L>(la, nodes.take(k + 1), start) == bdd_node_end::<VO, V, L>(
            la,
            nodes[k],
            bdd_at::<VO, V, L>(la, nodes, start, k),
        ),
        bdd_end::<VO, V, L>(la, nodes.take(k), start) <= bdd_at::<VO, V, L>(la, nodes, start, k),
        bdd_at::<VO, V, L>(la, nodes, start, k) < bdd_end::<VO, V, L>(la, nodes.take(k), start) + 4,
        bdd_at::<VO, V, L>(la, nodes, start, k) + 4 <= bdd_end::<VO, V, L>(la, nodes.take(k + 1), start),
        0 <= bdd_at::<VO, V, L>(la, nodes, start, k),
{
    let t = nodes.take(k + 1);
    assert(t.drop_last() =~= nodes.take(k));
    assert(t.last() == nodes[k]);
    lemma_bdd_end_ge::<VO, V, L>(la, nodes.take(k), start);
    lemma_align_up(bdd_end::<VO, V, L>(la, nodes.take(k), start), 4);
    lemma_bdd_node_end::<VO, V, L>(la, nodes[k], bdd_at::<VO, V, L>(la, nodes, start, k));
}

pub proof fn lemma_bdd_mono<VO, V: Layout, L: Anchize>(la: L, nodes: Seq<BddOrigin<VO, L::Origin>>, start: int, k: int, m: int)
    requires
        0 <= start,
        0 <= k <= m <= nodes.len(),
    ensures
        bdd_end::<VO, V, L>(la, nodes.take(k), start) <= bdd_end::<VO, V, L>(la, nodes.take(m), start),
    decreases m - k,
{
    if k < m {
        lemma_bdd_mono::<VO, V, L>(la, nodes, start, k + 1, m);
        lemma_bdd_step::<VO, V, L>(la, nodes, start, k);
    }
}

pub proof fn lemma_bdd_whole<VO, V: Layout, L: Anchize>(la: L, nodes: Seq<BddOrigin<VO, L::Origin>>, start: int)
    ensures
        bdd_end::<VO, V, L>(la, nodes.take(nodes.len() as int), start) == bdd_end::<VO, V, L>(la, nodes, start),
        bdd_end::<VO, V, L>(la, nodes.take(0), start) == start,
{
    assert(nodes.take(nodes.len() as int) =~= nodes);
    assert(nodes.take(0) =~= Seq::<BddOrigin<VO, L::Origin>>::empty());
}

/// Node `k` holds its tag and its variable or leaf (its pointers aside).
pub open spec fn bdd_node_body<VA: StaticAnchize, L: Anchize<Context = VA::Context>>(
    va: VA,
    la: L,
    nodes: Seq<BddOrigin<VA::Origin, L::Origin>>,
    ctx: VA::Context,
    bytes: Seq<u8>,
    start: int,
    k: int,
) -> bool {
    let p = bdd_at::<VA::Origin, VA::Ancha, L>(la, nodes, start, k);
    let o = nodes[k];
    &&& cell_at::<u32>(bytes, p) == bdd_type_tag(bdd_kind(o))
    &&& match o {
        BddOrigin::Leaf(l) => la.spec_holds(l, ctx, bytes, p + 4),
        _ => cell_at::<VA::Ancha>(bytes, bdd_h::<VA::Ancha>(p)) == va.spec_anchize_static(bdd_var(o), ctx),
    }
}

/// The pointers of node `k` lead to its children.
pub open spec fn bdd_node_ptrs<VO, V: Layout, L: Anchize>(
    la: L,
    nodes: Seq<BddOrigin<VO, L::Origin>>,
    kids: Seq<(int, int)>,
    bytes: Seq<u8>,
    start: int,
    k: int,
) -> bool {
    let p = bdd_at::<VO, V, L>(la, nodes, start, k);
    let q = bdd_q::<V>(p);
    let o = nodes[k];
    &&& o is NodeNoOwned ==> cell_at::<usize>(bytes, q) == bdd_at::<VO, V, L>(la, nodes, start, kids[k].0)
        && cell_at::<usize>(bytes, q + 8) == bdd_at::<VO, V, L>(la, nodes, start, kids[k].1)
    &&& (o is NodePosOwned || o is NodeBothOwned) ==> cell_at::<usize>(bytes, q) == bdd_at::<VO, V, L>(
        la,
        nodes,
        start,
        kids[k].1,
    )
    &&& o is NodeNegOwned ==> cell_at::<usize>(bytes, q) == bdd_at::<VO, V, L>(la, nodes, start, kids[k].0)
}

/// The references of node `k` name nodes of the diagram.
pub open spec fn bdd_node_refs_ok<VO, LO>(nodes: Seq<BddOrigin<VO, LO>>, kids: Seq<(int, int)>, k: int) -> bool {
    !(nodes[k] is Leaf) ==> 0 <= kids[k].0 < nodes.len() && 0 <= kids[k].1 < nodes.len()
}


/// Nodes lie one after another.
pub proof fn lemma_bdd_order<VO, V: Layout, L: Anchize>(la: L, nodes: Seq<BddOrigin<VO, L::Origin>>, start: int, j: int, k: int)
    requires
        0 <= start,
        0 <= j < k <= nodes.len(),
    ensures
        bdd_end::<VO, V, L>(la, nodes.take(j + 1), start) <= bdd_end::<VO, V, L>(la, nodes.take(k), start),
        bdd_at::<VO, V, L>(la, nodes, start, j) + 4 <= bdd_end::<VO, V, L>(la, nodes.take(k), start),
        bdd_end::<VO, V, L>(la, nodes.take(k), start) <= bdd_end::<VO, V, L>(la, nodes, start),
{
    lemma_bdd_step::<VO, V, L>(la, nodes, start, j);
    lemma_bdd_mono::<VO, V, L>(la, nodes, start, j + 1, k);
    lemma_bdd_mono::<VO, V, L>(la, nodes, start, k, nodes.len() as int);
    lemma_bdd_whole::<VO, V, L>(la, nodes, start);
}

/// Each node takes at least 4 bytes.
pub proof fn lemma_bdd_count<VO, V: Layout, L: Anchize>(la: L, nodes: Seq<BddOrigin<VO, L::Origin>>, start: int)
    requires
        0 <= start,
    ensures
        start + 4 * nodes.len() <= bdd_end::<VO, V, L>(la, nodes, start),
    decreases nodes.len(),
{
    if nodes.len() > 0 {
        lemma_bdd_count::<VO, V, L>(la, nodes.drop_last(), start);
        lemma_bdd_end_ge::<VO, V, L>(la, nodes.drop_last(), start);
        let p = bdd_end::<VO, V, L>(la, nodes.drop_last(), start);
        lemma_align_up(p, 4);
        lemma_bdd_node_end::<VO, V, L>(la, nodes.last(), spec_align_up(p, 4));
    }
}

fn bdd_h_exec<V: Layout>(p: usize) -> (r: usize)
    requires
        p <= max_blob(),
    ensures
        r == bdd_h::<V>(p as int),
{
    proof {
        V::lemma_layout();
    }
    let na = if V::align() >= 8 { V::align() } else { 8 };
    super::align_up(p + 4, na)
}

fn bdd_q_exec<V: Layout>(p: usize) -> (r: usize)
    requires
        p <= max_blob(),
    ensures
        r == bdd_q::<V>(p as int),
{
    proof {
        lemma_bdd_q::<V>(p as int);
        V::lemma_layout();
    }
    super::align_up(bdd_h_exec::<V>(p) + V::size(), 8)
}


/// Anchization of a diagram into an `AnchaBdd`.
pub struct BddAnchize<VarAnchize, LeafAnchize> {
    pub var_ancha: VarAnchize,
    pub leaf_ancha: LeafAnchize,
}

impl<VarAnchize, LeafAnchize> BddAnchize<VarAnchize, LeafAnchize> {
    pub fn new(var_ancha: VarAnchize, leaf_ancha: LeafAnchize) -> (r: Self)
        ensures
            r.var_ancha == var_ancha,
            r.leaf_ancha == leaf_ancha,
    {
        BddAnchize { var_ancha, leaf_ancha }
    }
}

impl<VarAnchize: Default, LeafAnchize: Default> Default for BddAnchize<VarAnchize, LeafAnchize> {
    fn default() -> Self {
        BddAnchize { var_ancha: VarAnchize::default(), leaf_ancha: LeafAnchize::default() }
    }
}

/// The nodes of a diagram can be laid out: references name nodes of the
/// diagram, and the leaves and variables are accepted.
pub open spec fn bdd_accepts<VA: StaticAnchize, L: Anchize<Context = VA::Context>>(
    va: VA,
    la: L,
    o: BddOrigin<VA::Origin, L::Origin>,
    ctx: VA::Context,
) -> bool {
    let nodes = bdd_flat(o);
    let kids = bdd_kids(o, 0);
    forall|k: int|
        0 <= k < nodes.len() ==> #[trigger] bdd_node_refs_ok(nodes, kids, k) && match nodes[k] {
            BddOrigin::Leaf(l) => la.spec_accepts(l, ctx),
            _ => va.spec_accepts(bdd_var(nodes[k]), ctx),
        }
}

/// Node `k` of the diagram holds.
pub open spec fn bdd_node_holds<VA: StaticAnchize, L: Anchize<Context = VA::Context>>(
    va: VA,
    la: L,
    nodes: Seq<BddOrigin<VA::Origin, L::Origin>>,
    kids: Seq<(int, int)>,
    ctx: VA::Context,
    bytes: Seq<u8>,
    start: int,
    k: int,
) -> bool {
    &&& bdd_node_body(va, la, nodes, ctx, bytes, start, k)
    &&& bdd_node_ptrs::<VA::Origin, VA::Ancha, L>(la, nodes, kids, bytes, start, k)
}


/// Where the parts of node `k` lie: its tag, variable and pointers lie
/// inside it.
pub proof fn lemma_bdd_node_parts<VO, V: Layout, L: Anchize>(la: L, nodes: Seq<BddOrigin<VO, L::Origin>>, start: int, k: int)
    requires
        0 <= start,
        0 <= k < nodes.len(),
    ensures
        ({
            let p = bdd_at::<VO, V, L>(la, nodes, start, k);
            let end = bdd_end::<VO, V, L>(la, nodes.take(k + 1), start);
            &&& 0 <= p
            &&& p + 4 <= end
            &&& !(nodes[k] is Leaf) ==> p + 4 <= bdd_h::<V>(p) && bdd_h::<V>(p) + V::spec_size() <= bdd_q::<V>(p)
                && bdd_q::<V>(p) + 8 <= end
            &&& nodes[k] is NodeNoOwned ==> bdd_q::<V>(p) + 16 == end
            &&& (nodes[k] is Leaf) ==> end == la.spec_end(nodes[k]->Leaf_0, p + 4)
        }),
{
    lemma_bdd_step::<VO, V, L>(la, nodes, start, k);
    let p = bdd_at::<VO, V, L>(la, nodes, start, k);
    lemma_bdd_q::<V>(p);
    lemma_bdd_node_end::<VO, V, L>(la, nodes[k], p);
}

/// The body of node `k` stays where the bytes it lies in stay.
pub proof fn lemma_bdd_body_keep<VA: StaticAnchize, L: Anchize<Context = VA::Context>>(
    va: VA,
    la: L,
    nodes: Seq<BddOrigin<VA::Origin, L::Origin>>,
    ctx: VA::Context,
    b1: Seq<u8>,
    b2: Seq<u8>,
    start: int,
    k: int,
    lo: int,
    hi: int,
)
    requires
        0 <= start,
        0 <= k < nodes.len(),
        unchanged_outside(b1, b2, lo, hi),
        bdd_end::<VA::Origin, VA::Ancha, L>(la, nodes.take(k + 1), start) <= b1.len(),
        bdd_node_body(va, la, nodes, ctx, b1, start, k),
        bdd_end::<VA::Origin, VA::Ancha, L>(la, nodes.take(k + 1), start) <= lo || hi <= bdd_at::<VA::Origin, VA::Ancha, L>(la, nodes, start, k)
            || (!(nodes[k] is Leaf) && bdd_q::<VA::Ancha>(bdd_at::<VA::Origin, VA::Ancha, L>(la, nodes, start, k)) <= lo),
    ensures
        bdd_node_body(va, la, nodes, ctx, b2, start, k),
{
    lemma_bdd_node_parts::<VA::Origin, VA::Ancha, L>(la, nodes, start, k);
    let p = bdd_at::<VA::Origin, VA::Ancha, L>(la, nodes, start, k);
    lemma_unchanged_cell::<u32>(b1, b2, lo, hi, p);
    match nodes[k] {
        BddOrigin::Leaf(l) => {
            lemma_unchanged_holds(la, l, ctx, b1, b2, lo, hi, p + 4);
        },
        _ => {
            lemma_unchanged_cell::<VA::Ancha>(b1, b2, lo, hi, bdd_h::<VA::Ancha>(p));
        },
    }
}

/// The pointers of node `k` stay where the bytes they lie in stay.
pub proof fn lemma_bdd_ptrs_keep<VO, V: Layout, L: Anchize>(
    la: L,
    nodes: Seq<BddOrigin<VO, L::Origin>>,
    kids: Seq<(int, int)>,
    b1: Seq<u8>,
    b2: Seq<u8>,
    start: int,
    k: int,
    lo: int,
    hi: int,
)
    requires
        0 <= start,
        0 <= k < nodes.len(),
        unchanged_outside(b1, b2, lo, hi),
        bdd_end::<VO, V, L>(la, nodes.take(k + 1), start) <= b1.len(),
        bdd_node_ptrs::<VO, V, L>(la, nodes, kids, b1, start, k),
        bdd_end::<VO, V, L>(la, nodes.take(k + 1), start) <= lo || hi <= bdd_at::<VO, V, L>(la, nodes, start, k),
    ensures
        bdd_node_ptrs::<VO, V, L>(la, nodes, kids, b2, start, k),
{
    lemma_bdd_node_parts::<VO, V, L>(la, nodes, start, k);
    let p = bdd_at::<VO, V, L>(la, nodes, start, k);
    if !(nodes[k] is Leaf) {
        lemma_unchanged_cell::<usize>(b1, b2, lo, hi, bdd_q::<V>(p));
    }
    if nodes[k] is NodeNoOwned {
        lemma_unchanged_cell::<usize>(b1, b2, lo, hi, bdd_q::<V>(p) + 8);
    }
}

impl<VarAnchize: StaticAnchize, LeafAnchize: Anchize<Context = VarAnchize::Context>> Anchize for BddAnchize<
    VarAnchize,
    LeafAnchize,
> {
    type Origin = BddOrigin<VarAnchize::Origin, LeafAnchize::Origin>;

    type Context = VarAnchize::Context;

    type Ancha = AnchaBdd<'static, VarAnchize::Ancha, LeafAnchize::Ancha>;

    open spec fn spec_accepts(&self, origin: Self::Origin, context: Self::Context) -> bool {
        bdd_accepts(self.var_ancha, self.leaf_ancha, origin, context)
    }

    open spec fn spec_end(&self, origin: Self::Origin, pos: int) -> int {
        bdd_end::<VarAnchize::Origin, VarAnchize::Ancha, LeafAnchize>(
            self.leaf_ancha,
            bdd_flat(origin),
            spec_align_up(pos, 4),
        )
    }

    open spec fn spec_holds(
        &self,
        origin: Self::Origin,
        context: Self::Context,
        bytes: Seq<u8>,
        pos: int,
    ) -> bool {
        let start = spec_align_up(pos, 4);
        let nodes = bdd_flat(origin);
        &&& self.spec_end(origin, pos) <= bytes.len()
        &&& forall|k: int|
            0 <= k < nodes.len() ==> #[trigger] bdd_node_holds(
                self.var_ancha,
                self.leaf_ancha,
                nodes,
                bdd_kids(origin, 0),
                context,
                bytes,
                start,
                k,
            )
    }

    proof fn lemma_align_start(
        &self,
        origin: Self::Origin,
        context: Self::Context,
        bytes: Seq<u8>,
        pos: int,
    ) {
        super::lemma_align_idem(pos, 4);
    }

    proof fn lemma_end(&self, origin: Self::Origin, pos: int) {
        lemma_align_up(pos, 4);
        lemma_bdd_end_ge::<VarAnchize::Origin, VarAnchize::Ancha, LeafAnchize>(
            self.leaf_ancha,
            bdd_flat(origin),
            spec_align_up(pos, 4),
        );
    }

    proof fn lemma_frame(
        &self,
        origin: Self::Origin,
        context: Self::Context,
        b1: Seq<u8>,
        b2: Seq<u8>,
        pos: int,
    ) {
        let start = spec_align_up(pos, 4);
        let nodes = bdd_flat(origin);
        let kids = bdd_kids(origin, 0);
        let end = self.spec_end(origin, pos);
        let la = self.leaf_ancha;
        lemma_align_up(pos, 4);
        assert forall|k: int| 0 <= k < nodes.len() implies #[trigger] bdd_node_holds(
            self.var_ancha,
            la,
            nodes,
            kids,
            context,
            b2,
            start,
            k,
        ) by {
            assert(bdd_node_holds(self.var_ancha, la, nodes, kids, context, b1, start, k));
            lemma_bdd_order::<VarAnchize::Origin, VarAnchize::Ancha, LeafAnchize>(la, nodes, start, k, k + 1);
            lemma_bdd_node_parts::<VarAnchize::Origin, VarAnchize::Ancha, LeafAnchize>(la, nodes, start, k);
            let p = bdd_at::<VarAnchize::Origin, VarAnchize::Ancha, LeafAnchize>(la, nodes, start, k);
            let e = bdd_end::<VarAnchize::Origin, VarAnchize::Ancha, LeafAnchize>(la, nodes.take(k + 1), start);
            lemma_bdd_end_ge::<VarAnchize::Origin, VarAnchize::Ancha, LeafAnchize>(la, nodes.take(k), start);
            super::lemma_subrange_within(b1, b2, pos, end, p, e);
            assert forall|i: int| p <= i < e implies b1[i] == b2[i] by {
                assert(b1.subrange(p, e)[i - p] == b2.subrange(p, e)[i - p]);
            }
            lemma_bdd_frame_node(self.var_ancha, la, nodes, kids, context, b1, b2, start, k);
        }
    }

    fn reserve(&self, origin: &Self::Origin, context: &Self::Context, sz: &mut Reserve) {
        let ghost pos = old(sz).0 as int;
        let ghost start = spec_align_up(pos, 4);
        let ghost nodes = bdd_flat(*origin);
        let ghost la = self.leaf_ancha;
        proof {
            lemma_align_up(pos, 4);
            lemma_bdd_count::<VarAnchize::Origin, VarAnchize::Ancha, LeafAnchize>(la, nodes, start);
            lemma_bdd_whole::<VarAnchize::Origin, VarAnchize::Ancha, LeafAnchize>(la, nodes, start);
        }
        let mut ns: Vec<&Self::Origin> = Vec::new();
        let mut ks: Vec<(usize, usize)> = Vec::new();
        bdd_flatten(origin, &mut ns, &mut ks);
        proof {
            assert(bdd_flat_at(ns@, ks@, 0, *origin));
        }
        sz.add::<Self::Ancha>(0);
        let n = ns.len();
        let mut k: usize = 0;
        while k < n
            invariant
                n == nodes.len(),
                n == ns@.len(),
                la == self.leaf_ancha,
                nodes == bdd_flat(*origin),
                bdd_flat_at(ns@, ks@, 0, *origin),
                0 <= start,
                0 <= k <= n,
                sz.0 == bdd_end::<VarAnchize::Origin, VarAnchize::Ancha, LeafAnchize>(la, nodes.take(k as int), start),
                bdd_end::<VarAnchize::Origin, VarAnchize::Ancha, LeafAnchize>(la, nodes, start) <= max_blob(),
            decreases n - k,
        {
            proof {
                lemma_bdd_order::<VarAnchize::Origin, VarAnchize::Ancha, LeafAnchize>(la, nodes, start, k as int, k + 1);
                lemma_bdd_node_parts::<VarAnchize::Origin, VarAnchize::Ancha, LeafAnchize>(la, nodes, start, k as int);
                lemma_bdd_end_ge::<VarAnchize::Origin, VarAnchize::Ancha, LeafAnchize>(la, nodes.take(k as int), start);
                lemma_align_up(sz.0 as int, 4);
                assert(*ns@[k as int] == nodes[k as int]);
            }
            let p = super::align_up(sz.0, 4);
            match ns[k] {
                BddOrigin::Leaf(l) => {
                    sz.0 = p + 4;
                    self.leaf_ancha.reserve(l, context, sz);
                },
                BddOrigin::NodeNoOwned { .. } => {
                    sz.0 = bdd_q_exec::<VarAnchize::Ancha>(p) + 16;
                },
                _ => {
                    sz.0 = bdd_q_exec::<VarAnchize::Ancha>(p) + 8;
                },
            }
            proof {
                lemma_bdd_step::<VarAnchize::Origin, VarAnchize::Ancha, LeafAnchize>(la, nodes, start, k as int);
            }
            k = k + 1;
        }
        proof {
            lemma_bdd_whole::<VarAnchize::Origin, VarAnchize::Ancha, LeafAnchize>(la, nodes, start);
        }
    }

    fn anchize<After>(
        &self,
        origin: &Self::Origin,
        context: &Self::Context,
        buf: &mut Vec<u8>,
        cur: BuildCursor<Self::Ancha>,
    ) -> (r: BuildCursor<After>) {
        let ghost pos = cur.cur as int;
        let ghost base = cur.buf as int;
        let ghost start = spec_align_up(pos, 4);
        let ghost nodes = bdd_flat(*origin);
        let ghost kids = bdd_kids(*origin, 0);
        let ghost la = self.leaf_ancha;
        let ghost va = self.var_ancha;
        proof {
            lemma_align_up(pos, 4);
            lemma_bdd_count::<VarAnchize::Origin, VarAnchize::Ancha, LeafAnchize>(la, nodes, start);
            lemma_bdd_whole::<VarAnchize::Origin, VarAnchize::Ancha, LeafAnchize>(la, nodes, start);
            lemma_bdd_flat(*origin, 0);
        }
        let cur: BuildCursor<Self::Ancha> = cur.align();
        let mut ns: Vec<&Self::Origin> = Vec::new();
        let mut ks: Vec<(usize, usize)> = Vec::new();
        bdd_flatten(origin, &mut ns, &mut ks);
        proof {
            assert(bdd_flat_at(ns@, ks@, 0, *origin));
        }
        let n = ns.len();
        let mut curs: Vec<usize> = Vec::new();
        let mut c = cur.cur;
        let mut k: usize = 0;
        while k < n
            invariant
                n == nodes.len(),
                n == ns@.len(),
                la == self.leaf_ancha,
                va == self.var_ancha,
                nodes == bdd_flat(*origin),
                kids == bdd_kids(*origin, 0),
                bdd_flat_at(ns@, ks@, 0, *origin),
                self.spec_accepts(*origin, *context),
                0 <= base,
                0 <= pos <= start,
                cur.cur == start,
                cur.buf == base,
                0 <= k <= n,
                c == bdd_end::<VarAnchize::Origin, VarAnchize::Ancha, LeafAnchize>(la, nodes.take(k as int), start),
                curs@.len() == k,
                forall|j: int| 0 <= j < k ==> curs@[j] == bdd_at::<VarAnchize::Origin, VarAnchize::Ancha, LeafAnchize>(la, nodes, start, j),
                base + bdd_end::<VarAnchize::Origin, VarAnchize::Ancha, LeafAnchize>(la, nodes, start) <= buf@.len(),
                buf@.len() == old(buf)@.len(),
                old(buf)@.len() <= max_blob(),
                unchanged_outside(old(buf)@, buf@, base + pos, base + c),
                forall|j: int| 0 <= j < k ==> #[trigger] bdd_node_body(va, la, nodes, *context, from_base(buf@, base), start, j),
            decreases n - k,
        {
            let ghost b0 = buf@;
            let ghost fb0 = from_base(b0, base);
            proof {
                lemma_bdd_order::<VarAnchize::Origin, VarAnchize::Ancha, LeafAnchize>(la, nodes, start, k as int, k + 1);
                lemma_bdd_node_parts::<VarAnchize::Origin, VarAnchize::Ancha, LeafAnchize>(la, nodes, start, k as int);
                lemma_bdd_end_ge::<VarAnchize::Origin, VarAnchize::Ancha, LeafAnchize>(la, nodes.take(k as int), start);
                lemma_align_up(c as int, 4);
                assert(*ns@[k as int] == nodes[k as int]);
                assert(bdd_node_refs_ok(nodes, kids, k as int));
                lemma_bdd_flat(*origin, 0);
                assert(!(nodes[k as int] is WithDetached));
            }
            let p = super::align_up(c, 4);
            let ghost pe = bdd_end::<VarAnchize::Origin, VarAnchize::Ancha, LeafAnchize>(la, nodes.take(k + 1), start);
            curs.push(p);
            let node = ns[k];
            let tag: u32 = match node {
                BddOrigin::Leaf(_) => 0,
                BddOrigin::NodeNoOwned { .. } => 1,
                BddOrigin::NodePosOwned { .. } => 2,
                BddOrigin::NodeNegOwned { .. } => 3,
                BddOrigin::NodeBothOwned { .. } => 4,
                BddOrigin::WithDetached { .. } => 5,
            };
            tag.write_cell(buf, cur.buf + p);
            let ghost b1 = buf@;
            proof {
                lemma_write_cell::<u32>(b0, b1, base + p, tag);
                super::lemma_from_base_unchanged(b0, b1, base, p as int, p + 4);
            }
            match node {
                BddOrigin::Leaf(l) => {
                    let lcur: BuildCursor<LeafAnchize::Ancha> = BuildCursor { cur: p + 4, buf: cur.buf, _phantom: PhantomData };
                    let e: BuildCursor<LeafAnchize::Ancha> = self.leaf_ancha.anchize(l, context, buf, lcur);
                    proof {
                        super::lemma_from_base_unchanged(b1, buf@, base, p + 4, pe);
                        lemma_unchanged_cell::<u32>(from_base(b1, base), from_base(buf@, base), p + 4, pe, p as int);
                    }
                    c = e.cur;
                },
                _ => {
                    let h = bdd_h_exec::<VarAnchize::Ancha>(p);
                    let mut v = VarAnchize::Ancha::read_cell(buf.as_slice(), cur.buf + h);
                    self.var_ancha.anchize_static(node.get_var(), context, &mut v);
                    v.write_cell(buf, cur.buf + h);
                    proof {
                        lemma_write_cell::<VarAnchize::Ancha>(b1, buf@, base + h, v);
                        super::lemma_from_base_unchanged(b1, buf@, base, h as int, h + VarAnchize::Ancha::spec_size());
                        lemma_unchanged_cell::<u32>(from_base(b1, base), from_base(buf@, base), h as int, h + VarAnchize::Ancha::spec_size(), p as int);
                        lemma_cell_from_base::<VarAnchize::Ancha>(buf@, base, h as int);
                    }
                    let q = bdd_q_exec::<VarAnchize::Ancha>(p);
                    c = if node.owns_pos() || node.owns_neg() { q + 8 } else { q + 16 };
                },
            }
            proof {
                let fb = from_base(buf@, base);
                lemma_bdd_step::<VarAnchize::Origin, VarAnchize::Ancha, LeafAnchize>(la, nodes, start, k as int);
                lemma_cell_from_base::<u32>(b1, base, p as int);
                assert(unchanged_outside(b0, buf@, base + p, base + pe));
                super::lemma_from_base_unchanged(b0, buf@, base, p as int, pe);
                assert forall|j: int| 0 <= j < k + 1 implies #[trigger] bdd_node_body(va, la, nodes, *context, fb, start, j) by {
                    if j < k {
                        lemma_bdd_order::<VarAnchize::Origin, VarAnchize::Ancha, LeafAnchize>(la, nodes, start, j, k as int);
                        lemma_bdd_body_keep(va, la, nodes, *context, fb0, fb, start, j, p as int, pe);
                    }
                }
            }
            k = k + 1;
        }
        let ghost b2 = buf@;
        proof {
            lemma_bdd_whole::<VarAnchize::Origin, VarAnchize::Ancha, LeafAnchize>(la, nodes, start);
        }
        let mut k: usize = 0;
        while k < n
            invariant
                n == nodes.len(),
                n == ns@.len(),
                la == self.leaf_ancha,
                va == self.var_ancha,
                nodes == bdd_flat(*origin),
                kids == bdd_kids(*origin, 0),
                bdd_flat_at(ns@, ks@, 0, *origin),
                ks@.len() == n,
                self.spec_accepts(*origin, *context),
                0 <= base,
                0 <= start,
                cur.buf == base,
                0 <= k <= n,
                curs@.len() == n,
                forall|j: int| 0 <= j < n ==> curs@[j] == bdd_at::<VarAnchize::Origin, VarAnchize::Ancha, LeafAnchize>(la, nodes, start, j),
                base + bdd_end::<VarAnchize::Origin, VarAnchize::Ancha, LeafAnchize>(la, nodes, start) <= buf@.len(),
                buf@.len() == old(buf)@.len(),
                old(buf)@.len() <= max_blob(),
                unchanged_outside(b2, buf@, base + start, base + bdd_end::<VarAnchize::Origin, VarAnchize::Ancha, LeafAnchize>(la, nodes, start)),
                forall|j: int| 0 <= j < n ==> #[trigger] bdd_node_body(va, la, nodes, *context, from_base(buf@, base), start, j),
                forall|j: int| 0 <= j < k ==> #[trigger] bdd_node_ptrs::<VarAnchize::Origin, VarAnchize::Ancha, LeafAnchize>(la, nodes, kids, from_base(buf@, base), start, j),
            decreases n - k,
        {
            let ghost b0 = buf@;
            let ghost fb0 = from_base(b0, base);
            let ghost p = bdd_at::<VarAnchize::Origin, VarAnchize::Ancha, LeafAnchize>(la, nodes, start, k as int);
            let ghost pe = bdd_end::<VarAnchize::Origin, VarAnchize::Ancha, LeafAnchize>(la, nodes.take(k + 1), start);
            proof {
                lemma_bdd_order::<VarAnchize::Origin, VarAnchize::Ancha, LeafAnchize>(la, nodes, start, k as int, k + 1);
                lemma_bdd_node_parts::<VarAnchize::Origin, VarAnchize::Ancha, LeafAnchize>(la, nodes, start, k as int);
                assert(*ns@[k as int] == nodes[k as int]);
                assert(bdd_node_refs_ok(nodes, kids, k as int));
                lemma_bdd_flat(*origin, 0);
                lemma_bdd_end_ge::<VarAnchize::Origin, VarAnchize::Ancha, LeafAnchize>(la, nodes.take(k as int), start);
            }
            let node = ns[k];
            let (kp, kn) = ks[k];
            let ghost q = bdd_q::<VarAnchize::Ancha>(p);
            let ghost lo = q;
            let ghost hi = if nodes[k as int] is NodeNoOwned { q + 16 } else { q + 8 };
            match node {
                BddOrigin::Leaf(_) => {},
                BddOrigin::NodeNoOwned { .. } => {
                    let qx = bdd_q_exec::<VarAnchize::Ancha>(curs[k]);
                    curs[kp].write_cell(buf, cur.buf + qx);
                    let ghost bm = buf@;
                    curs[kn].write_cell(buf, cur.buf + qx + 8);
                    proof {
                        lemma_write_cell::<usize>(b0, bm, base + q, curs@[kp as int]);
                        lemma_write_cell::<usize>(bm, buf@, base + q + 8, curs@[kn as int]);
                        lemma_unchanged_cell::<usize>(bm, buf@, base + q + 8, base + q + 16, base + q);
                        lemma_cell_from_base::<usize>(buf@, base, q);
                        lemma_cell_from_base::<usize>(buf@, base, q + 8);
                    }
                },
                BddOrigin::NodeNegOwned { .. } => {
                    let qx = bdd_q_exec::<VarAnchize::Ancha>(curs[k]);
                    curs[kp].write_cell(buf, cur.buf + qx);
                    proof {
                        lemma_write_cell::<usize>(b0, buf@, base + q, curs@[kp as int]);
                        lemma_cell_from_base::<usize>(buf@, base, q);
                    }
                },
                _ => {
                    let qx = bdd_q_exec::<VarAnchize::Ancha>(curs[k]);
                    curs[kn].write_cell(buf, cur.buf + qx);
                    proof {
                        lemma_write_cell::<usize>(b0, buf@, base + q, curs@[kn as int]);
                        lemma_cell_from_base::<usize>(buf@, base, q);
                    }
                },
            }
            proof {
                let fb = from_base(buf@, base);
                if nodes[k as int] is Leaf {
                    assert(fb == fb0);
                } else {
                    assert(unchanged_outside(b0, buf@, base + lo, base + hi));
                    super::lemma_from_base_unchanged(b0, buf@, base, lo, hi);
                    lemma_bdd_ptrs_step(va, la, nodes, kids, *context, fb0, fb, start, k as int, lo, hi);
                }
                assert(unchanged_outside(b2, buf@, base + start, base + bdd_end::<VarAnchize::Origin, VarAnchize::Ancha, LeafAnchize>(la, nodes, start)));
            }
            k = k + 1;
        }
        proof {
            let fb = from_base(buf@, base);
            assert forall|j: int| 0 <= j < n implies #[trigger] bdd_node_holds(va, la, nodes, kids, *context, fb, start, j) by {
                assert(bdd_node_body(va, la, nodes, *context, fb, start, j));
                assert(bdd_node_ptrs::<VarAnchize::Origin, VarAnchize::Ancha, LeafAnchize>(la, nodes, kids, fb, start, j));
            }
        }
        BuildCursor { cur: c, buf: cur.buf, _phantom: PhantomData }
    }
}

/// Writing the pointers of node `k` keeps every node's body and the
/// pointers of the nodes before it.
pub proof fn lemma_bdd_ptrs_step<VA: StaticAnchize, L: Anchize<Context = VA::Context>>(
    va: VA,
    la: L,
    nodes: Seq<BddOrigin<VA::Origin, L::Origin>>,
    kids: Seq<(int, int)>,
    ctx: VA::Context,
    b0: Seq<u8>,
    b1: Seq<u8>,
    start: int,
    k: int,
    lo: int,
    hi: int,
)
    requires
        0 <= start,
        0 <= k < nodes.len(),
        !(nodes[k] is Leaf),
        lo == bdd_q::<VA::Ancha>(bdd_at::<VA::Origin, VA::Ancha, L>(la, nodes, start, k)),
        hi == (if nodes[k] is NodeNoOwned { lo + 16 } else { lo + 8 }),
        unchanged_outside(b0, b1, lo, hi),
        bdd_end::<VA::Origin, VA::Ancha, L>(la, nodes, start) <= b0.len(),
        forall|j: int| 0 <= j < nodes.len() ==> #[trigger] bdd_node_body(va, la, nodes, ctx, b0, start, j),
        forall|j: int| 0 <= j < k ==> #[trigger] bdd_node_ptrs::<VA::Origin, VA::Ancha, L>(la, nodes, kids, b0, start, j),
        bdd_node_ptrs::<VA::Origin, VA::Ancha, L>(la, nodes, kids, b1, start, k),
    ensures
        forall|j: int| 0 <= j < nodes.len() ==> #[trigger] bdd_node_body(va, la, nodes, ctx, b1, start, j),
        forall|j: int| 0 <= j < k + 1 ==> #[trigger] bdd_node_ptrs::<VA::Origin, VA::Ancha, L>(la, nodes, kids, b1, start, j),
{
    let n = nodes.len() as int;
    lemma_bdd_step::<VA::Origin, VA::Ancha, L>(la, nodes, start, k);
    lemma_bdd_node_parts::<VA::Origin, VA::Ancha, L>(la, nodes, start, k);
    lemma_bdd_order::<VA::Origin, VA::Ancha, L>(la, nodes, start, k, k + 1);
    assert forall|j: int| 0 <= j < n implies #[trigger] bdd_node_body(va, la, nodes, ctx, b1, start, j) by {
        assert(bdd_node_body(va, la, nodes, ctx, b0, start, j));
        if j < k {
            lemma_bdd_order::<VA::Origin, VA::Ancha, L>(la, nodes, start, j, k);
        } else if j > k {
            lemma_bdd_order::<VA::Origin, VA::Ancha, L>(la, nodes, start, k, j);
            lemma_bdd_step::<VA::Origin, VA::Ancha, L>(la, nodes, start, j);
        }
        lemma_bdd_order::<VA::Origin, VA::Ancha, L>(la, nodes, start, j, n);
        lemma_bdd_body_keep(va, la, nodes, ctx, b0, b1, start, j, lo, hi);
    }
    assert forall|j: int| 0 <= j < k + 1 implies #[trigger] bdd_node_ptrs::<VA::Origin, VA::Ancha, L>(la, nodes, kids, b1, start, j) by {
        if j < k {
            assert(bdd_node_ptrs::<VA::Origin, VA::Ancha, L>(la, nodes, kids, b0, start, j));
            lemma_bdd_order::<VA::Origin, VA::Ancha, L>(la, nodes, start, j, k);
            lemma_bdd_order::<VA::Origin, VA::Ancha, L>(la, nodes, start, j, n);
            lemma_bdd_ptrs_keep::<VA::Origin, VA::Ancha, L>(la, nodes, kids, b0, b1, start, j, lo, hi);
        }
    }
}

/// A node whose bytes agree holds alike.
pub proof fn lemma_bdd_frame_node<VA: StaticAnchize, L: Anchize<Context = VA::Context>>(
    va: VA,
    la: L,
    nodes: Seq<BddOrigin<VA::Origin, L::Origin>>,
    kids: Seq<(int, int)>,
    ctx: VA::Context,
    b1: Seq<u8>,
    b2: Seq<u8>,
    start: int,
    k: int,
)
    requires
        0 <= start,
        0 <= k < nodes.len(),
        bdd_end::<VA::Origin, VA::Ancha, L>(la, nodes.take(k + 1), start) <= b1.len(),
        bdd_end::<VA::Origin, VA::Ancha, L>(la, nodes.take(k + 1), start) <= b2.len(),
        forall|i: int|
            bdd_at::<VA::Origin, VA::Ancha, L>(la, nodes, start, k) <= i < bdd_end::<VA::Origin, VA::Ancha, L>(
                la,
                nodes.take(k + 1),
                start,
            ) ==> b1[i] == b2[i],
        bdd_node_holds(va, la, nodes, kids, ctx, b1, start, k),
    ensures
        bdd_node_holds(va, la, nodes, kids, ctx, b2, start, k),
{
    lemma_bdd_node_parts::<VA::Origin, VA::Ancha, L>(la, nodes, start, k);
    let p = bdd_at::<VA::Origin, VA::Ancha, L>(la, nodes, start, k);
    let e = bdd_end::<VA::Origin, VA::Ancha, L>(la, nodes.take(k + 1), start);
    super::lemma_cell_unchanged::<u32>(b1, b2, p);
    if !(nodes[k] is Leaf) {
        let h = bdd_h::<VA::Ancha>(p);
        let q = bdd_q::<VA::Ancha>(p);
        super::lemma_cell_unchanged::<VA::Ancha>(b1, b2, h);
        super::lemma_cell_unchanged::<usize>(b1, b2, q);
        if nodes[k] is NodeNoOwned {
            super::lemma_cell_unchanged::<usize>(b1, b2, q + 8);
        }
    } else {
        let l = nodes[k]->Leaf_0;
        assert(b1.subrange(p + 4, e) =~= b2.subrange(p + 4, e));
        la.lemma_frame(l, ctx, b1, b2, p + 4);
    }
}


/// Deanchization of an `AnchaBdd`.
pub struct BddDeanchize<VarDeanchize, LeafDeanchize> {
    pub var_deancha: VarDeanchize,
    pub leaf_deancha: LeafDeanchize,
}

impl<VarDeanchize, LeafDeanchize> BddDeanchize<VarDeanchize, LeafDeanchize> {
    pub fn new(var_deancha: VarDeanchize, leaf_deancha: LeafDeanchize) -> (r: Self)
        ensures
            r.var_deancha == var_deancha,
            r.leaf_deancha == leaf_deancha,
    {
        BddDeanchize { var_deancha, leaf_deancha }
    }
}

impl<VarDeanchize: Default, LeafDeanchize: Default> Default for BddDeanchize<VarDeanchize, LeafDeanchize> {
    fn default() -> Self {
        BddDeanchize { var_deancha: VarDeanchize::default(), leaf_deancha: LeafDeanchize::default() }
    }
}

/// Walking over the nodes of a diagram from `p` on, with `todo` subtrees
/// still to walk over: every node takes one, and its owned children add theirs.
pub open spec fn bdd_walk<V: Layout, D: Deanchize>(d: D, bytes: Seq<u8>, p: int, todo: nat) -> Option<int>
    decreases bytes.len() - p,
{
    let at = spec_align_up(p, 4);
    let q = bdd_q::<V>(at);
    if todo == 0 {
        Some(p)
    } else if p < 0 || at + 4 > bytes.len() {
        None
    } else {
        proof {
            lemma_align_up(p, 4);
            lemma_bdd_q::<V>(at);
        }
        let tag = cell_at::<u32>(bytes, at);
        if tag == 0 {
            match d.spec_walk(bytes, at + 4) {
                Some(e) => if p < e <= bytes.len() {
                    bdd_walk::<V, D>(d, bytes, e, (todo - 1) as nat)
                } else {
                    None
                },
                None => None,
            }
        } else if tag == 1 {
            if q + 16 <= bytes.len() {
                bdd_walk::<V, D>(d, bytes, q + 16, (todo - 1) as nat)
            } else {
                None
            }
        } else if tag == 2 || tag == 3 {
            if q + 8 <= bytes.len() {
                bdd_walk::<V, D>(d, bytes, q + 8, todo)
            } else {
                None
            }
        } else if tag == 4 {
            if q + 8 <= bytes.len() {
                bdd_walk::<V, D>(d, bytes, q + 8, todo + 1)
            } else {
                None
            }
        } else {
            None
        }
    }
}

pub proof fn lemma_bdd_walk_bounds<V: Layout, D: Deanchize>(d: D, bytes: Seq<u8>, p: int, todo: nat)
    requires
        0 <= p <= bytes.len(),
        bdd_walk::<V, D>(d, bytes, p, todo) is Some,
    ensures
        p <= bdd_walk::<V, D>(d, bytes, p, todo)->0 <= bytes.len(),
    decreases bytes.len() - p,
{
    let at = spec_align_up(p, 4);
    lemma_align_up(p, 4);
    lemma_bdd_q::<V>(at);
    if todo > 0 {
        let tag = cell_at::<u32>(bytes, at);
        let q = bdd_q::<V>(at);
        if tag == 0 {
            let e = d.spec_walk(bytes, at + 4)->0;
            lemma_bdd_walk_bounds::<V, D>(d, bytes, e, (todo - 1) as nat);
        } else if tag == 1 {
            lemma_bdd_walk_bounds::<V, D>(d, bytes, q + 16, (todo - 1) as nat);
        } else if tag == 2 || tag == 3 {
            lemma_bdd_walk_bounds::<V, D>(d, bytes, q + 8, todo);
        } else {
            lemma_bdd_walk_bounds::<V, D>(d, bytes, q + 8, todo + 1);
        }
    }
}

/// A walk that reaches its end has at most as many subtrees to walk over
/// as bytes ahead of it.
pub proof fn lemma_bdd_walk_todo<V: Layout, D: Deanchize>(d: D, bytes: Seq<u8>, p: int, todo: nat)
    requires
        0 <= p <= bytes.len(),
        bdd_walk::<V, D>(d, bytes, p, todo) is Some,
    ensures
        todo <= bytes.len() - p + 1,
    decreases bytes.len() - p,
{
    let at = spec_align_up(p, 4);
    lemma_align_up(p, 4);
    lemma_bdd_q::<V>(at);
    if todo > 0 {
        let tag = cell_at::<u32>(bytes, at);
        let q = bdd_q::<V>(at);
        if tag == 0 {
            let e = d.spec_walk(bytes, at + 4)->0;
            lemma_bdd_walk_todo::<V, D>(d, bytes, e, (todo - 1) as nat);
        } else if tag == 1 {
            lemma_bdd_walk_todo::<V, D>(d, bytes, q + 16, (todo - 1) as nat);
        } else if tag == 2 || tag == 3 {
            lemma_bdd_walk_todo::<V, D>(d, bytes, q + 8, todo);
        } else {
            lemma_bdd_walk_todo::<V, D>(d, bytes, q + 8, todo + 1);
        }
    }
}

impl<VarDeanchize: StaticDeanchize, LeafDeanchize: Deanchize> Deanchize for BddDeanchize<
    VarDeanchize,
    LeafDeanchize,
> {
    type Ancha = AnchaBdd<'static, VarDeanchize::Ancha, LeafDeanchize::Ancha>;

    open spec fn spec_walk(&self, bytes: Seq<u8>, pos: int) -> Option<int> {
        bdd_walk::<VarDeanchize::Ancha, LeafDeanchize>(self.leaf_deancha, bytes, pos, 1)
    }

    proof fn lemma_walk(&self, bytes: Seq<u8>, pos: int) {
        lemma_align_up(pos, 4);
        if pos <= bytes.len() {
            lemma_bdd_walk_bounds::<VarDeanchize::Ancha, LeafDeanchize>(self.leaf_deancha, bytes, pos, 1);
        }
    }

    fn deanchize<After>(&self, buf: &[u8], cur: BuildCursor<Self::Ancha>) -> (r: BuildCursor<After>) {
        let ghost bytes = from_base(buf@, cur.buf as int);
        let ghost d = self.leaf_deancha;
        let ghost goal = bdd_walk::<VarDeanchize::Ancha, LeafDeanchize>(d, bytes, cur.cur as int, 1);
        let ghost base = cur.buf;
        let len = buf.len() - cur.buf;
        let mut c = cur.cur;
        let mut todo: usize = 1;
        proof {
            lemma_align_up(c as int, 4);
        }
        while todo > 0
            invariant
                d == self.leaf_deancha,
                base == cur.buf,
                len == bytes.len(),
                goal == bdd_walk::<VarDeanchize::Ancha, LeafDeanchize>(d, bytes, cur.cur as int, 1),
                bytes == from_base(buf@, base as int),
                base <= buf@.len() <= max_blob(),
                bdd_walk::<VarDeanchize::Ancha, LeafDeanchize>(d, bytes, c as int, todo as nat) == goal,
                goal is Some,
                c <= len,
            decreases len - c,
        {
            proof {
                lemma_align_up(c as int, 4);
                lemma_bdd_q::<VarDeanchize::Ancha>(spec_align_up(c as int, 4));
                lemma_bdd_walk_todo::<VarDeanchize::Ancha, LeafDeanchize>(d, bytes, c as int, todo as nat);
            }
            let at = super::align_up(c, 4);
            proof {
                lemma_cell_from_base::<u32>(buf@, base as int, at as int);
            }
            let tag = u32::read_cell(buf, cur.buf + at);
            if tag == 0 {
                let lcur: BuildCursor<LeafDeanchize::Ancha> = BuildCursor { cur: at + 4, buf: cur.buf, _phantom: PhantomData };
                let e: BuildCursor<LeafDeanchize::Ancha> = self.leaf_deancha.deanchize(buf, lcur);
                c = e.cur;
                todo = todo - 1;
            } else {
                let h = bdd_h_exec::<VarDeanchize::Ancha>(at);
                proof {
                    VarDeanchize::Ancha::lemma_layout();
                    lemma_cell_from_base::<VarDeanchize::Ancha>(buf@, base as int, h as int);
                }
                let q = bdd_q_exec::<VarDeanchize::Ancha>(at);
                if tag == 1 {
                    c = q + 16;
                    todo = todo - 1;
                } else if tag == 2 || tag == 3 {
                    c = q + 8;
                } else {
                    c = q + 8;
                    todo = todo + 1;
                }
            }
        }
        BuildCursor { cur: c, buf: cur.buf, _phantom: PhantomData }
    }
}


/// Evaluating the diagram whose node is at `p` under the valuation `val`:
/// the position of the leaf reached, within `fuel` steps.
pub open spec fn bdd_eval<V: Cell, L: Layout>(bytes: Seq<u8>, p: int, val: spec_fn(V) -> bool, fuel: nat) -> Option<int>
    decreases fuel,
{
    let tag = cell_at::<u32>(bytes, p);
    let q = bdd_q::<V>(p);
    if fuel == 0 || p < 0 || p + 4 > bytes.len() || tag > 4 {
        None
    } else if tag == 0 {
        Some(spec_align_up(p + 4, L::spec_align() as int))
    } else if q + 8 > bytes.len() || (tag == 1 && q + 16 > bytes.len()) {
        None
    } else {
        let b = val(cell_at::<V>(bytes, bdd_h::<V>(p)));
        let ptr = cell_at::<usize>(bytes, q) as int;
        let next = if tag == 1 {
            if b { ptr } else { cell_at::<usize>(bytes, q + 8) as int }
        } else if tag == 3 {
            if b { ptr } else { q + 8 }
        } else {
            if b { q + 8 } else { ptr }
        };
        bdd_eval::<V, L>(bytes, next, val, (fuel - 1) as nat)
    }
}

/// `f` decides as `val` does.
pub open spec fn bdd_realizes<V, F: Fn(&V) -> bool>(f: F, val: spec_fn(V) -> bool) -> bool {
    forall|v: V, b: bool| #[trigger] f.ensures((&v,), b) ==> b == val(v)
}

impl<'a, Var: Cell, Leaf: Layout> AnchaBdd<'a, Var, Leaf> {
    /// The diagram whose root is at `at` of `blob`.
    pub fn from_blob(blob: &'a [u8], at: usize) -> (r: Self)
        ensures
            r.blob@ == blob@,
            r.at == at,
    {
        AnchaBdd { blob, at, _phantom: PhantomData }
    }

    /// Follow the decisions of `f` from the root to a leaf; the position of
    /// the leaf reached, or `None` where the bytes do not lead to a leaf
    /// within as many steps as the blob has bytes.
    pub fn evaluate<F: Fn(&Var) -> bool>(&self, f: &F) -> (r: Option<usize>)
        requires
            self.blob@.len() <= max_blob(),
            forall|v: Var| f.requires((&v,)),
        ensures
            forall|val: spec_fn(Var) -> bool|
                bdd_realizes(*f, val) ==> match bdd_eval::<Var, Leaf>(self.blob@, self.at as int, val, self.blob@.len() as nat) {
                    Some(l) => r == Some(l as usize),
                    None => r is None,
                },
    {
        let len = self.blob.len();
        let mut cur = self.at;
        let mut fuel = len;
        proof {
            Leaf::lemma_layout();
            Var::lemma_layout();
        }
        while fuel > 0
            invariant
                len == self.blob@.len(),
                len <= max_blob(),
                fuel <= len,
                forall|v: Var| f.requires((&v,)),
                forall|val: spec_fn(Var) -> bool|
                    bdd_realizes(*f, val) ==> #[trigger] bdd_eval::<Var, Leaf>(self.blob@, self.at as int, val, len as nat)
                        == bdd_eval::<Var, Leaf>(self.blob@, cur as int, val, fuel as nat),
            decreases fuel,
        {
            if !(cur < len && 4 <= len - cur) {
                return None;
            }
            let tag = u32::read_cell(self.blob, cur);
            if tag > 4 {
                return None;
            }
            if tag == 0 {
                proof {
                    Leaf::lemma_layout();
                }
                return Some(super::align_up(cur + 4, Leaf::align()));
            }
            let q = bdd_q_exec::<Var>(cur);
            proof {
                lemma_bdd_q::<Var>(cur as int);
            }
            if !(q < len && 8 <= len - q) || (tag == 1 && 16 > len - q) {
                return None;
            }
            let h = bdd_h_exec::<Var>(cur);
            let v = Var::read_cell(self.blob, h);
            let b = f(&v);
            let ptr = usize::read_cell(self.blob, q);
            let next = if tag == 1 {
                if b { ptr } else { usize::read_cell(self.blob, q + 8) }
            } else if tag == 3 {
                if b { ptr } else { q + 8 }
            } else {
                if b { q + 8 } else { ptr }
            };
            proof {
                assert forall|val: spec_fn(Var) -> bool| bdd_realizes(*f, val) implies #[trigger] bdd_eval::<Var, Leaf>(
                    self.blob@,
                    self.at as int,
                    val,
                    len as nat,
                ) == bdd_eval::<Var, Leaf>(self.blob@, next as int, val, (fuel - 1) as nat) by {
                    assert(f.ensures((&v,), b));
                    assert(b == val(v));
                }
            }
            cur = next;
            fuel = fuel - 1;
        }
        None
    }
}


/// Evaluating a diagram as built, from node `k` on, under the valuation
/// `val`: the number of the leaf reached within `fuel` steps.
pub open spec fn bdd_eval_origin<VO, LO>(
    nodes: Seq<BddOrigin<VO, LO>>,
    kids: Seq<(int, int)>,
    k: int,
    val: spec_fn(VO) -> bool,
    fuel: nat,
) -> Option<int>
    decreases fuel,
{
    if fuel == 0 || k < 0 || k >= nodes.len() {
        None
    } else if nodes[k] is Leaf {
        Some(k)
    } else {
        bdd_eval_origin(
            nodes,
            kids,
            if val(bdd_var(nodes[k])) { kids[k].0 } else { kids[k].1 },
            val,
            (fuel - 1) as nat,
        )
    }
}

/// Where the evaluation of an anchized diagram ends: at the leaf that the
/// evaluation of the diagram as built reaches.
pub open spec fn bdd_eval_expected<VA: StaticAnchize, L: Anchize<Context = VA::Context>>(
    anchize: BddAnchize<VA, L>,
    origin: BddOrigin<VA::Origin, L::Origin>,
    ctx: VA::Context,
    pos: int,
    val: spec_fn(VA::Ancha) -> bool,
    k: int,
    fuel: nat,
) -> Option<int> {
    let nodes = bdd_flat(origin);
    match bdd_eval_origin(
        nodes,
        bdd_kids(origin, 0),
        k,
        |v: VA::Origin| val(anchize.var_ancha.spec_anchize_static(v, ctx)),
        fuel,
    ) {
        Some(i) => Some(
            spec_align_up(
                bdd_at::<VA::Origin, VA::Ancha, L>(anchize.leaf_ancha, nodes, spec_align_up(pos, 4), i) + 4,
                L::Ancha::spec_align() as int,
            ),
        ),
        None => None,
    }
}

/// An anchized diagram evaluates, from each of its nodes, as the diagram
/// it was anchized from: under a valuation of the anchized variables, to
/// the leaf that the diagram reaches under the same valuation of the
/// variables it was built with.
pub proof fn lemma_bdd_eval_node<VA: StaticAnchize, L: Anchize<Context = VA::Context>>(
    anchize: BddAnchize<VA, L>,
    origin: BddOrigin<VA::Origin, L::Origin>,
    ctx: VA::Context,
    bytes: Seq<u8>,
    pos: int,
    val: spec_fn(VA::Ancha) -> bool,
    k: int,
    fuel: nat,
)
    requires
        0 <= pos,
        anchize.spec_accepts(origin, ctx),
        anchize.spec_holds(origin, ctx, bytes, pos),
        0 <= k < bdd_flat(origin).len(),
    ensures
        bdd_eval::<VA::Ancha, L::Ancha>(
            bytes,
            bdd_at::<VA::Origin, VA::Ancha, L>(anchize.leaf_ancha, bdd_flat(origin), spec_align_up(pos, 4), k),
            val,
            fuel,
        ) == bdd_eval_expected(anchize, origin, ctx, pos, val, k, fuel),
    decreases fuel,
{
    let nodes = bdd_flat(origin);
    let kids = bdd_kids(origin, 0);
    let la = anchize.leaf_ancha;
    let va = anchize.var_ancha;
    let start = spec_align_up(pos, 4);
    let n = nodes.len() as int;
    let valo = |v: VA::Origin| val(va.spec_anchize_static(v, ctx));
    lemma_align_up(pos, 4);
    lemma_bdd_flat(origin, 0);
    assert(bdd_node_holds(va, la, nodes, kids, ctx, bytes, start, k));
    assert(bdd_node_refs_ok(nodes, kids, k));
    lemma_bdd_order::<VA::Origin, VA::Ancha, L>(la, nodes, start, k, k + 1);
    lemma_bdd_node_parts::<VA::Origin, VA::Ancha, L>(la, nodes, start, k);
    lemma_bdd_step::<VA::Origin, VA::Ancha, L>(la, nodes, start, k);
    let p = bdd_at::<VA::Origin, VA::Ancha, L>(la, nodes, start, k);
    let q = bdd_q::<VA::Ancha>(p);
    lemma_bdd_q::<VA::Ancha>(p);
    if fuel > 0 && !(nodes[k] is Leaf) {
        let b = valo(bdd_var(nodes[k]));
        assert(b == val(cell_at::<VA::Ancha>(bytes, bdd_h::<VA::Ancha>(p))));
        let child = if b { kids[k].0 } else { kids[k].1 };
        if nodes[k] is NodePosOwned || nodes[k] is NodeBothOwned || nodes[k] is NodeNegOwned {
            assert(bdd_at::<VA::Origin, VA::Ancha, L>(la, nodes, start, k + 1) == q + 8);
        }
        lemma_bdd_eval_node(anchize, origin, ctx, bytes, pos, val, child, (fuel - 1) as nat);
        assert(bdd_eval_origin(nodes, kids, k, valo, fuel) == bdd_eval_origin(nodes, kids, child, valo, (fuel - 1) as nat));
    }
}

/// An anchized diagram evaluates as the diagram it was anchized from
/// (from its root).
pub proof fn lemma_bdd_eval<VA: StaticAnchize, L: Anchize<Context = VA::Context>>(
    anchize: BddAnchize<VA, L>,
    origin: BddOrigin<VA::Origin, L::Origin>,
    ctx: VA::Context,
    bytes: Seq<u8>,
    pos: int,
    val: spec_fn(VA::Ancha) -> bool,
    fuel: nat,
)
    requires
        0 <= pos,
        anchize.spec_accepts(origin, ctx),
        anchize.spec_holds(origin, ctx, bytes, pos),
    ensures
        bdd_eval::<VA::Ancha, L::Ancha>(bytes, spec_align_up(pos, 4), val, fuel) == bdd_eval_expected(
            anchize,
            origin,
            ctx,
            pos,
            val,
            0,
            fuel,
        ),
{
    lemma_bdd_flat(origin, 0);
    lemma_bdd_whole::<VA::Origin, VA::Ancha, L>(anchize.leaf_ancha, bdd_flat(origin), spec_align_up(pos, 4));
    super::lemma_align_idem(pos, 4);
    lemma_bdd_eval_node(anchize, origin, ctx, bytes, pos, val, 0, fuel);
}

/// Laying out nodes one sequence after another ends where laying them out
/// as one does.
proof fn lemma_bdd_end_concat_end<VO, V: Layout, L: Anchize>(
    la: L,
    a: Seq<BddOrigin<VO, L::Origin>>,
    b: Seq<BddOrigin<VO, L::Origin>>,
    s: int,
)
    ensures
        bdd_end::<VO, V, L>(la, a + b, s) == bdd_end::<VO, V, L>(la, b, bdd_end::<VO, V, L>(la, a, s)),
    decreases b.len(),
{
    if b.len() == 0 {
        assert(a + b =~= a);
    } else {
        lemma_bdd_end_concat_end::<VO, V, L>(la, a, b.drop_last(), s);
        assert((a + b).drop_last() =~= a + b.drop_last());
        assert((a + b).last() == b.last());
    }
}

/// Laying out nodes one sequence after another is laying them out as one.
pub proof fn lemma_bdd_end_concat<VO, V: Layout, L: Anchize>(
    la: L,
    a: Seq<BddOrigin<VO, L::Origin>>,
    b: Seq<BddOrigin<VO, L::Origin>>,
    s: int,
)
    ensures
        bdd_end::<VO, V, L>(la, a + b, s) == bdd_end::<VO, V, L>(la, b, bdd_end::<VO, V, L>(la, a, s)),
        forall|j: int|
            0 <= j <= b.len() ==> #[trigger] bdd_at::<VO, V, L>(la, a + b, s, a.len() + j) == bdd_at::<VO, V, L>(
                la,
                b,
                bdd_end::<VO, V, L>(la, a, s),
                j,
            ),
{
    lemma_bdd_end_concat_end::<VO, V, L>(la, a, b, s);
    assert forall|j: int| 0 <= j <= b.len() implies #[trigger] bdd_at::<VO, V, L>(la, a + b, s, a.len() + j)
        == bdd_at::<VO, V, L>(la, b, bdd_end::<VO, V, L>(la, a, s), j) by {
        assert((a + b).take(a.len() + j) =~= a + b.take(j));
        lemma_bdd_end_concat_end::<VO, V, L>(la, a, b.take(j), s);
    }
}

/// The tags and leaves of the nodes `ns` laid out from `c` on hold.
pub open spec fn bdd_bodies<VA: StaticAnchize, L: Anchize<Context = VA::Context>>(
    va: VA,
    la: L,
    ns: Seq<BddOrigin<VA::Origin, L::Origin>>,
    ctx: VA::Context,
    bytes: Seq<u8>,
    c: int,
) -> bool {
    forall|j: int| 0 <= j < ns.len() ==> #[trigger] bdd_node_body(va, la, ns, ctx, bytes, c, j)
}

/// The bodies of the nodes behind `a` hold where `a` ends.
proof fn lemma_bdd_bodies_skip<VA: StaticAnchize, L: Anchize<Context = VA::Context>>(
    va: VA,
    la: L,
    a: Seq<BddOrigin<VA::Origin, L::Origin>>,
    b: Seq<BddOrigin<VA::Origin, L::Origin>>,
    ctx: VA::Context,
    bytes: Seq<u8>,
    c: int,
)
    requires
        bdd_bodies(va, la, a + b, ctx, bytes, c),
    ensures
        bdd_bodies(va, la, b, ctx, bytes, bdd_end::<VA::Origin, VA::Ancha, L>(la, a, c)),
{
    lemma_bdd_end_concat::<VA::Origin, VA::Ancha, L>(la, a, b, c);
    assert forall|j: int| 0 <= j < b.len() implies #[trigger] bdd_node_body(
        va,
        la,
        b,
        ctx,
        bytes,
        bdd_end::<VA::Origin, VA::Ancha, L>(la, a, c),
        j,
    ) by {
        assert(bdd_node_body(va, la, a + b, ctx, bytes, c, a.len() + j));
        assert((a + b)[a.len() + j] == b[j]);
        assert(bdd_at::<VA::Origin, VA::Ancha, L>(la, a + b, c, a.len() + j) == bdd_at::<VA::Origin, VA::Ancha, L>(
            la,
            b,
            bdd_end::<VA::Origin, VA::Ancha, L>(la, a, c),
            j,
        ));
    }
}

/// Walking over the nodes of a subdiagram laid out from `c` on takes one
/// of the subtrees to walk, and ends where its nodes end.
proof fn lemma_bdd_walk_sub<VA: StaticAnchize, L: Anchize<Context = VA::Context>, D: Deanchize>(
    va: VA,
    la: L,
    d: D,
    o: BddOrigin<VA::Origin, L::Origin>,
    ctx: VA::Context,
    bytes: Seq<u8>,
    c: int,
    t: nat,
)
    requires
        0 <= c,
        bdd_end::<VA::Origin, VA::Ancha, L>(la, bdd_flat(o), c) <= bytes.len(),
        bdd_bodies(va, la, bdd_flat(o), ctx, bytes, c),
        forall|l: L::Origin, p: int|
            0 <= p && #[trigger] la.spec_holds(l, ctx, bytes, p) ==> d.spec_walk(bytes, p) == Some(la.spec_end(l, p)),
        bdd_plain(o),
    ensures
        bdd_walk::<VA::Ancha, D>(d, bytes, c, t + 1) == bdd_walk::<VA::Ancha, D>(
            d,
            bytes,
            bdd_end::<VA::Origin, VA::Ancha, L>(la, bdd_flat(o), c),
            t,
        ),
    decreases o,
{
    let ns = bdd_flat(o);
    lemma_bdd_flat(o, 0);
    let at = bdd_at::<VA::Origin, VA::Ancha, L>(la, ns, c, 0);
    assert(ns.take(0) =~= Seq::<BddOrigin<VA::Origin, L::Origin>>::empty());
    assert(at == spec_align_up(c, 4));
    lemma_align_up(c, 4);
    lemma_bdd_q::<VA::Ancha>(at);
    assert(bdd_node_body(va, la, ns, ctx, bytes, c, 0));
    let head = seq![o];
    let e1 = bdd_end::<VA::Origin, VA::Ancha, L>(la, head, c);
    assert(head.drop_last() =~= Seq::<BddOrigin<VA::Origin, L::Origin>>::empty());
    assert(e1 == bdd_node_end::<VA::Origin, VA::Ancha, L>(la, o, at));
    lemma_bdd_node_end::<VA::Origin, VA::Ancha, L>(la, o, at);
    match o {
        BddOrigin::Leaf(l) => {
            assert(ns =~= head);
            assert(la.spec_holds(l, ctx, bytes, at + 4));
            assert(d.spec_walk(bytes, at + 4) == Some(la.spec_end(l, at + 4)));
        },
        BddOrigin::NodeNoOwned { .. } => {
            assert(ns =~= head);
        },
        BddOrigin::NodePosOwned { pos, .. } => {
            assert(ns =~= head + bdd_flat(*pos));
            lemma_bdd_end_concat::<VA::Origin, VA::Ancha, L>(la, head, bdd_flat(*pos), c);
            lemma_bdd_bodies_skip(va, la, head, bdd_flat(*pos), ctx, bytes, c);
            lemma_bdd_walk_sub(va, la, d, *pos, ctx, bytes, e1, t);
        },
        BddOrigin::NodeNegOwned { neg, .. } => {
            assert(ns =~= head + bdd_flat(*neg));
            lemma_bdd_end_concat::<VA::Origin, VA::Ancha, L>(la, head, bdd_flat(*neg), c);
            lemma_bdd_bodies_skip(va, la, head, bdd_flat(*neg), ctx, bytes, c);
            lemma_bdd_walk_sub(va, la, d, *neg, ctx, bytes, e1, t);
        },
        BddOrigin::NodeBothOwned { pos, neg, .. } => {
            let fp = bdd_flat(*pos);
            let fnn = bdd_flat(*neg);
            assert(ns =~= head + fp + fnn);
            assert(ns =~= head + (fp + fnn));
            lemma_bdd_end_concat::<VA::Origin, VA::Ancha, L>(la, head, fp + fnn, c);
            lemma_bdd_bodies_skip(va, la, head, fp + fnn, ctx, bytes, c);
            lemma_bdd_end_concat::<VA::Origin, VA::Ancha, L>(la, fp, fnn, e1);
            lemma_bdd_bodies_skip(va, la, fp, fnn, ctx, bytes, e1);
            let e2 = bdd_end::<VA::Origin, VA::Ancha, L>(la, fp, e1);
            assert(bdd_bodies(va, la, fp, ctx, bytes, e1)) by {
                assert forall|j: int| 0 <= j < fp.len() implies #[trigger] bdd_node_body(va, la, fp, ctx, bytes, e1, j) by {
                    assert(bdd_node_body(va, la, fp + fnn, ctx, bytes, e1, j));
                    assert((fp + fnn)[j] == fp[j]);
                    assert((fp + fnn).take(j) =~= fp.take(j));
                }
            }
            lemma_bdd_end_ge::<VA::Origin, VA::Ancha, L>(la, fp, e1);
            lemma_bdd_end_ge::<VA::Origin, VA::Ancha, L>(la, fnn, e2);
            lemma_bdd_walk_sub(va, la, d, *pos, ctx, bytes, e1, t + 1);
            lemma_bdd_walk_sub(va, la, d, *neg, ctx, bytes, e2, t);
        },
        BddOrigin::WithDetached { .. } => {},
    }
}

/// Deanchization walks exactly over an anchized diagram, given that it does
/// so over each leaf.
pub proof fn lemma_bdd_walk<
    VA: StaticAnchize,
    L: Anchize<Context = VA::Context>,
    VD: StaticDeanchize<Ancha = VA::Ancha>,
    LD: Deanchize,
>(
    anchize: BddAnchize<VA, L>,
    deanchize: BddDeanchize<VD, LD>,
    origin: BddOrigin<VA::Origin, L::Origin>,
    ctx: VA::Context,
    bytes: Seq<u8>,
    pos: int,
)
    requires
        0 <= pos,
        anchize.spec_holds(origin, ctx, bytes, pos),
        forall|l: L::Origin, p: int|
            0 <= p && #[trigger] anchize.leaf_ancha.spec_holds(l, ctx, bytes, p)
                ==> deanchize.leaf_deancha.spec_walk(bytes, p) == Some(anchize.leaf_ancha.spec_end(l, p)),
        bdd_plain(origin),
    ensures
        deanchize.spec_walk(bytes, pos) == Some(anchize.spec_end(origin, pos)),
{
    let va = anchize.var_ancha;
    let la = anchize.leaf_ancha;
    let d = deanchize.leaf_deancha;
    let nodes = bdd_flat(origin);
    let start = spec_align_up(pos, 4);
    lemma_align_up(pos, 4);
    super::lemma_align_idem(pos, 4);
    assert(bdd_bodies(va, la, nodes, ctx, bytes, start)) by {
        assert forall|j: int| 0 <= j < nodes.len() implies #[trigger] bdd_node_body(va, la, nodes, ctx, bytes, start, j) by {
            assert(bdd_node_holds(va, la, nodes, bdd_kids(origin, 0), ctx, bytes, start, j));
        }
    }
    lemma_bdd_walk_sub(va, la, d, origin, ctx, bytes, start, 0);
    lemma_bdd_walk_realign::<VA::Ancha, LD>(d, bytes, pos);
}

/// A walk from a cursor goes as the walk from the cursor aligned for a node.
proof fn lemma_bdd_walk_realign<V: Layout, D: Deanchize>(d: D, bytes: Seq<u8>, pos: int)
    requires
        0 <= pos,
    ensures
        bdd_walk::<V, D>(d, bytes, pos, 1) == bdd_walk::<V, D>(d, bytes, spec_align_up(pos, 4), 1),
{
    lemma_align_up(pos, 4);
    super::lemma_align_idem(pos, 4);
    let at = spec_align_up(pos, 4);
    if at + 4 <= bytes.len() && cell_at::<u32>(bytes, at) == 0 && d.spec_walk(bytes, at + 4) is Some {
        d.lemma_walk(bytes, at + 4);
    }
}

} // verus!
