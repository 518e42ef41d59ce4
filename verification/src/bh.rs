//! The Barnes-Hut quadtree: each box keeps a summary of the stars below it,
//! folded from the simulation's answers (in the simulation, their total mass
//! and centre of mass), and a leaf holds one star unless the stars are too
//! close to separate or the tree is deep enough.

use vstd::prelude::*;
use vstd::multiset::Multiset;
use crate::quadrant::{Body, Quadrant, PATH_LEN, lemma_ids_of_quarters};

verus! {

/// From this insertion depth on a leaf takes every star it is given.
pub const MAX_DEPTH: usize = 20;

/// What the tree asks of the simulation about the stars it holds, named by
/// their indices. The tree keeps the summaries and decides its shape; the
/// simulation computes the summaries and says when two stars coincide.
///
/// - `single(id)`: the summary of a box that holds the one star `id`;
/// - `empty`: the summary of a box that has just been split, before any
///   star is added back to it;
/// - `absorb(summary, id)`: the summary of a box with summary `summary`
///   once the star `id` joins it;
/// - `coincide(a, b)`: whether the stars `a` and `b` are too close to be
///   told apart, so that they share a leaf.
pub struct StarField<A, S, Ab, Co> {
    pub single: S,
    pub empty: A,
    pub absorb: Ab,
    pub coincide: Co,
}

impl<A, S: Fn(usize) -> A, Ab: Fn(&A, usize) -> A, Co: Fn(usize, usize) -> bool> StarField<A, S, Ab, Co> {
    /// The simulation's answers can be asked for on any stars.
    pub open spec fn callable(self) -> bool {
        &&& forall|id: usize| call_requires(self.single, (id,))
        &&& forall|m: &A, id: usize| call_requires(self.absorb, (m, id))
        &&& forall|a: usize, b: usize| call_requires(self.coincide, (a, b))
    }

    /// `single(id)` may give `m`.
    pub open spec fn single_rel(self) -> spec_fn(usize, A) -> bool {
        |id: usize, m: A| call_ensures(self.single, (id,), m)
    }

    /// `absorb(m, id)` may give `m2`.
    pub open spec fn absorb_rel(self) -> spec_fn(A, usize, A) -> bool {
        |m: A, id: usize, m2: A| call_ensures(self.absorb, (&m, id), m2)
    }

    /// `coincide(a, b)` may answer `r`.
    pub open spec fn coincide_rel(self) -> spec_fn(usize, usize, bool) -> bool {
        |a: usize, b: usize, r: bool| call_ensures(self.coincide, (a, b), r)
    }

    /// What pushing gives with these answers: see [`pushed`].
    pub open spec fn pushes(self, before: BhTree<A>, after: BhTree<A>, star: Body, level: int, idx: usize, depth: int) -> bool {
        pushed(before, after, star, level, idx, depth, self.single_rel(), self.empty, self.absorb_rel(), self.coincide_rel())
    }

    /// Whether every box of `tree` summarises exactly its stars, in the order
    /// they were pushed, with these answers: see [`summarises`].
    pub open spec fn summarised(self, tree: BhTree<A>, stars: Seq<Body>) -> bool {
        summarises(tree, 0, stars, self.single_rel(), self.empty, self.absorb_rel())
    }

    /// What building from `stars` gives with these answers: see [`built`].
    pub open spec fn builds(self, stars: Seq<Body>, tree: BhTree<A>) -> bool {
        built(stars, tree, self.single_rel(), self.empty, self.absorb_rel(), self.coincide_rel())
    }
}

/// The opening test of the force walk, made for the one star whose pull is
/// being gathered: whether a box is too close, for its size, to pull as a
/// single body. The simulation answers from the box's summary and level:
/// `opens_box` for an internal box, `opens_leaf` for a leaf.
pub struct Probe<B, L> {
    pub opens_box: B,
    pub opens_leaf: L,
}

impl<B, L> Probe<B, L> {
    /// The probe can be asked about any box.
    pub open spec fn callable<A>(self) -> bool
        where B: Fn(&A, usize) -> bool, L: Fn(&A, usize) -> bool,
    {
        &&& forall|m: &A, level: usize| call_requires(self.opens_box, (m, level))
        &&& forall|m: &A, level: usize| call_requires(self.opens_leaf, (m, level))
    }

    /// `opens_box(m, level)` may answer `r`.
    pub open spec fn box_rel<A>(self) -> spec_fn(A, usize, bool) -> bool
        where B: Fn(&A, usize) -> bool,
    {
        |m: A, level: usize, r: bool| call_ensures(self.opens_box, (&m, level), r)
    }

    /// `opens_leaf(m, level)` may answer `r`.
    pub open spec fn leaf_rel<A>(self) -> spec_fn(A, usize, bool) -> bool
        where L: Fn(&A, usize) -> bool,
    {
        |m: A, level: usize, r: bool| call_ensures(self.opens_leaf, (&m, level), r)
    }

    /// What the force walk gives with these answers: see [`walked`].
    pub open spec fn walks<A>(self, t: BhTree<A>, level: usize, pulls: Seq<Pull<A>>) -> bool
        where B: Fn(&A, usize) -> bool, L: Fn(&A, usize) -> bool,
    {
        walked(t, level, self.box_rel(), self.leaf_rel(), pulls)
    }
}

/// One term of the pull on a star: a star of the tree on its own, or a box
/// of the tree as one body (its summary), standing for the stars `covers`.
pub enum Pull<A> {
    Star(usize),
    Summary(A, Ghost<Seq<usize>>),
}

impl<A> Pull<A> {
    /// The stars that the term stands for.
    pub open spec fn covers(self) -> Seq<usize> {
        match self {
            Pull::Star(id) => seq![id],
            Pull::Summary(_, ids) => ids@,
        }
    }
}

/// The stars that a list of terms stands for, term after term.
pub open spec fn covered<A>(pulls: Seq<Pull<A>>) -> Seq<usize>
    decreases pulls.len(),
{
    if pulls.len() == 0 {
        Seq::empty()
    } else {
        covered(pulls.drop_last()) + pulls.last().covers()
    }
}

proof fn lemma_covered_concat<A>(a: Seq<Pull<A>>, b: Seq<Pull<A>>)
    ensures
        covered(a + b) =~= covered(a) + covered(b),
    decreases b.len(),
{
    if b.len() == 0 {
        assert(a + b =~= a);
    } else {
        lemma_covered_concat(a, b.drop_last());
        assert((a + b).drop_last() =~= a + b.drop_last());
    }
}

/// The mathematical content of a [`Node`].
pub enum BhTree<A> {
    Empty,
    Internal(A, Box<BhTree<A>>, Box<BhTree<A>>, Box<BhTree<A>>, Box<BhTree<A>>),
    Leaf(Seq<Body>, usize, A),
}

impl<A> BhTree<A> {
    /// The star indices in the tree, children in quadrant order.
    pub open spec fn ids(self) -> Seq<usize>
        decreases self,
    {
        match self {
            BhTree::Empty => Seq::empty(),
            BhTree::Internal(_, a, b, c, d) => a.ids() + b.ids() + c.ids() + d.ids(),
            BhTree::Leaf(stars, _, _) => stars.map_values(|s: Body| s.id),
        }
    }

    /// Internal boxes stand only above level `PATH_LEN`, and no leaf is empty.
    pub open spec fn shaped(self, level: nat) -> bool
        decreases self,
    {
        match self {
            BhTree::Internal(_, a, b, c, d) => {
                &&& level < PATH_LEN
                &&& a.shaped(level + 1)
                &&& b.shaped(level + 1)
                &&& c.shaped(level + 1)
                &&& d.shaped(level + 1)
            },
            BhTree::Leaf(stars, _, _) => stars.len() > 0,
            BhTree::Empty => true,
        }
    }

    /// Every box below this one that is split holds at least two stars.
    pub open spec fn dense_below(self) -> bool
        decreases self,
    {
        match self {
            BhTree::Internal(_, a, b, c, d) => {
                &&& (*a is Internal ==> a.ids().len() >= 2) && a.dense_below()
                &&& (*b is Internal ==> b.ids().len() >= 2) && b.dense_below()
                &&& (*c is Internal ==> c.ids().len() >= 2) && c.dense_below()
                &&& (*d is Internal ==> d.ids().len() >= 2) && d.dense_below()
            },
            _ => true,
        }
    }

    /// Every star lies in the box of the leaf that holds it, the tree
    /// standing at `cell`.
    pub open spec fn placed(self, cell: Seq<Quadrant>) -> bool
        decreases self,
    {
        match self {
            BhTree::Empty => true,
            BhTree::Internal(_, a, b, c, d) => {
                &&& cell.len() < PATH_LEN
                &&& a.placed(cell.push(Quadrant::LowXLowY))
                &&& b.placed(cell.push(Quadrant::HighXLowY))
                &&& c.placed(cell.push(Quadrant::LowXHighY))
                &&& d.placed(cell.push(Quadrant::HighXHighY))
            },
            BhTree::Leaf(stars, _, _) => {
                &&& cell.len() <= PATH_LEN
                &&& forall|i: int| 0 <= i < stars.len() ==> #[trigger] stars[i].in_cell(cell)
            },
        }
    }
}

impl<A> BhTree<A> {
    /// The child in quadrant `q` of an internal box; other boxes have no
    /// children, which reads as empty.
    pub open spec fn child(self, q: Quadrant) -> BhTree<A> {
        match self {
            BhTree::Internal(_, a, b, c, d) => match q {
                Quadrant::LowXLowY => *a,
                Quadrant::HighXLowY => *b,
                Quadrant::LowXHighY => *c,
                Quadrant::HighXHighY => *d,
            },
            _ => BhTree::Empty,
        }
    }

    /// The box reached from this one by `cell`, one quadrant per level.
    pub open spec fn at(self, cell: Seq<Quadrant>) -> BhTree<A>
        decreases cell.len(),
    {
        if cell.len() == 0 {
            self
        } else {
            self.child(cell[0]).at(cell.drop_first())
        }
    }
}

impl<A> BhTree<A> {
    /// Whether some box of the tree has the summary `summary` and holds
    /// exactly the stars `ids`.
    pub open spec fn has_box(self, summary: A, ids: Seq<usize>) -> bool
        decreases self,
    {
        match self {
            BhTree::Empty => false,
            BhTree::Internal(m, a, b, c, d) => {
                ||| m == summary && self.ids() == ids
                ||| a.has_box(summary, ids)
                ||| b.has_box(summary, ids)
                ||| c.has_box(summary, ids)
                ||| d.has_box(summary, ids)
            },
            BhTree::Leaf(_, _, m) => m == summary && self.ids() == ids,
        }
    }
}

/// A box of the Barnes-Hut tree. `com_mass` is the summary of the stars
/// below the box; `idx` is the index the leaf was created with.
#[derive(Debug)]
pub enum Node<A> {
    Empty,
    Internal { com_mass: A, q0: Box<Node<A>>, q1: Box<Node<A>>, q2: Box<Node<A>>, q3: Box<Node<A>> },
    Leaf { star: Vec<Body>, idx: usize, com_mass: A },
}

impl<A> Node<A> {
    pub open spec fn model(self) -> BhTree<A>
        decreases self,
    {
        match self {
            Node::Empty => BhTree::Empty,
            Node::Internal { com_mass, q0, q1, q2, q3 } => BhTree::Internal(
                com_mass,
                Box::new(q0.model()),
                Box::new(q1.model()),
                Box::new(q2.model()),
                Box::new(q3.model()),
            ),
            Node::Leaf { star, idx, com_mass } => BhTree::Leaf(star@, idx, com_mass),
        }
    }
}

impl<A> View for Node<A> {
    type V = BhTree<A>;

    open spec fn view(&self) -> BhTree<A> {
        self.model()
    }
}


/// What pushing `star` into the tree `before`, standing at `level`, gives
/// whatever the simulation answered: the tree keeps its shape, gains the
/// index of the star and loses none, keeps every star in the box of its
/// leaf if the new star lies in the box of the tree, keeps every split box
/// below it holding at least two stars, and is split itself only if it was
/// split already or now holds two stars or more.
pub open spec fn push_outcome<A>(before: BhTree<A>, after: BhTree<A>, star: Body, level: nat) -> bool {
    &&& after.shaped(level)
    &&& after.ids().to_multiset() =~= before.ids().to_multiset().insert(star.id)
    &&& after.ids().len() == before.ids().len() + 1
    &&& forall|cell: Seq<Quadrant>|
        #![trigger after.placed(cell)]
        cell.len() == level && before.placed(cell) && star.in_cell(cell) ==> after.placed(cell)
    &&& before.dense_below() ==> after.dense_below()
    &&& after is Internal && !(before is Internal) ==> after.ids().len() >= 2
}

/// Names a tree at an intermediate stage of a build: between the two pushes
/// that split a leaf, or before the last of a series of pushes.
pub open spec fn stage<A>(t: BhTree<A>) -> bool {
    true
}

/// A box just split: summary `empty`, four empty children.
pub open spec fn split_box<A>(empty: A) -> BhTree<A> {
    BhTree::Internal(
        empty,
        Box::new(BhTree::Empty),
        Box::new(BhTree::Empty),
        Box::new(BhTree::Empty),
        Box::new(BhTree::Empty),
    )
}

/// Whether `after` is a leaf that appends `star` to the leaf `(stars, i, m)`
/// and absorbs it into its summary.
pub open spec fn appended<A>(
    stars: Seq<Body>,
    i: usize,
    m: A,
    after: BhTree<A>,
    star: Body,
    absorb: spec_fn(A, usize, A) -> bool,
) -> bool {
    after matches BhTree::Leaf(s, i2, m2) && s == stars.push(star) && i2 == i && absorb(m, star.id, m2)
}

/// What pushing `star` (created with index `idx`, at insertion depth
/// `depth`) into the tree `before`, standing at subdivision `level`, gives,
/// given the simulation's answers:
/// - an empty box becomes a leaf of the star, with index `idx` and summary
///   `single(star)`;
/// - an internal box passes the star to the child of its quadrant one level
///   and one depth further, leaves the other children as they were, and
///   absorbs the star into its summary;
/// - a leaf at depth `MAX_DEPTH` or more, or holding two stars or more,
///   appends the star and absorbs it; so does a leaf whose first star
///   coincides with the new one;
/// - any other leaf (whose first star does not coincide with the new one)
///   becomes a just split box into which its first star, with the leaf's
///   index, and then the new star, with `idx`, are pushed one depth further.
pub open spec fn pushed<A>(
    before: BhTree<A>,
    after: BhTree<A>,
    star: Body,
    level: int,
    idx: usize,
    depth: int,
    single: spec_fn(usize, A) -> bool,
    empty: A,
    absorb: spec_fn(A, usize, A) -> bool,
    coincide: spec_fn(usize, usize, bool) -> bool,
) -> bool
    decreases PATH_LEN - level, MAX_DEPTH - depth,
{
    match before {
        BhTree::Empty => after matches BhTree::Leaf(s, i, m) && s == seq![star] && i == idx && single(star.id, m),
        BhTree::Internal(m, a, b, c, d) => {
            if level < PATH_LEN {
                let q = star.quadrant_at(level);
                &&& after matches BhTree::Internal(m2, a2, b2, c2, d2) && {
                    &&& absorb(m, star.id, m2)
                    &&& if q == Quadrant::LowXLowY {
                        pushed(*a, *a2, star, level + 1, idx, depth + 1, single, empty, absorb, coincide)
                    } else {
                        a2 == a
                    }
                    &&& if q == Quadrant::HighXLowY {
                        pushed(*b, *b2, star, level + 1, idx, depth + 1, single, empty, absorb, coincide)
                    } else {
                        b2 == b
                    }
                    &&& if q == Quadrant::LowXHighY {
                        pushed(*c, *c2, star, level + 1, idx, depth + 1, single, empty, absorb, coincide)
                    } else {
                        c2 == c
                    }
                    &&& if q == Quadrant::HighXHighY {
                        pushed(*d, *d2, star, level + 1, idx, depth + 1, single, empty, absorb, coincide)
                    } else {
                        d2 == d
                    }
                }
            } else {
                false
            }
        },
        BhTree::Leaf(stars, i, m) => {
            if depth >= MAX_DEPTH || stars.len() >= 2 {
                appended(stars, i, m, after, star, absorb)
            } else {
                ||| coincide(stars[0].id, star.id, true) && appended(stars, i, m, after, star, absorb)
                ||| coincide(stars[0].id, star.id, false) && exists|mid: BhTree<A>|
                    #![trigger stage(mid)]
                    stage(mid) && pushed(split_box(empty), mid, stars[0], level, i, depth + 1, single, empty, absorb, coincide)
                        && pushed(mid, after, star, level, idx, depth + 1, single, empty, absorb, coincide)
            }
        },
    }
}

proof fn lemma_single_leaf<A>(star: Body, idx: usize, m: A, level: nat)
    ensures
        push_outcome(BhTree::<A>::Empty, BhTree::Leaf(seq![star], idx, m), star, level),
{
    broadcast use vstd::seq_lib::group_to_multiset_ensures;

    assert(seq![star].map_values(|s: Body| s.id) =~= Seq::<usize>::empty().push(star.id));
    assert(Seq::<usize>::empty().to_multiset() =~= Multiset::empty());
    assert(BhTree::<A>::Empty.ids() =~= Seq::<usize>::empty());
    assert forall|cell: Seq<Quadrant>| #![trigger BhTree::Leaf(seq![star], idx, m).placed(cell)]
        cell.len() == level && star.in_cell(cell) implies BhTree::Leaf(seq![star], idx, m).placed(cell) by {
        assert(seq![star][0] == star);
    }
}

proof fn lemma_leaf_append<A>(before: BhTree<A>, star: Body, m2: A, level: nat)
    requires
        before is Leaf,
        before->Leaf_0.len() > 0,
    ensures
        push_outcome(before, BhTree::Leaf(before->Leaf_0.push(star), before->Leaf_1, m2), star, level),
{
    broadcast use vstd::seq_lib::group_to_multiset_ensures;

    match before {
        BhTree::Leaf(stars, idx, m) => {
            assert(stars.push(star).map_values(|s: Body| s.id) =~= stars.map_values(|s: Body| s.id).push(star.id));
            let after = BhTree::Leaf(stars.push(star), idx, m2);
            assert forall|cell: Seq<Quadrant>| #![trigger after.placed(cell)]
                cell.len() == level && before.placed(cell) && star.in_cell(cell)
                implies after.placed(cell) by {
                let r = stars.push(star);
                assert forall|i: int| 0 <= i < r.len() implies #[trigger] r[i].in_cell(cell) by {
                    if i < stars.len() {
                        assert(r[i] == stars[i]);
                    } else {
                        assert(r[i] == star);
                    }
                }
            }
        },
        _ => {},
    }
}

proof fn lemma_child_cell(star: Body, cell: Seq<Quadrant>)
    requires
        star.in_cell(cell),
        cell.len() < PATH_LEN,
    ensures
        star.in_cell(cell.push(star.quadrant_at(cell.len() as int))),
{
    let child_cell = cell.push(star.quadrant_at(cell.len() as int));
    assert forall|i: int| 0 <= i < child_cell.len() implies #[trigger] star.path@[i] == child_cell[i] by {
        if i < cell.len() {
            assert(star.path@[i] == cell[i]);
        }
    }
}

impl<A> Node<A> {
    /// An empty box.
    pub fn new() -> (node: Node<A>)
        ensures
            node@ == BhTree::<A>::Empty,
    {
        Node::Empty
    }
}

impl<A: Copy> Node<A> {
    /// Pushes `star`, created with index `idx`, into the tree standing at
    /// subdivision level `level`, at insertion depth `depth`, as [`pushed`]
    /// says. The body records the quadrant of the star at each of the first
    /// `PATH_LEN` levels only, so the star cannot be routed below that level:
    /// `level <= depth` and the bound on `depth - level` say that the depth
    /// at which leaves stop splitting is reached no later than that level.
    pub fn push<S: Fn(usize) -> A, Ab: Fn(&A, usize) -> A, Co: Fn(usize, usize) -> bool>(
        &mut self,
        star: Body,
        level: usize,
        idx: usize,
        depth: usize,
        field: &StarField<A, S, Ab, Co>,
    )
        requires
            old(self)@.shaped(level as nat),
            level <= depth,
            depth - level <= usize::MAX - PATH_LEN,
            field.callable(),
        ensures
            push_outcome(old(self)@, final(self)@, star, level as nat),
            field.pushes(old(self)@, final(self)@, star, level as int, idx, depth as int),
        decreases PATH_LEN - level, MAX_DEPTH - depth,
    {
        broadcast use vstd::multiset::group_multiset_axioms;
        broadcast use vstd::seq_lib::group_to_multiset_ensures;

        let ghost before = old(self)@;
        match self {
            Node::Empty => {
                let mut v: Vec<Body> = Vec::new();
                v.push(star);
                let m = (field.single)(star.id);
                proof {
                    assert(v@ =~= seq![star]);
                    lemma_single_leaf(star, idx, m, level as nat);
                }
                *self = Node::Leaf { star: v, idx, com_mass: m };
            },
            Node::Internal { com_mass, q0, q1, q2, q3 } => {
                let q = star.path[level];
                let ghost (a, b, c, d) = (q0@, q1@, q2@, q3@);
                let ghost m = *com_mass;
                match q {
                    Quadrant::LowXLowY => q0.push(star, level + 1, idx, depth + 1, field),
                    Quadrant::HighXLowY => q1.push(star, level + 1, idx, depth + 1, field),
                    Quadrant::LowXHighY => q2.push(star, level + 1, idx, depth + 1, field),
                    Quadrant::HighXHighY => q3.push(star, level + 1, idx, depth + 1, field),
                }
                let m2 = (field.absorb)(&*com_mass, star.id);
                *com_mass = m2;
                proof {
                    lemma_ids_of_quarters(a.ids(), b.ids(), c.ids(), d.ids());
                    lemma_ids_of_quarters(q0@.ids(), q1@.ids(), q2@.ids(), q3@.ids());
                    let after = BhTree::Internal(*com_mass, Box::new(q0@), Box::new(q1@), Box::new(q2@), Box::new(q3@));
                    assert(star.quadrant_at(level as int) == q);
                    match q {
                        Quadrant::LowXLowY => assert(field.pushes(a, q0@, star, level as int + 1, idx, depth as int + 1)),
                        Quadrant::HighXLowY => assert(field.pushes(b, q1@, star, level as int + 1, idx, depth as int + 1)),
                        Quadrant::LowXHighY => assert(field.pushes(c, q2@, star, level as int + 1, idx, depth as int + 1)),
                        Quadrant::HighXHighY => assert(field.pushes(d, q3@, star, level as int + 1, idx, depth as int + 1)),
                    }
                    assert(field.absorb_rel()(m, star.id, *com_mass));
                    assert(field.pushes(before, after, star, level as int, idx, depth as int));
                    assert forall|cell: Seq<Quadrant>| #![trigger after.placed(cell)]
                        cell.len() == level && before.placed(cell) && star.in_cell(cell)
                        implies after.placed(cell) by {
                        lemma_child_cell(star, cell);
                        let cc = cell.push(q);
                        match q {
                            Quadrant::LowXLowY => assert(q0@.placed(cc)),
                            Quadrant::HighXLowY => assert(q1@.placed(cc)),
                            Quadrant::LowXHighY => assert(q2@.placed(cc)),
                            Quadrant::HighXHighY => assert(q3@.placed(cc)),
                        }
                    }
                }
            },
            Node::Leaf { star: old_star, idx: old_idx, com_mass } => {
                let append = if depth >= MAX_DEPTH || old_star.len() >= 2 {
                    true
                } else {
                    (field.coincide)(old_star[0].id, star.id)
                };
                if append {
                    let ghost m = *com_mass;
                    old_star.push(star);
                    let m2 = (field.absorb)(&*com_mass, star.id);
                    *com_mass = m2;
                    proof {
                        lemma_leaf_append(before, star, *com_mass, level as nat);
                    }
                    return;
                }
                let first = old_star[0];
                let first_idx = *old_idx;
                let ghost stars = old_star@;
                let mut nn: Node<A> = Node::Internal {
                    com_mass: field.empty,
                    q0: Box::new(Node::Empty),
                    q1: Box::new(Node::Empty),
                    q2: Box::new(Node::Empty),
                    q3: Box::new(Node::Empty),
                };
                let ghost fresh = nn@;
                proof {
                    assert(Node::<A>::Empty.model() == BhTree::<A>::Empty);
                    assert(fresh == split_box(field.empty));
                    assert(BhTree::<A>::Empty.shaped((level + 1) as nat));
                    assert(BhTree::<A>::Empty.dense_below());
                    assert(fresh.dense_below());
                    assert(stars =~= seq![first]);
                }
                nn.push(first, level, first_idx, depth + 1, field);
                let ghost mid = nn@;
                nn.push(star, level, idx, depth + 1, field);
                proof {
                    broadcast use vstd::seq_lib::group_to_multiset_ensures;

                    assert(BhTree::<A>::Empty.ids() =~= Seq::<usize>::empty());
                    assert(fresh.ids() =~= Seq::<usize>::empty());
                    assert(Seq::<usize>::empty().to_multiset() =~= Multiset::empty());
                    assert(stars.map_values(|s: Body| s.id) =~= Seq::<usize>::empty().push(first.id));
                    let after = nn@;
                    assert(stars[0] == first);
                    assert(field.pushes(split_box(field.empty), mid, stars[0], level as int, first_idx, depth as int + 1));
                    assert(field.pushes(mid, after, star, level as int, idx, depth as int + 1));
                    assert(field.coincide_rel()(stars[0].id, star.id, false));
                    assert(stage(mid));
                    assert(field.pushes(before, after, star, level as int, idx, depth as int));
                    assert forall|cell: Seq<Quadrant>| #![trigger after.placed(cell)]
                        cell.len() == level && before.placed(cell) && star.in_cell(cell)
                        implies after.placed(cell) by {
                        assert(first.in_cell(cell));
                        let e = BhTree::<A>::Empty;
                        assert(e.placed(cell.push(Quadrant::LowXLowY)));
                        assert(e.placed(cell.push(Quadrant::HighXLowY)));
                        assert(e.placed(cell.push(Quadrant::LowXHighY)));
                        assert(e.placed(cell.push(Quadrant::HighXHighY)));
                        assert(fresh.placed(cell));
                        assert(mid.placed(cell));
                    }
                }
                *self = nn;
            },
        }
    }
}


/// Names a summary at an intermediate stage of a fold.
pub open spec fn summary_stage<A>(m: A) -> bool {
    true
}

/// Whether `m` is `start` with the stars `ids` absorbed one after the
/// other, `absorb` answering.
pub open spec fn folded<A>(absorb: spec_fn(A, usize, A) -> bool, start: A, ids: Seq<usize>, m: A) -> bool
    decreases ids.len(),
{
    if ids.len() == 0 {
        m == start
    } else {
        exists|prev: A|
            #![trigger summary_stage(prev)]
            summary_stage(prev) && folded(absorb, start, ids.drop_last(), prev) && absorb(prev, ids.last(), m)
    }
}

/// The stars that fall in quadrant `q` at subdivision `level`.
pub open spec fn in_quadrant(level: int, q: Quadrant) -> spec_fn(Body) -> bool {
    |b: Body| b.quadrant_at(level) == q
}

/// The indices of the stars.
pub open spec fn ids_of(stars: Seq<Body>) -> Seq<usize> {
    stars.map_values(|s: Body| s.id)
}

/// Whether every box of `t`, standing at subdivision `level` and holding
/// the stars `local` in the order they were pushed, summarises exactly its
/// stars in that order: an empty box holds none; a leaf holds `local` and
/// its summary is `single` of its first star with the others absorbed one
/// after the other; an internal box's summary is `empty` with all of
/// `local` absorbed one after the other, and each child holds the stars of
/// `local` in its quadrant.
pub open spec fn summarises<A>(
    t: BhTree<A>,
    level: int,
    local: Seq<Body>,
    single: spec_fn(usize, A) -> bool,
    empty: A,
    absorb: spec_fn(A, usize, A) -> bool,
) -> bool
    decreases t,
{
    match t {
        BhTree::Empty => local.len() == 0,
        BhTree::Leaf(ls, _, m) => {
            &&& ls == local
            &&& ls.len() > 0
            &&& exists|m0: A|
                #![trigger summary_stage(m0)]
                summary_stage(m0) && single(ls[0].id, m0) && folded(absorb, m0, ids_of(ls).drop_first(), m)
        },
        BhTree::Internal(m, a, b, c, d) => {
            &&& folded(absorb, empty, ids_of(local), m)
            &&& summarises(*a, level + 1, local.filter(in_quadrant(level, Quadrant::LowXLowY)), single, empty, absorb)
            &&& summarises(*b, level + 1, local.filter(in_quadrant(level, Quadrant::HighXLowY)), single, empty, absorb)
            &&& summarises(*c, level + 1, local.filter(in_quadrant(level, Quadrant::LowXHighY)), single, empty, absorb)
            &&& summarises(*d, level + 1, local.filter(in_quadrant(level, Quadrant::HighXHighY)), single, empty, absorb)
        },
    }
}

proof fn lemma_filter_push(local: Seq<Body>, star: Body, p: spec_fn(Body) -> bool)
    ensures
        local.push(star).filter(p) == if p(star) {
            local.filter(p).push(star)
        } else {
            local.filter(p)
        },
{
    reveal(Seq::filter);
    assert(local.push(star).drop_last() =~= local);
}

proof fn lemma_filter_empty(p: spec_fn(Body) -> bool)
    ensures
        Seq::<Body>::empty().filter(p) == Seq::<Body>::empty(),
{
    reveal(Seq::filter);
}

proof fn lemma_folded_step<A>(absorb: spec_fn(A, usize, A) -> bool, start: A, ids: Seq<usize>, m: A, id: usize, m2: A)
    requires
        folded(absorb, start, ids, m),
        absorb(m, id, m2),
    ensures
        folded(absorb, start, ids.push(id), m2),
{
    assert(ids.push(id).drop_last() =~= ids);
    assert(summary_stage(m));
}

/// Pushing a star keeps every box summarising exactly its stars, in the
/// order they were pushed: the box that the star joins absorbs it last.
pub proof fn lemma_push_summarises<A>(
    before: BhTree<A>,
    after: BhTree<A>,
    star: Body,
    level: int,
    idx: usize,
    depth: int,
    single: spec_fn(usize, A) -> bool,
    empty: A,
    absorb: spec_fn(A, usize, A) -> bool,
    coincide: spec_fn(usize, usize, bool) -> bool,
    local: Seq<Body>,
)
    requires
        pushed(before, after, star, level, idx, depth, single, empty, absorb, coincide),
        summarises(before, level, local, single, empty, absorb),
    ensures
        summarises(after, level, local.push(star), single, empty, absorb),
    decreases PATH_LEN - level, MAX_DEPTH - depth,
{
    let all = local.push(star);
    assert(ids_of(all) =~= ids_of(local).push(star.id));
    match before {
        BhTree::Empty => {
            assert(all =~= seq![star]);
            let m = after->Leaf_2;
            assert(ids_of(all).drop_first() =~= Seq::<usize>::empty());
            assert(summary_stage(m));
        },
        BhTree::Internal(m, a, b, c, d) => {
            let q = star.quadrant_at(level);
            let m2 = after->Internal_0;
            lemma_folded_step(absorb, empty, ids_of(local), m, star.id, m2);
            let qs = seq![Quadrant::LowXLowY, Quadrant::HighXLowY, Quadrant::LowXHighY, Quadrant::HighXHighY];
            assert forall|k: int| 0 <= k < 4 implies #[trigger] all.filter(in_quadrant(level, qs[k]))
                == (if qs[k] == q { local.filter(in_quadrant(level, qs[k])).push(star) } else { local.filter(in_quadrant(level, qs[k])) }) by {
                lemma_filter_push(local, star, in_quadrant(level, qs[k]));
            }
            assert(qs[0] == Quadrant::LowXLowY && qs[1] == Quadrant::HighXLowY && qs[2] == Quadrant::LowXHighY && qs[3] == Quadrant::HighXHighY);
            if q == Quadrant::LowXLowY {
                lemma_push_summarises(*a, *after->Internal_1, star, level + 1, idx, depth + 1, single, empty, absorb, coincide, local.filter(in_quadrant(level, q)));
            } else if q == Quadrant::HighXLowY {
                lemma_push_summarises(*b, *after->Internal_2, star, level + 1, idx, depth + 1, single, empty, absorb, coincide, local.filter(in_quadrant(level, q)));
            } else if q == Quadrant::LowXHighY {
                lemma_push_summarises(*c, *after->Internal_3, star, level + 1, idx, depth + 1, single, empty, absorb, coincide, local.filter(in_quadrant(level, q)));
            } else {
                lemma_push_summarises(*d, *after->Internal_4, star, level + 1, idx, depth + 1, single, empty, absorb, coincide, local.filter(in_quadrant(level, q)));
            }
        },
        BhTree::Leaf(ls, i, m) => {
            let m0 = choose|m0: A| #![trigger summary_stage(m0)] summary_stage(m0) && single(ls[0].id, m0) && folded(absorb, m0, ids_of(ls).drop_first(), m);
            if after is Leaf && after->Leaf_0 == ls.push(star) && after->Leaf_1 == i && absorb(m, star.id, after->Leaf_2) {
                let m2 = after->Leaf_2;
                assert(ids_of(ls.push(star)).drop_first() =~= ids_of(ls).drop_first().push(star.id));
                lemma_folded_step(absorb, m0, ids_of(ls).drop_first(), m, star.id, m2);
                assert(ls.push(star)[0] == ls[0]);
                assert(summary_stage(m0));
            } else {
                assert(!(depth >= MAX_DEPTH || ls.len() >= 2));
                assert(coincide(ls[0].id, star.id, false));
                let mid = choose|mid: BhTree<A>|
                    #![trigger stage(mid)]
                    stage(mid) && pushed(split_box(empty), mid, ls[0], level, i, depth + 1, single, empty, absorb, coincide)
                        && pushed(mid, after, star, level, idx, depth + 1, single, empty, absorb, coincide);
                let none = Seq::<Body>::empty();
                lemma_filter_empty(in_quadrant(level, Quadrant::LowXLowY));
                lemma_filter_empty(in_quadrant(level, Quadrant::HighXLowY));
                lemma_filter_empty(in_quadrant(level, Quadrant::LowXHighY));
                lemma_filter_empty(in_quadrant(level, Quadrant::HighXHighY));
                assert(ids_of(none) =~= Seq::<usize>::empty());
                assert(folded(absorb, empty, ids_of(none), empty));
                assert(summarises(BhTree::<A>::Empty, level + 1, none.filter(in_quadrant(level, Quadrant::LowXLowY)), single, empty, absorb));
                assert(summarises(BhTree::<A>::Empty, level + 1, none.filter(in_quadrant(level, Quadrant::HighXLowY)), single, empty, absorb));
                assert(summarises(BhTree::<A>::Empty, level + 1, none.filter(in_quadrant(level, Quadrant::LowXHighY)), single, empty, absorb));
                assert(summarises(BhTree::<A>::Empty, level + 1, none.filter(in_quadrant(level, Quadrant::HighXHighY)), single, empty, absorb));
                assert(summarises(split_box(empty), level, none, single, empty, absorb));
                lemma_push_summarises(split_box(empty), mid, ls[0], level, i, depth + 1, single, empty, absorb, coincide, none);
                assert(none.push(ls[0]) =~= local);
                lemma_push_summarises(mid, after, star, level, idx, depth + 1, single, empty, absorb, coincide, local);
            }
        },
    }
}

/// Whether `tree` is what pushing `stars` one after the other into an empty
/// box, each from level 0 and depth 0 with its position as its index, gives
/// with the simulation's answers.
pub open spec fn built<A>(
    stars: Seq<Body>,
    tree: BhTree<A>,
    single: spec_fn(usize, A) -> bool,
    empty: A,
    absorb: spec_fn(A, usize, A) -> bool,
    coincide: spec_fn(usize, usize, bool) -> bool,
) -> bool
    decreases stars.len(),
{
    if stars.len() == 0 {
        tree == BhTree::<A>::Empty
    } else {
        exists|prev: BhTree<A>|
            #![trigger stage(prev)]
            stage(prev) && built(stars.drop_last(), prev, single, empty, absorb, coincide) && pushed(
                prev,
                tree,
                stars.last(),
                0,
                (stars.len() - 1) as usize,
                0,
                single,
                empty,
                absorb,
                coincide,
            )
    }
}

/// Builds the tree of `stars`: an empty box into which each star is pushed
/// from level 0 and depth 0, with its position in `stars` as its index. The
/// tree holds every star, each in the box of its leaf, every split box holds
/// at least two stars, and every box summarises exactly its stars in the
/// order of `stars`.
pub fn create_network<A: Copy, S: Fn(usize) -> A, Ab: Fn(&A, usize) -> A, Co: Fn(usize, usize) -> bool>(
    stars: &Vec<Body>,
    field: &StarField<A, S, Ab, Co>,
) -> (network: Node<A>)
    requires
        field.callable(),
    ensures
        field.builds(stars@, network@),
        field.summarised(network@, stars@),
        network@.shaped(0),
        network@.ids().to_multiset() =~= stars@.map_values(|s: Body| s.id).to_multiset(),
        network@.placed(Seq::empty()),
        network@.dense_below(),
        network@ is Internal ==> network@.ids().len() >= 2,
{
    broadcast use vstd::seq_lib::group_to_multiset_ensures;

    let mut first_node: Node<A> = Node::new();
    proof {
        assert(first_node@.ids() =~= Seq::<usize>::empty());
        assert(stars@.take(0).map_values(|s: Body| s.id) =~= Seq::<usize>::empty());
        assert(stars@.take(0).len() == 0);
    }
    let mut i: usize = 0;
    while i < stars.len()
        invariant
            i <= stars@.len(),
            field.callable(),
            field.builds(stars@.take(i as int), first_node@),
            field.summarised(first_node@, stars@.take(i as int)),
            first_node@.shaped(0),
            first_node@.ids().to_multiset() =~= stars@.take(i as int).map_values(|s: Body| s.id).to_multiset(),
            first_node@.placed(Seq::empty()),
            first_node@.dense_below(),
            first_node@ is Internal ==> first_node@.ids().len() >= 2,
        decreases stars@.len() - i,
    {
        let ghost before = first_node@;
        proof {
            assert(stars@[i as int].in_cell(Seq::empty()));
            assert(stars@.take(i + 1).map_values(|s: Body| s.id) =~= stars@.take(i as int).map_values(
                |s: Body| s.id,
            ).push(stars@[i as int].id));
        }
        first_node.push(stars[i], 0, i, 0, field);
        proof {
            assert(first_node@.placed(Seq::empty()));
            let prev = stars@.take(i as int).map_values(|s: Body| s.id);
            vstd::seq_lib::to_multiset_build(prev, stars@[i as int].id);
            assert(first_node@.ids().to_multiset() =~= prev.push(stars@[i as int].id).to_multiset());
            let t = stars@.take(i + 1);
            assert(t.drop_last() =~= stars@.take(i as int));
            assert(t.last() == stars@[i as int]);
            assert(field.builds(t.drop_last(), before));
            assert(stage(before));
            assert(t.len() == i + 1);
            assert(field.pushes(before, first_node@, t.last(), 0, (t.len() - 1) as usize, 0));
            lemma_push_summarises(
                before,
                first_node@,
                stars@[i as int],
                0,
                i,
                0,
                field.single_rel(),
                field.empty,
                field.absorb_rel(),
                field.coincide_rel(),
                stars@.take(i as int),
            );
            assert(stars@.take(i as int).push(stars@[i as int]) =~= t);
        }
        i = i + 1;
    }
    proof {
        assert(stars@.take(i as int) =~= stars@);
    }
    first_node
}


/// What the force walk gives for a tree: the terms stand, one after the
/// other, for exactly the stars of the tree in tree order (so every star
/// pulls once, on its own or inside one box), and every box term is a box
/// of the tree with its summary and its stars.
pub open spec fn pulls_of<A>(tree: BhTree<A>, pulls: Seq<Pull<A>>) -> bool {
    &&& covered(pulls) == tree.ids()
    &&& forall|i: int|
        0 <= i < pulls.len() ==> (#[trigger] pulls[i] matches Pull::Summary(m, ids) ==> tree.has_box(m, ids@))
}

proof fn lemma_pulls_of_quarters<A>(
    m: A,
    a: BhTree<A>, b: BhTree<A>, c: BhTree<A>, d: BhTree<A>,
    pa: Seq<Pull<A>>, pb: Seq<Pull<A>>, pc: Seq<Pull<A>>, pd: Seq<Pull<A>>,
)
    requires
        pulls_of(a, pa),
        pulls_of(b, pb),
        pulls_of(c, pc),
        pulls_of(d, pd),
    ensures
        pulls_of(
            BhTree::Internal(m, Box::new(a), Box::new(b), Box::new(c), Box::new(d)),
            pa + pb + pc + pd,
        ),
{
    let t = BhTree::Internal(m, Box::new(a), Box::new(b), Box::new(c), Box::new(d));
    lemma_covered_concat(pa, pb);
    lemma_covered_concat(pa + pb, pc);
    lemma_covered_concat(pa + pb + pc, pd);
    let all = pa + pb + pc + pd;
    assert forall|i: int| 0 <= i < all.len() implies (#[trigger] all[i] matches Pull::Summary(s, ids) ==> t.has_box(s, ids@)) by {
        if i < pa.len() {
            assert(all[i] == pa[i]);
        } else if i < pa.len() + pb.len() {
            assert(all[i] == pb[i - pa.len()]);
        } else if i < pa.len() + pb.len() + pc.len() {
            assert(all[i] == pc[i - pa.len() - pb.len()]);
        } else {
            assert(all[i] == pd[i - pa.len() - pb.len() - pc.len()]);
        }
    }
}

/// Whether `pulls` is the one term of a box with summary `m` holding the
/// stars `ids`.
pub open spec fn one_summary<A>(pulls: Seq<Pull<A>>, m: A, ids: Seq<usize>) -> bool {
    &&& pulls.len() == 1
    &&& pulls[0] matches Pull::Summary(m2, ids2) && m2 == m && ids2@ == ids
}

/// Whether `pulls` is what the force walk gives for the tree `t`, standing
/// at subdivision `level`, with the probe's answers: an empty box gives
/// nothing; an internal box that the probe opens gives the terms of its
/// children in quadrant order, one that it does not open gives itself as one
/// body; a leaf that the probe opens gives its stars one by one, one that it
/// does not open gives itself as one body.
pub open spec fn walked<A>(
    t: BhTree<A>,
    level: usize,
    opens_box: spec_fn(A, usize, bool) -> bool,
    opens_leaf: spec_fn(A, usize, bool) -> bool,
    pulls: Seq<Pull<A>>,
) -> bool
    decreases t,
{
    match t {
        BhTree::Empty => pulls.len() == 0,
        BhTree::Internal(m, a, b, c, d) => {
            ||| opens_box(m, level, false) && one_summary(pulls, m, t.ids())
            ||| opens_box(m, level, true) && level < usize::MAX && exists|i: int, j: int, k: int|
                #![trigger pulls.subrange(0, i), pulls.subrange(i, j), pulls.subrange(j, k)]
                0 <= i <= j <= k <= pulls.len()
                    && walked(*a, (level + 1) as usize, opens_box, opens_leaf, pulls.subrange(0, i))
                    && walked(*b, (level + 1) as usize, opens_box, opens_leaf, pulls.subrange(i, j))
                    && walked(*c, (level + 1) as usize, opens_box, opens_leaf, pulls.subrange(j, k))
                    && walked(*d, (level + 1) as usize, opens_box, opens_leaf, pulls.subrange(k, pulls.len() as int))
        },
        BhTree::Leaf(stars, _, m) => {
            ||| opens_leaf(m, level, false) && one_summary(pulls, m, t.ids())
            ||| opens_leaf(m, level, true) && pulls == stars.map_values(|s: Body| Pull::<A>::Star(s.id))
        },
    }
}

impl<A: Copy> Node<A> {
    /// The terms of the pull on the star that `probe` stands for, from the
    /// tree standing at subdivision `level`, in the order of the walk: an
    /// empty box gives nothing; an internal box that the probe opens gives
    /// the terms of its children in quadrant order, and otherwise itself as
    /// one body; a leaf that the probe opens gives its stars one by one, and
    /// otherwise itself as one body.
    pub fn pulls<B: Fn(&A, usize) -> bool, L: Fn(&A, usize) -> bool>(
        &self,
        level: usize,
        probe: &Probe<B, L>,
    ) -> (pulls: Vec<Pull<A>>)
        requires
            self@.shaped(level as nat),
            probe.callable(),
        ensures
            probe.walks(self@, level, pulls@),
            pulls_of(self@, pulls@),
        decreases self,
    {
        let mut pulls: Vec<Pull<A>> = Vec::new();
        match self {
            Node::Empty => {
                proof {
                    assert(pulls@ =~= Seq::<Pull<A>>::empty());
                }
            },
            Node::Internal { com_mass, q0, q1, q2, q3 } => {
                if (probe.opens_box)(com_mass, level) {
                    let mut a = q0.pulls(level + 1, probe);
                    let mut b = q1.pulls(level + 1, probe);
                    let mut c = q2.pulls(level + 1, probe);
                    let mut d = q3.pulls(level + 1, probe);
                    let ghost (sa, sb, sc, sd) = (a@, b@, c@, d@);
                    proof {
                        lemma_pulls_of_quarters(*com_mass, q0@, q1@, q2@, q3@, a@, b@, c@, d@);
                        assert(pulls@ + a@ + b@ + c@ + d@ =~= a@ + b@ + c@ + d@);
                    }
                    pulls.append(&mut a);
                    pulls.append(&mut b);
                    pulls.append(&mut c);
                    pulls.append(&mut d);
                    proof {
                        let all = pulls@;
                        let i = sa.len() as int;
                        let j = i + sb.len();
                        let k = j + sc.len();
                        assert(all =~= sa + sb + sc + sd);
                        assert(all.subrange(0, i) =~= sa);
                        assert(all.subrange(i, j) =~= sb);
                        assert(all.subrange(j, k) =~= sc);
                        assert(all.subrange(k, all.len() as int) =~= sd);
                    }
                } else {
                    pulls.push(Pull::Summary(*com_mass, Ghost(self@.ids())));
                    proof {
                        assert(pulls@.drop_last() =~= Seq::<Pull<A>>::empty());
                        assert(covered(Seq::<Pull<A>>::empty()) =~= Seq::<usize>::empty());
                        assert(pulls@.last() == Pull::Summary(*com_mass, Ghost(self@.ids())));
                        assert(pulls@.last().covers() =~= self@.ids());
                        assert(covered(pulls@) =~= self@.ids());
                    }
                }
            },
            Node::Leaf { star, com_mass, .. } => {
                if (probe.opens_leaf)(com_mass, level) {
                    let mut i: usize = 0;
                    while i < star.len()
                        invariant
                            i <= star@.len(),
                            pulls@.len() == i,
                            covered(pulls@) =~= star@.take(i as int).map_values(|s: Body| s.id),
                            forall|j: int| 0 <= j < i ==> #[trigger] pulls@[j] == Pull::<A>::Star(star@[j].id),
                        decreases star@.len() - i,
                    {
                        let ghost before = pulls@;
                        pulls.push(Pull::Star(star[i].id));
                        proof {
                            assert(pulls@.drop_last() =~= before);
                            assert(star@.take(i + 1).map_values(|s: Body| s.id)
                                =~= star@.take(i as int).map_values(|s: Body| s.id).push(star@[i as int].id));
                        }
                        i = i + 1;
                    }
                    proof {
                        assert(star@.take(i as int) =~= star@);
                        assert(pulls@ =~= star@.map_values(|s: Body| Pull::<A>::Star(s.id)));
                    }
                } else {
                    pulls.push(Pull::Summary(*com_mass, Ghost(self@.ids())));
                    proof {
                        assert(pulls@.drop_last() =~= Seq::<Pull<A>>::empty());
                        assert(covered(Seq::<Pull<A>>::empty()) =~= Seq::<usize>::empty());
                        assert(pulls@.last() == Pull::Summary(*com_mass, Ghost(self@.ids())));
                        assert(pulls@.last().covers() =~= self@.ids());
                        assert(covered(pulls@) =~= self@.ids());
                    }
                }
            },
        }
        pulls
    }
}

/// Whether the term `p` of the walk over `t`, standing at subdivision
/// `level`, comes from a box of `t`, the probe having been asked about that
/// box at the box's own level: a summary term is the summary and the stars
/// of a box reached by some `d` that the probe did not open at level
/// `level + d.len()`; a star term is a star of a leaf reached by some `d`
/// that the probe opened at level `level + d.len()`.
pub open spec fn term_of_box<A>(
    t: BhTree<A>,
    level: usize,
    opens_box: spec_fn(A, usize, bool) -> bool,
    opens_leaf: spec_fn(A, usize, bool) -> bool,
    p: Pull<A>,
) -> bool {
    match p {
        Pull::Summary(m, ids) => exists|d: Seq<Quadrant>|
            #![trigger t.at(d)]
            {
                &&& t.at(d).ids() == ids@
                &&& (t.at(d) matches BhTree::Internal(m2, _, _, _, _) && m2 == m && opens_box(m, (level + d.len()) as usize, false))
                    || (t.at(d) matches BhTree::Leaf(_, _, m2) && m2 == m && opens_leaf(m, (level + d.len()) as usize, false))
            },
        Pull::Star(id) => exists|d: Seq<Quadrant>, j: int|
            #![trigger t.at(d), t.at(d)->Leaf_0[j]]
            t.at(d) matches BhTree::Leaf(stars, _, m) && 0 <= j < stars.len() && stars[j].id == id && opens_leaf(
                m,
                (level + d.len()) as usize,
                true,
            ),
    }
}

proof fn lemma_term_from_child<A>(
    t: BhTree<A>,
    q: Quadrant,
    level: usize,
    opens_box: spec_fn(A, usize, bool) -> bool,
    opens_leaf: spec_fn(A, usize, bool) -> bool,
    p: Pull<A>,
)
    requires
        t is Internal,
        level < usize::MAX,
        term_of_box(t.child(q), (level + 1) as usize, opens_box, opens_leaf, p),
    ensures
        term_of_box(t, level, opens_box, opens_leaf, p),
{
    match p {
        Pull::Summary(m, ids) => {
            let d0 = choose|d: Seq<Quadrant>|
                #![trigger t.child(q).at(d)]
                {
                    &&& t.child(q).at(d).ids() == ids@
                    &&& (t.child(q).at(d) matches BhTree::Internal(m2, _, _, _, _) && m2 == m && opens_box(m, ((level + 1) as usize + d.len()) as usize, false))
                        || (t.child(q).at(d) matches BhTree::Leaf(_, _, m2) && m2 == m && opens_leaf(m, ((level + 1) as usize + d.len()) as usize, false))
                };
            let d = seq![q] + d0;
            assert(d[0] == q);
            assert(d.drop_first() =~= d0);
            assert(t.at(d) == t.child(q).at(d0));
            assert(((level + 1) as usize + d0.len()) as usize == (level + d.len()) as usize);
        },
        Pull::Star(id) => {
            let (d0, j) = choose|d: Seq<Quadrant>, j: int|
                #![trigger t.child(q).at(d), t.child(q).at(d)->Leaf_0[j]]
                t.child(q).at(d) matches BhTree::Leaf(stars, _, m) && 0 <= j < stars.len() && stars[j].id == id
                    && opens_leaf(m, ((level + 1) as usize + d.len()) as usize, true);
            let d = seq![q] + d0;
            assert(d[0] == q);
            assert(d.drop_first() =~= d0);
            assert(t.at(d) == t.child(q).at(d0));
            assert(((level + 1) as usize + d0.len()) as usize == (level + d.len()) as usize);
            assert(t.at(d)->Leaf_0[j].id == id);
        },
    }
}

/// The force walk asks the probe about every box at that box's own level:
/// each term of the walk over a tree standing at subdivision `level` is a
/// box of the tree, reached by some `d`, that the probe answered about at
/// level `level + d.len()` (not opened for a summary, opened for a star).
pub proof fn lemma_walk_asks_each_box_at_its_level<A>(
    t: BhTree<A>,
    level: usize,
    opens_box: spec_fn(A, usize, bool) -> bool,
    opens_leaf: spec_fn(A, usize, bool) -> bool,
    pulls: Seq<Pull<A>>,
)
    requires
        walked(t, level, opens_box, opens_leaf, pulls),
    ensures
        forall|i: int| 0 <= i < pulls.len() ==> term_of_box(t, level, opens_box, opens_leaf, #[trigger] pulls[i]),
    decreases t,
{
    let e = Seq::<Quadrant>::empty();
    assert(t.at(e) == t);
    assert((level + e.len()) as usize == level);
    match t {
        BhTree::Empty => {},
        BhTree::Leaf(stars, _, m) => {
            if opens_leaf(m, level, true) && pulls == stars.map_values(|s: Body| Pull::<A>::Star(s.id)) {
                assert forall|i: int| 0 <= i < pulls.len() implies term_of_box(t, level, opens_box, opens_leaf, #[trigger] pulls[i]) by {
                    assert(t.at(e)->Leaf_0[i].id == stars[i].id);
                }
            }
        },
        BhTree::Internal(m, a, b, c, d) => {
            if opens_box(m, level, true) && level < usize::MAX && exists|i: int, j: int, k: int|
                #![trigger pulls.subrange(0, i), pulls.subrange(i, j), pulls.subrange(j, k)]
                0 <= i <= j <= k <= pulls.len()
                    && walked(*a, (level + 1) as usize, opens_box, opens_leaf, pulls.subrange(0, i))
                    && walked(*b, (level + 1) as usize, opens_box, opens_leaf, pulls.subrange(i, j))
                    && walked(*c, (level + 1) as usize, opens_box, opens_leaf, pulls.subrange(j, k))
                    && walked(*d, (level + 1) as usize, opens_box, opens_leaf, pulls.subrange(k, pulls.len() as int)) {
                let (i, j, k) = choose|i: int, j: int, k: int|
                    #![trigger pulls.subrange(0, i), pulls.subrange(i, j), pulls.subrange(j, k)]
                    0 <= i <= j <= k <= pulls.len()
                        && walked(*a, (level + 1) as usize, opens_box, opens_leaf, pulls.subrange(0, i))
                        && walked(*b, (level + 1) as usize, opens_box, opens_leaf, pulls.subrange(i, j))
                        && walked(*c, (level + 1) as usize, opens_box, opens_leaf, pulls.subrange(j, k))
                        && walked(*d, (level + 1) as usize, opens_box, opens_leaf, pulls.subrange(k, pulls.len() as int));
                let l1 = (level + 1) as usize;
                lemma_walk_asks_each_box_at_its_level(*a, l1, opens_box, opens_leaf, pulls.subrange(0, i));
                lemma_walk_asks_each_box_at_its_level(*b, l1, opens_box, opens_leaf, pulls.subrange(i, j));
                lemma_walk_asks_each_box_at_its_level(*c, l1, opens_box, opens_leaf, pulls.subrange(j, k));
                lemma_walk_asks_each_box_at_its_level(*d, l1, opens_box, opens_leaf, pulls.subrange(k, pulls.len() as int));
                assert forall|x: int| 0 <= x < pulls.len() implies term_of_box(t, level, opens_box, opens_leaf, #[trigger] pulls[x]) by {
                    if x < i {
                        assert(pulls.subrange(0, i)[x] == pulls[x]);
                        lemma_term_from_child(t, Quadrant::LowXLowY, level, opens_box, opens_leaf, pulls[x]);
                    } else if x < j {
                        assert(pulls.subrange(i, j)[x - i] == pulls[x]);
                        lemma_term_from_child(t, Quadrant::HighXLowY, level, opens_box, opens_leaf, pulls[x]);
                    } else if x < k {
                        assert(pulls.subrange(j, k)[x - j] == pulls[x]);
                        lemma_term_from_child(t, Quadrant::LowXHighY, level, opens_box, opens_leaf, pulls[x]);
                    } else {
                        assert(pulls.subrange(k, pulls.len() as int)[x - k] == pulls[x]);
                        lemma_term_from_child(t, Quadrant::HighXHighY, level, opens_box, opens_leaf, pulls[x]);
                    }
                }
            }
        },
    }
}

/// Whether every leaf of `t`, standing at subdivision `level`, that holds
/// two stars or more and stands above level `MAX_DEPTH / 2` holds its first
/// two stars because the simulation found them coinciding.
pub open spec fn shallow_leaves_coincide<A>(t: BhTree<A>, level: int, coincide: spec_fn(usize, usize, bool) -> bool) -> bool
    decreases t,
{
    match t {
        BhTree::Empty => true,
        BhTree::Leaf(ls, _, _) => level < MAX_DEPTH / 2 && ls.len() >= 2 ==> coincide(ls[0].id, ls[1].id, true),
        BhTree::Internal(_, a, b, c, d) => {
            &&& shallow_leaves_coincide(*a, level + 1, coincide)
            &&& shallow_leaves_coincide(*b, level + 1, coincide)
            &&& shallow_leaves_coincide(*c, level + 1, coincide)
            &&& shallow_leaves_coincide(*d, level + 1, coincide)
        },
    }
}

proof fn lemma_push_keeps_shallow_leaves<A>(
    before: BhTree<A>,
    after: BhTree<A>,
    star: Body,
    level: int,
    idx: usize,
    depth: int,
    single: spec_fn(usize, A) -> bool,
    empty: A,
    absorb: spec_fn(A, usize, A) -> bool,
    coincide: spec_fn(usize, usize, bool) -> bool,
)
    requires
        pushed(before, after, star, level, idx, depth, single, empty, absorb, coincide),
        shallow_leaves_coincide(before, level, coincide),
        0 <= depth <= 2 * level + (if before is Internal { 1int } else { 0int }),
    ensures
        shallow_leaves_coincide(after, level, coincide),
    decreases PATH_LEN - level, MAX_DEPTH - depth,
{
    match before {
        BhTree::Empty => {},
        BhTree::Internal(m, a, b, c, d) => {
            let q = star.quadrant_at(level);
            match q {
                Quadrant::LowXLowY => lemma_push_keeps_shallow_leaves(*a, *after->Internal_1, star, level + 1, idx, depth + 1, single, empty, absorb, coincide),
                Quadrant::HighXLowY => lemma_push_keeps_shallow_leaves(*b, *after->Internal_2, star, level + 1, idx, depth + 1, single, empty, absorb, coincide),
                Quadrant::LowXHighY => lemma_push_keeps_shallow_leaves(*c, *after->Internal_3, star, level + 1, idx, depth + 1, single, empty, absorb, coincide),
                Quadrant::HighXHighY => lemma_push_keeps_shallow_leaves(*d, *after->Internal_4, star, level + 1, idx, depth + 1, single, empty, absorb, coincide),
            }
        },
        BhTree::Leaf(ls, i, m) => {
            if after is Leaf && after->Leaf_0 == ls.push(star) {
                if ls.len() >= 2 {
                    assert(ls.push(star)[0] == ls[0] && ls.push(star)[1] == ls[1]);
                } else if ls.len() == 1 {
                    assert(ls.push(star)[0] == ls[0] && ls.push(star)[1] == star);
                }
            } else {
                let mid = choose|mid: BhTree<A>|
                    #![trigger stage(mid)]
                    stage(mid) && pushed(split_box(empty), mid, ls[0], level, i, depth + 1, single, empty, absorb, coincide)
                        && pushed(mid, after, star, level, idx, depth + 1, single, empty, absorb, coincide);
                assert(shallow_leaves_coincide(BhTree::<A>::Empty, level + 1, coincide));
                assert(shallow_leaves_coincide(split_box(empty), level, coincide));
                lemma_push_keeps_shallow_leaves(split_box(empty), mid, ls[0], level, i, depth + 1, single, empty, absorb, coincide);
                assert(mid is Internal);
                lemma_push_keeps_shallow_leaves(mid, after, star, level, idx, depth + 1, single, empty, absorb, coincide);
            }
        },
    }
}

proof fn lemma_shallow_leaves_at<A>(t: BhTree<A>, level: int, coincide: spec_fn(usize, usize, bool) -> bool, d: Seq<Quadrant>)
    requires
        shallow_leaves_coincide(t, level, coincide),
    ensures
        level + d.len() < MAX_DEPTH / 2 && t.at(d) is Leaf && t.at(d)->Leaf_0.len() >= 2 ==> coincide(
            t.at(d)->Leaf_0[0].id,
            t.at(d)->Leaf_0[1].id,
            true,
        ),
    decreases d.len(),
{
    if d.len() > 0 {
        match t {
            BhTree::Internal(_, a, b, c, e) => {
                lemma_shallow_leaves_at(t.child(d[0]), level + 1, coincide, d.drop_first());
            },
            _ => {
                assert(t.child(d[0]) == BhTree::<A>::Empty);
                lemma_empty_at::<A>(d.drop_first());
            },
        }
    }
}

proof fn lemma_empty_at<A>(d: Seq<Quadrant>)
    ensures
        BhTree::<A>::Empty.at(d) == BhTree::<A>::Empty,
    decreases d.len(),
{
    if d.len() > 0 {
        lemma_empty_at::<A>(d.drop_first());
    }
}

/// Every star enters the tree at the root at depth 0, and each level below
/// costs at most two depths, so leaves stop splitting only at level
/// `MAX_DEPTH / 2` or deeper: in the tree built from `stars`, two stars share
/// a leaf above that level only if the simulation found the first two of
/// that leaf coinciding.
pub proof fn lemma_built_splits_distinct_stars<A>(
    stars: Seq<Body>,
    tree: BhTree<A>,
    single: spec_fn(usize, A) -> bool,
    empty: A,
    absorb: spec_fn(A, usize, A) -> bool,
    coincide: spec_fn(usize, usize, bool) -> bool,
    d: Seq<Quadrant>,
)
    requires
        built(stars, tree, single, empty, absorb, coincide),
    ensures
        d.len() < MAX_DEPTH / 2 && tree.at(d) is Leaf && tree.at(d)->Leaf_0.len() >= 2 ==> coincide(
            tree.at(d)->Leaf_0[0].id,
            tree.at(d)->Leaf_0[1].id,
            true,
        ),
{
    lemma_built_shallow(stars, tree, single, empty, absorb, coincide);
    lemma_shallow_leaves_at(tree, 0, coincide, d);
}

proof fn lemma_built_shallow<A>(
    stars: Seq<Body>,
    tree: BhTree<A>,
    single: spec_fn(usize, A) -> bool,
    empty: A,
    absorb: spec_fn(A, usize, A) -> bool,
    coincide: spec_fn(usize, usize, bool) -> bool,
)
    requires
        built(stars, tree, single, empty, absorb, coincide),
    ensures
        shallow_leaves_coincide(tree, 0, coincide),
    decreases stars.len(),
{
    if stars.len() > 0 {
        let prev = choose|prev: BhTree<A>|
            #![trigger stage(prev)]
            stage(prev) && built(stars.drop_last(), prev, single, empty, absorb, coincide) && pushed(
                prev,
                tree,
                stars.last(),
                0,
                (stars.len() - 1) as usize,
                0,
                single,
                empty,
                absorb,
                coincide,
            );
        lemma_built_shallow(stars.drop_last(), prev, single, empty, absorb, coincide);
        lemma_push_keeps_shallow_leaves(prev, tree, stars.last(), 0, (stars.len() - 1) as usize, 0, single, empty, absorb, coincide);
    }
}

/// Whether every leaf of `t` carries the position in `stars` of the first
/// star it holds as its index.
pub open spec fn leaves_indexed<A>(t: BhTree<A>, stars: Seq<Body>) -> bool
    decreases t,
{
    match t {
        BhTree::Empty => true,
        BhTree::Leaf(ls, i, _) => 0 <= i < stars.len() && ls.len() > 0 && stars[i as int] == ls[0],
        BhTree::Internal(_, a, b, c, d) => {
            &&& leaves_indexed(*a, stars)
            &&& leaves_indexed(*b, stars)
            &&& leaves_indexed(*c, stars)
            &&& leaves_indexed(*d, stars)
        },
    }
}

proof fn lemma_leaves_indexed_prefix<A>(t: BhTree<A>, stars: Seq<Body>, more: Seq<Body>)
    requires
        leaves_indexed(t, stars),
        stars.len() <= more.len(),
        stars == more.subrange(0, stars.len() as int),
    ensures
        leaves_indexed(t, more),
    decreases t,
{
    match t {
        BhTree::Internal(_, a, b, c, d) => {
            lemma_leaves_indexed_prefix(*a, stars, more);
            lemma_leaves_indexed_prefix(*b, stars, more);
            lemma_leaves_indexed_prefix(*c, stars, more);
            lemma_leaves_indexed_prefix(*d, stars, more);
        },
        BhTree::Leaf(ls, i, _) => {
            assert(more.subrange(0, stars.len() as int)[i as int] == more[i as int]);
        },
        BhTree::Empty => {},
    }
}

proof fn lemma_push_keeps_indices<A>(
    before: BhTree<A>,
    after: BhTree<A>,
    star: Body,
    level: int,
    idx: usize,
    depth: int,
    single: spec_fn(usize, A) -> bool,
    empty: A,
    absorb: spec_fn(A, usize, A) -> bool,
    coincide: spec_fn(usize, usize, bool) -> bool,
    stars: Seq<Body>,
)
    requires
        pushed(before, after, star, level, idx, depth, single, empty, absorb, coincide),
        leaves_indexed(before, stars),
        idx < stars.len(),
        stars[idx as int] == star,
    ensures
        leaves_indexed(after, stars),
    decreases PATH_LEN - level, MAX_DEPTH - depth,
{
    match before {
        BhTree::Empty => {},
        BhTree::Internal(m, a, b, c, d) => {
            let q = star.quadrant_at(level);
            match q {
                Quadrant::LowXLowY => lemma_push_keeps_indices(*a, *after->Internal_1, star, level + 1, idx, depth + 1, single, empty, absorb, coincide, stars),
                Quadrant::HighXLowY => lemma_push_keeps_indices(*b, *after->Internal_2, star, level + 1, idx, depth + 1, single, empty, absorb, coincide, stars),
                Quadrant::LowXHighY => lemma_push_keeps_indices(*c, *after->Internal_3, star, level + 1, idx, depth + 1, single, empty, absorb, coincide, stars),
                Quadrant::HighXHighY => lemma_push_keeps_indices(*d, *after->Internal_4, star, level + 1, idx, depth + 1, single, empty, absorb, coincide, stars),
            }
        },
        BhTree::Leaf(ls, i, m) => {
            if after is Leaf && after->Leaf_0 == ls.push(star) && after->Leaf_1 == i {
                assert(ls.push(star)[0] == ls[0]);
            } else {
                let mid = choose|mid: BhTree<A>|
                    #![trigger stage(mid)]
                    stage(mid) && pushed(split_box(empty), mid, ls[0], level, i, depth + 1, single, empty, absorb, coincide)
                        && pushed(mid, after, star, level, idx, depth + 1, single, empty, absorb, coincide);
                assert(leaves_indexed(BhTree::<A>::Empty, stars));
                assert(leaves_indexed(split_box(empty), stars));
                lemma_push_keeps_indices(split_box(empty), mid, ls[0], level, i, depth + 1, single, empty, absorb, coincide, stars);
                lemma_push_keeps_indices(mid, after, star, level, idx, depth + 1, single, empty, absorb, coincide, stars);
            }
        },
    }
}

/// Every leaf of the tree built from `stars` carries as its index the
/// position in `stars` of the first star it holds: a star keeps the index
/// it was pushed with when its leaf is split.
pub proof fn lemma_built_leaf_indices<A>(
    stars: Seq<Body>,
    tree: BhTree<A>,
    single: spec_fn(usize, A) -> bool,
    empty: A,
    absorb: spec_fn(A, usize, A) -> bool,
    coincide: spec_fn(usize, usize, bool) -> bool,
)
    requires
        built(stars, tree, single, empty, absorb, coincide),
        stars.len() <= usize::MAX,
    ensures
        leaves_indexed(tree, stars),
    decreases stars.len(),
{
    if stars.len() > 0 {
        let prev = choose|prev: BhTree<A>|
            #![trigger stage(prev)]
            stage(prev) && built(stars.drop_last(), prev, single, empty, absorb, coincide) && pushed(
                prev,
                tree,
                stars.last(),
                0,
                (stars.len() - 1) as usize,
                0,
                single,
                empty,
                absorb,
                coincide,
            );
        lemma_built_leaf_indices(stars.drop_last(), prev, single, empty, absorb, coincide);
        assert(stars.drop_last() == stars.subrange(0, stars.len() - 1));
        lemma_leaves_indexed_prefix(prev, stars.drop_last(), stars);
        assert(((stars.len() - 1) as usize) as int == stars.len() - 1);
        lemma_push_keeps_indices(prev, tree, stars.last(), 0, (stars.len() - 1) as usize, 0, single, empty, absorb, coincide, stars);
    }
}

} // verus!
