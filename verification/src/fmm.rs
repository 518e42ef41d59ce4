//! The fixed-depth quadtree of the first multipole solver: every box is cut
//! down to the same level, and the stars are dropped into the leaves.

use vstd::prelude::*;
use vstd::multiset::Multiset;
use crate::quadrant::{Body, Quadrant, PATH_LEN, copy_bodies, lemma_ids_of_quarters};
use crate::fmm_adap::{extend_cell, copy_cell};

verus! {

/// The level at which [`Node::create_internal`] stops cutting and makes leaves.
pub const MAXLVL: usize = 3;

/// The mathematical content of a [`Node`]: the same tree with the stars of a
/// leaf as a sequence.
pub enum Grid {
    Internal(Box<Grid>, Box<Grid>, Box<Grid>, Box<Grid>),
    Leaf(Seq<Body>),
}

impl Grid {
    /// The star indices in the tree, children in quadrant order.
    pub open spec fn ids(self) -> Seq<usize>
        decreases self,
    {
        match self {
            Grid::Internal(a, b, c, d) => a.ids() + b.ids() + c.ids() + d.ids(),
            Grid::Leaf(stars) => stars.map_values(|s: Body| s.id),
        }
    }

    /// Whether the tree is cut exactly `height` times along every branch.
    pub open spec fn complete(self, height: nat) -> bool
        decreases self,
    {
        match self {
            Grid::Internal(a, b, c, d) => {
                &&& height > 0
                &&& a.complete((height - 1) as nat)
                &&& b.complete((height - 1) as nat)
                &&& c.complete((height - 1) as nat)
                &&& d.complete((height - 1) as nat)
            },
            Grid::Leaf(_) => height == 0,
        }
    }

    /// A tree cut `height` times along every branch, with no stars.
    pub open spec fn blank(height: nat) -> Grid
        decreases height,
    {
        if height == 0 {
            Grid::Leaf(Seq::empty())
        } else {
            let c = Grid::blank((height - 1) as nat);
            Grid::Internal(Box::new(c), Box::new(c), Box::new(c), Box::new(c))
        }
    }

    /// Every star lies in the box of its leaf, the tree standing at `cell`.
    pub open spec fn placed(self, cell: Seq<Quadrant>) -> bool
        decreases self,
    {
        match self {
            Grid::Internal(a, b, c, d) => {
                &&& cell.len() < PATH_LEN
                &&& a.placed(cell.push(Quadrant::LowXLowY))
                &&& b.placed(cell.push(Quadrant::HighXLowY))
                &&& c.placed(cell.push(Quadrant::LowXHighY))
                &&& d.placed(cell.push(Quadrant::HighXHighY))
            },
            Grid::Leaf(stars) => {
                &&& cell.len() <= PATH_LEN
                &&& forall|i: int| 0 <= i < stars.len() ==> #[trigger] stars[i].in_cell(cell)
            },
        }
    }

    /// The tree after `star` is dropped into it from level `depth`: each
    /// internal box passes it to the child of its quadrant, and the leaf it
    /// reaches appends it.
    pub open spec fn pushed(self, star: Body, depth: nat) -> Grid
        decreases self,
    {
        match self {
            Grid::Internal(a, b, c, d) => {
                if depth < PATH_LEN {
                    match star.quadrant_at(depth as int) {
                        Quadrant::LowXLowY => Grid::Internal(
                            Box::new(a.pushed(star, depth + 1)), b, c, d),
                        Quadrant::HighXLowY => Grid::Internal(
                            a, Box::new(b.pushed(star, depth + 1)), c, d),
                        Quadrant::LowXHighY => Grid::Internal(
                            a, b, Box::new(c.pushed(star, depth + 1)), d),
                        Quadrant::HighXHighY => Grid::Internal(
                            a, b, c, Box::new(d.pushed(star, depth + 1))),
                    }
                } else {
                    self
                }
            },
            Grid::Leaf(stars) => Grid::Leaf(stars.push(star)),
        }
    }

    /// The tree after the stars of `stars` are dropped in one after the other.
    pub open spec fn pushed_all(self, stars: Seq<Body>, depth: nat) -> Grid
        decreases stars.len(),
    {
        if stars.len() == 0 {
            self
        } else {
            self.pushed(stars[0], depth).pushed_all(stars.drop_first(), depth)
        }
    }

    pub open spec fn is_leaf(self) -> bool {
        self is Leaf
    }

    /// An internal box whose first child is internal and whose first
    /// grandchild is a leaf.
    pub open spec fn is_grandfather(self) -> bool {
        match self {
            Grid::Internal(a, _, _, _) => match *a {
                Grid::Internal(g, _, _, _) => g.is_leaf(),
                _ => false,
            },
            _ => false,
        }
    }

    /// Whether the gravity pass can walk the tree: every box it visits is
    /// internal, and so are the children of every box it visits.
    pub open spec fn walkable(self) -> bool
        decreases self,
    {
        match self {
            Grid::Internal(a, b, c, d) => {
                &&& !a.is_leaf() && !b.is_leaf() && !c.is_leaf() && !d.is_leaf()
                &&& !self.is_grandfather() ==> {
                    &&& a.walkable()
                    &&& b.walkable()
                    &&& c.walkable()
                    &&& d.walkable()
                }
            },
            Grid::Leaf(_) => false,
        }
    }
}


impl Grid {
    /// Internal boxes stand only above level `PATH_LEN`.
    pub open spec fn shaped(self, depth: nat) -> bool
        decreases self,
    {
        match self {
            Grid::Internal(a, b, c, d) => {
                &&& depth < PATH_LEN
                &&& a.shaped(depth + 1)
                &&& b.shaped(depth + 1)
                &&& c.shaped(depth + 1)
                &&& d.shaped(depth + 1)
            },
            Grid::Leaf(_) => true,
        }
    }
}

/// A tree cut `height` times everywhere, standing at a level from which
/// `height` more levels stay within `PATH_LEN`, has its internal boxes above
/// `PATH_LEN`.
pub proof fn lemma_complete_shaped(t: Grid, height: nat, depth: nat)
    requires
        t.complete(height),
        depth + height <= PATH_LEN,
    ensures
        t.shaped(depth),
    decreases t,
{
    if let Grid::Internal(a, b, c, d) = t {
        lemma_complete_shaped(*a, (height - 1) as nat, depth + 1);
        lemma_complete_shaped(*b, (height - 1) as nat, depth + 1);
        lemma_complete_shaped(*c, (height - 1) as nat, depth + 1);
        lemma_complete_shaped(*d, (height - 1) as nat, depth + 1);
    }
}

/// A blank tree of a height is complete at that height, holds no star, and
/// trivially has its stars in place.
pub proof fn lemma_blank(height: nat, cell: Seq<Quadrant>)
    ensures
        Grid::blank(height).complete(height),
        Grid::blank(height).ids() =~= Seq::<usize>::empty(),
        cell.len() + height <= PATH_LEN ==> Grid::blank(height).placed(cell),
    decreases height,
{
    if height > 0 {
        let h = (height - 1) as nat;
        lemma_blank(h, cell.push(Quadrant::LowXLowY));
        lemma_blank(h, cell.push(Quadrant::HighXLowY));
        lemma_blank(h, cell.push(Quadrant::LowXHighY));
        lemma_blank(h, cell.push(Quadrant::HighXHighY));
    } else {
        assert(Seq::<Body>::empty().map_values(|s: Body| s.id) =~= Seq::<usize>::empty());
    }
}

/// Dropping a star in keeps the tree cut to the same height and its
/// internal boxes above `PATH_LEN`.
pub proof fn lemma_pushed_shape(t: Grid, star: Body, depth: nat, height: nat)
    requires
        t.shaped(depth),
    ensures
        t.pushed(star, depth).shaped(depth),
        t.complete(height) ==> t.pushed(star, depth).complete(height),
    decreases t,
{
    if let Grid::Internal(a, b, c, d) = t {
        let h = (height - 1) as nat;
        match star.quadrant_at(depth as int) {
            Quadrant::LowXLowY => lemma_pushed_shape(*a, star, depth + 1, h),
            Quadrant::HighXLowY => lemma_pushed_shape(*b, star, depth + 1, h),
            Quadrant::LowXHighY => lemma_pushed_shape(*c, star, depth + 1, h),
            Quadrant::HighXHighY => lemma_pushed_shape(*d, star, depth + 1, h),
        }
    }
}

/// Dropping a star in adds its index to the tree and loses none.
pub proof fn lemma_pushed_ids(t: Grid, star: Body, depth: nat)
    requires
        t.shaped(depth),
    ensures
        t.pushed(star, depth).ids().to_multiset() =~= t.ids().to_multiset().insert(star.id),
    decreases t,
{
    broadcast use vstd::multiset::group_multiset_axioms;
    broadcast use vstd::seq_lib::group_to_multiset_ensures;

    match t {
        Grid::Internal(a, b, c, d) => {
            lemma_ids_of_quarters(a.ids(), b.ids(), c.ids(), d.ids());
            match star.quadrant_at(depth as int) {
                Quadrant::LowXLowY => {
                    lemma_pushed_ids(*a, star, depth + 1);
                    lemma_ids_of_quarters(a.pushed(star, depth + 1).ids(), b.ids(), c.ids(), d.ids());
                },
                Quadrant::HighXLowY => {
                    lemma_pushed_ids(*b, star, depth + 1);
                    lemma_ids_of_quarters(a.ids(), b.pushed(star, depth + 1).ids(), c.ids(), d.ids());
                },
                Quadrant::LowXHighY => {
                    lemma_pushed_ids(*c, star, depth + 1);
                    lemma_ids_of_quarters(a.ids(), b.ids(), c.pushed(star, depth + 1).ids(), d.ids());
                },
                Quadrant::HighXHighY => {
                    lemma_pushed_ids(*d, star, depth + 1);
                    lemma_ids_of_quarters(a.ids(), b.ids(), c.ids(), d.pushed(star, depth + 1).ids());
                },
            }
        },
        Grid::Leaf(stars) => {
            assert(stars.push(star).map_values(|s: Body| s.id) =~= stars.map_values(|s: Body| s.id).push(star.id));
        },
    }
}

/// A star that lies in the box of the tree is dropped into the leaf whose
/// box holds it, and every star stays in the box of its leaf.
pub proof fn lemma_pushed_placed(t: Grid, star: Body, cell: Seq<Quadrant>)
    requires
        t.placed(cell),
        star.in_cell(cell),
    ensures
        t.pushed(star, cell.len()).placed(cell),
    decreases t,
{
    let depth = cell.len();
    match t {
        Grid::Internal(a, b, c, d) => {
            let q = star.quadrant_at(depth as int);
            let child_cell = cell.push(q);
            assert(star.in_cell(child_cell)) by {
                assert forall|i: int| 0 <= i < child_cell.len() implies #[trigger] star.path@[i]
                    == child_cell[i] by {
                    if i < depth {
                        assert(star.path@[i] == cell[i]);
                    }
                }
            }
            match q {
                Quadrant::LowXLowY => lemma_pushed_placed(*a, star, child_cell),
                Quadrant::HighXLowY => lemma_pushed_placed(*b, star, child_cell),
                Quadrant::LowXHighY => lemma_pushed_placed(*c, star, child_cell),
                Quadrant::HighXHighY => lemma_pushed_placed(*d, star, child_cell),
            }
        },
        Grid::Leaf(stars) => {
            let r = stars.push(star);
            assert forall|i: int| 0 <= i < r.len() implies #[trigger] r[i].in_cell(cell) by {
                if i < stars.len() {
                    assert(r[i] == stars[i]);
                }
            }
        },
    }
}

/// Dropping stars in one after the other keeps the shape, adds their
/// indices and loses none, and puts each star that lies in the box of the
/// tree into the leaf whose box holds it.
pub proof fn lemma_pushed_all(t: Grid, stars: Seq<Body>, cell: Seq<Quadrant>, height: nat)
    requires
        t.shaped(cell.len()),
    ensures
        t.pushed_all(stars, cell.len()).shaped(cell.len()),
        t.complete(height) ==> t.pushed_all(stars, cell.len()).complete(height),
        t.pushed_all(stars, cell.len()).ids().to_multiset() =~= t.ids().to_multiset().add(
            stars.map_values(|s: Body| s.id).to_multiset(),
        ),
        t.placed(cell) && (forall|i: int| 0 <= i < stars.len() ==> #[trigger] stars[i].in_cell(cell))
            ==> t.pushed_all(stars, cell.len()).placed(cell),
    decreases stars.len(),
{
    broadcast use vstd::multiset::group_multiset_axioms;
    broadcast use vstd::seq_lib::group_to_multiset_ensures;

    let depth = cell.len();
    if stars.len() == 0 {
        assert(stars.map_values(|s: Body| s.id) =~= Seq::<usize>::empty());
    } else {
        let s0 = stars[0];
        let rest = stars.drop_first();
        lemma_pushed_shape(t, s0, depth, height);
        lemma_pushed_ids(t, s0, depth);
        let t2 = t.pushed(s0, depth);
        lemma_pushed_all(t2, rest, cell, height);
        let ids = stars.map_values(|s: Body| s.id);
        assert(ids =~= seq![s0.id] + rest.map_values(|s: Body| s.id));
        vstd::seq_lib::lemma_multiset_commutative(seq![s0.id], rest.map_values(|s: Body| s.id));
        assert(seq![s0.id] =~= Seq::<usize>::empty().push(s0.id));
        if t.placed(cell) && (forall|i: int| 0 <= i < stars.len() ==> #[trigger] stars[i].in_cell(cell)) {
            assert(stars[0].in_cell(cell));
            lemma_pushed_placed(t, s0, cell);
            assert forall|i: int| 0 <= i < rest.len() implies #[trigger] rest[i].in_cell(cell) by {
                assert(rest[i] == stars[i + 1]);
            }
        }
    }
}


/// A box of the fixed-depth tree: split into four children, or a leaf
/// holding the stars that fell in it.
#[derive(Debug)]
pub enum Node {
    Internal { q0: Box<Node>, q1: Box<Node>, q2: Box<Node>, q3: Box<Node> },
    Leaf { star: Vec<Body> },
}

impl Node {
    pub open spec fn model(self) -> Grid
        decreases self,
    {
        match self {
            Node::Internal { q0, q1, q2, q3 } => Grid::Internal(
                Box::new(q0.model()),
                Box::new(q1.model()),
                Box::new(q2.model()),
                Box::new(q3.model()),
            ),
            Node::Leaf { star } => Grid::Leaf(star@),
        }
    }
}

impl View for Node {
    type V = Grid;

    open spec fn view(&self) -> Grid {
        self.model()
    }
}

impl Clone for Node {
    /// A copy of the whole tree.
    fn clone(&self) -> (copy: Self)
        ensures
            copy@ == self@,
        decreases self,
    {
        match self {
            Node::Internal { q0, q1, q2, q3 } => Node::Internal {
                q0: Box::new((&**q0).clone()),
                q1: Box::new((&**q1).clone()),
                q2: Box::new((&**q2).clone()),
                q3: Box::new((&**q3).clone()),
            },
            Node::Leaf { star } => Node::Leaf { star: copy_bodies(star) },
        }
    }
}

/// The root box for [`Node::new`] at level `lvl`: split once, with each
/// child cut down to `MAXLVL`.
pub open spec fn root_grid(lvl: nat) -> Grid {
    let c = Grid::blank((MAXLVL - lvl) as nat);
    Grid::Internal(Box::new(c), Box::new(c), Box::new(c), Box::new(c))
}

impl Node {
    /// A box at level `lvl` cut down to level `MAXLVL`, with no stars: a leaf
    /// at `MAXLVL`, otherwise four children one level further.
    pub fn create_internal(lvl: usize) -> (node: Node)
        requires
            lvl <= MAXLVL,
        ensures
            node@ == Grid::blank((MAXLVL - lvl) as nat),
        decreases MAXLVL - lvl,
    {
        if lvl == MAXLVL {
            return Node::Leaf { star: Vec::new() };
        }
        let lvl = lvl + 1;
        Node::Internal {
            q0: Box::new(Node::create_internal(lvl)),
            q1: Box::new(Node::create_internal(lvl)),
            q2: Box::new(Node::create_internal(lvl)),
            q3: Box::new(Node::create_internal(lvl)),
        }
    }

    /// Drops `star` into the tree, which stands at level `depth`: each
    /// internal box passes it to the child of its quadrant, and the leaf it
    /// reaches appends it.
    pub fn push_down(&mut self, star: Body, depth: usize)
        requires
            old(self)@.shaped(depth as nat),
        ensures
            final(self)@ == old(self)@.pushed(star, depth as nat),
            final(self)@.ids().to_multiset() =~= old(self)@.ids().to_multiset().insert(star.id),
        decreases old(self)@,
    {
        proof {
            lemma_pushed_ids(old(self)@, star, depth as nat);
        }
        match self {
            Node::Internal { q0, q1, q2, q3 } => {
                match star.path[depth] {
                    Quadrant::LowXLowY => q0.push_down(star, depth + 1),
                    Quadrant::HighXLowY => q1.push_down(star, depth + 1),
                    Quadrant::LowXHighY => q2.push_down(star, depth + 1),
                    Quadrant::HighXHighY => q3.push_down(star, depth + 1),
                }
            },
            Node::Leaf { star: stars } => {
                stars.push(star);
            },
        }
    }

    /// Builds the tree of `stars`: a root box split once, each child cut
    /// down to level `MAXLVL` from level `lvl`, and the stars dropped in
    /// from level 0 in order.
    pub fn new(stars: Vec<Body>, lvl: usize) -> (tree: Node)
        requires
            lvl <= MAXLVL,
        ensures
            tree@ == root_grid(lvl as nat).pushed_all(stars@, 0),
            tree@.complete((MAXLVL - lvl + 1) as nat),
            tree@.ids().to_multiset() =~= stars@.map_values(|s: Body| s.id).to_multiset(),
            tree@.placed(Seq::empty()),
    {
        let mut tree = Node::Internal {
            q0: Box::new(Node::create_internal(lvl)),
            q1: Box::new(Node::create_internal(lvl)),
            q2: Box::new(Node::create_internal(lvl)),
            q3: Box::new(Node::create_internal(lvl)),
        };
        let ghost height = (MAXLVL - lvl + 1) as nat;
        proof {
            let h = (MAXLVL - lvl) as nat;
            lemma_blank(h, seq![Quadrant::LowXLowY]);
            lemma_blank(h, seq![Quadrant::HighXLowY]);
            lemma_blank(h, seq![Quadrant::LowXHighY]);
            lemma_blank(h, seq![Quadrant::HighXHighY]);
            assert(Seq::<Quadrant>::empty().push(Quadrant::LowXLowY) =~= seq![Quadrant::LowXLowY]);
            assert(Seq::<Quadrant>::empty().push(Quadrant::HighXLowY) =~= seq![Quadrant::HighXLowY]);
            assert(Seq::<Quadrant>::empty().push(Quadrant::LowXHighY) =~= seq![Quadrant::LowXHighY]);
            assert(Seq::<Quadrant>::empty().push(Quadrant::HighXHighY) =~= seq![Quadrant::HighXHighY]);
            assert(tree@ == root_grid(lvl as nat));
            assert(tree@.complete(height));
            assert(tree@.placed(Seq::empty()));
            lemma_complete_shaped(tree@, height, 0);
            assert(Seq::<Quadrant>::empty().len() == 0);
            lemma_pushed_all(tree@, stars@, Seq::empty(), height);
            assert forall|i: int| 0 <= i < stars@.len() implies #[trigger] stars@[i].in_cell(
                Seq::empty(),
            ) by {}
            assert(tree@.ids() =~= Seq::<usize>::empty());
            assert(Seq::<usize>::empty().to_multiset() =~= Multiset::empty()) by {
                broadcast use vstd::seq_lib::group_to_multiset_ensures;
            }
            assert(Multiset::<usize>::empty().add(stars@.map_values(|s: Body| s.id).to_multiset())
                =~= stars@.map_values(|s: Body| s.id).to_multiset()) by {
                broadcast use vstd::multiset::group_multiset_axioms;
            }
            assert(stars@.skip(0) =~= stars@);
        }
        let ghost target = tree@.pushed_all(stars@, 0);
        let mut i: usize = 0;
        while i < stars.len()
            invariant
                i <= stars@.len(),
                tree@.shaped(0),
                tree@.pushed_all(stars@.skip(i as int), 0) == target,
            decreases stars@.len() - i,
        {
            proof {
                let rest = stars@.skip(i as int);
                assert(rest[0] == stars@[i as int]);
                assert(rest.drop_first() =~= stars@.skip(i + 1));
                lemma_pushed_shape(tree@, stars@[i as int], 0, 0);
            }
            tree.push_down(stars[i], 0);
            i = i + 1;
        }
        proof {
            assert(stars@.skip(i as int) =~= Seq::<Body>::empty());
        }
        tree
    }

    /// The upward pass of the solver over the tree. It computes no
    /// expansion yet and leaves the tree as it is.
    pub fn p2m(&mut self)
        ensures
            final(self)@ == old(self)@,
        decreases *old(self),
    {
        match self {
            Node::Internal { q0, q1, q2, q3 } => {
                q0.p2m();
                q1.p2m();
                q2.p2m();
                q3.p2m();
            },
            Node::Leaf { .. } => {},
        }
    }

    /// The four children of an internal box, to be worked on in place.
    pub fn get_children(&mut self) -> (children: (&mut Box<Node>, &mut Box<Node>, &mut Box<Node>, &mut Box<Node>))
        requires
            *old(self) is Internal,
        ensures
            *old(self) == (Node::Internal { q0: *children.0, q1: *children.1, q2: *children.2, q3: *children.3 }),
            *final(self) == (Node::Internal {
                q0: *final(children.0),
                q1: *final(children.1),
                q2: *final(children.2),
                q3: *final(children.3),
            }),
    {
        match self {
            Node::Internal { q0, q1, q2, q3 } => (q0, q1, q2, q3),
            Node::Leaf { .. } => {
                proof {
                    assert(false);
                }
                loop
                    invariant
                        false,
                    decreases 0nat,
                {
                }
            },
        }
    }

    pub fn is_leaf(&self) -> (leaf: bool)
        ensures
            leaf == self@.is_leaf(),
    {
        match self {
            Node::Internal { .. } => false,
            Node::Leaf { .. } => true,
        }
    }

    /// Whether the box is internal, its first child internal and its first
    /// grandchild a leaf.
    pub fn is_grandfather(&self) -> (grand: bool)
        ensures
            grand == self@.is_grandfather(),
    {
        match self {
            Node::Internal { q0, .. } => {
                match &**q0 {
                    Node::Internal { q0: g, q1: g1, q2: g2, q3: g3 } => {
                        proof {
                            assert(q0.model() == Grid::Internal(
                                Box::new(g.model()),
                                Box::new(g1.model()),
                                Box::new(g2.model()),
                                Box::new(g3.model()),
                            ));
                        }
                        g.is_leaf()
                    },
                    _ => false,
                }
            },
            _ => false,
        }
    }

    /// The downward pass on a leaf, which has nothing below it to pass to.
    pub fn l2l(&mut self)
        requires
            old(self)@.is_leaf(),
        ensures
            final(self)@ == old(self)@,
    {
    }

    /// The near-field pass over the tree. It walks every box above the
    /// grandfathers of the leaves and checks that their children are split,
    /// and leaves the tree as it is.
    pub fn gravity(&mut self)
        requires
            old(self)@.walkable(),
        ensures
            final(self)@ == old(self)@,
        decreases *old(self),
    {
        let is_grand = self.is_grandfather();
        match self {
            Node::Internal { q0, q1, q2, q3 } => {
                if !is_grand {
                    q0.gravity();
                    q1.gravity();
                    q2.gravity();
                    q3.gravity();
                }
                let _ = q0.get_children();
                let _ = q1.get_children();
                let _ = q2.get_children();
                let _ = q3.get_children();
            },
            Node::Leaf { .. } => {},
        }
    }
}

/// The cells of a list of boxes.
pub open spec fn cells(v: Seq<Vec<Quadrant>>) -> Seq<Seq<Quadrant>> {
    v.map_values(|c: Vec<Quadrant>| c@)
}

/// The cells of a list of pairs of boxes.
pub open spec fn cell_pairs(v: Seq<(Vec<Quadrant>, Vec<Quadrant>)>) -> Seq<(Seq<Quadrant>, Seq<Quadrant>)> {
    v.map_values(|p: (Vec<Quadrant>, Vec<Quadrant>)| (p.0@, p.1@))
}

/// The four children of the box at `cell`, in quadrant order.
pub open spec fn children_cells(cell: Seq<Quadrant>) -> Seq<Seq<Quadrant>> {
    seq![
        cell.push(Quadrant::LowXLowY),
        cell.push(Quadrant::HighXLowY),
        cell.push(Quadrant::LowXHighY),
        cell.push(Quadrant::HighXHighY),
    ]
}

/// The sixteen grandchildren of the box at `cell`, child by child, each
/// child's in quadrant order.
pub open spec fn grandchild_cells(cell: Seq<Quadrant>) -> Seq<Seq<Quadrant>> {
    children_cells(cell.push(Quadrant::LowXLowY)) + children_cells(cell.push(Quadrant::HighXLowY))
        + children_cells(cell.push(Quadrant::LowXHighY)) + children_cells(cell.push(Quadrant::HighXHighY))
}

/// The pairs `(g[a], g[b])` for `b < n`, `b != a`, in order of `b`.
pub open spec fn row_upto(g: Seq<Seq<Quadrant>>, a: int, n: int) -> Seq<(Seq<Quadrant>, Seq<Quadrant>)>
    decreases n,
{
    if n <= 0 {
        Seq::empty()
    } else {
        row_upto(g, a, n - 1) + if n - 1 == a {
            Seq::empty()
        } else {
            seq![(g[a], g[n - 1])]
        }
    }
}

/// The ordered pairs `(g[a], g[b])` of distinct positions with `a < n`,
/// in order of `a`, then of `b`.
pub open spec fn rows(g: Seq<Seq<Quadrant>>, n: int) -> Seq<(Seq<Quadrant>, Seq<Quadrant>)>
    decreases n,
{
    if n <= 0 {
        Seq::empty()
    } else {
        rows(g, n - 1) + row_upto(g, n - 1, g.len() as int)
    }
}

impl Grid {
    /// The child in quadrant `q` of an internal box.
    pub open spec fn child(self, q: Quadrant) -> Grid
        recommends
            self is Internal,
    {
        match self {
            Grid::Internal(a, b, c, d) => match q {
                Quadrant::LowXLowY => *a,
                Quadrant::HighXLowY => *b,
                Quadrant::LowXHighY => *c,
                Quadrant::HighXHighY => *d,
            },
            Grid::Leaf(_) => self,
        }
    }

    /// The box reached from this one by `cell`, one quadrant per level;
    /// `None` where the cell goes on below a leaf.
    pub open spec fn at(self, cell: Seq<Quadrant>) -> Option<Grid>
        decreases cell.len(),
    {
        if cell.len() == 0 {
            Some(self)
        } else if self is Leaf {
            None
        } else {
            self.child(cell[0]).at(cell.drop_first())
        }
    }
}

impl Grid {
    /// Whether the pass that pairs grandchildren can walk the tree: at every
    /// box it reaches whose first child is split, every child is split, and
    /// the pass goes on into each child. It stops at a leaf and at a box
    /// whose first child is a leaf.
    pub open spec fn m2l_ready(self) -> bool
        decreases self,
    {
        match self {
            Grid::Internal(a, b, c, d) => {
                *a is Leaf || {
                    &&& *b is Internal
                    &&& *c is Internal
                    &&& *d is Internal
                    &&& a.m2l_ready()
                    &&& b.m2l_ready()
                    &&& c.m2l_ready()
                    &&& d.m2l_ready()
                }
            },
            Grid::Leaf(_) => true,
        }
    }

    /// The pairs of boxes that the pass compares, the tree standing at
    /// `cell`: at each box whose first child is split, every ordered pair of
    /// two distinct grandchildren, then the pairs below each child in
    /// quadrant order; nothing at a leaf or at a box whose children are
    /// leaves.
    pub open spec fn m2l_spec(self, cell: Seq<Quadrant>) -> Seq<(Seq<Quadrant>, Seq<Quadrant>)>
        decreases self,
    {
        match self {
            Grid::Internal(a, b, c, d) => {
                if *a is Leaf {
                    Seq::empty()
                } else {
                    rows(grandchild_cells(cell), 16) + a.m2l_spec(cell.push(Quadrant::LowXLowY)) + b.m2l_spec(
                        cell.push(Quadrant::HighXLowY),
                    ) + c.m2l_spec(cell.push(Quadrant::LowXHighY)) + d.m2l_spec(cell.push(Quadrant::HighXHighY))
                }
            },
            Grid::Leaf(_) => Seq::empty(),
        }
    }
}

/// Appends the four children of the box at `cell` to `out`.
fn push_children(out: &mut Vec<Vec<Quadrant>>, cell: &Vec<Quadrant>)
    ensures
        cells(final(out)@) =~= cells(old(out)@) + children_cells(cell@),
{
    let ghost start = out@;
    out.push(extend_cell(cell, Quadrant::LowXLowY));
    out.push(extend_cell(cell, Quadrant::HighXLowY));
    out.push(extend_cell(cell, Quadrant::LowXHighY));
    out.push(extend_cell(cell, Quadrant::HighXHighY));
    proof {
        let n = start.len() as int;
        assert(out@.len() == n + 4);
        assert forall|k: int| 0 <= k < n + 4 implies #[trigger] cells(out@)[k] == (cells(start) + children_cells(cell@))[k] by {
            if k < n {
                assert(out@[k] == start[k]);
            }
        }
    }
}

/// Every ordered pair of two distinct boxes of `g`, as a list of copies of
/// their cells.
fn distinct_pairs(g: &Vec<Vec<Quadrant>>) -> (pairs: Vec<(Vec<Quadrant>, Vec<Quadrant>)>)
    ensures
        cell_pairs(pairs@) =~= rows(cells(g@), g@.len() as int),
{
    let ghost gs = cells(g@);
    let mut pairs: Vec<(Vec<Quadrant>, Vec<Quadrant>)> = Vec::new();
    let mut a: usize = 0;
    while a < g.len()
        invariant
            a <= g@.len(),
            gs == cells(g@),
            cell_pairs(pairs@) =~= rows(gs, a as int),
        decreases g@.len() - a,
    {
        let mut b: usize = 0;
        while b < g.len()
            invariant
                a < g@.len(),
                b <= g@.len(),
                gs == cells(g@),
                cell_pairs(pairs@) =~= rows(gs, a as int) + row_upto(gs, a as int, b as int),
            decreases g@.len() - b,
        {
            if a != b {
                let ghost before = pairs@;
                pairs.push((copy_cell(&g[a]), copy_cell(&g[b])));
                proof {
                    assert(pairs@ =~= before.push(pairs@.last()));
                    assert(cell_pairs(pairs@) =~= cell_pairs(before).push((gs[a as int], gs[b as int])));
                }
            }
            b = b + 1;
        }
        a = a + 1;
    }
    pairs
}

impl Node {
    /// The box at `cell` below this one, or `None` where the cell goes on
    /// below a leaf.
    pub fn node_at(&self, cell: &Vec<Quadrant>) -> (found: Option<&Node>)
        ensures
            found is Some <==> self@.at(cell@) is Some,
            found matches Some(n) ==> Some(n@) == self@.at(cell@),
    {
        proof {
            assert(cell@.skip(0) =~= cell@);
        }
        self.node_at_from(cell, 0)
    }

    fn node_at_from(&self, cell: &Vec<Quadrant>, i: usize) -> (found: Option<&Node>)
        requires
            i <= cell@.len(),
        ensures
            found is Some <==> self@.at(cell@.skip(i as int)) is Some,
            found matches Some(n) ==> Some(n@) == self@.at(cell@.skip(i as int)),
        decreases cell@.len() - i,
    {
        if i == cell.len() {
            proof {
                assert(cell@.skip(i as int) =~= Seq::<Quadrant>::empty());
            }
            return Some(self);
        }
        proof {
            assert(cell@.skip(i as int)[0] == cell@[i as int]);
            assert(cell@.skip(i as int).drop_first() =~= cell@.skip(i + 1));
        }
        match self {
            Node::Leaf { .. } => None,
            Node::Internal { q0, q1, q2, q3 } => match cell[i] {
                Quadrant::LowXLowY => q0.node_at_from(cell, i + 1),
                Quadrant::HighXLowY => q1.node_at_from(cell, i + 1),
                Quadrant::LowXHighY => q2.node_at_from(cell, i + 1),
                Quadrant::HighXHighY => q3.node_at_from(cell, i + 1),
            },
        }
    }

    /// Whether [`Node::m2l_pairs`] can walk the tree, as
    /// [`Grid::m2l_ready`] says.
    pub fn is_m2l_ready(&self) -> (ready: bool)
        ensures
            ready == self@.m2l_ready(),
        decreases self,
    {
        match self {
            Node::Leaf { .. } => true,
            Node::Internal { q0, q1, q2, q3 } => {
                if q0.is_leaf() {
                    true
                } else {
                    !q1.is_leaf() && !q2.is_leaf() && !q3.is_leaf() && q0.is_m2l_ready() && q1.is_m2l_ready()
                        && q2.is_m2l_ready() && q3.is_m2l_ready()
                }
            },
        }
    }

    /// The pairs of boxes that the pass turning far expansions into local
    /// ones compares, as [`Grid::m2l_spec`] says, the tree standing at
    /// `cell`. Every child of a box whose first child is split must be split
    /// too: the pass takes each child's children.
    pub fn m2l_pairs(&self, cell: &Vec<Quadrant>) -> (pairs: Vec<(Vec<Quadrant>, Vec<Quadrant>)>)
        requires
            self@.m2l_ready(),
        ensures
            cell_pairs(pairs@) =~= self@.m2l_spec(cell@),
        decreases self,
    {
        match self {
            Node::Leaf { .. } => Vec::new(),
            Node::Internal { q0, q1, q2, q3 } => {
                if q0.is_leaf() {
                    return Vec::new();
                }
                let c0 = extend_cell(cell, Quadrant::LowXLowY);
                let c1 = extend_cell(cell, Quadrant::HighXLowY);
                let c2 = extend_cell(cell, Quadrant::LowXHighY);
                let c3 = extend_cell(cell, Quadrant::HighXHighY);
                let mut g: Vec<Vec<Quadrant>> = Vec::new();
                proof {
                    assert(cells(g@) =~= Seq::<Seq<Quadrant>>::empty());
                }
                push_children(&mut g, &c0);
                push_children(&mut g, &c1);
                push_children(&mut g, &c2);
                push_children(&mut g, &c3);
                proof {
                    assert(cells(g@) =~= grandchild_cells(cell@));
                }
                let mut pairs = distinct_pairs(&g);
                let mut p0 = q0.m2l_pairs(&c0);
                let mut p1 = q1.m2l_pairs(&c1);
                let mut p2 = q2.m2l_pairs(&c2);
                let mut p3 = q3.m2l_pairs(&c3);
                let ghost (s, s0, s1, s2, s3) = (pairs@, p0@, p1@, p2@, p3@);
                pairs.append(&mut p0);
                pairs.append(&mut p1);
                pairs.append(&mut p2);
                pairs.append(&mut p3);
                proof {
                    assert(pairs@ =~= s + s0 + s1 + s2 + s3);
                    assert(cell_pairs(s + s0 + s1 + s2 + s3) =~= cell_pairs(s) + cell_pairs(s0) + cell_pairs(s1)
                        + cell_pairs(s2) + cell_pairs(s3));
                }
                pairs
            },
        }
    }
}

/// The tree of the solver's test setup: the fixed tree built from level 0
/// around the one star `star`, after the upward pass.
pub fn create_tree(star: Body) -> (tree: Node)
    ensures
        tree@ == root_grid(0).pushed(star, 0),
        tree@.complete((MAXLVL + 1) as nat),
{
    let mut stars: Vec<Body> = Vec::new();
    stars.push(star);
    let mut tree = Node::new(stars, 0);
    proof {
        assert(stars@ =~= seq![star]);
        assert(seq![star].drop_first() =~= Seq::<Body>::empty());
        let r = root_grid(0);
        assert(r.pushed_all(seq![star], 0) == r.pushed(star, 0).pushed_all(Seq::empty(), 0));
    }
    tree.p2m();
    tree
}

/// Builds the test tree around the star at (999, 799) of the simulated box
/// centred at (500, 400), 1000 wide and 800 high: `path` is the quadrant of
/// that point at each level of the box's subdivision.
pub fn run() {
    let path: [Quadrant; PATH_LEN] = [
        Quadrant::HighXHighY, Quadrant::HighXHighY, Quadrant::HighXHighY, Quadrant::HighXHighY,
        Quadrant::HighXHighY, Quadrant::HighXHighY, Quadrant::HighXHighY, Quadrant::HighXHighY,
        Quadrant::HighXHighY, Quadrant::LowXLowY, Quadrant::HighXHighY, Quadrant::HighXLowY,
        Quadrant::HighXHighY, Quadrant::HighXHighY, Quadrant::HighXHighY, Quadrant::LowXLowY,
        Quadrant::LowXLowY, Quadrant::HighXLowY, Quadrant::HighXLowY, Quadrant::HighXHighY,
    ];
    let _tree = create_tree(Body { id: 0, path });
}

/// Whether the box of `t` reached by `cell` is one at which the pairing
/// pass pairs grandchildren: it and every box on the way to it are split,
/// and so is the first child of each.
pub open spec fn pairs_grandchildren(t: Grid, cell: Seq<Quadrant>) -> bool
    decreases cell.len(),
{
    match t {
        Grid::Internal(a, _, _, _) => *a is Internal && (cell.len() == 0 || pairs_grandchildren(
            t.child(cell[0]),
            cell.drop_first(),
        )),
        Grid::Leaf(_) => false,
    }
}

proof fn lemma_contains_left<T>(a: Seq<T>, b: Seq<T>, x: T)
    requires
        a.contains(x),
    ensures
        (a + b).contains(x),
{
    let i = choose|i: int| 0 <= i < a.len() && a[i] == x;
    assert((a + b)[i] == x);
}

proof fn lemma_contains_right<T>(a: Seq<T>, b: Seq<T>, x: T)
    requires
        b.contains(x),
    ensures
        (a + b).contains(x),
{
    let i = choose|i: int| 0 <= i < b.len() && b[i] == x;
    assert((a + b)[a.len() + i] == x);
}

proof fn lemma_row_contains(g: Seq<Seq<Quadrant>>, a: int, n: int, b: int)
    requires
        0 <= a < g.len(),
        0 <= b < n <= g.len(),
        a != b,
    ensures
        row_upto(g, a, n).contains((g[a], g[b])),
    decreases n,
{
    if b < n - 1 {
        lemma_row_contains(g, a, n - 1, b);
        lemma_contains_left(row_upto(g, a, n - 1), if n - 1 == a { Seq::empty() } else { seq![(g[a], g[n - 1])] }, (g[a], g[b]));
    } else {
        let last = seq![(g[a], g[n - 1])];
        assert(last[0] == (g[a], g[b]));
        lemma_contains_right(row_upto(g, a, n - 1), last, (g[a], g[b]));
    }
}

proof fn lemma_rows_contain(g: Seq<Seq<Quadrant>>, n: int, a: int, b: int)
    requires
        0 <= a < n <= g.len(),
        0 <= b < g.len(),
        a != b,
    ensures
        rows(g, n).contains((g[a], g[b])),
    decreases n,
{
    if a < n - 1 {
        lemma_rows_contain(g, n - 1, a, b);
        lemma_contains_left(rows(g, n - 1), row_upto(g, n - 1, g.len() as int), (g[a], g[b]));
    } else {
        lemma_row_contains(g, a, g.len() as int, b);
        lemma_contains_right(rows(g, n - 1), row_upto(g, n - 1, g.len() as int), (g[a], g[b]));
    }
}

proof fn lemma_grandchild_index(cell: Seq<Quadrant>, q1: Quadrant, q2: Quadrant)
    ensures
        grandchild_cells(cell).len() == 16,
        grandchild_cells(cell)[(4 * q1.spec_index() + q2.spec_index()) as int] == cell.push(q1).push(q2),
{
    let g = grandchild_cells(cell);
    assert(g.len() == 16);
    let k = (4 * q1.spec_index() + q2.spec_index()) as int;
    let c = children_cells(cell.push(q1));
    assert(c[q2.spec_index() as int] == cell.push(q1).push(q2));
    match q1 {
        Quadrant::LowXLowY => assert(g[k] == c[q2.spec_index() as int]),
        Quadrant::HighXLowY => assert(g[k] == c[q2.spec_index() as int]),
        Quadrant::LowXHighY => assert(g[k] == c[q2.spec_index() as int]),
        Quadrant::HighXHighY => assert(g[k] == c[q2.spec_index() as int]),
    }
}

/// The pairing pass lists, for every box at which it pairs grandchildren
/// (see [`pairs_grandchildren`]), every ordered pair of two distinct
/// grandchildren of that box, each named by its full cell: the box of the
/// tree at `cell` reached by `d` has grandchildren at `cell + d` followed by
/// two quadrants.
pub proof fn lemma_m2l_pairs_every_grandchild_pair(
    t: Grid,
    cell: Seq<Quadrant>,
    d: Seq<Quadrant>,
    q1: Quadrant,
    q2: Quadrant,
    q3: Quadrant,
    q4: Quadrant,
)
    requires
        pairs_grandchildren(t, d),
        q1 != q3 || q2 != q4,
    ensures
        t.m2l_spec(cell).contains(((cell + d).push(q1).push(q2), (cell + d).push(q3).push(q4))),
    decreases d.len(),
{
    match t {
        Grid::Internal(a, b, c, e) => {
            let r = rows(grandchild_cells(cell), 16);
            let kids = a.m2l_spec(cell.push(Quadrant::LowXLowY)) + b.m2l_spec(cell.push(Quadrant::HighXLowY)) + c.m2l_spec(
                cell.push(Quadrant::LowXHighY),
            ) + e.m2l_spec(cell.push(Quadrant::HighXHighY));
            assert(t.m2l_spec(cell) =~= r + kids);
            if d.len() == 0 {
                assert(cell + d =~= cell);
                lemma_grandchild_index(cell, q1, q2);
                lemma_grandchild_index(cell, q3, q4);
                let x = (4 * q1.spec_index() + q2.spec_index()) as int;
                let y = (4 * q3.spec_index() + q4.spec_index()) as int;
                if x == y {
                    assert(q1.spec_index() == q3.spec_index() && q2.spec_index() == q4.spec_index());
                    crate::quadrant::lemma_quadrants_one_to_one(q1, q3);
                    crate::quadrant::lemma_quadrants_one_to_one(q2, q4);
                }
                lemma_rows_contain(grandchild_cells(cell), 16, x, y);
                lemma_contains_left(r, kids, ((cell + d).push(q1).push(q2), (cell + d).push(q3).push(q4)));
            } else {
                let q = d[0];
                let rest = d.drop_first();
                assert(cell.push(q) + rest =~= cell + d);
                let pair = ((cell + d).push(q1).push(q2), (cell + d).push(q3).push(q4));
                lemma_m2l_pairs_every_grandchild_pair(t.child(q), cell.push(q), rest, q1, q2, q3, q4);
                let sa = a.m2l_spec(cell.push(Quadrant::LowXLowY));
                let sb = b.m2l_spec(cell.push(Quadrant::HighXLowY));
                let sc = c.m2l_spec(cell.push(Quadrant::LowXHighY));
                let se = e.m2l_spec(cell.push(Quadrant::HighXHighY));
                match q {
                    Quadrant::LowXLowY => {
                        lemma_contains_left(sa, sb, pair);
                        lemma_contains_left(sa + sb, sc, pair);
                        lemma_contains_left(sa + sb + sc, se, pair);
                    },
                    Quadrant::HighXLowY => {
                        lemma_contains_right(sa, sb, pair);
                        lemma_contains_left(sa + sb, sc, pair);
                        lemma_contains_left(sa + sb + sc, se, pair);
                    },
                    Quadrant::LowXHighY => {
                        lemma_contains_right(sa + sb, sc, pair);
                        lemma_contains_left(sa + sb + sc, se, pair);
                    },
                    Quadrant::HighXHighY => {
                        lemma_contains_right(sa + sb + sc, se, pair);
                    },
                }
                assert(kids =~= sa + sb + sc + se);
                lemma_contains_right(r, kids, pair);
            }
        },
        Grid::Leaf(_) => {},
    }
}

/// Whether `p` pairs two distinct grandchildren of a box of `t` (the tree
/// standing at `cell`) at which the pairing pass pairs grandchildren.
pub open spec fn is_grandchild_pair(t: Grid, cell: Seq<Quadrant>, p: (Seq<Quadrant>, Seq<Quadrant>)) -> bool {
    exists|d: Seq<Quadrant>, q1: Quadrant, q2: Quadrant, q3: Quadrant, q4: Quadrant|
        #![trigger pairs_grandchildren(t, d), (cell + d).push(q1).push(q2), (cell + d).push(q3).push(q4)]
        pairs_grandchildren(t, d) && (q1 != q3 || q2 != q4) && p == ((cell + d).push(q1).push(q2), (cell + d).push(
            q3,
        ).push(q4))
}

proof fn lemma_contains_split<T>(a: Seq<T>, b: Seq<T>, x: T)
    requires
        (a + b).contains(x),
    ensures
        a.contains(x) || b.contains(x),
{
    let i = choose|i: int| 0 <= i < (a + b).len() && (a + b)[i] == x;
    if i < a.len() {
        assert(a[i] == x);
    } else {
        assert(b[i - a.len()] == x);
    }
}

proof fn lemma_row_only(g: Seq<Seq<Quadrant>>, a: int, n: int, p: (Seq<Quadrant>, Seq<Quadrant>))
    requires
        row_upto(g, a, n).contains(p),
        n <= g.len(),
    ensures
        exists|b: int| #![trigger g[b]] 0 <= b < n && b != a && p == (g[a], g[b]),
    decreases n,
{
    if n > 0 {
        let last = if n - 1 == a { Seq::empty() } else { seq![(g[a], g[n - 1])] };
        lemma_contains_split(row_upto(g, a, n - 1), last, p);
        if row_upto(g, a, n - 1).contains(p) {
            lemma_row_only(g, a, n - 1, p);
        } else {
            let i = choose|i: int| 0 <= i < last.len() && last[i] == p;
            assert(p == (g[a], g[n - 1]));
        }
    }
}

proof fn lemma_rows_only(g: Seq<Seq<Quadrant>>, n: int, p: (Seq<Quadrant>, Seq<Quadrant>))
    requires
        rows(g, n).contains(p),
        n <= g.len(),
    ensures
        exists|a: int, b: int| #![trigger g[a], g[b]] 0 <= a < n && 0 <= b < g.len() && a != b && p == (g[a], g[b]),
    decreases n,
{
    if n > 0 {
        lemma_contains_split(rows(g, n - 1), row_upto(g, n - 1, g.len() as int), p);
        if rows(g, n - 1).contains(p) {
            lemma_rows_only(g, n - 1, p);
            let (a, b) = choose|a: int, b: int| #![trigger g[a], g[b]] 0 <= a < n - 1 && 0 <= b < g.len() && a != b && p == (g[a], g[b]);
            assert(0 <= a < n && 0 <= b < g.len() && a != b && p == (g[a], g[b]));
        } else {
            lemma_row_only(g, n - 1, g.len() as int, p);
            let b = choose|b: int| #![trigger g[b]] 0 <= b < g.len() && b != n - 1 && p == (g[n - 1], g[b]);
            assert(0 <= n - 1 < n && 0 <= b < g.len() && n - 1 != b && p == (g[n - 1], g[b]));
        }
    }
}

proof fn lemma_grandchild_named(cell: Seq<Quadrant>, k: int)
    requires
        0 <= k < 16,
    ensures
        exists|q1: Quadrant, q2: Quadrant| 4 * q1.spec_index() + q2.spec_index() == k && grandchild_cells(cell)[k]
            == cell.push(q1).push(q2),
{
    let qs = seq![Quadrant::LowXLowY, Quadrant::HighXLowY, Quadrant::LowXHighY, Quadrant::HighXHighY];
    let q1 = qs[k / 4];
    let q2 = qs[k % 4];
    assert(q1.spec_index() == k / 4 && q2.spec_index() == k % 4) by {
        assert(qs[0].spec_index() == 0 && qs[1].spec_index() == 1 && qs[2].spec_index() == 2 && qs[3].spec_index() == 3);
    }
    lemma_grandchild_index(cell, q1, q2);
}

/// The pairing pass lists nothing but pairs of two distinct grandchildren
/// of boxes at which it pairs grandchildren (see [`pairs_grandchildren`]),
/// each named by its full cell below `cell`.
pub proof fn lemma_m2l_pairs_only_grandchild_pairs(t: Grid, cell: Seq<Quadrant>, p: (Seq<Quadrant>, Seq<Quadrant>))
    requires
        t.m2l_spec(cell).contains(p),
    ensures
        is_grandchild_pair(t, cell, p),
    decreases t,
{
    match t {
        Grid::Internal(a, b, c, e) => {
            if *a is Internal {
                let r = rows(grandchild_cells(cell), 16);
                let sa = a.m2l_spec(cell.push(Quadrant::LowXLowY));
                let sb = b.m2l_spec(cell.push(Quadrant::HighXLowY));
                let sc = c.m2l_spec(cell.push(Quadrant::LowXHighY));
                let se = e.m2l_spec(cell.push(Quadrant::HighXHighY));
                assert(t.m2l_spec(cell) == r + sa + sb + sc + se);
                lemma_contains_split(r + sa + sb + sc, se, p);
                if (r + sa + sb + sc).contains(p) {
                    lemma_contains_split(r + sa + sb, sc, p);
                    if (r + sa + sb).contains(p) {
                        lemma_contains_split(r + sa, sb, p);
                        if (r + sa).contains(p) {
                            lemma_contains_split(r, sa, p);
                        }
                    }
                }
                let g = grandchild_cells(cell);
                let none = Seq::<Quadrant>::empty();
                assert(cell + none =~= cell);
                if r.contains(p) {
                    lemma_grandchild_index(cell, Quadrant::LowXLowY, Quadrant::LowXLowY);
                    lemma_rows_only(g, 16, p);
                    let (x, y) = choose|x: int, y: int| #![trigger g[x], g[y]] 0 <= x < 16 && 0 <= y < g.len() && x != y && p == (g[x], g[y]);
                    lemma_grandchild_named(cell, x);
                    lemma_grandchild_named(cell, y);
                    let (q1, q2) = choose|q1: Quadrant, q2: Quadrant| 4 * q1.spec_index() + q2.spec_index() == x && g[x] == cell.push(q1).push(q2);
                    let (q3, q4) = choose|q3: Quadrant, q4: Quadrant| 4 * q3.spec_index() + q4.spec_index() == y && g[y] == cell.push(q3).push(q4);
                    assert(pairs_grandchildren(t, none));
                    assert(q1 != q3 || q2 != q4);
                    assert((cell + none).push(q1).push(q2) == cell.push(q1).push(q2));
                    assert((cell + none).push(q3).push(q4) == cell.push(q3).push(q4));
                } else {
                    let q = if sa.contains(p) { Quadrant::LowXLowY } else if sb.contains(p) { Quadrant::HighXLowY } else if sc.contains(p) {
                        Quadrant::LowXHighY
                    } else {
                        Quadrant::HighXHighY
                    };
                    lemma_m2l_pairs_only_grandchild_pairs(t.child(q), cell.push(q), p);
                    let (d0, q1, q2, q3, q4) = choose|d: Seq<Quadrant>, q1: Quadrant, q2: Quadrant, q3: Quadrant, q4: Quadrant|
                        #![trigger pairs_grandchildren(t.child(q), d), (cell.push(q) + d).push(q1).push(q2), (cell.push(q) + d).push(q3).push(q4)]
                        pairs_grandchildren(t.child(q), d) && (q1 != q3 || q2 != q4) && p == ((cell.push(q) + d).push(q1).push(q2), (
                        cell.push(q) + d).push(q3).push(q4));
                    let d = seq![q] + d0;
                    assert(d[0] == q);
                    assert(d.drop_first() =~= d0);
                    assert(cell.push(q) + d0 =~= cell + d);
                    assert(pairs_grandchildren(t, d));
                }
            }
        },
        Grid::Leaf(_) => {},
    }
}

proof fn lemma_no_dup_concat<T>(a: Seq<T>, b: Seq<T>)
    requires
        a.no_duplicates(),
        b.no_duplicates(),
        forall|x: T| a.contains(x) ==> !b.contains(x),
    ensures
        (a + b).no_duplicates(),
{
    assert forall|i: int, j: int| 0 <= i < (a + b).len() && 0 <= j < (a + b).len() && i != j implies (a + b)[i] != (a
        + b)[j] by {
        if i < a.len() && j >= a.len() {
            assert(a.contains((a + b)[i]));
            assert(b[j - a.len()] == (a + b)[j]);
        } else if j < a.len() && i >= a.len() {
            assert(a.contains((a + b)[j]));
            assert(b[i - a.len()] == (a + b)[i]);
        } else if i < a.len() {
            assert((a + b)[i] == a[i] && (a + b)[j] == a[j]);
        } else {
            assert((a + b)[i] == b[i - a.len()] && (a + b)[j] == b[j - a.len()]);
        }
    }
}

proof fn lemma_row_no_dup(g: Seq<Seq<Quadrant>>, a: int, n: int)
    requires
        g.no_duplicates(),
        0 <= a < g.len(),
        n <= g.len(),
    ensures
        row_upto(g, a, n).no_duplicates(),
        forall|p: (Seq<Quadrant>, Seq<Quadrant>)| row_upto(g, a, n).contains(p) ==> p.0 == g[a],
    decreases n,
{
    if n > 0 {
        lemma_row_no_dup(g, a, n - 1);
        let prev = row_upto(g, a, n - 1);
        let last = if n - 1 == a { Seq::<(Seq<Quadrant>, Seq<Quadrant>)>::empty() } else { seq![(g[a], g[n - 1])] };
        assert forall|x: (Seq<Quadrant>, Seq<Quadrant>)| prev.contains(x) implies !last.contains(x) by {
            if last.contains(x) {
                lemma_row_only(g, a, n - 1, x);
                let b = choose|b: int| #![trigger g[b]] 0 <= b < n - 1 && b != a && x == (g[a], g[b]);
                assert(last[0] == x);
                assert(g[b] == g[n - 1]);
            }
        }
        lemma_no_dup_concat(prev, last);
        assert forall|p: (Seq<Quadrant>, Seq<Quadrant>)| row_upto(g, a, n).contains(p) implies p.0 == g[a] by {
            lemma_contains_split(prev, last, p);
        }
    }
}

proof fn lemma_rows_no_dup(g: Seq<Seq<Quadrant>>, n: int)
    requires
        g.no_duplicates(),
        n <= g.len(),
    ensures
        rows(g, n).no_duplicates(),
    decreases n,
{
    if n > 0 {
        lemma_rows_no_dup(g, n - 1);
        lemma_row_no_dup(g, n - 1, g.len() as int);
        let prev = rows(g, n - 1);
        let row = row_upto(g, n - 1, g.len() as int);
        assert forall|x: (Seq<Quadrant>, Seq<Quadrant>)| prev.contains(x) implies !row.contains(x) by {
            lemma_rows_only(g, n - 1, x);
            let (a, b) = choose|a: int, b: int| #![trigger g[a], g[b]] 0 <= a < n - 1 && 0 <= b < g.len() && a != b && x == (g[a], g[b]);
            if row.contains(x) {
                assert(x.0 == g[n - 1]);
            }
        }
        lemma_no_dup_concat(prev, row);
    }
}

proof fn lemma_grandchildren_distinct(cell: Seq<Quadrant>)
    ensures
        grandchild_cells(cell).no_duplicates(),
{
    let g = grandchild_cells(cell);
    assert forall|i: int, j: int| 0 <= i < g.len() && 0 <= j < g.len() && i != j implies g[i] != g[j] by {
        lemma_grandchild_named(cell, i);
        lemma_grandchild_named(cell, j);
        let (q1, q2) = choose|q1: Quadrant, q2: Quadrant| 4 * q1.spec_index() + q2.spec_index() == i && g[i] == cell.push(q1).push(q2);
        let (q3, q4) = choose|q3: Quadrant, q4: Quadrant| 4 * q3.spec_index() + q4.spec_index() == j && g[j] == cell.push(q3).push(q4);
        if g[i] == g[j] {
            assert(g[i][cell.len() as int] == q1 && g[j][cell.len() as int] == q3);
            assert(g[i][cell.len() + 1int] == q2 && g[j][cell.len() + 1int] == q4);
        }
    }
}

proof fn lemma_pair_cells(t: Grid, cell: Seq<Quadrant>, p: (Seq<Quadrant>, Seq<Quadrant>))
    requires
        t.m2l_spec(cell).contains(p),
    ensures
        p.0.len() >= cell.len() + 2,
        p.0.subrange(0, cell.len() as int) == cell,
{
    lemma_m2l_pairs_only_grandchild_pairs(t, cell, p);
    let (d, q1, q2, q3, q4) = choose|d: Seq<Quadrant>, q1: Quadrant, q2: Quadrant, q3: Quadrant, q4: Quadrant|
        #![trigger pairs_grandchildren(t, d), (cell + d).push(q1).push(q2), (cell + d).push(q3).push(q4)]
        pairs_grandchildren(t, d) && (q1 != q3 || q2 != q4) && p == ((cell + d).push(q1).push(q2), (cell + d).push(
            q3,
        ).push(q4));
    assert(p.0.subrange(0, cell.len() as int) =~= cell);
}

/// The pairing pass lists each pair at most once.
pub proof fn lemma_m2l_pairs_once(t: Grid, cell: Seq<Quadrant>)
    ensures
        t.m2l_spec(cell).no_duplicates(),
    decreases t,
{
    match t {
        Grid::Internal(a, b, c, e) => {
            if *a is Internal {
                let g = grandchild_cells(cell);
                let r = rows(g, 16);
                let cs = seq![cell.push(Quadrant::LowXLowY), cell.push(Quadrant::HighXLowY), cell.push(Quadrant::LowXHighY), cell.push(Quadrant::HighXHighY)];
                let ss = seq![a.m2l_spec(cs[0]), b.m2l_spec(cs[1]), c.m2l_spec(cs[2]), e.m2l_spec(cs[3])];
                lemma_grandchildren_distinct(cell);
                lemma_grandchild_index(cell, Quadrant::LowXLowY, Quadrant::LowXLowY);
                lemma_rows_no_dup(g, 16);
                lemma_m2l_pairs_once(*a, cs[0]);
                lemma_m2l_pairs_once(*b, cs[1]);
                lemma_m2l_pairs_once(*c, cs[2]);
                lemma_m2l_pairs_once(*e, cs[3]);
                let kids = seq![*a, *b, *c, *e];
                // A pair listed below child k names cells that start with that child's cell.
                assert forall|k: int, x: (Seq<Quadrant>, Seq<Quadrant>)| 0 <= k < 4 && #[trigger] ss[k].contains(x) implies x.0.len()
                    >= cell.len() + 3 && x.0[cell.len() as int] == cs[k][cell.len() as int] by {
                    assert(ss[k] == kids[k].m2l_spec(cs[k]));
                    lemma_pair_cells(kids[k], cs[k], x);
                    assert(x.0.subrange(0, cs[k].len() as int)[cell.len() as int] == x.0[cell.len() as int]);
                }
                // A pair listed at this box names grandchildren of it.
                assert forall|x: (Seq<Quadrant>, Seq<Quadrant>)| r.contains(x) implies x.0.len() == cell.len() + 2 by {
                    lemma_rows_only(g, 16, x);
                    let (i, j) = choose|i: int, j: int| #![trigger g[i], g[j]] 0 <= i < 16 && 0 <= j < g.len() && i != j && x == (g[i], g[j]);
                    lemma_grandchild_named(cell, i);
                }
                assert(cs[0][cell.len() as int] == Quadrant::LowXLowY && cs[1][cell.len() as int] == Quadrant::HighXLowY && cs[2][cell.len() as int]
                    == Quadrant::LowXHighY && cs[3][cell.len() as int] == Quadrant::HighXHighY);
                assert forall|x| r.contains(x) implies !ss[0].contains(x) by {}
                lemma_no_dup_concat(r, ss[0]);
                assert forall|x| (r + ss[0]).contains(x) implies !ss[1].contains(x) by {
                    lemma_contains_split(r, ss[0], x);
                }
                lemma_no_dup_concat(r + ss[0], ss[1]);
                assert forall|x| (r + ss[0] + ss[1]).contains(x) implies !ss[2].contains(x) by {
                    lemma_contains_split(r + ss[0], ss[1], x);
                    if (r + ss[0]).contains(x) {
                        lemma_contains_split(r, ss[0], x);
                    }
                }
                lemma_no_dup_concat(r + ss[0] + ss[1], ss[2]);
                assert forall|x| (r + ss[0] + ss[1] + ss[2]).contains(x) implies !ss[3].contains(x) by {
                    lemma_contains_split(r + ss[0] + ss[1], ss[2], x);
                    if (r + ss[0] + ss[1]).contains(x) {
                        lemma_contains_split(r + ss[0], ss[1], x);
                        if (r + ss[0]).contains(x) {
                            lemma_contains_split(r, ss[0], x);
                        }
                    }
                }
                lemma_no_dup_concat(r + ss[0] + ss[1] + ss[2], ss[3]);
                assert(t.m2l_spec(cell) == r + ss[0] + ss[1] + ss[2] + ss[3]);
            }
        },
        Grid::Leaf(_) => {},
    }
}

} // verus!
