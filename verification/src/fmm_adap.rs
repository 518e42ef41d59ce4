//! The adaptive quadtree of the fast-multipole solver: a box holds its stars
//! in a leaf until the leaf is full, then splits into four children.

use vstd::prelude::*;
use vstd::multiset::Multiset;
use crate::quadrant::{Body, Quadrant, PATH_LEN, copy_bodies, lemma_ids_of_quarters};

verus! {

/// A leaf below `MAXLVL` that already holds this many stars splits on the
/// next insertion.
pub const MAX_STAR: usize = 20;

/// From this level on a leaf takes every star it is given and never splits.
pub const MAXLVL: usize = 20;

/// The mathematical content of a [`Node`]: the same tree with the stars of a
/// leaf as a sequence. `M` is the expansion that the solver attaches to a box.
pub enum Tree<M> {
    Empty,
    Internal(Box<Tree<M>>, Box<Tree<M>>, Box<Tree<M>>, Box<Tree<M>>, Option<M>),
    Leaf(Seq<Body>, Option<M>),
}

impl<M> Tree<M> {
    /// The star indices in the tree, children in quadrant order and the
    /// stars of a leaf in the order they were added.
    pub open spec fn ids(self) -> Seq<usize>
        decreases self,
    {
        match self {
            Tree::Empty => Seq::empty(),
            Tree::Internal(a, b, c, d, _) => a.ids() + b.ids() + c.ids() + d.ids(),
            Tree::Leaf(stars, _) => stars.map_values(|s: Body| s.id),
        }
    }

    /// Internal boxes stand only above level `PATH_LEN`, so that every star
    /// that reaches one can be routed by its path.
    pub open spec fn shaped(self, depth: nat) -> bool
        decreases self,
    {
        match self {
            Tree::Internal(a, b, c, d, _) => {
                &&& depth < PATH_LEN
                &&& a.shaped(depth + 1)
                &&& b.shaped(depth + 1)
                &&& c.shaped(depth + 1)
                &&& d.shaped(depth + 1)
            },
            _ => true,
        }
    }

    /// Every star of the tree lies in the box of the node that holds it,
    /// the tree standing at `cell` below the root.
    pub open spec fn placed(self, cell: Seq<Quadrant>) -> bool
        decreases self,
    {
        match self {
            Tree::Empty => true,
            Tree::Internal(a, b, c, d, _) => {
                &&& cell.len() < PATH_LEN
                &&& a.placed(cell.push(Quadrant::LowXLowY))
                &&& b.placed(cell.push(Quadrant::HighXLowY))
                &&& c.placed(cell.push(Quadrant::LowXHighY))
                &&& d.placed(cell.push(Quadrant::HighXHighY))
            },
            Tree::Leaf(stars, _) => {
                &&& cell.len() <= PATH_LEN
                &&& forall|i: int| 0 <= i < stars.len() ==> #[trigger] stars[i].in_cell(cell)
            },
        }
    }

    /// An internal box whose four children are empty and that has no
    /// expansion yet.
    pub open spec fn fresh() -> Tree<M> {
        Tree::Internal(
            Box::new(Tree::Empty),
            Box::new(Tree::Empty),
            Box::new(Tree::Empty),
            Box::new(Tree::Empty),
            None,
        )
    }

    /// The tree after `star` is pushed down into it, the tree standing at
    /// level `depth` and the insertion counting `lvl` levels.
    pub open spec fn inserted(self, star: Body, depth: nat, lvl: nat) -> Tree<M>
        decreases PATH_LEN - depth, MAXLVL - lvl, 0nat,
    {
        match self {
            Tree::Empty => Tree::Leaf(seq![star], None),
            Tree::Internal(a, b, c, d, m) => {
                if depth < PATH_LEN {
                    match star.quadrant_at(depth as int) {
                        Quadrant::LowXLowY => Tree::Internal(
                            Box::new(a.inserted(star, depth + 1, lvl + 1)), b, c, d, m),
                        Quadrant::HighXLowY => Tree::Internal(
                            a, Box::new(b.inserted(star, depth + 1, lvl + 1)), c, d, m),
                        Quadrant::LowXHighY => Tree::Internal(
                            a, b, Box::new(c.inserted(star, depth + 1, lvl + 1)), d, m),
                        Quadrant::HighXHighY => Tree::Internal(
                            a, b, c, Box::new(d.inserted(star, depth + 1, lvl + 1)), m),
                    }
                } else {
                    self
                }
            },
            Tree::Leaf(stars, m) => {
                if lvl >= MAXLVL || stars.len() < MAX_STAR || depth >= PATH_LEN {
                    Tree::Leaf(stars.push(star), m)
                } else {
                    Tree::<M>::fresh().inserted_all(seq![star] + stars, depth, lvl + 1)
                }
            },
        }
    }

    /// The tree after the stars of `stars` are pushed down one after the other.
    pub open spec fn inserted_all(self, stars: Seq<Body>, depth: nat, lvl: nat) -> Tree<M>
        decreases PATH_LEN - depth, MAXLVL - lvl, stars.len(),
    {
        if stars.len() == 0 {
            self
        } else {
            self.inserted(stars[0], depth, lvl).inserted_all(stars.drop_first(), depth, lvl)
        }
    }
}

impl<M> Tree<M> {
    /// Every box below this one that is split holds more than `MAX_STAR`
    /// stars.
    pub open spec fn dense(self) -> bool
        decreases self,
    {
        match self {
            Tree::Internal(a, b, c, d, _) => {
                &&& (*a is Internal ==> a.ids().len() > MAX_STAR) && a.dense()
                &&& (*b is Internal ==> b.ids().len() > MAX_STAR) && b.dense()
                &&& (*c is Internal ==> c.ids().len() > MAX_STAR) && c.dense()
                &&& (*d is Internal ==> d.ids().len() > MAX_STAR) && d.dense()
            },
            _ => true,
        }
    }
}

impl<M> Tree<M> {
    /// The expansion attached to the box, if any; an empty box has none.
    pub open spec fn multi(self) -> Option<M> {
        match self {
            Tree::Empty => None,
            Tree::Internal(_, _, _, _, m) => m,
            Tree::Leaf(_, m) => m,
        }
    }

    /// The same box with its expansion replaced (an empty box is unchanged).
    pub open spec fn with_multi(self, m: Option<M>) -> Tree<M> {
        match self {
            Tree::Empty => Tree::Empty,
            Tree::Internal(a, b, c, d, _) => Tree::Internal(a, b, c, d, m),
            Tree::Leaf(stars, _) => Tree::Leaf(stars, m),
        }
    }
}

impl<M> Tree<M> {
    /// Whether two trees have the same boxes holding the same stars, their
    /// expansions aside.
    pub open spec fn same_boxes(self, other: Tree<M>) -> bool
        decreases self,
    {
        match (self, other) {
            (Tree::Empty, Tree::Empty) => true,
            (Tree::Internal(a, b, c, d, _), Tree::Internal(a2, b2, c2, d2, _)) => {
                &&& a.same_boxes(*a2)
                &&& b.same_boxes(*b2)
                &&& c.same_boxes(*c2)
                &&& d.same_boxes(*d2)
            },
            (Tree::Leaf(s, _), Tree::Leaf(s2, _)) => s == s2,
            _ => false,
        }
    }
}

impl<M> Tree<M> {
    /// The child of an internal box in quadrant `q`; other boxes have no
    /// children, which reads as empty.
    pub open spec fn child(self, q: Quadrant) -> Tree<M> {
        match self {
            Tree::Internal(a, b, c, d, _) => match q {
                Quadrant::LowXLowY => *a,
                Quadrant::HighXLowY => *b,
                Quadrant::LowXHighY => *c,
                Quadrant::HighXHighY => *d,
            },
            _ => Tree::Empty,
        }
    }

    /// The box reached from this one by `cell`, one quadrant per level.
    pub open spec fn subtree(self, cell: Seq<Quadrant>) -> Tree<M>
        decreases cell.len(),
    {
        if cell.len() == 0 {
            self
        } else {
            self.child(cell[0]).subtree(cell.drop_first())
        }
    }
}

impl<M> Tree<M> {
    /// Whether `cell` leads, one quadrant per level, through internal boxes
    /// only to a box of the tree.
    pub open spec fn reaches(self, cell: Seq<Quadrant>) -> bool
        decreases cell.len(),
    {
        cell.len() == 0 || (self is Internal && self.child(cell[0]).reaches(cell.drop_first()))
    }

    /// The tree with the expansion of the box at `cell` replaced by `m`.
    pub open spec fn with_multi_at(self, cell: Seq<Quadrant>, m: Option<M>) -> Tree<M>
        decreases cell.len(),
    {
        if cell.len() == 0 {
            self.with_multi(m)
        } else {
            match self {
                Tree::Internal(a, b, c, d, mm) => match cell[0] {
                    Quadrant::LowXLowY => Tree::Internal(Box::new(a.with_multi_at(cell.drop_first(), m)), b, c, d, mm),
                    Quadrant::HighXLowY => Tree::Internal(a, Box::new(b.with_multi_at(cell.drop_first(), m)), c, d, mm),
                    Quadrant::LowXHighY => Tree::Internal(a, b, Box::new(c.with_multi_at(cell.drop_first(), m)), d, mm),
                    Quadrant::HighXHighY => Tree::Internal(a, b, c, Box::new(d.with_multi_at(cell.drop_first(), m)), mm),
                },
                _ => self,
            }
        }
    }
}

/// A box of the adaptive tree: empty, split into four children, or a leaf
/// holding the stars that fell in it. `multi` is the expansion that the
/// solver computes for the box.
#[derive(Debug)]
pub enum Node<M> {
    Empty,
    Internal {
        q0: Box<Node<M>>,
        q1: Box<Node<M>>,
        q2: Box<Node<M>>,
        q3: Box<Node<M>>,
        multi: Option<M>,
    },
    Leaf { star: Vec<Body>, multi: Option<M> },
}

impl<M> Node<M> {
    pub open spec fn model(self) -> Tree<M>
        decreases self,
    {
        match self {
            Node::Empty => Tree::Empty,
            Node::Internal { q0, q1, q2, q3, multi } => Tree::Internal(
                Box::new(q0.model()),
                Box::new(q1.model()),
                Box::new(q2.model()),
                Box::new(q3.model()),
                multi,
            ),
            Node::Leaf { star, multi } => Tree::Leaf(star@, multi),
        }
    }
}

impl<M> View for Node<M> {
    type V = Tree<M>;

    open spec fn view(&self) -> Tree<M> {
        self.model()
    }
}

/// Whether `copy` has the boxes and stars of `t`, and each box of `copy`
/// has an expansion exactly where the box of `t` has one, the two related
/// by `rel`.
pub open spec fn copies<M>(t: Tree<M>, copy: Tree<M>, rel: spec_fn(M, M) -> bool) -> bool
    decreases t,
{
    match (t, copy) {
        (Tree::Empty, Tree::Empty) => true,
        (Tree::Internal(a, b, c, d, m), Tree::Internal(a2, b2, c2, d2, m2)) => {
            &&& multi_copied(m, m2, rel)
            &&& copies(*a, *a2, rel)
            &&& copies(*b, *b2, rel)
            &&& copies(*c, *c2, rel)
            &&& copies(*d, *d2, rel)
        },
        (Tree::Leaf(s, m), Tree::Leaf(s2, m2)) => s2 == s && multi_copied(m, m2, rel),
        _ => false,
    }
}

/// Whether `m2` is `None` exactly where `m` is, and otherwise holds a value
/// related to that of `m` by `rel`.
pub open spec fn multi_copied<M>(m: Option<M>, m2: Option<M>, rel: spec_fn(M, M) -> bool) -> bool {
    match (m, m2) {
        (None, None) => true,
        (Some(x), Some(y)) => rel(x, y),
        _ => false,
    }
}

/// A copy has an expansion in every box holding stars if the tree it was
/// made from does.
pub broadcast proof fn lemma_copies_expanded<M>(t: Tree<M>, copy: Tree<M>, rel: spec_fn(M, M) -> bool)
    requires
        #[trigger] copies(t, copy, rel),
    ensures
        t.expanded() ==> copy.expanded(),
    decreases t,
{
    match (t, copy) {
        (Tree::Internal(a, b, c, d, _), Tree::Internal(a2, b2, c2, d2, _)) => {
            lemma_copies_expanded(*a, *a2, rel);
            lemma_copies_expanded(*b, *b2, rel);
            lemma_copies_expanded(*c, *c2, rel);
            lemma_copies_expanded(*d, *d2, rel);
        },
        _ => {},
    }
}

/// `b` is what cloning `a` may give.
pub open spec fn clone_rel<M: Clone>() -> spec_fn(M, M) -> bool {
    |a: M, b: M| cloned::<M>(a, b)
}

impl<M: Clone> Clone for Node<M> {
    /// A copy of the whole tree, with each expansion cloned.
    fn clone(&self) -> (copy: Self)
        ensures
            copies(self@, copy@, clone_rel::<M>()),
            copy@.same_boxes(self@),
            copy@.ids() == self@.ids(),
            self@.expanded() ==> copy@.expanded(),
        decreases self,
    {
        proof {
            broadcast use lemma_copies_expanded;
        }
        match self {
            Node::Empty => Node::Empty,
            Node::Internal { q0, q1, q2, q3, multi } => Node::Internal {
                q0: Box::new((&**q0).clone()),
                q1: Box::new((&**q1).clone()),
                q2: Box::new((&**q2).clone()),
                q3: Box::new((&**q3).clone()),
                multi: multi.clone(),
            },
            Node::Leaf { star, multi } => Node::Leaf { star: copy_bodies(star), multi: multi.clone() },
        }
    }
}

impl<M> Node<M> {
    /// An internal box whose four children are empty.
    fn fresh() -> (r: Node<M>)
        ensures
            r@ == Tree::<M>::fresh(),
    {
        proof {
            assert(Node::<M>::Empty.model() == Tree::<M>::Empty);
        }
        Node::Internal {
            q0: Box::new(Node::Empty),
            q1: Box::new(Node::Empty),
            q2: Box::new(Node::Empty),
            q3: Box::new(Node::Empty),
            multi: None,
        }
    }

    /// Pushes `star` down into the tree, which stands at level `depth`, with
    /// the insertion counting `lvl` levels; returns the new tree.
    fn into_pushed(self, star: Body, depth: usize, lvl: usize) -> (r: Node<M>)
        requires
            self@.shaped(depth as nat),
            depth <= lvl,
            lvl - depth <= usize::MAX - PATH_LEN,
        ensures
            r@ == self@.inserted(star, depth as nat, lvl as nat),
            r@.shaped(depth as nat),
        decreases PATH_LEN - depth, MAXLVL - lvl,
    {
        proof {
            lemma_inserted_shaped(self@, star, depth as nat, lvl as nat);
        }
        match self {
            Node::Empty => {
                let mut v: Vec<Body> = Vec::new();
                v.push(star);
                proof {
                    assert(v@ =~= seq![star]);
                }
                Node::Leaf { star: v, multi: None }
            },
            Node::Internal { q0, q1, q2, q3, multi } => {
                let q = star.path[depth];
                match q {
                    Quadrant::LowXLowY => {
                        let c = (*q0).into_pushed(star, depth + 1, lvl + 1);
                        Node::Internal { q0: Box::new(c), q1, q2, q3, multi }
                    },
                    Quadrant::HighXLowY => {
                        let c = (*q1).into_pushed(star, depth + 1, lvl + 1);
                        Node::Internal { q0, q1: Box::new(c), q2, q3, multi }
                    },
                    Quadrant::LowXHighY => {
                        let c = (*q2).into_pushed(star, depth + 1, lvl + 1);
                        Node::Internal { q0, q1, q2: Box::new(c), q3, multi }
                    },
                    Quadrant::HighXHighY => {
                        let c = (*q3).into_pushed(star, depth + 1, lvl + 1);
                        Node::Internal { q0, q1, q2, q3: Box::new(c), multi }
                    },
                }
            },
            Node::Leaf { star: stars, multi } => {
                if lvl >= MAXLVL || stars.len() < MAX_STAR {
                    let mut stars = stars;
                    stars.push(star);
                    return Node::Leaf { star: stars, multi };
                }
                let ghost all = seq![star] + stars@;
                let ghost target = Tree::<M>::fresh().inserted_all(all, depth as nat, (lvl + 1) as nat);
                proof {
                    assert(all[0] == star);
                    assert(all.drop_first() =~= stars@);
                    lemma_fresh_shaped::<M>(depth as nat);
                }
                let mut nn: Node<M> = Node::fresh();
                nn = nn.into_pushed(star, depth, lvl + 1);
                proof {
                    assert(stars@.skip(0) =~= stars@);
                }
                let mut i: usize = 0;
                while i < stars.len()
                    invariant
                        i <= stars@.len(),
                        depth <= lvl < MAXLVL,
                        nn@.shaped(depth as nat),
                        nn@.inserted_all(stars@.skip(i as int), depth as nat, (lvl + 1) as nat)
                            == target,
                    decreases stars@.len() - i,
                {
                    proof {
                        let rest = stars@.skip(i as int);
                        assert(rest[0] == stars@[i as int]);
                        assert(rest.drop_first() =~= stars@.skip(i + 1));
                    }
                    nn = nn.into_pushed(stars[i], depth, lvl + 1);
                    i = i + 1;
                }
                proof {
                    assert(stars@.skip(i as int) =~= Seq::<Body>::empty());
                }
                nn
            },
        }
    }

    /// Pushes `star` down into the tree, which stands at level `depth`, with
    /// the insertion counting `lvl` levels: an empty box becomes a leaf; an
    /// internal box passes the star to the child of its quadrant at the next
    /// level; a leaf keeps the star if it is at `MAXLVL` or beyond or holds
    /// fewer than `MAX_STAR` stars, and otherwise becomes an internal box
    /// into which the new star and then its old stars are pushed, one level on.
    /// A body records its quadrant at each of the first `PATH_LEN` levels
    /// only, so the tree must not stand below the level at which leaves stop
    /// splitting: `depth <= lvl` and the bound on `lvl - depth` say so.
    pub fn push_down(&mut self, star: Body, depth: usize, lvl: usize)
        requires
            old(self)@.shaped(depth as nat),
            depth <= lvl,
            lvl - depth <= usize::MAX - PATH_LEN,
        ensures
            final(self)@ == old(self)@.inserted(star, depth as nat, lvl as nat),
            final(self)@.shaped(depth as nat),
            final(self)@.ids().to_multiset() =~= old(self)@.ids().to_multiset().insert(star.id),
            old(self)@.dense() ==> final(self)@.dense(),
    {
        proof {
            lemma_inserted_ids(old(self)@, star, depth as nat, lvl as nat);
            if old(self)@.dense() {
                lemma_inserted_dense(old(self)@, star, depth as nat, lvl as nat);
            }
        }
        let mut t: Node<M> = Node::Empty;
        std::mem::swap(&mut t, self);
        let r = t.into_pushed(star, depth, lvl);
        *self = r;
    }

    /// Builds the tree of `stars`: a root box split into four empty
    /// children, into which the stars are pushed down from level 0 in order.
    pub fn new(stars: Vec<Body>, _lvl: usize) -> (tree: Node<M>)
        ensures
            tree@ == Tree::<M>::fresh().inserted_all(stars@, 0, 0),
            tree@.shaped(0),
            tree@.placed(Seq::empty()),
            tree@.dense(),
            tree@.ids().to_multiset() =~= stars@.map_values(|s: Body| s.id).to_multiset(),
    {
        let mut tree: Node<M> = Node::fresh();
        proof {
            lemma_fresh_shaped::<M>(0);
            lemma_tree_keeps_every_star::<M>(stars@);
            assert(stars@.skip(0) =~= stars@);
        }
        let ghost target = tree@.inserted_all(stars@, 0, 0);
        let mut i: usize = 0;
        while i < stars.len()
            invariant
                i <= stars@.len(),
                tree@.shaped(0),
                tree@.inserted_all(stars@.skip(i as int), 0, 0) == target,
            decreases stars@.len() - i,
        {
            proof {
                let rest = stars@.skip(i as int);
                assert(rest[0] == stars@[i as int]);
                assert(rest.drop_first() =~= stars@.skip(i + 1));
            }
            tree.push_down(stars[i], 0, 0);
            i = i + 1;
        }
        proof {
            assert(stars@.skip(i as int) =~= Seq::<Body>::empty());
        }
        tree
    }

    /// The indices of all stars in the tree: the children's stars in
    /// quadrant order, and a leaf's stars in the order they arrived.
    pub fn collapse(&self) -> (stars: Vec<usize>)
        ensures
            stars@ == self@.ids(),
        decreases self,
    {
        let mut stars: Vec<usize> = Vec::new();
        match self {
            Node::Internal { q0, q1, q2, q3, .. } => {
                let mut a = q0.collapse();
                stars.append(&mut a);
                let mut b = q1.collapse();
                stars.append(&mut b);
                let mut c = q2.collapse();
                stars.append(&mut c);
                let mut d = q3.collapse();
                stars.append(&mut d);
            },
            Node::Leaf { star, .. } => {
                let mut i: usize = 0;
                while i < star.len()
                    invariant
                        i <= star@.len(),
                        stars@ =~= star@.take(i as int).map_values(|s: Body| s.id),
                    decreases star@.len() - i,
                {
                    proof {
                        assert(star@.take(i + 1) =~= star@.take(i as int).push(star@[i as int]));
                    }
                    stars.push(star[i].id);
                    i = i + 1;
                }
                proof {
                    assert(star@.take(i as int) =~= star@);
                }
            },
            Node::Empty => {},
        }
        stars
    }

    /// The box at `cell` below this one, or `None` where the cell goes on
    /// below a box that is not split.
    pub fn node_at(&self, cell: &Vec<Quadrant>) -> (found: Option<&Node<M>>)
        ensures
            found is Some <==> self@.reaches(cell@),
            found matches Some(n) ==> n@ == self@.subtree(cell@),
    {
        proof {
            assert(cell@.skip(0) =~= cell@);
        }
        self.node_at_from(cell, 0)
    }

    fn node_at_from(&self, cell: &Vec<Quadrant>, i: usize) -> (found: Option<&Node<M>>)
        requires
            i <= cell@.len(),
        ensures
            found is Some <==> self@.reaches(cell@.skip(i as int)),
            found matches Some(n) ==> n@ == self@.subtree(cell@.skip(i as int)),
        decreases cell@.len() - i,
    {
        if i == cell.len() {
            proof {
                assert(cell@.skip(i as int) =~= Seq::<Quadrant>::empty());
            }
            return Some(self);
        }
        proof {
            assert(cell@.skip(i as int)[0] == cell@[i as int]);
            assert(cell@.skip(i as int).drop_first() =~= cell@.skip(i + 1));
        }
        match self {
            Node::Internal { q0, q1, q2, q3, .. } => match cell[i] {
                Quadrant::LowXLowY => q0.node_at_from(cell, i + 1),
                Quadrant::HighXLowY => q1.node_at_from(cell, i + 1),
                Quadrant::LowXHighY => q2.node_at_from(cell, i + 1),
                Quadrant::HighXHighY => q3.node_at_from(cell, i + 1),
            },
            _ => None,
        }
    }

    /// The expansion of the box at `cell` below this one, to be updated in
    /// place; the rest of the tree stays as it is.
    pub fn multipole_at_mut(&mut self, cell: &Vec<Quadrant>) -> (m: &mut M)
        requires
            old(self)@.reaches(cell@),
            old(self)@.subtree(cell@).multi() is Some,
        ensures
            *m == old(self)@.subtree(cell@).multi().unwrap(),
            final(self)@ == old(self)@.with_multi_at(cell@, Some(*final(m))),
    {
        proof {
            assert(cell@.skip(0) =~= cell@);
        }
        self.multipole_at_mut_from(cell, 0)
    }

    fn multipole_at_mut_from(&mut self, cell: &Vec<Quadrant>, i: usize) -> (m: &mut M)
        requires
            i <= cell@.len(),
            old(self)@.reaches(cell@.skip(i as int)),
            old(self)@.subtree(cell@.skip(i as int)).multi() is Some,
        ensures
            *m == old(self)@.subtree(cell@.skip(i as int)).multi().unwrap(),
            final(self)@ == old(self)@.with_multi_at(cell@.skip(i as int), Some(*final(m))),
        decreases cell@.len() - i,
    {
        if i == cell.len() {
            proof {
                assert(cell@.skip(i as int) =~= Seq::<Quadrant>::empty());
            }
            return self.multipole_mut();
        }
        proof {
            assert(cell@.skip(i as int)[0] == cell@[i as int]);
            assert(cell@.skip(i as int).drop_first() =~= cell@.skip(i + 1));
        }
        match self {
            Node::Internal { q0, q1, q2, q3, .. } => match cell[i] {
                Quadrant::LowXLowY => q0.multipole_at_mut_from(cell, i + 1),
                Quadrant::HighXLowY => q1.multipole_at_mut_from(cell, i + 1),
                Quadrant::LowXHighY => q2.multipole_at_mut_from(cell, i + 1),
                Quadrant::HighXHighY => q3.multipole_at_mut_from(cell, i + 1),
            },
            _ => {
                proof {
                    assert(false);
                }
                self.multipole_mut()
            },
        }
    }

    /// The expansion of the box.
    pub fn multipole(&self) -> (m: &M)
        requires
            self@.multi() is Some,
        ensures
            *m == self@.multi().unwrap(),
    {
        let slot: Option<&Option<M>> = match self {
            Node::Internal { multi, .. } => Some(multi),
            Node::Leaf { multi, .. } => Some(multi),
            Node::Empty => None,
        };
        slot.unwrap().as_ref().unwrap()
    }

    /// The expansion of the box, to be updated in place.
    pub fn multipole_mut(&mut self) -> (m: &mut M)
        requires
            old(self)@.multi() is Some,
        ensures
            *m == old(self)@.multi().unwrap(),
            final(self)@ == old(self)@.with_multi(Some(*final(m))),
    {
        let slot: Option<&mut Option<M>> = match self {
            Node::Internal { multi, .. } => Some(multi),
            Node::Leaf { multi, .. } => Some(multi),
            Node::Empty => None,
        };
        slot.unwrap().as_mut().unwrap()
    }
}

impl<M> Tree<M> {
    /// Every box that holds stars has an expansion.
    pub open spec fn expanded(self) -> bool
        decreases self,
    {
        match self {
            Tree::Empty => true,
            Tree::Internal(a, b, c, d, m) => {
                &&& m is Some
                &&& a.expanded()
                &&& b.expanded()
                &&& c.expanded()
                &&& d.expanded()
            },
            Tree::Leaf(_, m) => m is Some,
        }
    }
}

/// The expansions of the solver, computed by the simulation for the boxes
/// that the library names by their cells:
/// - `empty()`: the expansion of nothing, to which children's expansions
///   are added;
/// - `of_stars(stars, cell)`: the expansion of the stars of a leaf at `cell`;
/// - `m2m(parent, child, child_cell, cell)`: the expansion `parent` of the
///   box at `cell` with the expansion `child` of its child at `child_cell`
///   added;
/// - `l2l(child, parent, cell, child_cell)`: the local expansion `child` of
///   the box at `child_cell` with the local expansion `parent` of its parent
///   at `cell` added.
pub struct Expansions<E, S, U, D> {
    pub empty: E,
    pub of_stars: S,
    pub m2m: U,
    pub l2l: D,
}

impl<E, S, U, D> Expansions<E, S, U, D> {
    /// The simulation can be asked for any expansion.
    pub open spec fn callable<M>(self) -> bool
        where
            E: Fn() -> M,
            S: Fn(&Vec<Body>, &Vec<Quadrant>) -> M,
            U: Fn(&M, &M, &Vec<Quadrant>, &Vec<Quadrant>) -> M,
            D: Fn(&M, &M, &Vec<Quadrant>, &Vec<Quadrant>) -> M,
    {
        &&& call_requires(self.empty, ())
        &&& forall|v: &Vec<Body>, c: &Vec<Quadrant>| call_requires(self.of_stars, (v, c))
        &&& forall|p: &M, k: &M, c1: &Vec<Quadrant>, c2: &Vec<Quadrant>| call_requires(self.m2m, (p, k, c1, c2))
        &&& forall|k: &M, p: &M, c1: &Vec<Quadrant>, c2: &Vec<Quadrant>| call_requires(self.l2l, (k, p, c1, c2))
    }
}

impl<E, S, U, D> Expansions<E, S, U, D> {
    /// `empty()` may give `m`.
    pub open spec fn empty_rel<M>(self) -> spec_fn(M) -> bool
        where E: Fn() -> M,
    {
        |m: M| call_ensures(self.empty, (), m)
    }

    /// `of_stars` may give `m` for the stars `stars` of the leaf at `cell`.
    pub open spec fn of_stars_rel<M>(self) -> spec_fn(Seq<Body>, Seq<Quadrant>, M) -> bool
        where S: Fn(&Vec<Body>, &Vec<Quadrant>) -> M,
    {
        |stars: Seq<Body>, cell: Seq<Quadrant>, m: M|
            exists|v: Vec<Body>, c: Vec<Quadrant>|
                #![trigger v@, c@]
                v@ == stars && c@ == cell && call_ensures(self.of_stars, (&v, &c), m)
    }

    /// `m2m(parent, child, child_cell, cell)` may give `out`.
    pub open spec fn m2m_rel<M>(self) -> spec_fn(M, M, Seq<Quadrant>, Seq<Quadrant>, M) -> bool
        where U: Fn(&M, &M, &Vec<Quadrant>, &Vec<Quadrant>) -> M,
    {
        |parent: M, child: M, child_cell: Seq<Quadrant>, cell: Seq<Quadrant>, out: M|
            exists|kc: Vec<Quadrant>, c: Vec<Quadrant>|
                #![trigger kc@, c@]
                kc@ == child_cell && c@ == cell && call_ensures(self.m2m, (&parent, &child, &kc, &c), out)
    }

    /// `l2l(child, parent, cell, child_cell)` may give `out`.
    pub open spec fn l2l_rel<M>(self) -> spec_fn(M, M, Seq<Quadrant>, Seq<Quadrant>, M) -> bool
        where D: Fn(&M, &M, &Vec<Quadrant>, &Vec<Quadrant>) -> M,
    {
        |child: M, parent: M, cell: Seq<Quadrant>, child_cell: Seq<Quadrant>, out: M|
            exists|c: Vec<Quadrant>, kc: Vec<Quadrant>|
                #![trigger c@, kc@]
                c@ == cell && kc@ == child_cell && call_ensures(self.l2l, (&child, &parent, &c, &kc), out)
    }

    /// What the upward pass gives with these answers: see [`upward`].
    pub open spec fn lifts<M>(self, before: Tree<M>, after: Tree<M>, cell: Seq<Quadrant>) -> bool
        where
            E: Fn() -> M,
            S: Fn(&Vec<Body>, &Vec<Quadrant>) -> M,
            U: Fn(&M, &M, &Vec<Quadrant>, &Vec<Quadrant>) -> M,
    {
        upward(before, after, cell, self.empty_rel(), self.of_stars_rel(), self.m2m_rel())
    }

    /// What the downward pass gives with these answers: see [`downward`].
    pub open spec fn lowers<M>(self, before: Tree<M>, after: Tree<M>, cell: Seq<Quadrant>) -> bool
        where D: Fn(&M, &M, &Vec<Quadrant>, &Vec<Quadrant>) -> M,
    {
        downward(before, after, cell, self.l2l_rel())
    }

    /// What handing `parent` down to a child and the child's own downward
    /// pass give with these answers: see [`handed`].
    pub open spec fn hands<M>(
        self,
        before: Tree<M>,
        after: Tree<M>,
        parent: M,
        cell: Seq<Quadrant>,
        child_cell: Seq<Quadrant>,
    ) -> bool
        where D: Fn(&M, &M, &Vec<Quadrant>, &Vec<Quadrant>) -> M,
    {
        handed(before, after, parent, cell, child_cell, self.l2l_rel())
    }
}

/// Names an expansion at an intermediate stage of a pass.
pub open spec fn partial<M>(m: M) -> bool {
    true
}

/// Whether `out` is the expansion `acc` of the box at `cell` with the
/// expansion of its child `child`, at `child_cell`, added by `m2m`; an empty
/// child adds nothing.
pub open spec fn added<M>(
    m2m: spec_fn(M, M, Seq<Quadrant>, Seq<Quadrant>, M) -> bool,
    acc: M,
    child: Tree<M>,
    child_cell: Seq<Quadrant>,
    cell: Seq<Quadrant>,
    out: M,
) -> bool {
    if child is Empty {
        out == acc
    } else {
        m2m(acc, child.multi().unwrap(), child_cell, cell, out)
    }
}

/// Whether the expansion `m` of an internal box at `cell` with children
/// `a`, `b`, `c`, `d` (as they are after their own upward pass) is `empty()`
/// with the expansions of the non-empty children added in quadrant order.
pub open spec fn children_sum<M>(
    empty: spec_fn(M) -> bool,
    m2m: spec_fn(M, M, Seq<Quadrant>, Seq<Quadrant>, M) -> bool,
    a: Tree<M>,
    b: Tree<M>,
    c: Tree<M>,
    d: Tree<M>,
    cell: Seq<Quadrant>,
    m: M,
) -> bool {
    exists|e: M, m1: M, m2: M, m3: M|
        #![trigger partial(e), partial(m1), partial(m2), partial(m3)]
        partial(e) && partial(m1) && partial(m2) && partial(m3) && empty(e) && added(m2m, e, a, cell.push(Quadrant::LowXLowY), cell, m1)
            && added(m2m, m1, b, cell.push(Quadrant::HighXLowY), cell, m2)
            && added(m2m, m2, c, cell.push(Quadrant::LowXHighY), cell, m3)
            && added(m2m, m3, d, cell.push(Quadrant::HighXHighY), cell, m)
}

/// What the upward pass makes of the tree `before` standing at `cell`: an
/// empty box stays empty; a leaf gets `of_stars` of its stars; an internal
/// box has each child's upward pass done, then gets `empty()` with the
/// expansions of its non-empty children added in quadrant order.
pub open spec fn upward<M>(
    before: Tree<M>,
    after: Tree<M>,
    cell: Seq<Quadrant>,
    empty: spec_fn(M) -> bool,
    of_stars: spec_fn(Seq<Body>, Seq<Quadrant>, M) -> bool,
    m2m: spec_fn(M, M, Seq<Quadrant>, Seq<Quadrant>, M) -> bool,
) -> bool
    decreases before,
{
    match before {
        Tree::Empty => after == Tree::<M>::Empty,
        Tree::Leaf(stars, _) => after matches Tree::Leaf(s2, Some(m)) && s2 == stars && of_stars(stars, cell, m),
        Tree::Internal(a, b, c, d, _) => after matches Tree::Internal(a2, b2, c2, d2, Some(m)) && {
            &&& upward(*a, *a2, cell.push(Quadrant::LowXLowY), empty, of_stars, m2m)
            &&& upward(*b, *b2, cell.push(Quadrant::HighXLowY), empty, of_stars, m2m)
            &&& upward(*c, *c2, cell.push(Quadrant::LowXHighY), empty, of_stars, m2m)
            &&& upward(*d, *d2, cell.push(Quadrant::HighXHighY), empty, of_stars, m2m)
            &&& children_sum(empty, m2m, *a2, *b2, *c2, *d2, cell, m)
        },
    }
}

/// What handing the local expansion `parent` of the box at `cell` down to
/// its child `before`, at `child_cell`, and then the child's own downward
/// pass make of the child: an empty child stays as it is; any other gets
/// its expansion with `parent` added by `l2l`, then passes it on.
pub open spec fn handed<M>(
    before: Tree<M>,
    after: Tree<M>,
    parent: M,
    cell: Seq<Quadrant>,
    child_cell: Seq<Quadrant>,
    l2l: spec_fn(M, M, Seq<Quadrant>, Seq<Quadrant>, M) -> bool,
) -> bool
    decreases before.size(), 1nat,
{
    if before is Empty {
        after == before
    } else {
        exists|m: M|
            #![trigger partial(m)]
            partial(m) && l2l(before.multi().unwrap(), parent, cell, child_cell, m) && {
                proof {
                    lemma_with_multi_size(before, Some(m));
                }
                downward(before.with_multi(Some(m)), after, child_cell, l2l)
            }
    }
}

/// What the downward pass makes of the tree `before` standing at `cell`:
/// the box keeps its own expansion, and each child of an internal box, in
/// quadrant order, is handed the box's local expansion and passes it on.
pub open spec fn downward<M>(
    before: Tree<M>,
    after: Tree<M>,
    cell: Seq<Quadrant>,
    l2l: spec_fn(M, M, Seq<Quadrant>, Seq<Quadrant>, M) -> bool,
) -> bool
    decreases before.size(), 0nat,
{
    match before {
        Tree::Internal(a, b, c, d, mo) => after matches Tree::Internal(a2, b2, c2, d2, mo2) && {
            proof {
                lemma_size_children(before);
            }
            &&& mo2 == mo
            &&& handed(*a, *a2, mo.unwrap(), cell, cell.push(Quadrant::LowXLowY), l2l)
            &&& handed(*b, *b2, mo.unwrap(), cell, cell.push(Quadrant::HighXLowY), l2l)
            &&& handed(*c, *c2, mo.unwrap(), cell, cell.push(Quadrant::LowXHighY), l2l)
            &&& handed(*d, *d2, mo.unwrap(), cell, cell.push(Quadrant::HighXHighY), l2l)
        },
        _ => after == before,
    }
}

/// Whether `out` is `acc` with the expansion of the box `child`, whose
/// parent stands at `cell`, added by an `m2m` answer that names the child's
/// cell `cell.push(q)` and the parent's cell `cell`; an empty child adds
/// nothing.
pub open spec fn m2m_from_child<M>(
    m2m: spec_fn(M, M, Seq<Quadrant>, Seq<Quadrant>, M) -> bool,
    acc: M,
    child: Tree<M>,
    q: Quadrant,
    cell: Seq<Quadrant>,
    out: M,
) -> bool {
    if child is Empty {
        out == acc
    } else {
        m2m(acc, child.multi().unwrap(), cell.push(q), cell, out)
    }
}

/// The expansion of an internal box after the upward pass: `empty()` with
/// the expansions of its children added one after the other, low x low y
/// first, then high x low y, low x high y, high x high y.
pub proof fn lemma_children_sum_in_quadrant_order<M>(
    empty: spec_fn(M) -> bool,
    m2m: spec_fn(M, M, Seq<Quadrant>, Seq<Quadrant>, M) -> bool,
    a: Tree<M>,
    b: Tree<M>,
    c: Tree<M>,
    d: Tree<M>,
    cell: Seq<Quadrant>,
    m: M,
)
    requires
        children_sum(empty, m2m, a, b, c, d, cell, m),
    ensures
        exists|e: M, m1: M, m2: M, m3: M|
            #![trigger partial(e), partial(m1), partial(m2), partial(m3)]
            partial(e) && partial(m1) && partial(m2) && partial(m3) && empty(e) && m2m_from_child(m2m, e, a, Quadrant::LowXLowY, cell, m1) && m2m_from_child(m2m, m1, b, Quadrant::HighXLowY, cell, m2)
                && m2m_from_child(m2m, m2, c, Quadrant::LowXHighY, cell, m3) && m2m_from_child(m2m, m3, d, Quadrant::HighXHighY, cell, m),
{
    let (e, m1, m2, m3) = choose|e: M, m1: M, m2: M, m3: M|
        #![trigger partial(e), partial(m1), partial(m2), partial(m3)]
        partial(e) && partial(m1) && partial(m2) && partial(m3) && empty(e) && added(m2m, e, a, cell.push(Quadrant::LowXLowY), cell, m1) && added(m2m, m1, b, cell.push(Quadrant::HighXLowY), cell, m2)
            && added(m2m, m2, c, cell.push(Quadrant::LowXHighY), cell, m3) && added(m2m, m3, d, cell.push(Quadrant::HighXHighY), cell, m);
    assert(partial(e) && partial(m1) && partial(m2) && partial(m3));
    assert(m2m_from_child(m2m, e, a, Quadrant::LowXLowY, cell, m1));
    assert(m2m_from_child(m2m, m1, b, Quadrant::HighXLowY, cell, m2));
    assert(m2m_from_child(m2m, m2, c, Quadrant::LowXHighY, cell, m3));
    assert(m2m_from_child(m2m, m3, d, Quadrant::HighXHighY, cell, m));
}

/// The upward pass gives every leaf the expansion of its own stars about
/// its own box: for every leaf reached from the root by `d`, its expansion
/// is an answer of `of_stars` for its stars and the cell `cell + d` of that
/// leaf; and every internal box reached by `d` gets `empty()` with the
/// expansions of its non-empty children added by `m2m` in quadrant order,
/// each answer naming the child's cell and the box's cell `cell + d`.
pub proof fn lemma_upward_leaf_expansions<M>(
    before: Tree<M>,
    after: Tree<M>,
    cell: Seq<Quadrant>,
    empty: spec_fn(M) -> bool,
    of_stars: spec_fn(Seq<Body>, Seq<Quadrant>, M) -> bool,
    m2m: spec_fn(M, M, Seq<Quadrant>, Seq<Quadrant>, M) -> bool,
    d: Seq<Quadrant>,
)
    requires
        upward(before, after, cell, empty, of_stars, m2m),
        after.reaches(d),
    ensures
        after.subtree(d) matches Tree::Leaf(s, mo) ==> (mo matches Some(m) && of_stars(s, cell + d, m)),
        after.subtree(d) matches Tree::Internal(a2, b2, c2, d2, mo) ==> (mo matches Some(m) && exists|
            e: M,
            m1: M,
            m2: M,
            m3: M,
        |
            #![trigger partial(e), partial(m1), partial(m2), partial(m3)]
            partial(e) && partial(m1) && partial(m2) && partial(m3) && empty(e) && m2m_from_child(m2m, e, *a2, Quadrant::LowXLowY, cell + d, m1) && m2m_from_child(m2m, m1, *b2, Quadrant::HighXLowY, cell + d, m2)
                && m2m_from_child(m2m, m2, *c2, Quadrant::LowXHighY, cell + d, m3) && m2m_from_child(m2m, m3, *d2, Quadrant::HighXHighY, cell + d, m)),
    decreases d.len(),
{
    if d.len() == 0 {
        assert(cell + d =~= cell);
        assert(after.subtree(d) == after);
        if after is Internal {
            assert(before is Internal);
        }
        if let Tree::Internal(a2, b2, c2, d2, Some(m)) = after {
            lemma_children_sum_in_quadrant_order(empty, m2m, *a2, *b2, *c2, *d2, cell, m);
        }
    } else {
        let q = d[0];
        let rest = d.drop_first();
        assert(cell.push(q) + rest =~= cell + d);
        match before {
            Tree::Internal(a, b, c, e, _) => {
                match q {
                    Quadrant::LowXLowY => lemma_upward_leaf_expansions(*a, after.child(q), cell.push(q), empty, of_stars, m2m, rest),
                    Quadrant::HighXLowY => lemma_upward_leaf_expansions(*b, after.child(q), cell.push(q), empty, of_stars, m2m, rest),
                    Quadrant::LowXHighY => lemma_upward_leaf_expansions(*c, after.child(q), cell.push(q), empty, of_stars, m2m, rest),
                    Quadrant::HighXHighY => lemma_upward_leaf_expansions(*e, after.child(q), cell.push(q), empty, of_stars, m2m, rest),
                }
            },
            _ => {},
        }
    }
}

/// The downward pass hands every box the final local expansion of its
/// parent: for every non-empty box reached from the root by a nonempty `d`,
/// its expansion afterwards is an answer of `l2l` for its expansion before,
/// the expansion its parent (at `d` without its last quadrant) ends with,
/// and the two cells; the root keeps its own expansion.
pub proof fn lemma_downward_parent_final<M>(
    before: Tree<M>,
    after: Tree<M>,
    cell: Seq<Quadrant>,
    l2l: spec_fn(M, M, Seq<Quadrant>, Seq<Quadrant>, M) -> bool,
    d: Seq<Quadrant>,
)
    requires
        downward(before, after, cell, l2l),
        before.reaches(d),
    ensures
        after.multi() == before.multi(),
        d.len() > 0 && !(before.subtree(d) is Empty) ==> l2l(
            before.subtree(d).multi().unwrap(),
            after.subtree(d.drop_last()).multi().unwrap(),
            cell + d.drop_last(),
            cell + d,
            after.subtree(d).multi().unwrap(),
        ),
    decreases d.len(),
{
    if d.len() > 0 {
        let q = d[0];
        let rest = d.drop_first();
        assert(cell.push(q) + rest =~= cell + d);
        match before {
            Tree::Internal(a, b, c, e, mo) => {
                let k = before.child(q);
                let k2 = after.child(q);
                assert(handed(k, k2, mo.unwrap(), cell, cell.push(q), l2l)) by {
                    match q {
                        Quadrant::LowXLowY => {},
                        Quadrant::HighXLowY => {},
                        Quadrant::LowXHighY => {},
                        Quadrant::HighXHighY => {},
                    }
                }
                if !(k is Empty) {
                    let m = choose|m: M|
                        #![trigger partial(m)]
                        partial(m) && l2l(k.multi().unwrap(), mo.unwrap(), cell, cell.push(q), m) && downward(
                            k.with_multi(Some(m)),
                            k2,
                            cell.push(q),
                            l2l,
                        );
                    let km = k.with_multi(Some(m));
                    assert(k.reaches(rest));
                    if rest.len() > 0 {
                        assert(km.child(rest[0]) == k.child(rest[0]));
                        assert(km.reaches(rest));
                    }
                    lemma_downward_parent_final(km, k2, cell.push(q), l2l, rest);
                    if rest.len() == 0 {
                        assert(d.drop_last() =~= Seq::<Quadrant>::empty());
                        assert(cell + d.drop_last() =~= cell);
                        assert(rest =~= Seq::<Quadrant>::empty());
                        assert(k2.subtree(rest) == k2);
                        assert(k.subtree(rest) == k);
                    } else {
                        assert(km.subtree(rest) == k.subtree(rest)) by {
                            assert(km.child(rest[0]) == k.child(rest[0]));
                        }
                        assert(d.drop_last().drop_first() =~= rest.drop_last());
                        assert(d.drop_last()[0] == q);
                        assert(cell.push(q) + rest.drop_last() =~= cell + d.drop_last());
                    }
                } else {
                    if rest.len() > 0 {
                        assert(!k.reaches(rest));
                    }
                }
            },
            _ => {},
        }
    }
}

/// Replacing a box's expansion keeps the number of boxes.
pub proof fn lemma_with_multi_size<M>(t: Tree<M>, m: Option<M>)
    ensures
        t.with_multi(m).size() == t.size(),
{
}

/// Each child of an internal box has fewer boxes than the box.
pub proof fn lemma_size_children<M>(t: Tree<M>)
    requires
        t is Internal,
    ensures
        t->Internal_0.size() < t.size(),
        t->Internal_1.size() < t.size(),
        t->Internal_2.size() < t.size(),
        t->Internal_3.size() < t.size(),
{
    lemma_size_positive(*t->Internal_0);
    lemma_size_positive(*t->Internal_1);
    lemma_size_positive(*t->Internal_2);
    lemma_size_positive(*t->Internal_3);
}

/// Every tree has at least one box.
pub proof fn lemma_size_positive<M>(t: Tree<M>)
    ensures
        t.size() >= 1,
{
}

impl<M> Tree<M> {
    /// The number of boxes in the tree.
    pub open spec fn size(self) -> nat
        decreases self,
    {
        match self {
            Tree::Internal(a, b, c, d, _) => 1 + a.size() + b.size() + c.size() + d.size(),
            _ => 1,
        }
    }
}

proof fn lemma_same_boxes_size<M>(t: Tree<M>, u: Tree<M>)
    requires
        t.same_boxes(u),
    ensures
        t.size() == u.size(),
    decreases t,
{
    if let (Tree::Internal(a, b, c, d, _), Tree::Internal(a2, b2, c2, d2, _)) = (t, u) {
        lemma_same_boxes_size(*a, *a2);
        lemma_same_boxes_size(*b, *b2);
        lemma_same_boxes_size(*c, *c2);
        lemma_same_boxes_size(*d, *d2);
    }
}

proof fn lemma_same_boxes_trans<M>(t: Tree<M>, u: Tree<M>, v: Tree<M>)
    requires
        t.same_boxes(u),
        u.same_boxes(v),
    ensures
        t.same_boxes(v),
    decreases t,
{
    if let (Tree::Internal(a, b, c, d, _), Tree::Internal(a2, b2, c2, d2, _), Tree::Internal(a3, b3, c3, d3, _)) = (t, u, v) {
        lemma_same_boxes_trans(*a, *a2, *a3);
        lemma_same_boxes_trans(*b, *b2, *b3);
        lemma_same_boxes_trans(*c, *c2, *c3);
        lemma_same_boxes_trans(*d, *d2, *d3);
    }
}

proof fn lemma_same_boxes_refl<M>(t: Tree<M>)
    ensures
        t.same_boxes(t),
    decreases t,
{
    if let Tree::Internal(a, b, c, d, _) = t {
        lemma_same_boxes_refl(*a);
        lemma_same_boxes_refl(*b);
        lemma_same_boxes_refl(*c);
        lemma_same_boxes_refl(*d);
    }
}

impl<M> Node<M> {
    /// The expansion `parent` of the box at `cell` with the expansion of its
    /// child `child`, at `child_cell`, added by `ex.m2m`; an empty child adds
    /// nothing.
    fn add_child_expansion<E: Fn() -> M, S: Fn(&Vec<Body>, &Vec<Quadrant>) -> M, U: Fn(&M, &M, &Vec<Quadrant>, &Vec<Quadrant>) -> M, D: Fn(&M, &M, &Vec<Quadrant>, &Vec<Quadrant>) -> M>(
        parent: M,
        child: &Node<M>,
        child_cell: &Vec<Quadrant>,
        cell: &Vec<Quadrant>,
        ex: &Expansions<E, S, U, D>,
    ) -> (sum: M)
        requires
            child@.expanded(),
            ex.callable(),
        ensures
            added(ex.m2m_rel(), parent, child@, child_cell@, cell@, sum),
    {
        match child {
            Node::Empty => parent,
            _ => {
                let k = child.multipole();
                let sum = (ex.m2m)(&parent, k, child_cell, cell);
                proof {
                    assert(child_cell@ == child_cell@ && cell@ == cell@);
                }
                sum
            },
        }
    }

    /// The upward pass over the tree standing at `cell`, as [`upward`] says:
    /// each child first, then the box's own expansion: a leaf's from its
    /// stars, an internal box's as the empty expansion with the expansions of
    /// its non-empty children added in quadrant order. Empty boxes are left
    /// alone. The boxes and their stars stay as they are, and afterwards
    /// every box that holds stars has an expansion.
    pub fn p2m<E: Fn() -> M, S: Fn(&Vec<Body>, &Vec<Quadrant>) -> M, U: Fn(&M, &M, &Vec<Quadrant>, &Vec<Quadrant>) -> M, D: Fn(&M, &M, &Vec<Quadrant>, &Vec<Quadrant>) -> M>(&mut self, cell: &Vec<Quadrant>, ex: &Expansions<E, S, U, D>)
        requires
            ex.callable(),
        ensures
            ex.lifts(old(self)@, final(self)@, cell@),
            final(self)@.same_boxes(old(self)@),
            final(self)@.ids() == old(self)@.ids(),
            final(self)@.expanded(),
        decreases *old(self),
    {
        match self {
            Node::Empty => {},
            Node::Internal { q0, q1, q2, q3, multi } => {
                let c0 = extend_cell(cell, Quadrant::LowXLowY);
                let c1 = extend_cell(cell, Quadrant::HighXLowY);
                let c2 = extend_cell(cell, Quadrant::LowXHighY);
                let c3 = extend_cell(cell, Quadrant::HighXHighY);
                q0.p2m(&c0, ex);
                q1.p2m(&c1, ex);
                q2.p2m(&c2, ex);
                q3.p2m(&c3, ex);
                let e = (ex.empty)();
                let m1 = Node::add_child_expansion(e, &**q0, &c0, cell, ex);
                let m2 = Node::add_child_expansion(m1, &**q1, &c1, cell, ex);
                let m3 = Node::add_child_expansion(m2, &**q2, &c2, cell, ex);
                let m4 = Node::add_child_expansion(m3, &**q3, &c3, cell, ex);
                proof {
                    assert(partial(e) && partial(m1) && partial(m2) && partial(m3));
                    assert(children_sum(ex.empty_rel(), ex.m2m_rel(), q0@, q1@, q2@, q3@, cell@, m4));
                }
                *multi = Some(m4);
            },
            Node::Leaf { star, multi } => {
                let m = (ex.of_stars)(star, cell);
                proof {
                    assert(ex.of_stars_rel()(star@, cell@, m));
                }
                *multi = Some(m);
            },
        }
    }

    /// The downward pass over the tree standing at `cell`, as [`downward`]
    /// says: each non-empty child of an internal box takes the box's local
    /// expansion, in quadrant order, and passes it on before the next child.
    /// The boxes and their stars stay as they are, and so does the presence
    /// of expansions. Unless the tree is a single leaf, which passes nothing
    /// on, every box that holds stars must have its expansion.
    pub fn l2l<E: Fn() -> M, S: Fn(&Vec<Body>, &Vec<Quadrant>) -> M, U: Fn(&M, &M, &Vec<Quadrant>, &Vec<Quadrant>) -> M, D: Fn(&M, &M, &Vec<Quadrant>, &Vec<Quadrant>) -> M>(&mut self, cell: &Vec<Quadrant>, ex: &Expansions<E, S, U, D>)
        requires
            old(self)@ is Leaf || old(self)@.expanded(),
            ex.callable(),
        ensures
            ex.lowers(old(self)@, final(self)@, cell@),
            final(self)@.same_boxes(old(self)@),
            final(self)@.ids() == old(self)@.ids(),
            old(self)@.expanded() ==> final(self)@.expanded(),
        decreases old(self)@.size(), 0nat,
    {
        match self {
            Node::Internal { q0, q1, q2, q3, multi } => {
                let parent = multi.as_ref().unwrap();
                let c0 = extend_cell(cell, Quadrant::LowXLowY);
                Node::pass_down_and_on(&mut **q0, parent, cell, &c0, ex);
                let c1 = extend_cell(cell, Quadrant::HighXLowY);
                Node::pass_down_and_on(&mut **q1, parent, cell, &c1, ex);
                let c2 = extend_cell(cell, Quadrant::LowXHighY);
                Node::pass_down_and_on(&mut **q2, parent, cell, &c2, ex);
                let c3 = extend_cell(cell, Quadrant::HighXHighY);
                Node::pass_down_and_on(&mut **q3, parent, cell, &c3, ex);
            },
            _ => {
                proof {
                    lemma_same_boxes_refl(old(self)@);
                }
            },
        }
    }

    /// Hands the parent's local expansion to a child and lets the child
    /// pass it on below.
    fn pass_down_and_on<E: Fn() -> M, S: Fn(&Vec<Body>, &Vec<Quadrant>) -> M, U: Fn(&M, &M, &Vec<Quadrant>, &Vec<Quadrant>) -> M, D: Fn(&M, &M, &Vec<Quadrant>, &Vec<Quadrant>) -> M>(
        child: &mut Node<M>,
        parent: &M,
        cell: &Vec<Quadrant>,
        child_cell: &Vec<Quadrant>,
        ex: &Expansions<E, S, U, D>,
    )
        requires
            old(child)@.expanded(),
            ex.callable(),
        ensures
            ex.hands(old(child)@, final(child)@, *parent, cell@, child_cell@),
            final(child)@.same_boxes(old(child)@),
            final(child)@.ids() == old(child)@.ids(),
            final(child)@.expanded(),
        decreases old(child)@.size(), 1nat,
    {
        let ghost before = child@;
        Node::pass_down(child, parent, cell, child_cell, ex);
        let ghost mid = child@;
        proof {
            lemma_same_boxes_size(mid, old(child)@);
        }
        child.l2l(child_cell, ex);
        proof {
            lemma_same_boxes_trans(child@, mid, old(child)@);
            if !(before is Empty) {
                let m = mid.multi().unwrap();
                assert(partial(m));
                assert(mid == before.with_multi(Some(m)));
            }
        }
    }

    /// Adds the parent's local expansion into a non-empty child's.
    fn pass_down<E: Fn() -> M, S: Fn(&Vec<Body>, &Vec<Quadrant>) -> M, U: Fn(&M, &M, &Vec<Quadrant>, &Vec<Quadrant>) -> M, D: Fn(&M, &M, &Vec<Quadrant>, &Vec<Quadrant>) -> M>(
        child: &mut Node<M>,
        parent: &M,
        cell: &Vec<Quadrant>,
        child_cell: &Vec<Quadrant>,
        ex: &Expansions<E, S, U, D>,
    )
        requires
            old(child)@.expanded(),
            ex.callable(),
        ensures
            old(child)@ is Empty ==> final(child)@ == old(child)@,
            !(old(child)@ is Empty) ==> final(child)@.multi() is Some && final(child)@ == old(child)@.with_multi(
                final(child)@.multi(),
            ) && ex.l2l_rel()(
                old(child)@.multi().unwrap(),
                *parent,
                cell@,
                child_cell@,
                final(child)@.multi().unwrap(),
            ),
            final(child)@.same_boxes(old(child)@),
            final(child)@.ids() == old(child)@.ids(),
            final(child)@.expanded(),
    {
        proof {
            lemma_same_boxes_refl(old(child)@);
        }
        match child {
            Node::Empty => {},
            _ => {
                let m = (ex.l2l)(child.multipole(), parent, cell, child_cell);
                proof {
                    assert(cell@ == cell@ && child_cell@ == child_cell@);
                }
                let slot = child.multipole_mut();
                *slot = m;
            },
        }
    }
}

impl<M> Node<M> {
    /// The interactions of this tree, as target, with the tree `source`, in
    /// the order of the dual walk from the two roots: a pair of boxes that
    /// `sep` finds well separated interacts through the source's expansion;
    /// otherwise two leaves interact star by star, a leaf meets each child
    /// of an internal source, each child of an internal target meets a leaf
    /// source, each child of an internal target meets each child of an
    /// internal source, and an empty box meets nothing. Every pair of a
    /// target star and a source star is accounted for exactly once; every
    /// interaction is a pair that the walk reaches, only through pairs that
    /// `sep` did not find well separated, and it is far exactly where `sep`
    /// found that pair well separated.
    pub fn interact<S: Fn(&Vec<Quadrant>, &Vec<Quadrant>) -> bool>(
        &self,
        source: &Node<M>,
        sep: &S,
    ) -> (list: Vec<Interaction>)
        requires
            forall|a: &Vec<Quadrant>, b: &Vec<Quadrant>| call_requires(*sep, (a, b)),
        ensures
            pairs_of(list@, self@, source@) =~= product(self@.ids(), source@.ids()),
            near_between_leaves(list@, self@, source@),
            walk_follows_test(list@, self@, source@, separation(*sep)),
            dual(self@, source@, separation(*sep), Seq::empty(), Seq::empty(), list@),
    {
        let root: Vec<Quadrant> = Vec::new();
        proof {
            assert(self@.subtree(root@) == self@);
            assert(source@.subtree(root@) == source@);
        }
        interactions_at(self, &root, source, &root, sep, Ghost(self@), Ghost(source@))
    }
}

/// Building a tree from stars keeps every star: the tree built by
/// [`Node::new`] holds the index of each star exactly as often as the star
/// was given (so [`Node::collapse`] lists each once per occurrence, in some
/// order), each star lies in the box of the leaf that holds it, and every
/// box below the root that is split holds more than `MAX_STAR` stars.
pub proof fn lemma_tree_keeps_every_star<M>(stars: Seq<Body>)
    ensures
        Tree::<M>::fresh().inserted_all(stars, 0, 0).ids().to_multiset() =~= stars.map_values(
            |s: Body| s.id,
        ).to_multiset(),
        Tree::<M>::fresh().inserted_all(stars, 0, 0).placed(Seq::empty()),
        Tree::<M>::fresh().inserted_all(stars, 0, 0).shaped(0),
        Tree::<M>::fresh().inserted_all(stars, 0, 0).dense(),
{
    let f = Tree::<M>::fresh();
    assert(Tree::<M>::Empty.dense());
    lemma_fresh_shaped::<M>(0);
    lemma_inserted_all_dense(f, stars, 0, 0);
    lemma_fresh_placed::<M>(Seq::empty());
    lemma_inserted_all_ids(f, stars, 0, 0);
    lemma_inserted_all_shaped(f, stars, 0, 0);
    assert forall|i: int| 0 <= i < stars.len() implies #[trigger] stars[i].in_cell(Seq::empty()) by {}
    lemma_inserted_all_placed(f, stars, Seq::empty(), 0);
    assert(Seq::<usize>::empty().to_multiset() =~= Multiset::empty()) by {
        broadcast use vstd::seq_lib::group_to_multiset_ensures;
    }
    assert(Multiset::<usize>::empty().add(stars.map_values(|s: Body| s.id).to_multiset())
        =~= stars.map_values(|s: Body| s.id).to_multiset()) by {
        broadcast use vstd::multiset::group_multiset_axioms;
    }
}

proof fn lemma_fresh_shaped<M>(depth: nat)
    requires
        depth < PATH_LEN,
    ensures
        Tree::<M>::fresh().shaped(depth),
        Tree::<M>::fresh().ids() =~= Seq::<usize>::empty(),
{
    let e = Tree::<M>::Empty;
    assert(e.shaped(depth + 1));
    assert(e.ids() =~= Seq::<usize>::empty());
}

/// Pushing a star down keeps internal boxes above level `PATH_LEN`.
pub proof fn lemma_inserted_shaped<M>(t: Tree<M>, star: Body, depth: nat, lvl: nat)
    requires
        t.shaped(depth),
        depth <= lvl,
    ensures
        t.inserted(star, depth, lvl).shaped(depth),
    decreases PATH_LEN - depth, MAXLVL - lvl, 0nat,
{
    match t {
        Tree::Empty => {},
        Tree::Internal(a, b, c, d, m) => {
            match star.quadrant_at(depth as int) {
                Quadrant::LowXLowY => lemma_inserted_shaped(*a, star, depth + 1, lvl + 1),
                Quadrant::HighXLowY => lemma_inserted_shaped(*b, star, depth + 1, lvl + 1),
                Quadrant::LowXHighY => lemma_inserted_shaped(*c, star, depth + 1, lvl + 1),
                Quadrant::HighXHighY => lemma_inserted_shaped(*d, star, depth + 1, lvl + 1),
            }
        },
        Tree::Leaf(stars, m) => {
            if !(lvl >= MAXLVL || stars.len() < MAX_STAR || depth >= PATH_LEN) {
                lemma_fresh_shaped::<M>(depth);
                lemma_inserted_all_shaped(Tree::<M>::fresh(), seq![star] + stars, depth, lvl + 1);
            }
        },
    }
}

/// Pushing stars down one after the other keeps internal boxes above level
/// `PATH_LEN`.
pub proof fn lemma_inserted_all_shaped<M>(t: Tree<M>, stars: Seq<Body>, depth: nat, lvl: nat)
    requires
        t.shaped(depth),
        depth <= lvl,
    ensures
        t.inserted_all(stars, depth, lvl).shaped(depth),
    decreases PATH_LEN - depth, MAXLVL - lvl, stars.len(),
{
    if stars.len() > 0 {
        lemma_inserted_shaped(t, stars[0], depth, lvl);
        lemma_inserted_all_shaped(t.inserted(stars[0], depth, lvl), stars.drop_first(), depth, lvl);
    }
}

proof fn lemma_ids_of_stars(star: Body, stars: Seq<Body>)
    ensures
        (seq![star] + stars).map_values(|s: Body| s.id).to_multiset() =~= stars.map_values(
            |s: Body| s.id,
        ).to_multiset().insert(star.id),
        stars.push(star).map_values(|s: Body| s.id).to_multiset() =~= stars.map_values(
            |s: Body| s.id,
        ).to_multiset().insert(star.id),
{
    broadcast use vstd::multiset::group_multiset_axioms;
    broadcast use vstd::seq_lib::group_to_multiset_ensures;

    let ids = stars.map_values(|s: Body| s.id);
    assert((seq![star] + stars).map_values(|s: Body| s.id) =~= seq![star.id] + ids);
    assert(stars.push(star).map_values(|s: Body| s.id) =~= ids.push(star.id));
    vstd::seq_lib::lemma_multiset_commutative(seq![star.id], ids);
    assert(seq![star.id] =~= Seq::<usize>::empty().push(star.id));
    assert(Seq::<usize>::empty().to_multiset() =~= Multiset::empty());
}

/// Pushing a star down adds its index to the tree and loses none.
pub proof fn lemma_inserted_ids<M>(t: Tree<M>, star: Body, depth: nat, lvl: nat)
    requires
        t.shaped(depth),
        depth <= lvl,
    ensures
        t.inserted(star, depth, lvl).ids().to_multiset() =~= t.ids().to_multiset().insert(star.id),
    decreases PATH_LEN - depth, MAXLVL - lvl, 0nat,
{
    broadcast use vstd::multiset::group_multiset_axioms;

    match t {
        Tree::Empty => {
            lemma_ids_of_stars(star, Seq::empty());
            assert(seq![star] + Seq::<Body>::empty() =~= seq![star]);
            assert(Seq::<Body>::empty().map_values(|s: Body| s.id) =~= Seq::<usize>::empty());
            assert(Seq::<usize>::empty().to_multiset() =~= Multiset::empty()) by {
                broadcast use vstd::seq_lib::group_to_multiset_ensures;
            }
        },
        Tree::Internal(a, b, c, d, m) => {
            let r = t.inserted(star, depth, lvl);
            lemma_ids_of_quarters(a.ids(), b.ids(), c.ids(), d.ids());
            match star.quadrant_at(depth as int) {
                Quadrant::LowXLowY => {
                    lemma_inserted_ids(*a, star, depth + 1, lvl + 1);
                    let a2 = a.inserted(star, depth + 1, lvl + 1);
                    lemma_ids_of_quarters(a2.ids(), b.ids(), c.ids(), d.ids());
                },
                Quadrant::HighXLowY => {
                    lemma_inserted_ids(*b, star, depth + 1, lvl + 1);
                    let b2 = b.inserted(star, depth + 1, lvl + 1);
                    lemma_ids_of_quarters(a.ids(), b2.ids(), c.ids(), d.ids());
                },
                Quadrant::LowXHighY => {
                    lemma_inserted_ids(*c, star, depth + 1, lvl + 1);
                    let c2 = c.inserted(star, depth + 1, lvl + 1);
                    lemma_ids_of_quarters(a.ids(), b.ids(), c2.ids(), d.ids());
                },
                Quadrant::HighXHighY => {
                    lemma_inserted_ids(*d, star, depth + 1, lvl + 1);
                    let d2 = d.inserted(star, depth + 1, lvl + 1);
                    lemma_ids_of_quarters(a.ids(), b.ids(), c.ids(), d2.ids());
                },
            }
        },
        Tree::Leaf(stars, m) => {
            lemma_ids_of_stars(star, stars);
            if !(lvl >= MAXLVL || stars.len() < MAX_STAR || depth >= PATH_LEN) {
                let f = Tree::<M>::fresh();
                lemma_fresh_shaped::<M>(depth);
                lemma_inserted_all_ids(f, seq![star] + stars, depth, lvl + 1);
                assert(f.ids() =~= Seq::<usize>::empty());
                assert(Seq::<usize>::empty().to_multiset() =~= Multiset::empty()) by {
                    broadcast use vstd::seq_lib::group_to_multiset_ensures;
                }
            }
        },
    }
}

/// Pushing stars down one after the other adds their indices to the tree
/// and loses none.
pub proof fn lemma_inserted_all_ids<M>(t: Tree<M>, stars: Seq<Body>, depth: nat, lvl: nat)
    requires
        t.shaped(depth),
        depth <= lvl,
    ensures
        t.inserted_all(stars, depth, lvl).ids().to_multiset() =~= t.ids().to_multiset().add(
            stars.map_values(|s: Body| s.id).to_multiset(),
        ),
    decreases PATH_LEN - depth, MAXLVL - lvl, stars.len(),
{
    broadcast use vstd::multiset::group_multiset_axioms;

    if stars.len() == 0 {
        assert(stars.map_values(|s: Body| s.id) =~= Seq::<usize>::empty());
        assert(Seq::<usize>::empty().to_multiset() =~= Multiset::empty()) by {
            broadcast use vstd::seq_lib::group_to_multiset_ensures;
        }
    } else {
        lemma_inserted_ids(t, stars[0], depth, lvl);
        lemma_inserted_shaped(t, stars[0], depth, lvl);
        let t2 = t.inserted(stars[0], depth, lvl);
        lemma_inserted_all_ids(t2, stars.drop_first(), depth, lvl);
        lemma_ids_of_stars(stars[0], stars.drop_first());
        assert(seq![stars[0]] + stars.drop_first() =~= stars);
    }
}

proof fn lemma_fresh_placed<M>(cell: Seq<Quadrant>)
    requires
        cell.len() < PATH_LEN,
    ensures
        Tree::<M>::fresh().placed(cell),
{
    let e = Tree::<M>::Empty;
    assert(e.placed(cell.push(Quadrant::LowXLowY)));
    assert(e.placed(cell.push(Quadrant::HighXLowY)));
    assert(e.placed(cell.push(Quadrant::LowXHighY)));
    assert(e.placed(cell.push(Quadrant::HighXHighY)));
}

/// A star that lies in the box of a tree is pushed down into the box that
/// holds it at every level, and every star of the tree stays in its box.
pub proof fn lemma_inserted_placed<M>(t: Tree<M>, star: Body, cell: Seq<Quadrant>, lvl: nat)
    requires
        t.placed(cell),
        star.in_cell(cell),
        cell.len() <= lvl,
    ensures
        t.inserted(star, cell.len(), lvl).placed(cell),
    decreases PATH_LEN - cell.len(), MAXLVL - lvl, 0nat,
{
    let depth = cell.len();
    match t {
        Tree::Empty => {
            assert(seq![star][0] == star);
        },
        Tree::Internal(a, b, c, d, m) => {
            let q = star.quadrant_at(depth as int);
            let child_cell = cell.push(q);
            assert(star.in_cell(child_cell)) by {
                assert forall|i: int| 0 <= i < child_cell.len() implies #[trigger] star.path@[i]
                    == child_cell[i] by {
                    if i < depth {
                        assert(star.path@[i] == cell[i]);
                    }
                }
            }
            assert(child_cell.len() == depth + 1);
            match q {
                Quadrant::LowXLowY => lemma_inserted_placed(*a, star, child_cell, lvl + 1),
                Quadrant::HighXLowY => lemma_inserted_placed(*b, star, child_cell, lvl + 1),
                Quadrant::LowXHighY => lemma_inserted_placed(*c, star, child_cell, lvl + 1),
                Quadrant::HighXHighY => lemma_inserted_placed(*d, star, child_cell, lvl + 1),
            }
        },
        Tree::Leaf(stars, m) => {
            if !(lvl >= MAXLVL || stars.len() < MAX_STAR || depth >= PATH_LEN) {
                lemma_fresh_placed::<M>(cell);
                let all = seq![star] + stars;
                assert forall|i: int| 0 <= i < all.len() implies #[trigger] all[i].in_cell(cell) by {
                    if i > 0 {
                        assert(all[i] == stars[i - 1]);
                    }
                }
                lemma_inserted_all_placed(Tree::<M>::fresh(), all, cell, lvl + 1);
            } else {
                let r = stars.push(star);
                assert forall|i: int| 0 <= i < r.len() implies #[trigger] r[i].in_cell(cell) by {
                    if i < stars.len() {
                        assert(r[i] == stars[i]);
                    }
                }
            }
        },
    }
}

/// Stars that lie in the box of a tree are each pushed down into the box
/// that holds them.
pub proof fn lemma_inserted_all_placed<M>(
    t: Tree<M>,
    stars: Seq<Body>,
    cell: Seq<Quadrant>,
    lvl: nat,
)
    requires
        t.placed(cell),
        forall|i: int| 0 <= i < stars.len() ==> #[trigger] stars[i].in_cell(cell),
        cell.len() <= lvl,
    ensures
        t.inserted_all(stars, cell.len(), lvl).placed(cell),
    decreases PATH_LEN - cell.len(), MAXLVL - lvl, stars.len(),
{
    if stars.len() > 0 {
        assert(stars[0].in_cell(cell));
        lemma_inserted_placed(t, stars[0], cell, lvl);
        let rest = stars.drop_first();
        assert forall|i: int| 0 <= i < rest.len() implies #[trigger] rest[i].in_cell(cell) by {
            assert(rest[i] == stars[i + 1]);
        }
        lemma_inserted_all_placed(t.inserted(stars[0], cell.len(), lvl), rest, cell, lvl);
    }
}

proof fn lemma_ids_len<M>(t: Tree<M>)
    ensures
        t.ids().to_multiset().len() == t.ids().len(),
{
    broadcast use vstd::seq_lib::group_to_multiset_ensures;
}

proof fn lemma_inserted_all_is_internal<M>(t: Tree<M>, stars: Seq<Body>, depth: nat, lvl: nat)
    requires
        t is Internal,
        t.shaped(depth),
        depth <= lvl,
    ensures
        t.inserted_all(stars, depth, lvl) is Internal,
    decreases stars.len(),
{
    if stars.len() > 0 {
        lemma_inserted_shaped(t, stars[0], depth, lvl);
        lemma_inserted_all_is_internal(t.inserted(stars[0], depth, lvl), stars.drop_first(), depth, lvl);
    }
}

/// A push adds exactly one star, and a box becomes split on a push only if
/// it was split already or was a leaf holding `MAX_STAR` stars or more.
proof fn lemma_inserted_split<M>(t: Tree<M>, star: Body, depth: nat, lvl: nat)
    requires
        t.shaped(depth),
        depth <= lvl,
    ensures
        t.inserted(star, depth, lvl).ids().len() == t.ids().len() + 1,
        t.inserted(star, depth, lvl) is Internal ==> t is Internal || (t is Leaf && t->Leaf_0.len()
            >= MAX_STAR),
{
    broadcast use vstd::multiset::group_multiset_axioms;

    lemma_inserted_ids(t, star, depth, lvl);
    lemma_ids_len(t);
    lemma_ids_len(t.inserted(star, depth, lvl));
    if let Tree::Leaf(stars, m) = t {
        if !(lvl >= MAXLVL || stars.len() < MAX_STAR || depth >= PATH_LEN) {
            lemma_fresh_shaped::<M>(depth);
            lemma_inserted_all_is_internal(Tree::<M>::fresh(), seq![star] + stars, depth, lvl + 1);
        }
    }
}

/// A pushed star keeps every split box holding more than `MAX_STAR` stars:
/// a box is split only when a star arrives at a leaf that already holds
/// `MAX_STAR`, and split boxes only gain stars.
pub proof fn lemma_inserted_dense<M>(t: Tree<M>, star: Body, depth: nat, lvl: nat)
    requires
        t.shaped(depth),
        t.dense(),
        depth <= lvl,
    ensures
        t.inserted(star, depth, lvl).dense(),
    decreases PATH_LEN - depth, MAXLVL - lvl, 0nat,
{
    match t {
        Tree::Empty => {},
        Tree::Internal(a, b, c, d, m) => {
            let (d1, l1) = (depth + 1, lvl + 1);
            match star.quadrant_at(depth as int) {
                Quadrant::LowXLowY => {
                    lemma_inserted_dense(*a, star, d1, l1);
                    lemma_inserted_split(*a, star, d1, l1);
                },
                Quadrant::HighXLowY => {
                    lemma_inserted_dense(*b, star, d1, l1);
                    lemma_inserted_split(*b, star, d1, l1);
                },
                Quadrant::LowXHighY => {
                    lemma_inserted_dense(*c, star, d1, l1);
                    lemma_inserted_split(*c, star, d1, l1);
                },
                Quadrant::HighXHighY => {
                    lemma_inserted_dense(*d, star, d1, l1);
                    lemma_inserted_split(*d, star, d1, l1);
                },
            }
        },
        Tree::Leaf(stars, m) => {
            if !(lvl >= MAXLVL || stars.len() < MAX_STAR || depth >= PATH_LEN) {
                let f = Tree::<M>::fresh();
                lemma_fresh_shaped::<M>(depth);
                assert(Tree::<M>::Empty.dense());
                assert(f.dense());
                lemma_inserted_all_dense(f, seq![star] + stars, depth, lvl + 1);
            }
        },
    }
}

/// Stars pushed one after the other keep every split box holding more than
/// `MAX_STAR` stars.
pub proof fn lemma_inserted_all_dense<M>(t: Tree<M>, stars: Seq<Body>, depth: nat, lvl: nat)
    requires
        t.shaped(depth),
        t.dense(),
        depth <= lvl,
    ensures
        t.inserted_all(stars, depth, lvl).dense(),
    decreases PATH_LEN - depth, MAXLVL - lvl, stars.len(),
{
    if stars.len() > 0 {
        lemma_inserted_dense(t, stars[0], depth, lvl);
        lemma_inserted_shaped(t, stars[0], depth, lvl);
        lemma_inserted_all_dense(t.inserted(stars[0], depth, lvl), stars.drop_first(), depth, lvl);
    }
}

/// Going one quadrant further from a box reaches that box's child.
pub proof fn lemma_subtree_push<M>(t: Tree<M>, cell: Seq<Quadrant>, q: Quadrant)
    ensures
        t.subtree(cell.push(q)) == t.subtree(cell).child(q),
    decreases cell.len(),
{
    let pushed = cell.push(q);
    if cell.len() == 0 {
        assert(pushed.drop_first() =~= Seq::<Quadrant>::empty());
        assert(pushed[0] == q);
        assert(t.subtree(pushed) == t.child(q).subtree(Seq::empty()));
        assert(t.subtree(cell) == t);
    } else {
        assert(pushed.drop_first() =~= cell.drop_first().push(q));
        assert(pushed[0] == cell[0]);
        lemma_subtree_push(t.child(cell[0]), cell.drop_first(), q);
        assert(t.subtree(pushed) == t.child(cell[0]).subtree(cell.drop_first().push(q)));
        assert(t.subtree(cell) == t.child(cell[0]).subtree(cell.drop_first()));
    }
}

/// The pairs (target star, source star) of every star of `a` with every
/// star of `b`.
pub open spec fn product(a: Seq<usize>, b: Seq<usize>) -> Multiset<(usize, usize)>
    decreases a.len(),
{
    if a.len() == 0 {
        Multiset::empty()
    } else {
        product(a.drop_last(), b).add(b.map_values(|y: usize| (a.last(), y)).to_multiset())
    }
}

proof fn lemma_product_split_target(a1: Seq<usize>, a2: Seq<usize>, b: Seq<usize>)
    ensures
        product(a1 + a2, b) =~= product(a1, b).add(product(a2, b)),
    decreases a2.len(),
{
    broadcast use vstd::multiset::group_multiset_axioms;

    if a2.len() == 0 {
        assert(a1 + a2 =~= a1);
    } else {
        lemma_product_split_target(a1, a2.drop_last(), b);
        assert((a1 + a2).drop_last() =~= a1 + a2.drop_last());
        assert((a1 + a2).last() == a2.last());
    }
}

proof fn lemma_product_split_source(a: Seq<usize>, b1: Seq<usize>, b2: Seq<usize>)
    ensures
        product(a, b1 + b2) =~= product(a, b1).add(product(a, b2)),
    decreases a.len(),
{
    broadcast use vstd::multiset::group_multiset_axioms;

    if a.len() > 0 {
        lemma_product_split_source(a.drop_last(), b1, b2);
        let x = a.last();
        let f = |y: usize| (x, y);
        assert((b1 + b2).map_values(f) =~= b1.map_values(f) + b2.map_values(f));
        vstd::seq_lib::lemma_multiset_commutative(b1.map_values(f), b2.map_values(f));
    }
}

proof fn lemma_product_empty_source(a: Seq<usize>)
    ensures
        product(a, Seq::empty()) =~= Multiset::empty(),
    decreases a.len(),
{
    broadcast use vstd::multiset::group_multiset_axioms;

    if a.len() > 0 {
        lemma_product_empty_source(a.drop_last());
        assert(Seq::<usize>::empty().map_values(|y: usize| (a.last(), y)) =~= Seq::<(usize, usize)>::empty());
        assert(Seq::<(usize, usize)>::empty().to_multiset() =~= Multiset::empty()) by {
            broadcast use vstd::seq_lib::group_to_multiset_ensures;
        }
    }
}

/// What the separation test `sep` may answer about the target box at cell
/// `t` and the source box at cell `s` (each named from its root): `r` is
/// such an answer. The simulation answers from the boxes' geometry.
pub open spec fn separation<S: Fn(&Vec<Quadrant>, &Vec<Quadrant>) -> bool>(sep: S) -> spec_fn(
    Seq<Quadrant>,
    Seq<Quadrant>,
    bool,
) -> bool {
    |t: Seq<Quadrant>, s: Seq<Quadrant>, r: bool|
        exists|tv: Vec<Quadrant>, sv: Vec<Quadrant>|
            #![trigger tv@, sv@]
            tv@ == t && sv@ == s && call_ensures(sep, (&tv, &sv), r)
}

/// Whether the dual walk from the two roots reaches the pair of the target
/// box at `tc` and the source box at `sc`, the separation test answering as
/// `answered` says: the roots are reached; from a reached pair that the
/// test did not find well separated, a leaf target meets each child of an
/// internal source, an internal target meets a leaf source with each of its
/// children, and two internal boxes meet child by child. A pair with target
/// and source cells of equal length can only come from two internal boxes,
/// a longer source cell only from a leaf target, a longer target cell only
/// from a leaf source.
pub open spec fn reached<M>(
    troot: Tree<M>,
    sroot: Tree<M>,
    answered: spec_fn(Seq<Quadrant>, Seq<Quadrant>, bool) -> bool,
    tc: Seq<Quadrant>,
    sc: Seq<Quadrant>,
) -> bool
    decreases tc.len() + sc.len(),
{
    if tc.len() == 0 && sc.len() == 0 {
        true
    } else if tc.len() == sc.len() {
        &&& troot.subtree(tc.drop_last()) is Internal
        &&& sroot.subtree(sc.drop_last()) is Internal
        &&& reached(troot, sroot, answered, tc.drop_last(), sc.drop_last())
        &&& answered(tc.drop_last(), sc.drop_last(), false)
    } else if tc.len() < sc.len() {
        &&& troot.subtree(tc) is Leaf
        &&& sroot.subtree(sc.drop_last()) is Internal
        &&& reached(troot, sroot, answered, tc, sc.drop_last())
        &&& answered(tc, sc.drop_last(), false)
    } else {
        &&& sroot.subtree(sc) is Leaf
        &&& troot.subtree(tc.drop_last()) is Internal
        &&& reached(troot, sroot, answered, tc.drop_last(), sc)
        &&& answered(tc.drop_last(), sc, false)
    }
}

/// Every interaction is a pair of boxes that the dual walk reaches: a far
/// one where the separation test found the boxes well separated, a near one
/// where it did not.
pub open spec fn walk_follows_test<M>(
    list: Seq<Interaction>,
    troot: Tree<M>,
    sroot: Tree<M>,
    answered: spec_fn(Seq<Quadrant>, Seq<Quadrant>, bool) -> bool,
) -> bool {
    forall|i: int|
        #![trigger list[i]]
        0 <= i < list.len() ==> {
            &&& reached(troot, sroot, answered, list[i].target_cell(), list[i].source_cell())
            &&& answered(list[i].target_cell(), list[i].source_cell(), list[i] is Far)
        }
}

proof fn lemma_walk_concat<M>(
    a: Seq<Interaction>,
    b: Seq<Interaction>,
    t: Tree<M>,
    s: Tree<M>,
    sep: spec_fn(Seq<Quadrant>, Seq<Quadrant>, bool) -> bool,
)
    requires
        walk_follows_test(a, t, s, sep),
        walk_follows_test(b, t, s, sep),
    ensures
        walk_follows_test(a + b, t, s, sep),
{
    assert forall|i: int| #![trigger (a + b)[i]] 0 <= i < (a + b).len() implies {
        &&& reached(t, s, sep, (a + b)[i].target_cell(), (a + b)[i].source_cell())
        &&& sep((a + b)[i].target_cell(), (a + b)[i].source_cell(), (a + b)[i] is Far)
    } by {
        if i < a.len() {
            assert((a + b)[i] == a[i]);
        } else {
            assert((a + b)[i] == b[i - a.len()]);
        }
    }
}

/// One interaction between a box of the target tree and a box of the source
/// tree, each named by its cell from the root: through the source's
/// expansion (far), or star by star between two leaves (near).
#[derive(Debug)]
pub enum Interaction {
    Far { target: Vec<Quadrant>, source: Vec<Quadrant> },
    Near { target: Vec<Quadrant>, source: Vec<Quadrant> },
}

impl Interaction {
    pub open spec fn target_cell(self) -> Seq<Quadrant> {
        match self {
            Interaction::Far { target, .. } => target@,
            Interaction::Near { target, .. } => target@,
        }
    }

    pub open spec fn source_cell(self) -> Seq<Quadrant> {
        match self {
            Interaction::Far { source, .. } => source@,
            Interaction::Near { source, .. } => source@,
        }
    }
}

/// The pairs (target star, source star) that the interactions account for,
/// each interaction every star of its target box with every star of its
/// source box.
pub open spec fn pairs_of<M>(list: Seq<Interaction>, target: Tree<M>, source: Tree<M>) -> Multiset<(usize, usize)>
    decreases list.len(),
{
    if list.len() == 0 {
        Multiset::empty()
    } else {
        pairs_of(list.drop_last(), target, source).add(
            product(
                target.subtree(list.last().target_cell()).ids(),
                source.subtree(list.last().source_cell()).ids(),
            ),
        )
    }
}

/// Every near interaction is between two leaves.
pub open spec fn near_between_leaves<M>(list: Seq<Interaction>, target: Tree<M>, source: Tree<M>) -> bool {
    forall|i: int|
        0 <= i < list.len() && #[trigger] list[i] is Near ==> {
            &&& target.subtree(list[i].target_cell()) is Leaf
            &&& source.subtree(list[i].source_cell()) is Leaf
        }
}

proof fn lemma_pairs_concat<M>(a: Seq<Interaction>, b: Seq<Interaction>, t: Tree<M>, s: Tree<M>)
    ensures
        pairs_of(a + b, t, s) =~= pairs_of(a, t, s).add(pairs_of(b, t, s)),
        near_between_leaves(a, t, s) && near_between_leaves(b, t, s) ==> near_between_leaves(a + b, t, s),
    decreases b.len(),
{
    broadcast use vstd::multiset::group_multiset_axioms;

    if b.len() == 0 {
        assert(a + b =~= a);
    } else {
        lemma_pairs_concat(a, b.drop_last(), t, s);
        assert((a + b).drop_last() =~= a + b.drop_last());
        assert((a + b).last() == b.last());
    }
    if near_between_leaves(a, t, s) && near_between_leaves(b, t, s) {
        assert forall|i: int| 0 <= i < (a + b).len() && #[trigger] (a + b)[i] is Near implies {
            &&& t.subtree((a + b)[i].target_cell()) is Leaf
            &&& s.subtree((a + b)[i].source_cell()) is Leaf
        } by {
            if i < a.len() {
                assert((a + b)[i] == a[i]);
            } else {
                assert((a + b)[i] == b[i - a.len()]);
            }
        }
    }
}

proof fn lemma_one_interaction<M>(x: Interaction, t: Tree<M>, s: Tree<M>)
    ensures
        pairs_of(seq![x], t, s) =~= product(
            t.subtree(x.target_cell()).ids(),
            s.subtree(x.source_cell()).ids(),
        ),
{
    broadcast use vstd::multiset::group_multiset_axioms;

    assert(seq![x].drop_last() =~= Seq::<Interaction>::empty());
    assert(pairs_of(Seq::<Interaction>::empty(), t, s) == Multiset::<(usize, usize)>::empty());
    assert(seq![x].last() == x);
}

/// The cell one quadrant below `cell`.
pub(crate) fn extend_cell(cell: &Vec<Quadrant>, q: Quadrant) -> (child: Vec<Quadrant>)
    ensures
        child@ == cell@.push(q),
{
    let mut child: Vec<Quadrant> = Vec::new();
    let mut i: usize = 0;
    while i < cell.len()
        invariant
            i <= cell@.len(),
            child@ =~= cell@.take(i as int),
        decreases cell@.len() - i,
    {
        child.push(cell[i]);
        i = i + 1;
        proof {
            assert(cell@.take(i as int) =~= cell@.take(i - 1).push(cell@[i - 1]));
        }
    }
    child.push(q);
    proof {
        assert(cell@.take(i as int) =~= cell@);
    }
    child
}

pub(crate) fn copy_cell(cell: &Vec<Quadrant>) -> (copy: Vec<Quadrant>)
    ensures
        copy@ == cell@,
{
    let mut copy: Vec<Quadrant> = Vec::new();
    let mut i: usize = 0;
    while i < cell.len()
        invariant
            i <= cell@.len(),
            copy@ =~= cell@.take(i as int),
        decreases cell@.len() - i,
    {
        copy.push(cell[i]);
        i = i + 1;
        proof {
            assert(cell@.take(i as int) =~= cell@.take(i - 1).push(cell@[i - 1]));
        }
    }
    proof {
        assert(cell@.take(i as int) =~= cell@);
    }
    copy
}

proof fn lemma_pairs_concat4<M>(
    l0: Seq<Interaction>,
    l1: Seq<Interaction>,
    l2: Seq<Interaction>,
    l3: Seq<Interaction>,
    t: Tree<M>,
    s: Tree<M>,
)
    ensures
        pairs_of(l0 + l1 + l2 + l3, t, s) =~= pairs_of(l0, t, s).add(pairs_of(l1, t, s)).add(
            pairs_of(l2, t, s),
        ).add(pairs_of(l3, t, s)),
        near_between_leaves(l0, t, s) && near_between_leaves(l1, t, s) && near_between_leaves(l2, t, s)
            && near_between_leaves(l3, t, s) ==> near_between_leaves(l0 + l1 + l2 + l3, t, s),
{
    lemma_pairs_concat(l0, l1, t, s);
    lemma_pairs_concat(l0 + l1, l2, t, s);
    lemma_pairs_concat(l0 + l1 + l2, l3, t, s);
}

fn concat4(
    l0: Vec<Interaction>,
    l1: Vec<Interaction>,
    l2: Vec<Interaction>,
    l3: Vec<Interaction>,
) -> (out: Vec<Interaction>)
    ensures
        out@ == l0@ + l1@ + l2@ + l3@,
{
    let mut out = l0;
    let mut l1 = l1;
    let mut l2 = l2;
    let mut l3 = l3;
    out.append(&mut l1);
    out.append(&mut l2);
    out.append(&mut l3);
    out
}

/// Whether `list` is one interaction, far or near as `far` says, between
/// the target box at `tc` and the source box at `sc`.
pub open spec fn one_interaction(list: Seq<Interaction>, far: bool, tc: Seq<Quadrant>, sc: Seq<Quadrant>) -> bool {
    &&& list.len() == 1
    &&& (list[0] is Far) == far
    &&& list[0].target_cell() == tc
    &&& list[0].source_cell() == sc
}

/// Whether `list` is what the dual walk gives, in order, for the target box
/// at `tc` and the source box at `sc`, the separation test answering as
/// `ans` says: a well-separated pair gives one far interaction; otherwise an
/// empty box gives nothing, two leaves give one near interaction, a leaf
/// target meets the children of an internal source in quadrant order, the
/// children of an internal target meet a leaf source in quadrant order, and
/// each child of an internal target meets the children of an internal
/// source, target children in quadrant order, each against the source
/// children in quadrant order.
pub open spec fn dual<M>(
    troot: Tree<M>,
    sroot: Tree<M>,
    ans: spec_fn(Seq<Quadrant>, Seq<Quadrant>, bool) -> bool,
    tc: Seq<Quadrant>,
    sc: Seq<Quadrant>,
    list: Seq<Interaction>,
) -> bool
    decreases troot.subtree(tc).size() + sroot.subtree(sc).size(), 1nat,
{
    let t = troot.subtree(tc);
    let s = sroot.subtree(sc);
    ||| ans(tc, sc, true) && one_interaction(list, true, tc, sc)
    ||| ans(tc, sc, false) && match t {
        Tree::Empty => list.len() == 0,
        Tree::Leaf(..) => match s {
            Tree::Empty => list.len() == 0,
            Tree::Leaf(..) => one_interaction(list, false, tc, sc),
            Tree::Internal(..) => across(troot, sroot, ans, tc, sc, list),
        },
        Tree::Internal(..) => match s {
            Tree::Empty => list.len() == 0,
            Tree::Leaf(..) => {
                proof {
                    lemma_subtree_push(troot, tc, Quadrant::LowXLowY);
                    lemma_subtree_push(troot, tc, Quadrant::HighXLowY);
                    lemma_subtree_push(troot, tc, Quadrant::LowXHighY);
                    lemma_subtree_push(troot, tc, Quadrant::HighXHighY);
                    lemma_size_children(t);
                }
                exists|i: int, j: int, k: int|
                #![trigger list.subrange(0, i), list.subrange(i, j), list.subrange(j, k)]
                0 <= i <= j <= k <= list.len() && dual(troot, sroot, ans, tc.push(Quadrant::LowXLowY), sc, list.subrange(0, i)) && dual(troot, sroot, ans, tc.push(Quadrant::HighXLowY), sc, list.subrange(i, j)) && dual(troot, sroot, ans, tc.push(Quadrant::LowXHighY), sc, list.subrange(j, k)) && dual(troot, sroot, ans, tc.push(Quadrant::HighXHighY), sc, list.subrange(k, list.len() as int))
            },
            Tree::Internal(..) => {
                proof {
                    lemma_subtree_push(troot, tc, Quadrant::LowXLowY);
                    lemma_subtree_push(troot, tc, Quadrant::HighXLowY);
                    lemma_subtree_push(troot, tc, Quadrant::LowXHighY);
                    lemma_subtree_push(troot, tc, Quadrant::HighXHighY);
                    lemma_size_children(t);
                }
                exists|i: int, j: int, k: int|
                #![trigger list.subrange(0, i), list.subrange(i, j), list.subrange(j, k)]
                0 <= i <= j <= k <= list.len() && across(troot, sroot, ans, tc.push(Quadrant::LowXLowY), sc, list.subrange(0, i)) && across(troot, sroot, ans, tc.push(Quadrant::HighXLowY), sc, list.subrange(i, j)) && across(troot, sroot, ans, tc.push(Quadrant::LowXHighY), sc, list.subrange(j, k)) && across(troot, sroot, ans, tc.push(Quadrant::HighXHighY), sc, list.subrange(k, list.len() as int))
            },
        },
    }
}

/// Whether `list` is what the dual walk gives, in order, for the target box
/// at `tc` against each child of the internal source box at `sc`, children
/// in quadrant order.
pub open spec fn across<M>(
    troot: Tree<M>,
    sroot: Tree<M>,
    ans: spec_fn(Seq<Quadrant>, Seq<Quadrant>, bool) -> bool,
    tc: Seq<Quadrant>,
    sc: Seq<Quadrant>,
    list: Seq<Interaction>,
) -> bool
    decreases troot.subtree(tc).size() + sroot.subtree(sc).size(), 0nat,
{
    sroot.subtree(sc) is Internal && {
        proof {
            lemma_subtree_push(sroot, sc, Quadrant::LowXLowY);
            lemma_subtree_push(sroot, sc, Quadrant::HighXLowY);
            lemma_subtree_push(sroot, sc, Quadrant::LowXHighY);
            lemma_subtree_push(sroot, sc, Quadrant::HighXHighY);
            lemma_size_children(sroot.subtree(sc));
        }
        exists|i: int, j: int, k: int|
                #![trigger list.subrange(0, i), list.subrange(i, j), list.subrange(j, k)]
                0 <= i <= j <= k <= list.len() && dual(troot, sroot, ans, tc, sc.push(Quadrant::LowXLowY), list.subrange(0, i)) && dual(troot, sroot, ans, tc, sc.push(Quadrant::HighXLowY), list.subrange(i, j)) && dual(troot, sroot, ans, tc, sc.push(Quadrant::LowXHighY), list.subrange(j, k)) && dual(troot, sroot, ans, tc, sc.push(Quadrant::HighXHighY), list.subrange(k, list.len() as int))
    }
}

proof fn lemma_split4(l0: Seq<Interaction>, l1: Seq<Interaction>, l2: Seq<Interaction>, l3: Seq<Interaction>)
    ensures
        ({
            let all = l0 + l1 + l2 + l3;
            let (i, j, k) = (l0.len() as int, (l0.len() + l1.len()) as int, (l0.len() + l1.len() + l2.len()) as int);
            &&& all.subrange(0, i) == l0
            &&& all.subrange(i, j) == l1
            &&& all.subrange(j, k) == l2
            &&& all.subrange(k, all.len() as int) == l3
        }),
{
    let all = l0 + l1 + l2 + l3;
    let (i, j, k) = (l0.len() as int, (l0.len() + l1.len()) as int, (l0.len() + l1.len() + l2.len()) as int);
    assert(all.subrange(0, i) =~= l0);
    assert(all.subrange(i, j) =~= l1);
    assert(all.subrange(j, k) =~= l2);
    assert(all.subrange(k, all.len() as int) =~= l3);
}

proof fn lemma_reach_source_children<M>(
    troot: Tree<M>,
    sroot: Tree<M>,
    sep: spec_fn(Seq<Quadrant>, Seq<Quadrant>, bool) -> bool,
    tc: Seq<Quadrant>,
    sc: Seq<Quadrant>,
    q: Quadrant,
)
    requires
        reached(troot, sroot, sep, tc, sc),
        sep(tc, sc, false),
        troot.subtree(tc) is Leaf,
        sroot.subtree(sc) is Internal,
    ensures
        reached(troot, sroot, sep, tc, sc.push(q)),
{
    assert(sc.push(q).drop_last() =~= sc);
    if tc.len() > sc.len() {
        assert(sroot.subtree(sc) is Leaf);
    }
}

proof fn lemma_reach_target_children<M>(
    troot: Tree<M>,
    sroot: Tree<M>,
    sep: spec_fn(Seq<Quadrant>, Seq<Quadrant>, bool) -> bool,
    tc: Seq<Quadrant>,
    sc: Seq<Quadrant>,
    q: Quadrant,
)
    requires
        reached(troot, sroot, sep, tc, sc),
        sep(tc, sc, false),
        troot.subtree(tc) is Internal,
        sroot.subtree(sc) is Leaf,
    ensures
        reached(troot, sroot, sep, tc.push(q), sc),
{
    assert(tc.push(q).drop_last() =~= tc);
    if tc.len() < sc.len() {
        assert(troot.subtree(tc) is Leaf);
    }
}

proof fn lemma_reach_both_children<M>(
    troot: Tree<M>,
    sroot: Tree<M>,
    sep: spec_fn(Seq<Quadrant>, Seq<Quadrant>, bool) -> bool,
    tc: Seq<Quadrant>,
    sc: Seq<Quadrant>,
    q1: Quadrant,
    q2: Quadrant,
)
    requires
        reached(troot, sroot, sep, tc, sc),
        sep(tc, sc, false),
        troot.subtree(tc) is Internal,
        sroot.subtree(sc) is Internal,
    ensures
        reached(troot, sroot, sep, tc.push(q1), sc.push(q2)),
{
    assert(tc.push(q1).drop_last() =~= tc);
    assert(sc.push(q2).drop_last() =~= sc);
    if tc.len() < sc.len() {
        assert(troot.subtree(tc) is Leaf);
    }
    if tc.len() > sc.len() {
        assert(sroot.subtree(sc) is Leaf);
    }
}

/// The interactions of the target box `t` (at `tcell` of the target tree
/// `troot`) with each child of the internal source box `s` (at `scell` of
/// the source tree `sroot`), children in quadrant order.
fn interactions_with_source_children<M, S: Fn(&Vec<Quadrant>, &Vec<Quadrant>) -> bool>(
    t: &Node<M>,
    tcell: &Vec<Quadrant>,
    s: &Node<M>,
    scell: &Vec<Quadrant>,
    sep: &S,
    Ghost(troot): Ghost<Tree<M>>,
    Ghost(sroot): Ghost<Tree<M>>,
) -> (list: Vec<Interaction>)
    requires
        troot.subtree(tcell@) == t@,
        sroot.subtree(scell@) == s@,
        s@ is Internal,
        forall|a: &Vec<Quadrant>, b: &Vec<Quadrant>| call_requires(*sep, (a, b)),
        forall|q: Quadrant| #[trigger] reached(troot, sroot, separation(*sep), tcell@, scell@.push(q)),
    ensures
        pairs_of(list@, troot, sroot) =~= product(t@.ids(), s@.ids()),
        near_between_leaves(list@, troot, sroot),
        walk_follows_test(list@, troot, sroot, separation(*sep)),
        across(troot, sroot, separation(*sep), tcell@, scell@, list@),
    decreases t, s, 0nat,
{
    broadcast use vstd::multiset::group_multiset_axioms;

    match s {
        Node::Internal { q0, q1, q2, q3, .. } => {
            let c0 = extend_cell(scell, Quadrant::LowXLowY);
            let c1 = extend_cell(scell, Quadrant::HighXLowY);
            let c2 = extend_cell(scell, Quadrant::LowXHighY);
            let c3 = extend_cell(scell, Quadrant::HighXHighY);
            proof {
                lemma_subtree_push(sroot, scell@, Quadrant::LowXLowY);
                lemma_subtree_push(sroot, scell@, Quadrant::HighXLowY);
                lemma_subtree_push(sroot, scell@, Quadrant::LowXHighY);
                lemma_subtree_push(sroot, scell@, Quadrant::HighXHighY);
            }
            let l0 = interactions_at(t, tcell, &**q0, &c0, sep, Ghost(troot), Ghost(sroot));
            let l1 = interactions_at(t, tcell, &**q1, &c1, sep, Ghost(troot), Ghost(sroot));
            let l2 = interactions_at(t, tcell, &**q2, &c2, sep, Ghost(troot), Ghost(sroot));
            let l3 = interactions_at(t, tcell, &**q3, &c3, sep, Ghost(troot), Ghost(sroot));
            proof {
                lemma_pairs_concat4(l0@, l1@, l2@, l3@, troot, sroot);
                lemma_walk_concat(l0@, l1@, troot, sroot, separation(*sep));
                lemma_walk_concat(l0@ + l1@, l2@, troot, sroot, separation(*sep));
                lemma_walk_concat(l0@ + l1@ + l2@, l3@, troot, sroot, separation(*sep));
                let (a, b, c, d) = (q0@.ids(), q1@.ids(), q2@.ids(), q3@.ids());
                lemma_product_split_source(t@.ids(), a + b + c, d);
                lemma_product_split_source(t@.ids(), a + b, c);
                lemma_product_split_source(t@.ids(), a, b);
                lemma_split4(l0@, l1@, l2@, l3@);
            }
            let out = concat4(l0, l1, l2, l3);
            proof {
                assert(across(troot, sroot, separation(*sep), tcell@, scell@, out@));
            }
            out
        },
        _ => {
            proof {
                assert(false);
            }
            Vec::new()
        },
    }
}

/// The interactions of the target box `t` (at `tcell` of the target tree
/// `troot`) with the source box `s` (at `scell` of the source tree `sroot`),
/// in the order of the dual walk.
fn interactions_at<M, S: Fn(&Vec<Quadrant>, &Vec<Quadrant>) -> bool>(
    t: &Node<M>,
    tcell: &Vec<Quadrant>,
    s: &Node<M>,
    scell: &Vec<Quadrant>,
    sep: &S,
    Ghost(troot): Ghost<Tree<M>>,
    Ghost(sroot): Ghost<Tree<M>>,
) -> (list: Vec<Interaction>)
    requires
        troot.subtree(tcell@) == t@,
        sroot.subtree(scell@) == s@,
        forall|a: &Vec<Quadrant>, b: &Vec<Quadrant>| call_requires(*sep, (a, b)),
        reached(troot, sroot, separation(*sep), tcell@, scell@),
    ensures
        pairs_of(list@, troot, sroot) =~= product(t@.ids(), s@.ids()),
        near_between_leaves(list@, troot, sroot),
        walk_follows_test(list@, troot, sroot, separation(*sep)),
        dual(troot, sroot, separation(*sep), tcell@, scell@, list@),
    decreases t, s, 1nat,
{
    broadcast use vstd::multiset::group_multiset_axioms;

    let separated = sep(tcell, scell);
    proof {
        assert(separation(*sep)(tcell@, scell@, separated));
    }
    if separated {
        let mut out: Vec<Interaction> = Vec::new();
        out.push(Interaction::Far { target: copy_cell(tcell), source: copy_cell(scell) });
        proof {
            assert(out@ =~= seq![out@[0]]);
            lemma_one_interaction(out@[0], troot, sroot);
            assert(out@[0].target_cell() == tcell@);
            assert(out@[0].source_cell() == scell@);
        }
        return out;
    }
    match t {
        Node::Empty => {
            let out: Vec<Interaction> = Vec::new();
            proof {
                assert(t@.ids() =~= Seq::<usize>::empty());
                assert(product(Seq::<usize>::empty(), s@.ids()) == Multiset::<(usize, usize)>::empty());
                assert(pairs_of(out@, troot, sroot) == Multiset::<(usize, usize)>::empty());
            }
            out
        },
        Node::Leaf { .. } => {
            match s {
                Node::Empty => {
                    let out: Vec<Interaction> = Vec::new();
                    proof {
                        assert(s@.ids() =~= Seq::<usize>::empty());
                        lemma_product_empty_source(t@.ids());
                        assert(pairs_of(out@, troot, sroot) == Multiset::<(usize, usize)>::empty());
                    }
                    out
                },
                Node::Leaf { .. } => {
                    let mut out: Vec<Interaction> = Vec::new();
                    out.push(Interaction::Near { target: copy_cell(tcell), source: copy_cell(scell) });
                    proof {
                        assert(out@ =~= seq![out@[0]]);
                        lemma_one_interaction(out@[0], troot, sroot);
                        assert(out@[0].target_cell() == tcell@);
                        assert(out@[0].source_cell() == scell@);
                    }
                    out
                },
                Node::Internal { .. } => {
                    proof {
                        assert forall|q: Quadrant| #[trigger] reached(troot, sroot, separation(*sep), tcell@, scell@.push(q)) by {
                            lemma_reach_source_children(troot, sroot, separation(*sep), tcell@, scell@, q);
                        }
                    }
                    interactions_with_source_children(t, tcell, s, scell, sep, Ghost(troot), Ghost(sroot))
                },
            }
        },
        Node::Internal { q0, q1, q2, q3, .. } => {
            if let Node::Empty = s {
                let out: Vec<Interaction> = Vec::new();
                proof {
                    assert(s@.ids() =~= Seq::<usize>::empty());
                    lemma_product_empty_source(t@.ids());
                    assert(pairs_of(out@, troot, sroot) == Multiset::<(usize, usize)>::empty());
                }
                return out;
            }
            let c0 = extend_cell(tcell, Quadrant::LowXLowY);
            let c1 = extend_cell(tcell, Quadrant::HighXLowY);
            let c2 = extend_cell(tcell, Quadrant::LowXHighY);
            let c3 = extend_cell(tcell, Quadrant::HighXHighY);
            proof {
                lemma_subtree_push(troot, tcell@, Quadrant::LowXLowY);
                lemma_subtree_push(troot, tcell@, Quadrant::HighXLowY);
                lemma_subtree_push(troot, tcell@, Quadrant::LowXHighY);
                lemma_subtree_push(troot, tcell@, Quadrant::HighXHighY);
            }
            let source_is_leaf = match s {
                Node::Leaf { .. } => true,
                _ => false,
            };
            proof {
                if source_is_leaf {
                    lemma_reach_target_children(troot, sroot, separation(*sep), tcell@, scell@, Quadrant::LowXLowY);
                    lemma_reach_target_children(troot, sroot, separation(*sep), tcell@, scell@, Quadrant::HighXLowY);
                    lemma_reach_target_children(troot, sroot, separation(*sep), tcell@, scell@, Quadrant::LowXHighY);
                    lemma_reach_target_children(troot, sroot, separation(*sep), tcell@, scell@, Quadrant::HighXHighY);
                } else {
                    assert forall|q1: Quadrant, q2: Quadrant|
                        #[trigger] reached(troot, sroot, separation(*sep), tcell@.push(q1), scell@.push(q2)) by {
                        lemma_reach_both_children(troot, sroot, separation(*sep), tcell@, scell@, q1, q2);
                    }
                }
            }
            let (l0, l1, l2, l3) = if source_is_leaf {
                (
                    interactions_at(&**q0, &c0, s, scell, sep, Ghost(troot), Ghost(sroot)),
                    interactions_at(&**q1, &c1, s, scell, sep, Ghost(troot), Ghost(sroot)),
                    interactions_at(&**q2, &c2, s, scell, sep, Ghost(troot), Ghost(sroot)),
                    interactions_at(&**q3, &c3, s, scell, sep, Ghost(troot), Ghost(sroot)),
                )
            } else {
                (
                    interactions_with_source_children(&**q0, &c0, s, scell, sep, Ghost(troot), Ghost(sroot)),
                    interactions_with_source_children(&**q1, &c1, s, scell, sep, Ghost(troot), Ghost(sroot)),
                    interactions_with_source_children(&**q2, &c2, s, scell, sep, Ghost(troot), Ghost(sroot)),
                    interactions_with_source_children(&**q3, &c3, s, scell, sep, Ghost(troot), Ghost(sroot)),
                )
            };
            proof {
                lemma_pairs_concat4(l0@, l1@, l2@, l3@, troot, sroot);
                lemma_walk_concat(l0@, l1@, troot, sroot, separation(*sep));
                lemma_walk_concat(l0@ + l1@, l2@, troot, sroot, separation(*sep));
                lemma_walk_concat(l0@ + l1@ + l2@, l3@, troot, sroot, separation(*sep));
                let (a, b, c, d) = (q0@.ids(), q1@.ids(), q2@.ids(), q3@.ids());
                lemma_product_split_target(a + b + c, d, s@.ids());
                lemma_product_split_target(a + b, c, s@.ids());
                lemma_product_split_target(a, b, s@.ids());
                lemma_split4(l0@, l1@, l2@, l3@);
            }
            let out = concat4(l0, l1, l2, l3);
            proof {
                assert(dual(troot, sroot, separation(*sep), tcell@, scell@, out@));
            }
            out
        },
    }
}

} // verus!
