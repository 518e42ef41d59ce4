use vstd::prelude::*;

verus! {

/// One of the four children of a box that is cut in half along both axes.
/// The order of the variants is the order of the children in every tree of
/// this crate: low x before high x, then low y before high y.
#[derive(Clone, Copy, Debug, PartialEq, Eq, Structural)]
pub enum Quadrant {
    LowXLowY,
    HighXLowY,
    LowXHighY,
    HighXHighY,
}

impl Quadrant {
    /// Whether the quadrant lies on the low side of the x axis.
    pub open spec fn low_x(self) -> bool {
        self is LowXLowY || self is LowXHighY
    }

    /// Whether the quadrant lies on the low side of the y axis.
    pub open spec fn low_y(self) -> bool {
        self is LowXLowY || self is HighXLowY
    }

    /// The position of the quadrant among the four children.
    pub open spec fn spec_index(self) -> nat {
        match self {
            Quadrant::LowXLowY => 0,
            Quadrant::HighXLowY => 1,
            Quadrant::LowXHighY => 2,
            Quadrant::HighXHighY => 3,
        }
    }

    /// The quadrant that a point falls in, given whether it is at or below
    /// the centre of the box along x and along y.
    pub open spec fn spec_route(x_at_or_below: bool, y_at_or_below: bool) -> Quadrant {
        if x_at_or_below {
            if y_at_or_below { Quadrant::LowXLowY } else { Quadrant::LowXHighY }
        } else {
            if y_at_or_below { Quadrant::HighXLowY } else { Quadrant::HighXHighY }
        }
    }

    /// The direction in which the centre of the child box moves from the
    /// centre of its parent, one sign per axis.
    pub open spec fn spec_offset_signs(self) -> (int, int) {
        (if self.low_x() { -1 } else { 1 }, if self.low_y() { -1 } else { 1 })
    }

    /// Decides the child box of a point from its two comparisons with the
    /// centre of the box (a point exactly on a centre line goes low).
    pub fn route(x_at_or_below: bool, y_at_or_below: bool) -> (q: Quadrant)
        ensures
            q == Quadrant::spec_route(x_at_or_below, y_at_or_below),
            q.low_x() == x_at_or_below,
            q.low_y() == y_at_or_below,
    {
        if x_at_or_below {
            if y_at_or_below { Quadrant::LowXLowY } else { Quadrant::LowXHighY }
        } else {
            if y_at_or_below { Quadrant::HighXLowY } else { Quadrant::HighXHighY }
        }
    }

    /// The position of the quadrant among the four children, 0 to 3.
    pub fn index(self) -> (i: u32)
        ensures
            i == self.spec_index(),
            i < 4,
    {
        match self {
            Quadrant::LowXLowY => 0,
            Quadrant::HighXLowY => 1,
            Quadrant::LowXHighY => 2,
            Quadrant::HighXHighY => 3,
        }
    }

    /// The quadrant at a child position; `None` for a position past the
    /// fourth child.
    pub fn from_index(i: u32) -> (q: Option<Quadrant>)
        ensures
            q is Some <==> i < 4,
            q matches Some(q) ==> q.spec_index() == i,
    {
        if i == 0 {
            Some(Quadrant::LowXLowY)
        } else if i == 1 {
            Some(Quadrant::HighXLowY)
        } else if i == 2 {
            Some(Quadrant::LowXHighY)
        } else if i == 3 {
            Some(Quadrant::HighXHighY)
        } else {
            None
        }
    }

    /// The signs, -1 or 1 per axis, of the quarter-width and quarter-height
    /// steps that lead from the centre of a box to the centre of this child.
    pub fn offset_signs(self) -> (s: (i8, i8))
        ensures
            s.0 as int == self.spec_offset_signs().0,
            s.1 as int == self.spec_offset_signs().1,
    {
        match self {
            Quadrant::LowXLowY => (-1, -1),
            Quadrant::HighXLowY => (1, -1),
            Quadrant::LowXHighY => (-1, 1),
            Quadrant::HighXHighY => (1, 1),
        }
    }
}

/// A point is routed to the child whose centre lies on the same side of the
/// parent's centre as the point: the child chosen for a point at or below
/// the centre along an axis is the child shifted towards low along that axis.
pub proof fn lemma_route_agrees_with_subdivision(x_at_or_below: bool, y_at_or_below: bool)
    ensures
        Quadrant::spec_route(x_at_or_below, y_at_or_below).spec_offset_signs()
            == (if x_at_or_below { -1int } else { 1int }, if y_at_or_below { -1int } else { 1int }),
{
}

/// Every quadrant is reached by exactly one pair of comparisons, and the
/// child positions 0 to 3 name the four quadrants one to one.
pub proof fn lemma_quadrants_one_to_one(q: Quadrant, r: Quadrant)
    ensures
        Quadrant::spec_route(q.low_x(), q.low_y()) == q,
        q.spec_index() == r.spec_index() ==> q == r,
        q.spec_index() < 4,
{
}

/// The number of subdivision levels that a body records: no tree of this
/// crate routes a body below this depth.
pub const PATH_LEN: usize = 20;

/// A star as the trees see it: its index in the simulation and, for every
/// level `d` of the recursive subdivision of the simulated box, the quadrant
/// of the level-`d` box around the star that the star falls in.
#[derive(Clone, Copy, Debug)]
pub struct Body {
    pub id: usize,
    pub path: [Quadrant; PATH_LEN],
}

impl Body {
    /// The quadrant of the body at subdivision level `depth`.
    pub open spec fn quadrant_at(self, depth: int) -> Quadrant {
        self.path@[depth]
    }

    /// Whether the body lies in the box reached from the root by `cell`,
    /// one quadrant per level.
    pub open spec fn in_cell(self, cell: Seq<Quadrant>) -> bool {
        &&& cell.len() <= PATH_LEN
        &&& forall|d: int| 0 <= d < cell.len() ==> #[trigger] self.path@[d] == cell[d]
    }
}

/// A copy of a list of bodies.
pub fn copy_bodies(bodies: &Vec<Body>) -> (copy: Vec<Body>)
    ensures
        copy@ == bodies@,
{
    let mut copy: Vec<Body> = Vec::new();
    let mut i: usize = 0;
    while i < bodies.len()
        invariant
            i <= bodies@.len(),
            copy@ =~= bodies@.take(i as int),
        decreases bodies@.len() - i,
    {
        copy.push(bodies[i]);
        i = i + 1;
        proof {
            assert(bodies@.take(i as int) =~= bodies@.take(i - 1).push(bodies@[i - 1]));
        }
    }
    proof {
        assert(bodies@.take(i as int) =~= bodies@);
    }
    copy
}

/// The stars of four sibling boxes, listed one box after the other, are
/// the stars of the four boxes together.
pub proof fn lemma_ids_of_quarters(a: Seq<usize>, b: Seq<usize>, c: Seq<usize>, d: Seq<usize>)
    ensures
        (a + b + c + d).to_multiset() =~= a.to_multiset().add(b.to_multiset()).add(
            c.to_multiset(),
        ).add(d.to_multiset()),
{
    vstd::seq_lib::lemma_multiset_commutative(a + b + c, d);
    vstd::seq_lib::lemma_multiset_commutative(a + b, c);
    vstd::seq_lib::lemma_multiset_commutative(a, b);
}

} // verus!
