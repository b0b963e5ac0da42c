//! Boundary points: one-sided range endpoints over `i32` keys, with the total
//! order that the boundary store sorts by.

use vstd::prelude::*;

verus! {

/// A range endpoint as a caller writes it: a key that is part of the range
/// (`Included`), a key just outside it (`Excluded`), or no endpoint at all.
#[derive(Clone, Copy, PartialEq, Eq, Structural, Debug)]
pub enum Bound {
    Included(i32),
    Excluded(i32),
    Unbounded,
}

/// A boundary point: a key tagged inclusive or exclusive, marking where the
/// map's value changes.  `Included(k)` stands for the position of `k` itself,
/// `Excluded(k)` for the position just after `k`.
#[derive(Clone, Copy, PartialEq, Eq, Structural, Debug)]
pub enum Point {
    Included(i32),
    Excluded(i32),
}

/// The key inside a boundary point.
pub open spec fn key_of(p: Point) -> int {
    match p {
        Point::Included(k) => k as int,
        Point::Excluded(k) => k as int,
    }
}

/// Whether a boundary point is the exclusive one at its key.
pub open spec fn excl_of(p: Point) -> bool {
    match p {
        Point::Included(_) => false,
        Point::Excluded(_) => true,
    }
}

/// The strict total order on boundary points: keys compare first; at equal
/// keys the inclusive point comes before the exclusive one.
pub open spec fn pt_lt(a: Point, b: Point) -> bool {
    key_of(a) < key_of(b) || (key_of(a) == key_of(b) && !excl_of(a) && excl_of(b))
}

pub open spec fn pt_le(a: Point, b: Point) -> bool {
    pt_lt(a, b) || a == b
}

/// Flipping `Included` and `Excluded` on the same key turns a "range end"
/// into the start of the segment that follows it, and back.
pub open spec fn spec_swap(p: Point) -> Point {
    match p {
        Point::Included(k) => Point::Excluded(k),
        Point::Excluded(k) => Point::Included(k),
    }
}

/// The boundary point of a range endpoint, if the endpoint is bounded.
pub open spec fn pt_of(b: Bound) -> Option<Point> {
    match b {
        Bound::Included(k) => Some(Point::Included(k)),
        Bound::Excluded(k) => Some(Point::Excluded(k)),
        Bound::Unbounded => None,
    }
}

/// A range is valid iff, comparing start and end as plain keys, start is
/// strictly below end whenever an exclusive endpoint is involved, and at most
/// end when both endpoints are inclusive.  A missing endpoint never makes a
/// range invalid.
pub open spec fn spec_valid_range(start: Option<Point>, end: Option<Point>) -> bool {
    match (start, end) {
        (Some(s), Some(e)) => if !excl_of(s) && !excl_of(e) {
            key_of(s) <= key_of(e)
        } else {
            key_of(s) < key_of(e)
        },
        _ => true,
    }
}

/// A bounded range is valid exactly when its start point lies strictly below
/// the flipped end point, in boundary-point order.
pub proof fn lemma_valid_range_iff(s: Point, e: Point)
    ensures
        spec_valid_range(Some(s), Some(e)) <==> pt_lt(s, spec_swap(e)),
{
}

/// The boundary-point order is total: two points are ordered one way or the
/// other, or they are the same point.
pub proof fn lemma_pt_total(a: Point, b: Point)
    ensures
        pt_lt(a, b) || pt_lt(b, a) || a == b,
{
    match (a, b) {
        (Point::Included(_), Point::Included(_)) => {}
        (Point::Included(_), Point::Excluded(_)) => {}
        (Point::Excluded(_), Point::Included(_)) => {}
        (Point::Excluded(_), Point::Excluded(_)) => {}
    }
}

impl Point {
    /// Turns a range endpoint into its boundary point; `None` for a missing
    /// endpoint.
    pub fn from_bound_ref(bound: &Bound) -> (r: Option<Point>)
        ensures
            r == pt_of(*bound),
    {
        match *bound {
            Bound::Included(k) => Some(Point::Included(k)),
            Bound::Excluded(k) => Some(Point::Excluded(k)),
            Bound::Unbounded => None,
        }
    }

    /// The key inside the point.
    pub fn inner(&self) -> (r: &i32)
        ensures
            *r as int == key_of(*self),
    {
        match self {
            Point::Included(k) | Point::Excluded(k) => k,
        }
    }

    /// Flips `Included` and `Excluded` on the same key; an involution.
    pub fn swap_bound(self) -> (r: Point)
        ensures
            r == spec_swap(self),
            spec_swap(r) == self,
    {
        match self {
            Point::Included(k) => Point::Excluded(k),
            Point::Excluded(k) => Point::Included(k),
        }
    }
}

impl PartialOrd for Point {
    fn partial_cmp(&self, other: &Self) -> (r: Option<core::cmp::Ordering>) {
        match (self, other) {
            (Point::Included(a), Point::Included(b)) => if a < b {
                Some(core::cmp::Ordering::Less)
            } else if b < a {
                Some(core::cmp::Ordering::Greater)
            } else {
                Some(core::cmp::Ordering::Equal)
            },
            (Point::Included(a), Point::Excluded(b)) => if a <= b {
                Some(core::cmp::Ordering::Less)
            } else {
                Some(core::cmp::Ordering::Greater)
            },
            (Point::Excluded(a), Point::Included(b)) => if a < b {
                Some(core::cmp::Ordering::Less)
            } else {
                Some(core::cmp::Ordering::Greater)
            },
            (Point::Excluded(a), Point::Excluded(b)) => if a < b {
                Some(core::cmp::Ordering::Less)
            } else if b < a {
                Some(core::cmp::Ordering::Greater)
            } else {
                Some(core::cmp::Ordering::Equal)
            },
        }
    }
}

impl vstd::std_specs::cmp::PartialOrdSpecImpl for Point {
    open spec fn obeys_partial_cmp_spec() -> bool {
        true
    }

    open spec fn partial_cmp_spec(&self, other: &Self) -> Option<core::cmp::Ordering> {
        if pt_lt(*self, *other) {
            Some(core::cmp::Ordering::Less)
        } else if *self == *other {
            Some(core::cmp::Ordering::Equal)
        } else {
            Some(core::cmp::Ordering::Greater)
        }
    }
}

/// The strict boundary-point order, executably.
pub fn point_lt(a: Point, b: Point) -> (r: bool)
    ensures
        r == pt_lt(a, b),
{
    match (a, b) {
        (Point::Included(x), Point::Included(y)) => x < y,
        (Point::Included(x), Point::Excluded(y)) => x <= y,
        (Point::Excluded(x), Point::Included(y)) => x < y,
        (Point::Excluded(x), Point::Excluded(y)) => x < y,
    }
}

/// The reflexive boundary-point order, executably.
pub fn point_le(a: Point, b: Point) -> (r: bool)
    ensures
        r == pt_le(a, b),
{
    point_lt(a, b) || a == b
}

/// Checks whether a pair of range endpoints denotes a valid (non-empty,
/// non-inverted) range.
pub fn is_valid_range(range: &(Bound, Bound)) -> (r: bool)
    ensures
        r == spec_valid_range(pt_of(range.0), pt_of(range.1)),
{
    match (range.0, range.1) {
        (Bound::Included(s), Bound::Included(e)) => s <= e,
        (Bound::Included(s), Bound::Excluded(e)) => s < e,
        (Bound::Excluded(s), Bound::Included(e)) => s < e,
        (Bound::Excluded(s), Bound::Excluded(e)) => s < e,
        _ => true,
    }
}

} // verus!
