//! The section iterator: the map as a sequence of non-overlapping,
//! value-labelled intervals covering the entire key space.

use vstd::prelude::*;
use crate::bound::{Bound, Point, pt_le, spec_swap};
use crate::node::Node;
use crate::rangemap::{RangeMap, sorted, value_at_pos, count_through, lemma_count_through_char, lemma_value_at_split};

verus! {

/// The range endpoint form of a boundary point.
pub open spec fn bound_of(p: Point) -> Bound {
    match p {
        Point::Included(k) => Bound::Included(k),
        Point::Excluded(k) => Bound::Excluded(k),
    }
}

/// The sections of a store: one per boundary entry, plus the leading section
/// holding the default value.  The first section's start and the last
/// section's end are unbounded; every other end is the next entry's point
/// with its inclusion flipped.
pub open spec fn spec_sections(dft: char, s: Seq<Node>) -> Seq<((Bound, Bound), char)> {
    Seq::new(
        (s.len() + 1) as nat,
        |i: int|
            (
                (
                    if i == 0 {
                        Bound::Unbounded
                    } else {
                        bound_of(s[i - 1].key)
                    },
                    if i < s.len() {
                        bound_of(spec_swap(s[i].key))
                    } else {
                        Bound::Unbounded
                    },
                ),
                if i == 0 {
                    dft
                } else {
                    s[i - 1].value
                },
            ),
    )
}

/// Whether a key lies between a section's two endpoints.
pub open spec fn section_contains(sec: ((Bound, Bound), char), k: i32) -> bool {
    &&& match sec.0.0 {
        Bound::Unbounded => true,
        Bound::Included(a) => a <= k,
        Bound::Excluded(a) => a < k,
    }
    &&& match sec.0.1 {
        Bound::Unbounded => true,
        Bound::Included(b) => k <= b,
        Bound::Excluded(b) => k < b,
    }
}

/// The position of the section holding key `k`: one past the number of
/// boundary entries at or before the key's own position.
pub open spec fn section_index_of(s: Seq<Node>, k: i32) -> int {
    count_through(s, Some(Point::Excluded(k)))
}

/// An iterator over the sections of a map, in increasing key order.
pub struct Iter {
    sections: Vec<((Bound, Bound), char)>,
    pos: usize,
}

impl Iter {
    /// The sections not yet handed out.
    pub closed spec fn spec_remaining(self) -> Seq<((Bound, Bound), char)> {
        if self.pos as int <= self.sections@.len() {
            self.sections@.skip(self.pos as int)
        } else {
            Seq::<((Bound, Bound), char)>::empty()
        }
    }

    /// Hands out the next section, or `None` when all are out.
    pub fn next(&mut self) -> (r: Option<((Bound, Bound), char)>)
        ensures
            old(self).spec_remaining().len() > 0 ==> r == Some(old(self).spec_remaining()[0])
                && final(self).spec_remaining() == old(self).spec_remaining().drop_first(),
            old(self).spec_remaining().len() == 0 ==> r == None::<((Bound, Bound), char)>
                && final(self).spec_remaining() == old(self).spec_remaining(),
    {
        if self.pos < self.sections.len() {
            let sec = self.sections[self.pos];
            self.pos = self.pos + 1;
            proof {
                assert(old(self).spec_remaining()[0]
                    == old(self).sections@[old(self).pos as int]);
                assert(self.sections@.skip(self.pos as int)
                    =~= self.sections@.skip(self.pos - 1).drop_first());
            }
            Some(sec)
        } else {
            None
        }
    }
}

/// The bound form of a boundary point, executably.
fn point_as_bound(p: Point) -> (r: Bound)
    ensures
        r == bound_of(p),
{
    match p {
        Point::Included(k) => Bound::Included(k),
        Point::Excluded(k) => Bound::Excluded(k),
    }
}

/// The end bound of the section running up to the boundary point `p`: the
/// point with its inclusion flipped.
fn point_as_end(p: Point) -> (r: Bound)
    ensures
        r == bound_of(spec_swap(p)),
{
    match p {
        Point::Included(k) => Bound::Excluded(k),
        Point::Excluded(k) => Bound::Included(k),
    }
}

impl Node {
    /// An entry as the start bound of its section, with its value.
    fn kv_ref(&self) -> (r: (Bound, char))
        ensures
            r.0 == bound_of(self.key),
            r.1 == self.value,
    {
        (point_as_bound(self.key), self.value)
    }
}

impl RangeMap {
    /// An iterator over the map's sections: non-overlapping intervals in
    /// increasing key order, covering the entire key space, each with the
    /// value the map holds on it.
    pub fn iter(&self) -> (r: Iter)
        ensures
            r.spec_remaining() == spec_sections(self.spec_val(), self.spec_entries()),
    {
        proof {
            self.lemma_view();
        }
        let ghost s = self.entries@;
        let n = self.entries.len();
        let mut sections: Vec<((Bound, Bound), char)> = Vec::new();
        let first_end = if n > 0 {
            point_as_end(self.entries[0].key)
        } else {
            Bound::Unbounded
        };
        sections.push(((Bound::Unbounded, first_end), self.val));
        proof {
            assert(sections@[0] == ((Bound::Unbounded, first_end), self.val));
        }
        let mut i: usize = 0;
        while i < n
            invariant
                i <= n,
                n == s.len(),
                s == self.entries@,
                sections@.len() == i + 1,
                forall|j: int| #![trigger sections@[j]] 0 <= j <= i ==> sections@[j]
                    == spec_sections(self.spec_val(), s)[j],
            decreases n - i,
        {
            let node = self.entries[i];
            let kv = node.kv_ref();
            let end_b = if i + 1 < n {
                point_as_end(self.entries[i + 1].key)
            } else {
                Bound::Unbounded
            };
            sections.push(((kv.0, end_b), kv.1));
            i = i + 1;
        }
        proof {
            assert(sections@ =~= spec_sections(self.spec_val(), s));
        }
        let r = Iter { sections, pos: 0 };
        proof {
            assert(r.spec_remaining() =~= spec_sections(self.spec_val(), self.spec_entries()));
        }
        r
    }
}

/// The sections of a sorted store partition the key space: every key lies in
/// exactly one section, and that section carries the store's value at the
/// key.
pub proof fn lemma_sections_partition(dft: char, s: Seq<Node>, k: i32)
    requires
        sorted(s),
    ensures
        ({
            let secs = spec_sections(dft, s);
            let i = section_index_of(s, k);
            &&& 0 <= i < secs.len()
            &&& section_contains(secs[i], k)
            &&& secs[i].1 == value_at_pos(dft, s, Point::Included(k))
            &&& forall|j: int| 0 <= j < secs.len() && j != i
                ==> !section_contains(#[trigger] secs[j], k)
        }),
{
    let p = Point::Included(k);
    let secs = spec_sections(dft, s);
    let c = section_index_of(s, k);
    assert(spec_swap(Point::Excluded(k)) == p);
    lemma_count_through_char(s, Point::Excluded(k));
    lemma_value_at_split(dft, s, c, p);
    assert(section_contains(secs[c], k));
    assert forall|j: int| 0 <= j < secs.len() && j != c implies !section_contains(secs[j], k) by {
        if j < c {
            assert(pt_le(s[j].key, p));
        } else {
            assert(!pt_le(s[j - 1].key, p));
        }
    }
}

/// Coverage round-trip over a well-formed map: the sections of `iter`
/// partition the key space, and the one holding `k` carries exactly the
/// value `index` returns for `k`.
pub proof fn lemma_iter_round_trip(m: RangeMap, k: i32)
    requires
        m.wf(),
    ensures
        ({
            let secs = spec_sections(m.spec_val(), m.spec_entries());
            let i = section_index_of(m.spec_entries(), k);
            &&& 0 <= i < secs.len()
            &&& section_contains(secs[i], k)
            &&& secs[i].1 == m.spec_index(k)
            &&& forall|j: int| 0 <= j < secs.len() && j != i
                ==> !section_contains(#[trigger] secs[j], k)
        }),
{
    lemma_sections_partition(m.spec_val(), m.spec_entries(), k);
}

} // verus!
