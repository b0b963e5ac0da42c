//! The canonical range map and its insert algorithm.

use vstd::prelude::*;
use crate::bound::{Bound, Point, pt_lt, pt_le, spec_swap, pt_of, spec_valid_range, point_lt, point_le, is_valid_range, lemma_valid_range_iff, lemma_pt_total};
use crate::node::Node;

verus! {

// ---------------------------------------------------------------------------
// The mathematical model: a default value plus a sequence of boundary entries.
// ---------------------------------------------------------------------------

/// Boundary points strictly increase along the store.
pub open spec fn sorted(s: Seq<Node>) -> bool {
    forall|i: int, j: int| #![trigger s[i], s[j]] 0 <= i < j < s.len() ==> pt_lt(s[i].key, s[j].key)
}

/// No two adjacent values are equal, counting the default value as the
/// neighbour of the first entry.
pub open spec fn distinct_adjacent(dft: char, s: Seq<Node>) -> bool {
    &&& forall|i: int| #![trigger s[i]] 0 <= i < s.len() - 1 ==> s[i].value != s[i + 1].value
    &&& s.len() > 0 ==> s[0].value != dft
}

/// Canonical form: strictly increasing boundary points, no redundant entry.
pub open spec fn canonical(dft: char, s: Seq<Node>) -> bool {
    sorted(s) && distinct_adjacent(dft, s)
}

/// The value the store holds at position `p`: the value of the rightmost
/// entry whose point is at or before `p`, or the default value if there is
/// none.
pub open spec fn value_at_pos(dft: char, s: Seq<Node>, p: Point) -> char
    decreases s.len(),
{
    if s.len() == 0 {
        dft
    } else if pt_le(s.last().key, p) {
        s.last().value
    } else {
        value_at_pos(dft, s.drop_last(), p)
    }
}

/// Whether position `p` lies inside the range `[start, end]` (either side
/// possibly missing).  In position terms the range is the half-open interval
/// from `start` up to the flipped end point.
pub open spec fn pos_in_range(start: Option<Point>, end: Option<Point>, p: Point) -> bool {
    &&& match start {
        None => true,
        Some(s) => pt_le(s, p),
    }
    &&& match end {
        None => true,
        Some(e) => pt_lt(p, spec_swap(e)),
    }
}

/// Whether key `k` lies inside the range `(start, end)`, read directly off
/// the endpoints: at or above an inclusive start, strictly above an
/// exclusive one, and symmetrically below the end.
pub open spec fn key_in_range(start: Option<Point>, end: Option<Point>, k: i32) -> bool {
    &&& match start {
        None => true,
        Some(Point::Included(a)) => a <= k,
        Some(Point::Excluded(a)) => a < k,
    }
    &&& match end {
        None => true,
        Some(Point::Included(b)) => k <= b,
        Some(Point::Excluded(b)) => k < b,
    }
}

/// A key lies in a range exactly when its own position does.
pub proof fn lemma_key_in_range_iff(start: Option<Point>, end: Option<Point>, k: i32)
    ensures
        key_in_range(start, end, k) == pos_in_range(start, end, Point::Included(k)),
{
}

// ---------------------------------------------------------------------------
// Facts about value_at_pos.
// ---------------------------------------------------------------------------

/// Reading a concatenation from the right: the left part only matters when no
/// entry of the right part lies at or before `p`.
pub proof fn lemma_value_at_append(dft: char, a: Seq<Node>, b: Seq<Node>, p: Point)
    ensures
        value_at_pos(dft, a + b, p) == value_at_pos(value_at_pos(dft, a, p), b, p),
    decreases b.len(),
{
    if b.len() == 0 {
        assert(a + b =~= a);
    } else {
        assert((a + b).drop_last() =~= a + b.drop_last());
        lemma_value_at_append(dft, a, b.drop_last(), p);
    }
}

/// When no entry lies at or before `p`, the default value is in effect.
pub proof fn lemma_value_at_miss(dft: char, s: Seq<Node>, p: Point)
    requires
        forall|i: int| #![trigger s[i]] 0 <= i < s.len() ==> !pt_le(s[i].key, p),
    ensures
        value_at_pos(dft, s, p) == dft,
    decreases s.len(),
{
    if s.len() > 0 {
        lemma_value_at_miss(dft, s.drop_last(), p);
    }
}

/// The default value does not matter once some entry lies at or before `p`.
pub proof fn lemma_value_at_hit(d1: char, d2: char, s: Seq<Node>, p: Point)
    requires
        exists|i: int| 0 <= i < s.len() && pt_le(#[trigger] s[i].key, p),
    ensures
        value_at_pos(d1, s, p) == value_at_pos(d2, s, p),
    decreases s.len(),
{
    let i = choose|i: int| 0 <= i < s.len() && pt_le(#[trigger] s[i].key, p);
    if !pt_le(s.last().key, p) {
        assert(0 <= i < s.len() - 1 && pt_le(s.drop_last()[i].key, p));
        lemma_value_at_hit(d1, d2, s.drop_last(), p);
    }
}

// ---------------------------------------------------------------------------
// The insert algorithm, as a mathematical function on the model.
// ---------------------------------------------------------------------------

/// How many entries lie strictly below the start point (all of them keep
/// their place under an insert).  With no start point, none do.
pub open spec fn count_below(s: Seq<Node>, start: Option<Point>) -> int
    decreases s.len(),
{
    match start {
        None => 0,
        Some(sp) => if s.len() == 0 {
            0
        } else {
            count_below(s.drop_last(), start) + if pt_lt(s.last().key, sp) {
                1int
            } else {
                0int
            }
        },
    }
}

/// How many entries lie at or below the flipped end point (an insert removes
/// those of them that are not below the start).  With no end point, all do.
pub open spec fn count_through(s: Seq<Node>, end: Option<Point>) -> int
    decreases s.len(),
{
    match end {
        None => s.len() as int,
        Some(e) => if s.len() == 0 {
            0
        } else {
            count_through(s.drop_last(), end) + if pt_le(s.last().key, spec_swap(e)) {
                1int
            } else {
                0int
            }
        },
    }
}

pub open spec fn ins_lo(s: Seq<Node>, start: Option<Point>) -> int {
    count_below(s, start)
}

pub open spec fn ins_hi(s: Seq<Node>, end: Option<Point>) -> int {
    count_through(s, end)
}

/// The value in effect just before the flipped end point: the value of the
/// last entry the insert removes, or of the entry just before the start
/// point, or the default value.
pub open spec fn ins_end_val(dft: char, s: Seq<Node>, start: Option<Point>, end: Option<Point>) -> char {
    let lo = ins_lo(s, start);
    let hi = ins_hi(s, end);
    if lo < hi {
        s[hi - 1].value
    } else if lo > 0 {
        s[lo - 1].value
    } else {
        dft
    }
}

/// The value in effect just below the start point.
pub open spec fn ins_prev_val(dft: char, s: Seq<Node>, start: Option<Point>) -> char {
    let lo = ins_lo(s, start);
    if lo > 0 {
        s[lo - 1].value
    } else {
        dft
    }
}

/// Whether the insert must put a boundary at the flipped end point, to
/// restore the value the overwritten region ended with.  It must not when the
/// new value already continues past the range's end, nor when that value
/// already equals the following segment's value.
pub open spec fn ins_add_end(dft: char, s: Seq<Node>, start: Option<Point>, end: Option<Point>, v: char) -> bool {
    &&& end.is_some()
    &&& v != ins_end_val(dft, s, start, end)
    &&& (ins_hi(s, end) == s.len() || ins_end_val(dft, s, start, end) != s[ins_hi(s, end)].value)
}

/// Whether the insert must put a boundary at the start point: only when the
/// new value differs from the value in effect just below it.
pub open spec fn ins_add_start(dft: char, s: Seq<Node>, start: Option<Point>, v: char) -> bool {
    start.is_some() && v != ins_prev_val(dft, s, start)
}

/// The boundary store after overwriting the range `(start, end)` with `v`:
/// the entries below the start, then at most one boundary for the start and
/// one for the end, then the entries above the flipped end point.  An invalid
/// range changes nothing.
pub open spec fn spec_insert_entries(dft: char, s: Seq<Node>, start: Option<Point>, end: Option<Point>, v: char) -> Seq<Node> {
    if !spec_valid_range(start, end) {
        s
    } else {
        let lo = ins_lo(s, start);
        let hi = ins_hi(s, end);
        let mid_start: Seq<Node> = if ins_add_start(dft, s, start, v) {
            seq![Node { key: start.unwrap(), value: v }]
        } else {
            Seq::<Node>::empty()
        };
        let mid_end: Seq<Node> = if ins_add_end(dft, s, start, end, v) {
            seq![Node { key: spec_swap(end.unwrap()), value: ins_end_val(dft, s, start, end) }]
        } else {
            Seq::<Node>::empty()
        };
        s.take(lo) + mid_start + mid_end + s.skip(hi)
    }
}

/// The default value after the overwrite: replaced only by a valid range
/// with no start point.
pub open spec fn spec_insert_val(dft: char, start: Option<Point>, end: Option<Point>, v: char) -> char {
    if spec_valid_range(start, end) && start.is_none() {
        v
    } else {
        dft
    }
}

// ---------------------------------------------------------------------------
// Characterizations of the split positions.
// ---------------------------------------------------------------------------

/// In a sorted store, the entries strictly below the start point are exactly
/// a prefix, and `count_below` is its length.
pub proof fn lemma_count_below_char(s: Seq<Node>, sp: Point)
    requires
        sorted(s),
    ensures
        ({
            let lo = count_below(s, Some(sp));
            &&& 0 <= lo <= s.len()
            &&& forall|i: int| #![trigger s[i]] 0 <= i < lo ==> pt_lt(s[i].key, sp)
            &&& forall|i: int| #![trigger s[i]] lo <= i < s.len() ==> !pt_lt(s[i].key, sp)
        }),
    decreases s.len(),
{
    if s.len() > 0 {
        let d = s.drop_last();
        assert(forall|i: int| 0 <= i < d.len() ==> d[i] == s[i]);
        lemma_count_below_char(d, sp);
    }
}

/// In a sorted store, the entries at or below the flipped end point are
/// exactly a prefix, and `count_through` is its length.
pub proof fn lemma_count_through_char(s: Seq<Node>, e: Point)
    requires
        sorted(s),
    ensures
        ({
            let hi = count_through(s, Some(e));
            &&& 0 <= hi <= s.len()
            &&& forall|i: int| #![trigger s[i]] 0 <= i < hi ==> pt_le(s[i].key, spec_swap(e))
            &&& forall|i: int| #![trigger s[i]] hi <= i < s.len() ==> !pt_le(s[i].key, spec_swap(e))
        }),
    decreases s.len(),
{
    if s.len() > 0 {
        let d = s.drop_last();
        assert(forall|i: int| 0 <= i < d.len() ==> d[i] == s[i]);
        lemma_count_through_char(d, e);
    }
}

/// A sorted store has only one split point below the start: any position
/// with everything strictly below `sp` on its left and nothing on its right
/// is `count_below`.
pub proof fn lemma_split_unique_below(s: Seq<Node>, sp: Point, lo: int)
    requires
        sorted(s),
        0 <= lo <= s.len(),
        forall|i: int| #![trigger s[i]] 0 <= i < lo ==> pt_lt(s[i].key, sp),
        lo < s.len() ==> !pt_lt(s[lo].key, sp),
    ensures
        count_below(s, Some(sp)) == lo,
{
    lemma_count_below_char(s, sp);
    let c = count_below(s, Some(sp));
    if c < lo {
        assert(pt_lt(s[c].key, sp));
    }
    if c > lo {
        assert(pt_lt(s[lo].key, sp));
    }
}

/// The same for the split at or below the flipped end point.
pub proof fn lemma_split_unique_through(s: Seq<Node>, e: Point, hi: int)
    requires
        sorted(s),
        0 <= hi <= s.len(),
        forall|i: int| #![trigger s[i]] 0 <= i < hi ==> pt_le(s[i].key, spec_swap(e)),
        hi < s.len() ==> !pt_le(s[hi].key, spec_swap(e)),
    ensures
        count_through(s, Some(e)) == hi,
{
    lemma_count_through_char(s, e);
    let c = count_through(s, Some(e));
    if c < hi {
        assert(pt_le(s[c].key, spec_swap(e)));
    }
    if c > hi {
        assert(pt_le(s[hi].key, spec_swap(e)));
    }
}

// ---------------------------------------------------------------------------
// The run a cursor removes.
// ---------------------------------------------------------------------------

/// The length of the leading run of entries whose point does not exceed the
/// limit (the whole store, with no limit).
pub open spec fn run_len(s: Seq<Node>, limit: Option<Point>) -> int
    decreases s.len(),
{
    if s.len() == 0 {
        0
    } else if (match limit {
        None => true,
        Some(l) => pt_le(s[0].key, l),
    }) {
        1 + run_len(s.drop_first(), limit)
    } else {
        0
    }
}

/// Without a limit, the run is the whole store.
pub proof fn lemma_run_len_all(s: Seq<Node>)
    ensures
        run_len(s, None) == s.len(),
    decreases s.len(),
{
    if s.len() > 0 {
        lemma_run_len_all(s.drop_first());
    }
}

/// What the run from position `lo` covers: every entry in it is within the
/// limit, and the first entry after it is not.
pub proof fn lemma_run_char(s: Seq<Node>, lo: int, limit: Option<Point>)
    requires
        0 <= lo <= s.len(),
    ensures
        ({
            let m = lo + run_len(s.skip(lo), limit);
            &&& lo <= m <= s.len()
            &&& forall|i: int| #![trigger s[i]] lo <= i < m ==> (match limit {
                None => true,
                Some(l) => pt_le(s[i].key, l),
            })
            &&& (m < s.len() ==> (match limit {
                None => false,
                Some(l) => !pt_le(s[m].key, l),
            }))
        }),
    decreases s.len() - lo,
{
    if lo < s.len() {
        assert(s.skip(lo)[0] == s[lo]);
        let within = match limit {
            None => true,
            Some(l) => pt_le(s[lo].key, l),
        };
        if within {
            assert(s.skip(lo).drop_first() =~= s.skip(lo + 1));
            lemma_run_char(s, lo + 1, limit);
        }
    }
}

// ---------------------------------------------------------------------------
// The map itself.
// ---------------------------------------------------------------------------

/// A canonical range map from `i32` keys to `char` values: a default value
/// plus a sorted store of boundary entries, kept free of redundant entries by
/// every mutation.
#[derive(Debug)]
pub struct RangeMap {
    pub(crate) val: char,
    pub(crate) entries: Vec<Node>,
}

impl RangeMap {
    /// The value in effect below every stored boundary (and everywhere, while
    /// the store is empty).
    pub closed spec fn spec_val(self) -> char {
        self.val
    }

    /// The boundary entries, in store order.
    pub closed spec fn spec_entries(self) -> Seq<Node> {
        self.entries@
    }

    /// What the two model functions read, for the crate's other modules.
    pub(crate) proof fn lemma_view(&self)
        ensures
            self.spec_val() == self.val,
            self.spec_entries() == self.entries@,
    {
    }

    /// The canonical-form invariant.
    pub open spec fn wf(self) -> bool {
        canonical(self.spec_val(), self.spec_entries())
    }

    /// The value the map holds at position `p`.
    pub open spec fn value_at(self, p: Point) -> char {
        value_at_pos(self.spec_val(), self.spec_entries(), p)
    }

    /// The value the map holds at key `k`.
    pub open spec fn spec_index(self, k: i32) -> char {
        self.value_at(Point::Included(k))
    }

    /// A fresh map holding `val` everywhere.
    pub fn new(val: char) -> (r: RangeMap)
        ensures
            r.wf(),
            r.spec_val() == val,
            r.spec_entries() == Seq::<Node>::empty(),
            forall|p: Point| #[trigger] r.value_at(p) == val,
    {
        let r = RangeMap { val, entries: Vec::new() };
        proof {
            assert(r.spec_entries() =~= Seq::<Node>::empty());
        }
        r
    }

    /// The value effective at `key`: the entry with the greatest point at or
    /// before the key's own position, or the default value if there is none.
    pub fn index(&self, key: i32) -> (r: &char)
        ensures
            *r == self.spec_index(key),
    {
        let p = Point::Included(key);
        let ghost s = self.entries@;
        let mut i: usize = self.entries.len();
        proof {
            assert(s.take(i as int) =~= s);
        }
        while i > 0 && !point_le(self.entries[i - 1].key, p)
            invariant
                i <= s.len(),
                s == self.entries@,
                p == Point::Included(key),
                value_at_pos(self.val, s, p) == value_at_pos(self.val, s.take(i as int), p),
            decreases i,
        {
            proof {
                assert(s.take(i as int).drop_last() =~= s.take(i - 1));
            }
            i = i - 1;
        }
        if i > 0 {
            assert(s.take(i as int).last() == s[i - 1]);
            &self.entries[i - 1].value
        } else {
            assert(s.take(0) =~= Seq::<Node>::empty());
            &self.val
        }
    }

    /// Removes entries at position `lo` as long as one is there and, when a
    /// limit point is given, its point does not exceed the limit; returns the
    /// value of the last entry removed, or `None` if none was.
    fn remove_until(&mut self, lo: usize, limit: Option<Point>) -> (r: Option<char>)
        requires
            lo <= old(self).entries.len(),
        ensures
            ({
                let s = old(self).spec_entries();
                let m = lo + run_len(s.skip(lo as int), limit);
                &&& lo <= m <= s.len()
                &&& final(self).spec_entries() == s.take(lo as int) + s.skip(m)
                &&& final(self).spec_val() == old(self).spec_val()
                &&& r == (if m > lo {
                    Some(s[m - 1].value)
                } else {
                    None::<char>
                })
            }),
    {
        let ghost s = self.entries@;
        let ghost mut k: int = lo as int;
        let mut last: Option<char> = None;
        proof {
            assert(self.entries@ =~= s.take(lo as int) + s.skip(k));
        }
        while lo < self.entries.len() && within_limit(self.entries[lo].key, limit)
            invariant
                lo as int <= k <= s.len(),
                self.entries@ == s.take(lo as int) + s.skip(k),
                self.val == old(self).val,
                lo as int + run_len(s.skip(lo as int), limit) == k + run_len(s.skip(k), limit),
                last == (if k > lo as int {
                    Some(s[k - 1].value)
                } else {
                    None::<char>
                }),
            decreases s.len() - k,
        {
            proof {
                assert(self.entries@[lo as int] == s.skip(k)[0]);
                assert(s.skip(k)[0] == s[k]);
                assert(s.skip(k).drop_first() =~= s.skip(k + 1));
            }
            let n = self.entries.remove(lo);
            last = Some(n.value);
            proof {
                assert(self.entries@ =~= s.take(lo as int) + s.skip(k + 1));
                k = k + 1;
            }
        }
        proof {
            if k < s.len() {
                assert(self.entries@[lo as int] == s[k]);
                assert(run_len(s.skip(k), limit) == 0);
            } else {
                assert(s.skip(k).len() == 0);
            }
        }
        last
    }

    /// Overwrites the range between the two endpoints with `value`,
    /// re-establishing canonical form: boundary points inside the range are
    /// removed, the value that was in effect at the range's end is restored
    /// after it when needed, and a boundary is created at the start only when
    /// it changes the value.  An invalid (empty or inverted) range is
    /// silently ignored.
    #[verifier::rlimit(100)]
    pub fn insert(&mut self, range: (Bound, Bound), value: char)
        requires
            old(self).wf(),
        ensures
            final(self).wf(),
            final(self).spec_val() == spec_insert_val(old(self).spec_val(), pt_of(range.0), pt_of(range.1), value),
            final(self).spec_entries() == spec_insert_entries(old(self).spec_val(), old(self).spec_entries(), pt_of(range.0), pt_of(range.1), value),
            forall|p: Point| #[trigger] final(self).value_at(p) == (
                if spec_valid_range(pt_of(range.0), pt_of(range.1))
                    && pos_in_range(pt_of(range.0), pt_of(range.1), p) {
                    value
                } else {
                    old(self).value_at(p)
                }),
    {
        let start = Point::from_bound_ref(&range.0);
        let end = Point::from_bound_ref(&range.1);
        if !is_valid_range(&range) {
            return;
        }
        let ghost s = self.entries@;
        let ghost dft = self.val;

        // Position of the first entry at or after the start point.
        let mut lo: usize = 0;
        if let Some(sp) = start {
            while lo < self.entries.len() && point_lt(self.entries[lo].key, sp)
                invariant
                    lo <= s.len(),
                    s == self.entries@,
                    start == Some(sp),
                    forall|i: int| #![trigger s[i]] 0 <= i < lo ==> pt_lt(s[i].key, sp),
                decreases s.len() - lo,
            {
                lo = lo + 1;
            }
            proof {
                lemma_split_unique_below(s, sp, lo as int);
            }
        }
        assert(lo as int == ins_lo(s, start));

        // Remove every entry from `lo` up to and including the flipped end
        // point, keeping the value of the last one removed.
        let limit: Option<Point> = match end {
            Some(e) => Some(e.swap_bound()),
            None => None,
        };
        let ghost m = lo as int + run_len(s.skip(lo as int), limit);
        let removed = self.remove_until(lo, limit);
        proof {
            match end {
                None => {
                    lemma_run_len_all(s.skip(lo as int));
                }
                Some(e) => {
                    assert forall|i: int| 0 <= i < lo implies pt_le(#[trigger] s[i].key, spec_swap(e)) by {
                        let sp = start.unwrap();
                        lemma_valid_range_iff(sp, e);
                    }
                    lemma_run_char(s, lo as int, Some(spec_swap(e)));
                    lemma_split_unique_through(s, e, m);
                }
            }
            assert(m == ins_hi(s, end));
        }

        let end_val: char = match removed {
            Some(v) => v,
            None => if lo > 0 {
                self.entries[lo - 1].value
            } else {
                self.val
            },
        };
        proof {
            if removed.is_none() && lo > 0 {
                assert(self.entries@[lo - 1] == s.take(lo as int)[lo - 1]);
            }
        }
        assert(end_val == ins_end_val(dft, s, start, end));

        // Re-establish, just after the range, the value its tail was
        // overwriting — unless the new value or the following segment
        // already carries it.
        if let Some(e) = end {
            let add_point: bool = if lo < self.entries.len() {
                proof {
                    assert(self.entries@[lo as int] == s.skip(m)[0]);
                }
                value != end_val && end_val != self.entries[lo].value
            } else {
                value != end_val
            };
            assert(add_point == ins_add_end(dft, s, start, end, value));
            if add_point {
                self.entries.insert(lo, Node::new(e.swap_bound(), end_val));
            }
        }

        // Put the new value's own boundary at the start, or overwrite the
        // default value for a left-unbounded range.
        if let Some(sp) = start {
            let prev_val = if lo > 0 {
                self.entries[lo - 1].value
            } else {
                self.val
            };
            proof {
                if lo > 0 {
                    assert(self.entries@[lo - 1] == s.take(lo as int)[lo - 1]);
                }
            }
            assert(prev_val == ins_prev_val(dft, s, start));
            if value != prev_val {
                self.entries.insert(lo, Node::new(sp, value));
            }
        } else {
            self.val = value;
        }

        proof {
            let mid_start: Seq<Node> = if ins_add_start(dft, s, start, value) {
                seq![Node { key: start.unwrap(), value: value }]
            } else {
                Seq::<Node>::empty()
            };
            let mid_end: Seq<Node> = if ins_add_end(dft, s, start, end, value) {
                seq![Node { key: spec_swap(end.unwrap()), value: ins_end_val(dft, s, start, end) }]
            } else {
                Seq::<Node>::empty()
            };
            assert(self.entries@ =~= s.take(lo as int) + mid_start + mid_end + s.skip(m));
            lemma_spec_insert_canonical(dft, s, start, end, value);
            assert forall|p: Point| #[trigger] final(self).value_at(p) == (
                if spec_valid_range(start, end) && pos_in_range(start, end, p) {
                    value
                } else {
                    old(self).value_at(p)
                }) by {
                lemma_spec_insert_value(dft, s, start, end, value, p);
            }
        }
    }

    /// Checks the canonical-form invariant: strictly increasing points and no
    /// equal adjacent values, the default value included.  A pure diagnostic
    /// for property tests; on every map that `new` and `insert` produce it
    /// returns true.
    pub fn check_canonical(&self) -> (r: bool)
        ensures
            r == self.wf(),
    {
        let ghost s = self.entries@;
        let n = self.entries.len();
        if n == 0 {
            return true;
        }
        if self.entries[0].value == self.val {
            return false;
        }
        let mut i: usize = 1;
        while i < n
            invariant
                1 <= i <= n,
                n == s.len(),
                s == self.entries@,
                s.len() > 0,
                s[0].value != self.val,
                forall|j: int| #![trigger s[j]] 0 <= j < i - 1 ==> pt_lt(s[j].key, s[j + 1].key)
                    && s[j].value != s[j + 1].value,
            decreases n - i,
        {
            let prev = self.entries[i - 1];
            let cur = self.entries[i];
            if !point_lt(prev.key, cur.key) {
                assert(!sorted(s));
                return false;
            }
            if prev.value == cur.value {
                assert(!distinct_adjacent(self.val, s));
                return false;
            }
            i = i + 1;
        }
        proof {
            lemma_sorted_from_adjacent(s);
        }
        true
    }
}

// ---------------------------------------------------------------------------
// What the split positions say about a canonical store.
// ---------------------------------------------------------------------------

/// Where a valid range cuts a canonical store: the entries below `lo` lie
/// strictly below the start point, those from `lo` up to `hi` lie between
/// the start and the flipped end point, and those from `hi` on lie strictly
/// above it.
pub proof fn lemma_insert_split_facts(dft: char, s: Seq<Node>, start: Option<Point>, end: Option<Point>)
    requires
        canonical(dft, s),
        spec_valid_range(start, end),
    ensures
        ({
            let lo = ins_lo(s, start);
            let hi = ins_hi(s, end);
            &&& 0 <= lo <= hi <= s.len()
            &&& (match start {
                Some(sp) => (forall|i: int| #![trigger s[i]] 0 <= i < lo ==> pt_lt(s[i].key, sp))
                    && (forall|i: int| #![trigger s[i]] lo <= i < s.len() ==> pt_le(sp, s[i].key)),
                None => lo == 0,
            })
            &&& (match end {
                Some(e) => (forall|i: int| #![trigger s[i]] 0 <= i < hi ==> pt_le(s[i].key, spec_swap(e)))
                    && (forall|i: int| #![trigger s[i]] hi <= i < s.len() ==> pt_lt(spec_swap(e), s[i].key)),
                None => hi == s.len(),
            })
            &&& (match (start, end) {
                (Some(sp), Some(e)) => pt_lt(sp, spec_swap(e)),
                _ => true,
            })
        }),
{
    let lo = ins_lo(s, start);
    let hi = ins_hi(s, end);
    if let (Some(sp), Some(e)) = (start, end) {
        lemma_valid_range_iff(sp, e);
    }
    match start {
        Some(sp) => {
            lemma_count_below_char(s, sp);
            assert forall|i: int| lo <= i < s.len() implies pt_le(sp, #[trigger] s[i].key) by {
                lemma_pt_total(sp, s[i].key);
            }
        }
        None => {}
    }
    match end {
        Some(e) => {
            lemma_count_through_char(s, e);
            assert forall|i: int| hi <= i < s.len() implies pt_lt(spec_swap(e), #[trigger] s[i].key) by {
                lemma_pt_total(spec_swap(e), s[i].key);
            }
        }
        None => {}
    }
    if lo > hi {
        assert(hi < s.len());
        match (start, end) {
            (Some(sp), Some(e)) => {
                assert(pt_lt(s[hi].key, sp));
                assert(pt_lt(spec_swap(e), s[hi].key));
            }
            _ => {}
        }
    }
}

/// In a canonical store, the value the removed run ends with always differs
/// from the value of the first entry kept after it.
pub proof fn lemma_end_val_next(dft: char, s: Seq<Node>, start: Option<Point>, end: Option<Point>)
    requires
        canonical(dft, s),
        spec_valid_range(start, end),
    ensures
        ins_hi(s, end) < s.len() ==> ins_end_val(dft, s, start, end) != s[ins_hi(s, end)].value,
{
    lemma_insert_split_facts(dft, s, start, end);
    let lo = ins_lo(s, start);
    let hi = ins_hi(s, end);
    if hi < s.len() {
        if lo < hi {
            assert(s[hi - 1].value != s[hi].value);
        } else if lo > 0 {
            assert(s[lo - 1].value != s[lo].value);
        }
    }
}

/// Where the entries at or before `p` form a prefix, the value at `p` is the
/// value of that prefix's last entry.
pub proof fn lemma_value_at_split(dft: char, s: Seq<Node>, c: int, p: Point)
    requires
        0 <= c <= s.len(),
        forall|i: int| #![trigger s[i]] 0 <= i < c ==> pt_le(s[i].key, p),
        forall|i: int| #![trigger s[i]] c <= i < s.len() ==> !pt_le(s[i].key, p),
    ensures
        value_at_pos(dft, s, p) == (if c > 0 {
            s[c - 1].value
        } else {
            dft
        }),
{
    let a = s.take(c);
    let b = s.skip(c);
    assert(s =~= a + b);
    lemma_value_at_append(dft, a, b, p);
    assert forall|i: int| 0 <= i < b.len() implies !pt_le(b[i].key, p) by {
        assert(b[i] == s[c + i]);
    }
    lemma_value_at_miss(value_at_pos(dft, a, p), b, p);
    if c > 0 {
        assert(a.last() == s[c - 1]);
    }
}

/// In a sorted store, the value at an entry's own position is that entry's
/// value.
pub proof fn lemma_value_at_own(dft: char, s: Seq<Node>, j: int)
    requires
        sorted(s),
        0 <= j < s.len(),
    ensures
        value_at_pos(dft, s, s[j].key) == s[j].value,
{
    assert forall|i: int| j + 1 <= i < s.len() implies !pt_le(s[i].key, s[j].key) by {
        lemma_pt_total(s[i].key, s[j].key);
    }
    lemma_value_at_split(dft, s, j + 1, s[j].key);
}

/// Reading a one-entry store.
proof fn lemma_value_at_one(d: char, n: Node, p: Point)
    ensures
        value_at_pos(d, seq![n], p) == (if pt_le(n.key, p) {
            n.value
        } else {
            d
        }),
{
    let one = seq![n];
    assert(one.len() == 1 && one.last() == n);
    assert(one.drop_last() =~= Seq::<Node>::empty());
    assert(value_at_pos(d, one.drop_last(), p) == d);
}

/// The reading of a store split at a valid range, before the range: every
/// entry at or above the start point lies strictly above `p`, so both the
/// old and the new store fall through to the unchanged prefix.
#[verifier::rlimit(100)]
proof fn lemma_insert_value_before(dft: char, s: Seq<Node>, start: Option<Point>, end: Option<Point>, v: char, p: Point)
    requires
        canonical(dft, s),
        spec_valid_range(start, end),
        match start {
            Some(sp) => pt_lt(p, sp),
            None => false,
        },
    ensures
        value_at_pos(
            spec_insert_val(dft, start, end, v),
            spec_insert_entries(dft, s, start, end, v),
            p,
        ) == value_at_pos(dft, s, p),
        !pos_in_range(start, end, p),
{
    lemma_insert_split_facts(dft, s, start, end);
    let lo = ins_lo(s, start);
    let hi = ins_hi(s, end);
    let ev = ins_end_val(dft, s, start, end);
    let nv = spec_insert_val(dft, start, end, v);
    let a = s.take(lo);
    let mm = s.subrange(lo, hi);
    let b = s.skip(hi);
    let ms: Seq<Node> = if ins_add_start(dft, s, start, v) {
        seq![Node { key: start.unwrap(), value: v }]
    } else {
        Seq::<Node>::empty()
    };
    let me: Seq<Node> = if ins_add_end(dft, s, start, end, v) {
        seq![Node { key: spec_swap(end.unwrap()), value: ev }]
    } else {
        Seq::<Node>::empty()
    };
    let t = spec_insert_entries(dft, s, start, end, v);
    assert(s =~= (a + mm) + b);
    assert(t =~= ((a + ms) + me) + b);
    assert(forall|i: int| 0 <= i < a.len() ==> a[i] == s[i]);
    assert(forall|i: int| 0 <= i < mm.len() ==> mm[i] == s[lo + i]);
    assert(forall|i: int| 0 <= i < b.len() ==> b[i] == s[hi + i]);
    lemma_value_at_append(dft, a, mm, p);
    lemma_value_at_append(dft, a + mm, b, p);
    lemma_value_at_append(nv, a, ms, p);
    lemma_value_at_append(nv, a + ms, me, p);
    lemma_value_at_append(nv, (a + ms) + me, b, p);
    let va = value_at_pos(dft, a, p);
    let vam = value_at_pos(dft, a + mm, p);
    let w1 = value_at_pos(nv, a, p);
    let w2 = value_at_pos(nv, a + ms, p);
    let w3 = value_at_pos(nv, (a + ms) + me, p);
    if ins_add_start(dft, s, start, v) {
        lemma_value_at_one(w1, ms[0], p);
    }
    if ins_add_end(dft, s, start, end, v) {
        lemma_value_at_one(w2, me[0], p);
    }
    let sp = start.unwrap();
    assert forall|i: int| 0 <= i < mm.len() implies !pt_le(mm[i].key, p) by {
        assert(mm[i] == s[lo + i]);
        lemma_pt_total(mm[i].key, p);
    }
    assert forall|i: int| 0 <= i < b.len() implies !pt_le(b[i].key, p) by {
        assert(b[i] == s[hi + i]);
        match end {
            Some(e) => {
                lemma_pt_total(b[i].key, p);
            }
            None => {}
        }
    }
    lemma_value_at_miss(va, mm, p);
    lemma_value_at_miss(vam, b, p);
    if ins_add_start(dft, s, start, v) {
        assert(!pt_le(ms[0].key, p)) by {
            lemma_pt_total(ms[0].key, p);
        }
    }
    if ins_add_end(dft, s, start, end, v) {
        assert(!pt_le(me[0].key, p)) by {
            lemma_pt_total(me[0].key, p);
        }
    }
    lemma_value_at_miss(w3, b, p);
    assert(!pos_in_range(start, end, p)) by {
        lemma_pt_total(sp, p);
    }
}

/// The reading inside the range: the kept tail and the restored end boundary
/// lie strictly above `p`, so the reading ends at the start boundary, or at
/// the unchanged prefix, whose value then already is `v`.
#[verifier::rlimit(100)]
proof fn lemma_insert_value_inside(dft: char, s: Seq<Node>, start: Option<Point>, end: Option<Point>, v: char, p: Point)
    requires
        canonical(dft, s),
        spec_valid_range(start, end),
        pos_in_range(start, end, p),
    ensures
        value_at_pos(
            spec_insert_val(dft, start, end, v),
            spec_insert_entries(dft, s, start, end, v),
            p,
        ) == v,
{
    lemma_insert_split_facts(dft, s, start, end);
    let lo = ins_lo(s, start);
    let hi = ins_hi(s, end);
    let ev = ins_end_val(dft, s, start, end);
    let nv = spec_insert_val(dft, start, end, v);
    let a = s.take(lo);
    let b = s.skip(hi);
    let ms: Seq<Node> = if ins_add_start(dft, s, start, v) {
        seq![Node { key: start.unwrap(), value: v }]
    } else {
        Seq::<Node>::empty()
    };
    let me: Seq<Node> = if ins_add_end(dft, s, start, end, v) {
        seq![Node { key: spec_swap(end.unwrap()), value: ev }]
    } else {
        Seq::<Node>::empty()
    };
    let t = spec_insert_entries(dft, s, start, end, v);
    assert(t =~= ((a + ms) + me) + b);
    assert(forall|i: int| 0 <= i < a.len() ==> a[i] == s[i]);
    assert(forall|i: int| 0 <= i < b.len() ==> b[i] == s[hi + i]);
    lemma_value_at_append(nv, a, ms, p);
    lemma_value_at_append(nv, a + ms, me, p);
    lemma_value_at_append(nv, (a + ms) + me, b, p);
    let w1 = value_at_pos(nv, a, p);
    let w2 = value_at_pos(nv, a + ms, p);
    let w3 = value_at_pos(nv, (a + ms) + me, p);
    if ins_add_start(dft, s, start, v) {
        lemma_value_at_one(w1, ms[0], p);
    }
    if ins_add_end(dft, s, start, end, v) {
        lemma_value_at_one(w2, me[0], p);
    }
    assert forall|i: int| 0 <= i < b.len() implies !pt_le(b[i].key, p) by {
        assert(b[i] == s[hi + i]);
        match end {
            Some(e) => {
                lemma_pt_total(b[i].key, p);
            }
            None => {}
        }
    }
    lemma_value_at_miss(w3, b, p);
    if ins_add_end(dft, s, start, end, v) {
        assert(!pt_le(me[0].key, p)) by {
            lemma_pt_total(me[0].key, p);
        }
    }
    match start {
        Some(sp) => {
            if ins_add_start(dft, s, start, v) {
                assert(pt_le(ms[0].key, p));
            } else {
                if lo > 0 {
                    assert(a.last() == s[lo - 1]);
                    assert(pt_le(a.last().key, p));
                } else {
                    assert(a.len() == 0);
                }
            }
        }
        None => {
            assert(a.len() == 0);
        }
    }
}

/// The reading at or above the flipped end point: the overwritten region
/// used to end with `ev`, and the new store keeps `ev` in effect there,
/// through the restored boundary or because `v` or the prefix already
/// carries it; further right both readings use the same kept tail.
#[verifier::rlimit(100)]
proof fn lemma_insert_value_after(dft: char, s: Seq<Node>, start: Option<Point>, end: Option<Point>, v: char, p: Point)
    requires
        canonical(dft, s),
        spec_valid_range(start, end),
        match end {
            Some(e) => pt_le(spec_swap(e), p),
            None => false,
        },
    ensures
        value_at_pos(
            spec_insert_val(dft, start, end, v),
            spec_insert_entries(dft, s, start, end, v),
            p,
        ) == value_at_pos(dft, s, p),
{
    lemma_insert_split_facts(dft, s, start, end);
    lemma_end_val_next(dft, s, start, end);
    let lo = ins_lo(s, start);
    let hi = ins_hi(s, end);
    let ev = ins_end_val(dft, s, start, end);
    let pv = ins_prev_val(dft, s, start);
    let nv = spec_insert_val(dft, start, end, v);
    let a = s.take(lo);
    let mm = s.subrange(lo, hi);
    let b = s.skip(hi);
    let ms: Seq<Node> = if ins_add_start(dft, s, start, v) {
        seq![Node { key: start.unwrap(), value: v }]
    } else {
        Seq::<Node>::empty()
    };
    let me: Seq<Node> = if ins_add_end(dft, s, start, end, v) {
        seq![Node { key: spec_swap(end.unwrap()), value: ev }]
    } else {
        Seq::<Node>::empty()
    };
    let t = spec_insert_entries(dft, s, start, end, v);
    assert(s =~= (a + mm) + b);
    assert(t =~= ((a + ms) + me) + b);
    assert(forall|i: int| 0 <= i < a.len() ==> a[i] == s[i]);
    assert(forall|i: int| 0 <= i < mm.len() ==> mm[i] == s[lo + i]);
    assert(forall|i: int| 0 <= i < b.len() ==> b[i] == s[hi + i]);
    lemma_value_at_append(dft, a, mm, p);
    lemma_value_at_append(dft, a + mm, b, p);
    lemma_value_at_append(nv, a, ms, p);
    lemma_value_at_append(nv, a + ms, me, p);
    lemma_value_at_append(nv, (a + ms) + me, b, p);
    let va = value_at_pos(dft, a, p);
    let vam = value_at_pos(dft, a + mm, p);
    let w1 = value_at_pos(nv, a, p);
    let w2 = value_at_pos(nv, a + ms, p);
    let w3 = value_at_pos(nv, (a + ms) + me, p);
    if ins_add_start(dft, s, start, v) {
        lemma_value_at_one(w1, ms[0], p);
    }
    if ins_add_end(dft, s, start, end, v) {
        lemma_value_at_one(w2, me[0], p);
    }
    let e = end.unwrap();
    let limit = spec_swap(e);
    if exists|j: int| hi <= j < s.len() && pt_le(#[trigger] s[j].key, p) {
        let j = choose|j: int| hi <= j < s.len() && pt_le(#[trigger] s[j].key, p);
        assert(b[j - hi] == s[j]);
        assert(exists|i: int| 0 <= i < b.len() && pt_le(#[trigger] b[i].key, p));
        lemma_value_at_hit(vam, w3, b, p);
    } else {
        assert forall|i: int| 0 <= i < b.len() implies !pt_le(b[i].key, p) by {
            assert(b[i] == s[hi + i]);
        }
        lemma_value_at_miss(vam, b, p);
        lemma_value_at_miss(w3, b, p);
        // the old reading ends with `ev`
        if lo < hi {
            assert(mm.last() == s[hi - 1]);
            assert(pt_le(mm.last().key, p));
            assert(vam == ev);
        } else {
            assert(mm.len() == 0);
            if lo > 0 {
                assert(a.last() == s[lo - 1]);
                assert(pt_le(a.last().key, p));
                assert(vam == ev);
            } else {
                assert(vam == ev);
            }
        }
        // and so does the new one
        if ins_add_end(dft, s, start, end, v) {
            assert(pt_le(me[0].key, p));
            assert(w3 == ev);
        } else {
            assert(v == ev);
            if ins_add_start(dft, s, start, v) {
                assert(pt_le(ms[0].key, p));
                assert(w3 == v);
            } else {
                match start {
                    Some(sp) => {
                        if lo > 0 {
                            assert(a.last() == s[lo - 1]);
                            assert(pt_le(a.last().key, p));
                            assert(w3 == pv);
                        } else {
                            assert(w3 == dft);
                        }
                    }
                    None => {
                        assert(w3 == nv);
                    }
                }
            }
        }
    }
}

/// What an overwrite does to every position: inside a valid range the new
/// value is in effect, everywhere else nothing changes.
pub proof fn lemma_spec_insert_value(dft: char, s: Seq<Node>, start: Option<Point>, end: Option<Point>, v: char, p: Point)
    requires
        canonical(dft, s),
    ensures
        value_at_pos(
            spec_insert_val(dft, start, end, v),
            spec_insert_entries(dft, s, start, end, v),
            p,
        ) == (if spec_valid_range(start, end) && pos_in_range(start, end, p) {
            v
        } else {
            value_at_pos(dft, s, p)
        }),
{
    if !spec_valid_range(start, end) {
        return;
    }
    let before_start = match start {
        Some(sp) => pt_lt(p, sp),
        None => false,
    };
    if before_start {
        lemma_insert_value_before(dft, s, start, end, v, p);
    } else if pos_in_range(start, end, p) {
        lemma_insert_value_inside(dft, s, start, end, v, p);
    } else {
        // `p` is not below the start, so it must be at or above the flipped
        // end point
        assert(match end {
            Some(e) => pt_le(spec_swap(e), p),
            None => false,
        }) by {
            match start {
                Some(sp) => {
                    lemma_pt_total(p, sp);
                }
                None => {}
            }
            match end {
                Some(e) => {
                    lemma_pt_total(p, spec_swap(e));
                }
                None => {}
            }
        }
        lemma_insert_value_after(dft, s, start, end, v, p);
        assert(!pos_in_range(start, end, p));
    }
}

/// An overwrite keeps the store canonical: the boundary points still
/// strictly increase and no two adjacent values are equal, the (possibly
/// replaced) default value included.
#[verifier::rlimit(100)]
pub proof fn lemma_spec_insert_canonical(dft: char, s: Seq<Node>, start: Option<Point>, end: Option<Point>, v: char)
    requires
        canonical(dft, s),
    ensures
        canonical(
            spec_insert_val(dft, start, end, v),
            spec_insert_entries(dft, s, start, end, v),
        ),
{
    if !spec_valid_range(start, end) {
        return;
    }
    lemma_insert_split_facts(dft, s, start, end);
    lemma_end_val_next(dft, s, start, end);
    let lo = ins_lo(s, start);
    let hi = ins_hi(s, end);
    let ev = ins_end_val(dft, s, start, end);
    let pv = ins_prev_val(dft, s, start);
    let nv = spec_insert_val(dft, start, end, v);
    let ms: Seq<Node> = if ins_add_start(dft, s, start, v) {
        seq![Node { key: start.unwrap(), value: v }]
    } else {
        Seq::<Node>::empty()
    };
    let me: Seq<Node> = if ins_add_end(dft, s, start, end, v) {
        seq![Node { key: spec_swap(end.unwrap()), value: ev }]
    } else {
        Seq::<Node>::empty()
    };
    let t = spec_insert_entries(dft, s, start, end, v);
    let k = ms.len() + me.len();
    assert(t =~= ((s.take(lo) + ms) + me) + s.skip(hi));
    assert(t.len() == lo + k + (s.len() - hi));
    // where each entry of the new store comes from
    assert(forall|i: int| 0 <= i < lo ==> t[i] == s[i]);
    assert(forall|i: int| #![trigger t[i]] lo + k <= i < t.len() ==> t[i] == s[i - lo - k + hi]);
    assert(ms.len() == 1 ==> t[lo] == ms[0]);
    assert(me.len() == 1 ==> t[lo + ms.len()] == me[0]);

    // the key of every middle entry sits strictly between the prefix and the
    // kept tail
    match (start, end) {
        (Some(sp), Some(e)) => {
            lemma_valid_range_iff(sp, e);
        }
        _ => {}
    }

    // values around the cut
    if start.is_some() && !ins_add_start(dft, s, start, v) {
        assert(v == pv);
    }
    if end.is_some() && !ins_add_end(dft, s, start, end, v) {
        assert(v == ev);
    }

    assert forall|i: int, j: int| 0 <= i < j < t.len() implies pt_lt(t[i].key, t[j].key) by {
        if i < lo {
            assert(t[i] == s[i]);
        } else if i < lo + ms.len() {
            assert(t[i] == ms[0]);
        } else if i < lo + k {
            assert(t[i] == me[0]);
        } else {
            assert(t[i] == s[i - lo - k + hi]);
        }
        if j < lo {
            assert(t[j] == s[j]);
        } else if j < lo + ms.len() {
            assert(t[j] == ms[0]);
        } else if j < lo + k {
            assert(t[j] == me[0]);
        } else {
            assert(t[j] == s[j - lo - k + hi]);
        }
    }
    assert(sorted(t));

    assert forall|i: int| #![trigger t[i]] 0 <= i < t.len() - 1 implies t[i].value != t[i + 1].value by {
        if i + 1 < lo {
            assert(t[i] == s[i] && t[i + 1] == s[i + 1]);
        } else if i >= lo + k {
            assert(t[i] == s[i - lo - k + hi] && t[i + 1] == s[i + 1 - lo - k + hi]);
        } else {
            if i < lo {
                assert(t[i] == s[i]);
            } else if i < lo + ms.len() {
                assert(t[i] == ms[0]);
            } else {
                assert(t[i] == me[0]);
            }
            if i + 1 < lo + ms.len() {
                assert(i + 1 == lo && t[i + 1] == ms[0]);
            } else if i + 1 < lo + k {
                assert(t[i + 1] == me[0]);
            } else {
                assert(t[i + 1] == s[hi + 1 - 1]);
            }
        }
    }
    if t.len() > 0 {
        assert(t[0].value != nv);
    }
    assert(distinct_adjacent(nv, t));
}

/// Whether a point is at or below an optional limit (always, with none).
fn within_limit(p: Point, limit: Option<Point>) -> (r: bool)
    ensures
        r == (match limit {
            None => true,
            Some(l) => pt_le(p, l),
        }),
{
    match limit {
        None => true,
        Some(l) => point_le(p, l),
    }
}

// ---------------------------------------------------------------------------
// Sortedness from adjacent pairs.
// ---------------------------------------------------------------------------

proof fn lemma_pt_chain(s: Seq<Node>, i: int, j: int)
    requires
        forall|k: int| #![trigger s[k]] 0 <= k < s.len() - 1 ==> pt_lt(s[k].key, s[k + 1].key),
        0 <= i < j < s.len(),
    ensures
        pt_lt(s[i].key, s[j].key),
    decreases j - i,
{
    if j > i + 1 {
        lemma_pt_chain(s, i, j - 1);
    }
}

/// A store whose adjacent points strictly increase is sorted throughout.
pub proof fn lemma_sorted_from_adjacent(s: Seq<Node>)
    requires
        forall|k: int| #![trigger s[k]] 0 <= k < s.len() - 1 ==> pt_lt(s[k].key, s[k + 1].key),
    ensures
        sorted(s),
{
    assert forall|i: int, j: int| 0 <= i < j < s.len() implies pt_lt(s[i].key, s[j].key) by {
        lemma_pt_chain(s, i, j);
    }
}

} // verus!
