//! Laws of the canonical range map that relate several operations, proved
//! over the same model the operations' contracts use.

use vstd::prelude::*;
use crate::bound::{Point, pt_lt, pt_le, spec_swap, spec_valid_range, lemma_valid_range_iff, lemma_pt_total};
use crate::node::Node;
use crate::rangemap::{canonical, value_at_pos, pos_in_range, key_in_range, lemma_key_in_range_iff, ins_lo, ins_hi, ins_end_val, ins_prev_val, ins_add_start, ins_add_end, spec_insert_entries, spec_insert_val, lemma_insert_split_facts, lemma_end_val_next, lemma_value_at_split, lemma_value_at_own, lemma_spec_insert_canonical, lemma_spec_insert_value};

verus! {

/// Overwriting a range with the value already uniformly in effect over it
/// changes nothing: no boundary entry appears, disappears or moves, and the
/// default value stays.  For a left-unbounded range this is stated when that
/// uniform value is the default value itself, which such a range overwrites.
#[verifier::rlimit(100)]
pub proof fn lemma_insert_redundant_noop(dft: char, s: Seq<Node>, start: Option<Point>, end: Option<Point>, v: char)
    requires
        canonical(dft, s),
        spec_valid_range(start, end),
        forall|p: Point| #[trigger] pos_in_range(start, end, p) ==> value_at_pos(dft, s, p) == v,
        start.is_some() || dft == v,
    ensures
        spec_insert_entries(dft, s, start, end, v) == s,
        spec_insert_val(dft, start, end, v) == dft,
{
    lemma_insert_split_facts(dft, s, start, end);
    lemma_end_val_next(dft, s, start, end);
    if let (Some(sp), Some(e)) = (start, end) {
        lemma_valid_range_iff(sp, e);
    }
    let lo = ins_lo(s, start);
    let hi = ins_hi(s, end);
    let ev = ins_end_val(dft, s, start, end);
    let pv = ins_prev_val(dft, s, start);

    // Every block entry strictly inside the range carries `v`: the map holds
    // `v` at its own position.
    assert forall|j: int|
        lo <= j < hi && (match end {
            None => true,
            Some(e) => pt_lt(s[j].key, spec_swap(e)),
        }) implies s[j].value == v by {
        lemma_value_at_own(dft, s, j);
        assert(pos_in_range(start, end, s[j].key));
    }

    // If the first block entry lay strictly inside the range, its value `v`
    // would equal its left neighbour's value — impossible in canonical form —
    // unless the insert puts a boundary at the start, in which case that
    // entry is the start boundary itself.
    if ins_add_start(dft, s, start, v) {
        let sp = start.unwrap();
        assert(pos_in_range(start, end, sp));
        if lo == s.len() || s[lo].key != sp {
            assert forall|i: int| lo <= i < s.len() implies !pt_le(#[trigger] s[i].key, sp) by {
                lemma_pt_total(s[i].key, sp);
                lemma_pt_total(s[lo].key, sp);
            }
            lemma_value_at_split(dft, s, lo, sp);
            assert(false);
        }
        assert(lo < s.len() && s[lo].key == sp);
        assert(lo < hi) by {
            match end {
                Some(e) => {
                    assert(pt_le(s[lo].key, spec_swap(e)));
                }
                None => {}
            }
        }
        lemma_value_at_own(dft, s, lo);
        assert(s[lo].value == v);
    } else if lo < hi {
        // without a start boundary the first block entry must sit exactly at
        // the flipped end point
        if (match end {
            None => true,
            Some(e) => pt_lt(s[lo].key, spec_swap(e)),
        }) {
            assert(s[lo].value == v);
            if lo > 0 {
                assert(s[lo - 1].value == pv);
            }
            assert(false);
        }
    }

    // No later block entry lies strictly inside the range either: its left
    // neighbour would share its value `v`.
    assert forall|j: int| #![trigger s[j]]
        lo + 1 <= j < hi implies (match end {
            None => false,
            Some(e) => s[j].key == spec_swap(e),
        }) by {
        if (match end {
            None => true,
            Some(e) => pt_lt(s[j].key, spec_swap(e)),
        }) {
            assert(s[j].value == v);
            assert(pt_lt(s[j - 1].key, s[j].key));
            assert(s[j - 1].value == v);
            assert(false);
        }
        match end {
            Some(e) => {
                assert(pt_le(s[j].key, spec_swap(e)));
                lemma_pt_total(s[j].key, spec_swap(e));
            }
            None => {}
        }
    }

    // So the block holds at most the start boundary and at most one entry at
    // the flipped end point.
    if lo + 2 < hi {
        assert(s[lo + 1].key == s[lo + 2].key);
        assert(pt_lt(s[lo + 1].key, s[lo + 2].key));
        assert(false);
    }
    if !ins_add_start(dft, s, start, v) && lo + 1 < hi {
        assert(s[lo].key == s[lo + 1].key);
        assert(false);
    }

    // Walk the four shapes the block can have; in each the insert rebuilds
    // exactly what it removed.
    let t = spec_insert_entries(dft, s, start, end, v);
    if ins_add_start(dft, s, start, v) {
        if hi == lo + 1 {
            assert(ev == v);
            assert(!ins_add_end(dft, s, start, end, v));
            assert(t =~= s);
        } else {
            assert(hi == lo + 2);
            let w = s[lo + 1].value;
            assert(ev == w);
            assert(w != v);
            assert(ins_add_end(dft, s, start, end, v));
            assert(end.is_some() && s[lo + 1].key == spec_swap(end.unwrap()));
            assert(t[lo + 1] == s[lo + 1]);
            assert(t =~= s);
        }
    } else {
        if hi == lo {
            assert(ev == pv);
            if start.is_some() {
                assert(v == pv);
            }
            assert(!ins_add_end(dft, s, start, end, v));
            assert(t =~= s);
        } else {
            assert(hi == lo + 1);
            let w = s[lo].value;
            assert(ev == w);
            assert(end.is_some() && s[lo].key == spec_swap(end.unwrap()));
            if start.is_some() {
                assert(v == pv);
            }
            assert(w != v);
            assert(ins_add_end(dft, s, start, end, v));
            assert(t[lo] == s[lo]);
            assert(t =~= s);
        }
    }
}

/// Last write wins: after an overwrite, every key inside the (valid) range
/// reads the written value, and every key outside it reads exactly what it
/// read before.  Applied after each insert of a sequence, this says that a
/// key reads the value of the most recent insert whose range contains it, or
/// the default value if none does.
pub proof fn lemma_last_write_wins(dft: char, s: Seq<Node>, start: Option<Point>, end: Option<Point>, v: char, k: i32)
    requires
        canonical(dft, s),
    ensures
        value_at_pos(
            spec_insert_val(dft, start, end, v),
            spec_insert_entries(dft, s, start, end, v),
            Point::Included(k),
        ) == (if spec_valid_range(start, end) && key_in_range(start, end, k) {
            v
        } else {
            value_at_pos(dft, s, Point::Included(k))
        }),
{
    lemma_key_in_range_iff(start, end, k);
    lemma_spec_insert_value(dft, s, start, end, v, Point::Included(k));
}

/// A redundant insert over any non-empty range creates no new boundary
/// entry: every entry of the result already stood in the store, and their
/// number does not grow.  (A left-unbounded redundant insert over a map
/// whose default value differs from the inserted one may still fold the
/// entry at the lowest position into the replaced default; everything else
/// is the exact no-op of `lemma_insert_redundant_noop`.)
pub proof fn lemma_insert_redundant_no_new_entries(dft: char, s: Seq<Node>, start: Option<Point>, end: Option<Point>, v: char)
    requires
        canonical(dft, s),
        spec_valid_range(start, end),
        exists|p: Point| #[trigger] pos_in_range(start, end, p),
        forall|p: Point| #[trigger] pos_in_range(start, end, p) ==> value_at_pos(dft, s, p) == v,
    ensures
        spec_insert_entries(dft, s, start, end, v).len() <= s.len(),
        forall|i: int| 0 <= i < spec_insert_entries(dft, s, start, end, v).len()
            ==> s.contains(#[trigger] spec_insert_entries(dft, s, start, end, v)[i]),
{
    let t = spec_insert_entries(dft, s, start, end, v);
    if start.is_some() || dft == v {
        lemma_insert_redundant_noop(dft, s, start, end, v);
        assert forall|i: int| 0 <= i < t.len() implies s.contains(t[i]) by {
            assert(s[i] == t[i]);
        }
        return;
    }
    // A left-unbounded overwrite whose value differs from the default: the
    // boundary it might restore at the range's end is an entry the store
    // already held there.
    lemma_insert_split_facts(dft, s, start, end);
    lemma_end_val_next(dft, s, start, end);
    let hi = ins_hi(s, end);
    let ev = ins_end_val(dft, s, start, end);
    match end {
        None => {
            assert(t =~= Seq::<Node>::empty());
        }
        Some(e) => {
            let limit = spec_swap(e);
            if hi == 0 {
                // then nothing lies at or below the limit, and the range
                // would show the default value — against the hypothesis
                let p = choose|p: Point| #[trigger] pos_in_range(start, end, p);
                assert forall|i: int| 0 <= i < s.len() implies !pt_le(#[trigger] s[i].key, p) by {
                    if pt_le(s[i].key, p) {
                        assert(pt_le(s[i].key, limit));
                    }
                }
                lemma_value_at_split(dft, s, 0, p);
                assert(false);
            }
            if pt_lt(s[hi - 1].key, limit) {
                // the run's last entry lies strictly inside the range, so it
                // carries `v` and no end boundary is needed
                lemma_value_at_own(dft, s, hi - 1);
                assert(pos_in_range(start, end, s[hi - 1].key));
                assert(ev == v);
                assert(!ins_add_end(dft, s, start, end, v));
                assert(t =~= s.skip(hi));
                assert forall|i: int| 0 <= i < t.len() implies s.contains(t[i]) by {
                    assert(s[hi + i] == t[i]);
                }
            } else {
                // the run ends exactly at the limit; a restored boundary is
                // that entry over again
                assert(pt_le(s[hi - 1].key, limit));
                assert(s[hi - 1].key == limit);
                if ins_add_end(dft, s, start, end, v) {
                    assert(ev == s[hi - 1].value);
                    assert(t =~= seq![s[hi - 1]] + s.skip(hi));
                    assert forall|i: int| 0 <= i < t.len() implies s.contains(t[i]) by {
                        if i == 0 {
                            assert(s[hi - 1] == t[i]);
                        } else {
                            assert(s[hi + i - 1] == t[i]);
                        }
                    }
                } else {
                    assert(t =~= s.skip(hi));
                    assert forall|i: int| 0 <= i < t.len() implies s.contains(t[i]) by {
                        assert(s[hi + i] == t[i]);
                    }
                }
            }
        }
    }
}

/// Inserting the same range with the same value twice yields exactly the
/// structure that inserting it once yields: after the first insert the value
/// is already uniformly in effect over the range, so the second changes
/// nothing.
pub proof fn lemma_insert_idempotent(dft: char, s: Seq<Node>, start: Option<Point>, end: Option<Point>, v: char)
    requires
        canonical(dft, s),
    ensures
        spec_insert_entries(
            spec_insert_val(dft, start, end, v),
            spec_insert_entries(dft, s, start, end, v),
            start,
            end,
            v,
        ) == spec_insert_entries(dft, s, start, end, v),
        spec_insert_val(spec_insert_val(dft, start, end, v), start, end, v)
            == spec_insert_val(dft, start, end, v),
{
    if !spec_valid_range(start, end) {
        return;
    }
    lemma_spec_insert_canonical(dft, s, start, end, v);
    let dft1 = spec_insert_val(dft, start, end, v);
    let s1 = spec_insert_entries(dft, s, start, end, v);
    assert forall|p: Point| #[trigger] pos_in_range(start, end, p) implies value_at_pos(dft1, s1, p) == v by {
        lemma_spec_insert_value(dft, s, start, end, v, p);
    }
    lemma_insert_redundant_noop(dft1, s1, start, end, v);
}

} // verus!
