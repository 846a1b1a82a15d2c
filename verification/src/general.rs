//! Range lists over the full `i32` domain.
//!
//! The merge turns every range into two boundary events, keeps them sorted
//! with starts before ends at equal coordinates, and sweeps the sorted
//! events. The tie-break is load-bearing: a range opening where another
//! closes keeps the sweep open, so touching ranges fuse.

use vstd::prelude::*;

use crate::text::{
    all_digits, digits_val, first_where, fmt_nat, is_digit, lemma_first_where_is,
    lemma_fmt_nat, lemma_split_first, lemma_split_len,
    lemma_trim_end_idx_is, lemma_trim_leading_space, msg_bad_format, msg_too_large,
    msg_too_small, nat_str, non_digit_pred, non_space_pred, parse_mag, scan_comma,
    scan_non_digit, spec_trim, split_at_commas, trim_str,
};

verus! {

/// A closed span of `i32` values: it covers the points `start..=end`.
#[derive(Clone, Copy, PartialEq, Eq, Structural, Debug)]
pub struct Range {
    pub start: i32,
    pub end: i32,
}

/// An ordered collection of ranges: insertion order before a merge, sorted
/// and disjoint after.
#[derive(Debug)]
pub struct RangeVec {
    pub ranges: Vec<Range>,
}

impl View for RangeVec {
    type V = Seq<Range>;

    open spec fn view(&self) -> Seq<Range> {
        self.ranges@
    }
}

/// Which boundary of a range an event marks.
#[derive(Clone, Copy, PartialEq, Eq, Structural, Debug)]
pub enum RangePart {
    Start,
    End,
}

/// Every range runs forward: `start <= end`.
pub open spec fn wf(rs: Seq<Range>) -> bool {
    forall|i: int| 0 <= i < rs.len() ==> #[trigger] rs[i].start <= rs[i].end
}

/// Point `p`, on the doubled axis, lies in the closed span of some range.
///
/// A range covers the doubled points `2*start ..= 2*end`: even points stand
/// for the integers themselves, odd points for the space between two
/// neighbouring integers. Ranges that merely touch share a point, while
/// ranges a full integer apart leave an odd point uncovered between them.
pub open spec fn covers(rs: Seq<Range>, p: int) -> bool {
    exists|i: int| 0 <= i < rs.len() && #[trigger] (2 * rs[i].start) <= p <= 2 * rs[i].end
}

/// Sorted ascending with a gap between neighbours; spans may be single points.
pub open spec fn merged(rs: Seq<Range>) -> bool {
    &&& wf(rs)
    &&& forall|i: int| 0 <= i < rs.len() - 1 ==> #[trigger] rs[i].end < rs[i + 1].start
}

/// The order of the event sweep: ascending coordinate, `Start` before `End`
/// at equal coordinates.
pub open spec fn ev_le(a: (i32, RangePart), b: (i32, RangePart)) -> bool {
    a.0 < b.0 || (a.0 == b.0 && (a.1 is Start || b.1 is End))
}

pub open spec fn ev_sorted(es: Seq<(i32, RangePart)>) -> bool {
    forall|i: int, j: int| 0 <= i < j < es.len() ==> ev_le(#[trigger] es[i], #[trigger] es[j])
}

spec fn n_start_le(rs: Seq<Range>, x: int) -> int
    decreases rs.len(),
{
    if rs.len() == 0 {
        0
    } else {
        n_start_le(rs.drop_last(), x) + if rs.last().start <= x {
            1int
        } else {
            0int
        }
    }
}

spec fn n_end_le(rs: Seq<Range>, x: int) -> int
    decreases rs.len(),
{
    if rs.len() == 0 {
        0
    } else {
        n_end_le(rs.drop_last(), x) + if rs.last().end <= x {
            1int
        } else {
            0int
        }
    }
}

/// Number of ranges whose doubled span contains `p`.
spec fn cov_count(rs: Seq<Range>, p: int) -> int
    decreases rs.len(),
{
    if rs.len() == 0 {
        0
    } else {
        cov_count(rs.drop_last(), p) + if 2 * rs.last().start <= p <= 2 * rs.last().end {
            1int
        } else {
            0int
        }
    }
}

spec fn ev_start_le(es: Seq<(i32, RangePart)>, x: int) -> int
    decreases es.len(),
{
    if es.len() == 0 {
        0
    } else {
        ev_start_le(es.drop_last(), x) + if es.last().1 is Start && es.last().0 <= x {
            1int
        } else {
            0int
        }
    }
}

spec fn ev_end_le(es: Seq<(i32, RangePart)>, x: int) -> int
    decreases es.len(),
{
    if es.len() == 0 {
        0
    } else {
        ev_end_le(es.drop_last(), x) + if es.last().1 is End && es.last().0 <= x {
            1int
        } else {
            0int
        }
    }
}

spec fn ev_starts(es: Seq<(i32, RangePart)>) -> int
    decreases es.len(),
{
    if es.len() == 0 {
        0
    } else {
        ev_starts(es.drop_last()) + if es.last().1 is Start {
            1int
        } else {
            0int
        }
    }
}

spec fn ev_ends(es: Seq<(i32, RangePart)>) -> int
    decreases es.len(),
{
    if es.len() == 0 {
        0
    } else {
        ev_ends(es.drop_last()) + if es.last().1 is End {
            1int
        } else {
            0int
        }
    }
}

proof fn lemma_cov_decompose(rs: Seq<Range>, x: int)
    requires
        wf(rs),
    ensures
        cov_count(rs, 2 * x) == n_start_le(rs, x) - n_end_le(rs, x - 1),
        cov_count(rs, 2 * x + 1) == n_start_le(rs, x) - n_end_le(rs, x),
    decreases rs.len(),
{
    if rs.len() > 0 {
        assert(wf(rs.drop_last())) by {
            assert(forall|i: int|
                0 <= i < rs.len() - 1 ==> #[trigger] rs.drop_last()[i] == rs[i]);
        }
        lemma_cov_decompose(rs.drop_last(), x);
        assert(rs[rs.len() - 1].start <= rs[rs.len() - 1].end);
    }
}

proof fn lemma_cov_bounds(rs: Seq<Range>, p: int)
    ensures
        0 <= cov_count(rs, p) <= rs.len(),
        cov_count(rs, p) > 0 <==> covers(rs, p),
    decreases rs.len(),
{
    if rs.len() > 0 {
        lemma_cov_bounds(rs.drop_last(), p);
        let last = rs[rs.len() - 1];
        if 2 * last.start <= p <= 2 * last.end {
            assert(covers(rs, p));
        }
        if cov_count(rs, p) > 0 && !(2 * last.start <= p <= 2 * last.end) {
            let i = choose|i: int|
                0 <= i < rs.drop_last().len() && #[trigger] (2 * rs.drop_last()[i].start) <= p <= 2
                    * rs.drop_last()[i].end;
            assert(rs[i] == rs.drop_last()[i]);
            assert(covers(rs, p));
        }
        if covers(rs, p) && !(2 * last.start <= p <= 2 * last.end) {
            let i = choose|i: int|
                0 <= i < rs.len() && #[trigger] (2 * rs[i].start) <= p <= 2 * rs[i].end;
            assert(rs.drop_last()[i] == rs[i]);
            assert(covers(rs.drop_last(), p));
        }
    }
}

proof fn lemma_ends_le_starts(rs: Seq<Range>, x: int)
    requires
        wf(rs),
    ensures
        n_end_le(rs, x) <= n_start_le(rs, x),
    decreases rs.len(),
{
    if rs.len() > 0 {
        assert(wf(rs.drop_last())) by {
            assert(forall|i: int|
                0 <= i < rs.len() - 1 ==> #[trigger] rs.drop_last()[i] == rs[i]);
        }
        lemma_ends_le_starts(rs.drop_last(), x);
        assert(rs[rs.len() - 1].start <= rs[rs.len() - 1].end);
    }
}

proof fn lemma_n_le_mono(rs: Seq<Range>, x: int, y: int)
    requires
        x <= y,
    ensures
        n_start_le(rs, x) <= n_start_le(rs, y),
        n_end_le(rs, x) <= n_end_le(rs, y),
        0 <= n_start_le(rs, x) <= rs.len(),
        0 <= n_end_le(rs, x) <= rs.len(),
    decreases rs.len(),
{
    if rs.len() > 0 {
        lemma_n_le_mono(rs.drop_last(), x, y);
    }
}

proof fn lemma_ev_bounds(es: Seq<(i32, RangePart)>, x: int)
    ensures
        0 <= ev_start_le(es, x) <= ev_starts(es) <= es.len(),
        0 <= ev_end_le(es, x) <= ev_ends(es) <= es.len(),
        ev_starts(es) + ev_ends(es) == es.len(),
    decreases es.len(),
{
    if es.len() > 0 {
        lemma_ev_bounds(es.drop_last(), x);
    }
}

/// The four event counts split over a prefix and the matching suffix.
proof fn lemma_ev_split(es: Seq<(i32, RangePart)>, k: int, x: int)
    requires
        0 <= k <= es.len(),
    ensures
        ev_start_le(es, x) == ev_start_le(es.take(k), x) + ev_start_le(es.skip(k), x),
        ev_end_le(es, x) == ev_end_le(es.take(k), x) + ev_end_le(es.skip(k), x),
        ev_starts(es) == ev_starts(es.take(k)) + ev_starts(es.skip(k)),
        ev_ends(es) == ev_ends(es.take(k)) + ev_ends(es.skip(k)),
    decreases es.len(),
{
    if k == es.len() {
        assert(es.take(k) =~= es);
        assert(es.skip(k) =~= Seq::<(i32, RangePart)>::empty());
    } else if es.len() > 0 {
        assert(es.drop_last().take(k) =~= es.take(k));
        assert(es.drop_last().skip(k) =~= es.skip(k).drop_last());
        assert(es.skip(k).last() == es.last());
        lemma_ev_split(es.drop_last(), k, x);
    }
}

/// Pointwise descriptions of the events pin the counts down.
proof fn lemma_ev_pointwise(es: Seq<(i32, RangePart)>, x: int)
    ensures
        (forall|j: int| 0 <= j < es.len() ==> ((#[trigger] es[j]).1 is End ==> es[j].0 <= x))
            ==> ev_ends(es) == ev_end_le(es, x),
        (forall|j: int| 0 <= j < es.len() ==> ((#[trigger] es[j]).1 is End ==> es[j].0 > x))
            ==> ev_end_le(es, x) == 0,
        (forall|j: int| 0 <= j < es.len() ==> ((#[trigger] es[j]).1 is Start ==> es[j].0 <= x))
            ==> ev_starts(es) == ev_start_le(es, x),
        (forall|j: int| 0 <= j < es.len() ==> ((#[trigger] es[j]).1 is Start ==> es[j].0 > x))
            ==> ev_start_le(es, x) == 0,
    decreases es.len(),
{
    if es.len() > 0 {
        assert(forall|j: int| 0 <= j < es.len() - 1 ==> #[trigger] es.drop_last()[j] == es[j]);
        assert(es[es.len() - 1] == es.last());
        lemma_ev_pointwise(es.drop_last(), x);
    }
}

proof fn lemma_ev_member(es: Seq<(i32, RangePart)>, i: int, x: int)
    requires
        0 <= i < es.len(),
    ensures
        es[i].1 is Start && es[i].0 <= x ==> ev_start_le(es, x) >= 1,
        es[i].1 is End && es[i].0 <= x ==> ev_end_le(es, x) >= 1,
    decreases es.len(),
{
    lemma_ev_bounds(es, x);
    if es.len() > 0 {
        if i < es.len() - 1 {
            assert(es.drop_last()[i] == es[i]);
            lemma_ev_member(es.drop_last(), i, x);
            lemma_ev_bounds(es.drop_last(), x);
        } else {
            assert(es[i] == es.last());
            lemma_ev_bounds(es.drop_last(), x);
        }
    }
}

/// Inserting an event adjusts every count by that event's contribution.
proof fn lemma_ev_insert(es: Seq<(i32, RangePart)>, i: int, e: (i32, RangePart), x: int)
    requires
        0 <= i <= es.len(),
    ensures
        ev_start_le(es.insert(i, e), x) == ev_start_le(es, x) + if e.1 is Start && e.0 <= x {
            1int
        } else {
            0int
        },
        ev_end_le(es.insert(i, e), x) == ev_end_le(es, x) + if e.1 is End && e.0 <= x {
            1int
        } else {
            0int
        },
        ev_starts(es.insert(i, e)) == ev_starts(es) + if e.1 is Start {
            1int
        } else {
            0int
        },
        ev_ends(es.insert(i, e)) == ev_ends(es) + if e.1 is End {
            1int
        } else {
            0int
        },
    decreases es.len(),
{
    if i == es.len() {
        assert(es.insert(i, e).drop_last() =~= es);
        assert(es.insert(i, e).last() == e);
    } else {
        assert(es.insert(i, e).drop_last() =~= es.drop_last().insert(i, e));
        assert(es.insert(i, e).last() == es.last());
        lemma_ev_insert(es.drop_last(), i, e, x);
    }
}

/// Counts of an interval empty of boundaries do not move.
proof fn lemma_ev_interval(es: Seq<(i32, RangePart)>, a: int, b: int)
    requires
        a <= b,
    ensures
        (forall|j: int|
            0 <= j < es.len() ==> ((#[trigger] es[j]).1 is Start ==> !(a < es[j].0 <= b))) ==> ev_start_le(
            es,
            b,
        ) == ev_start_le(es, a),
        (forall|j: int|
            0 <= j < es.len() ==> ((#[trigger] es[j]).1 is End ==> !(a < es[j].0 <= b))) ==> ev_end_le(
            es,
            b,
        ) == ev_end_le(es, a),
    decreases es.len(),
{
    if es.len() > 0 {
        assert(forall|j: int| 0 <= j < es.len() - 1 ==> #[trigger] es.drop_last()[j] == es[j]);
        assert(es[es.len() - 1] == es.last());
        lemma_ev_interval(es.drop_last(), a, b);
    }
}

/// What the sweep knows from a pivot event of a sorted sequence: the counts
/// of the strict prefix, bracketed by threshold counts of the whole.
proof fn lemma_pivot(es: Seq<(i32, RangePart)>, k: int)
    requires
        ev_sorted(es),
        0 <= k < es.len(),
    ensures
        es[k].1 is Start ==> ev_ends(es.take(k)) == ev_end_le(es, es[k].0 - 1),
        es[k].1 is Start ==> ev_start_le(es, es[k].0 - 1) <= ev_starts(es.take(k)) <= ev_start_le(
            es,
            es[k].0 as int,
        ) - 1,
        es[k].1 is End ==> ev_starts(es.take(k)) == ev_start_le(es, es[k].0 as int),
        es[k].1 is End ==> ev_end_le(es, es[k].0 - 1) <= ev_ends(es.take(k)) <= ev_end_le(
            es,
            es[k].0 as int,
        ) - 1,
{
    let v = es[k].0 as int;
    let t = es.take(k);
    let s = es.skip(k);
    assert(forall|j: int| 0 <= j < t.len() ==> #[trigger] t[j] == es[j]);
    assert(forall|j: int| 0 <= j < s.len() ==> #[trigger] s[j] == es[k + j]);
    assert(forall|j: int| 0 <= j < t.len() ==> ev_le(#[trigger] es[j], es[k]));
    assert(forall|j: int| 0 < j < s.len() ==> ev_le(es[k], #[trigger] es[k + j]));
    lemma_ev_split(es, k, v - 1);
    lemma_ev_split(es, k, v);
    lemma_ev_pointwise(t, v - 1);
    lemma_ev_pointwise(t, v);
    lemma_ev_pointwise(s, v - 1);
    lemma_ev_bounds(t, v - 1);
    lemma_ev_bounds(s, v);
    lemma_ev_member(s, 0, v);
    if es[k].1 is Start {
        // ends in the prefix lie at or below v - 1; none in the suffix do
        assert(forall|j: int|
            0 <= j < t.len() ==> ((#[trigger] t[j]).1 is End ==> t[j].0 <= v - 1));
        assert(forall|j: int| 0 <= j < s.len() ==> ((#[trigger] s[j]).1 is End ==> s[j].0 > v - 1));
        assert(ev_ends(t) == ev_end_le(t, v - 1));
        assert(ev_end_le(s, v - 1) == 0);
        // starts in the prefix lie at or below v; none at or below v - 1 sit in the suffix
        assert(forall|j: int|
            0 <= j < t.len() ==> ((#[trigger] t[j]).1 is Start ==> t[j].0 <= v));
        assert(forall|j: int|
            0 <= j < s.len() ==> ((#[trigger] s[j]).1 is Start ==> s[j].0 > v - 1));
        assert(ev_starts(t) == ev_start_le(t, v));
        assert(ev_start_le(s, v - 1) == 0);
        assert(ev_start_le(s, v) >= 1);
    } else {
        assert(forall|j: int|
            0 <= j < t.len() ==> ((#[trigger] t[j]).1 is Start ==> t[j].0 <= v));
        assert(forall|j: int| 0 <= j < s.len() ==> ((#[trigger] s[j]).1 is Start ==> s[j].0 > v));
        lemma_ev_pointwise(s, v);
        assert(ev_starts(t) == ev_start_le(t, v));
        assert(ev_start_le(s, v) == 0);
        assert(forall|j: int|
            0 <= j < t.len() ==> ((#[trigger] t[j]).1 is End ==> t[j].0 <= v));
        assert(forall|j: int| 0 <= j < s.len() ==> ((#[trigger] s[j]).1 is End ==> s[j].0 > v - 1));
        lemma_ev_pointwise(t, v);
        assert(ev_ends(t) == ev_end_le(t, v));
        assert(ev_end_le(s, v - 1) == 0);
        assert(ev_end_le(s, v) >= 1);
        lemma_ev_split(es, k, v);
    }
}

/// Between two neighbouring events at distinct coordinates no boundary
/// falls, so the threshold counts of the ranges do not move across the gap.
proof fn lemma_gap(es: Seq<(i32, RangePart)>, rs: Seq<Range>, k: int)
    requires
        ev_sorted(es),
        0 <= k < es.len() - 1,
        es[k].0 < es[k + 1].0,
        forall|x: int| ev_start_le(es, x) == n_start_le(rs, x),
        forall|x: int| ev_end_le(es, x) == n_end_le(rs, x),
    ensures
        n_start_le(rs, es[k + 1].0 - 1) == n_start_le(rs, es[k].0 as int),
        es[k + 1].1 is End ==> n_start_le(rs, es[k + 1].0 as int) == n_start_le(
            rs,
            es[k].0 as int,
        ),
        es[k].1 is Start ==> n_end_le(rs, es[k + 1].0 - 1) == n_end_le(rs, es[k].0 - 1),
        es[k].1 is End ==> n_end_le(rs, es[k + 1].0 - 1) == n_end_le(rs, es[k].0 as int),
{
    let v = es[k].0 as int;
    let w = es[k + 1].0 as int;
    assert(forall|j: int| 0 <= j <= k ==> ev_le(#[trigger] es[j], es[k]) || j == k);
    assert(forall|j: int| k + 1 <= j < es.len() ==> ev_le(es[k + 1], #[trigger] es[j]) || j == k
        + 1);
    assert forall|j: int|
        0 <= j < es.len() implies ((#[trigger] es[j]).1 is Start ==> !(v < es[j].0 <= w - 1)) by {
        if j <= k {
            assert(es[j].0 <= v);
        } else {
            assert(es[j].0 >= w);
        }
    }
    lemma_ev_interval(es, v, w - 1);
    if es[k + 1].1 is End {
        assert forall|j: int|
            0 <= j < es.len() implies ((#[trigger] es[j]).1 is Start ==> !(v < es[j].0 <= w)) by {
            if j <= k {
                assert(es[j].0 <= v);
            } else if j == k + 1 {
            } else {
                assert(ev_le(es[k + 1], es[j]));
            }
        }
        lemma_ev_interval(es, v, w);
    }
    if es[k].1 is Start {
        assert forall|j: int|
            0 <= j < es.len() implies ((#[trigger] es[j]).1 is End ==> !(v - 1 < es[j].0 <= w
                - 1)) by {
            if j < k {
                assert(ev_le(es[j], es[k]));
            } else if j == k {
            } else {
                assert(es[j].0 >= w);
            }
        }
        lemma_ev_interval(es, v - 1, w - 1);
    } else {
        assert forall|j: int|
            0 <= j < es.len() implies ((#[trigger] es[j]).1 is End ==> !(v < es[j].0 <= w - 1)) by {
            if j <= k {
                assert(es[j].0 <= v);
            } else {
                assert(es[j].0 >= w);
            }
        }
        lemma_ev_interval(es, v, w - 1);
    }
}

fn ev_le_exec(a: (i32, RangePart), b: (i32, RangePart)) -> (r: bool)
    ensures
        r == ev_le(a, b),
{
    if a.0 < b.0 {
        true
    } else if a.0 == b.0 {
        match a.1 {
            RangePart::Start => true,
            RangePart::End => match b.1 {
                RangePart::End => true,
                RangePart::Start => false,
            },
        }
    } else {
        false
    }
}

/// Insert one event at its place in the sorted event list.
fn insert_event(t: &mut Vec<(i32, RangePart)>, e: (i32, RangePart))
    requires
        ev_sorted(old(t)@),
    ensures
        ev_sorted(final(t)@),
        final(t)@.len() == old(t)@.len() + 1,
        forall|x: int|
            ev_start_le(final(t)@, x) == ev_start_le(old(t)@, x) + (if e.1 is Start && e.0 <= x {
                1int
            } else {
                0int
            }),
        forall|x: int|
            ev_end_le(final(t)@, x) == ev_end_le(old(t)@, x) + (if e.1 is End && e.0 <= x {
                1int
            } else {
                0int
            }),
        ev_starts(final(t)@) == ev_starts(old(t)@) + (if e.1 is Start {
            1int
        } else {
            0int
        }),
        ev_ends(final(t)@) == ev_ends(old(t)@) + (if e.1 is End {
            1int
        } else {
            0int
        }),
{
    let n = t.len();
    let mut i: usize = 0;
    while i < n && ev_le_exec(t[i], e)
        invariant
            i <= n,
            n == t@.len(),
            t@ == old(t)@,
            forall|j: int| 0 <= j < i ==> ev_le(#[trigger] t@[j], e),
        decreases n - i,
    {
        i += 1;
    }
    let ghost t0 = t@;
    t.insert(i, e);
    proof {
        assert(t@ =~= t0.insert(i as int, e));
        assert forall|p: int, q: int| 0 <= p < q < t@.len() implies ev_le(
            #[trigger] t@[p],
            #[trigger] t@[q],
        ) by {
            if q < i {
                assert(t@[p] == t0[p] && t@[q] == t0[q]);
            } else if q == i {
                assert(t@[p] == t0[p]);
                assert(ev_le(t0[p], e));
            } else if p < i {
                assert(t@[p] == t0[p] && t@[q] == t0[q - 1]);
                if p == q - 1 {
                } else {
                    assert(ev_le(t0[p], t0[q - 1]));
                }
            } else if p == i {
                assert(t@[q] == t0[q - 1]);
                assert(i < n);
                assert(!ev_le(t0[i as int], e));
                if i as int == q - 1 {
                } else {
                    assert(ev_le(t0[i as int], t0[q - 1]));
                }
            } else {
                assert(t@[p] == t0[p - 1] && t@[q] == t0[q - 1]);
                assert(ev_le(t0[p - 1], t0[q - 1]));
            }
        }
        assert forall|x: int|
            ev_start_le(t@, x) == ev_start_le(t0, x) + (if e.1 is Start && e.0 <= x {
                1int
            } else {
                0int
            }) && ev_end_le(t@, x) == ev_end_le(t0, x) + (if e.1 is End && e.0 <= x {
                1int
            } else {
                0int
            }) by {
            lemma_ev_insert(t0, i as int, e, x);
        }
        lemma_ev_insert(t0, i as int, e, 0);
    }
}

proof fn lemma_parity(p: int)
    ensures
        p == 2 * (p / 2) || p == 2 * (p / 2) + 1,
{
    vstd::arithmetic::div_mod::lemma_fundamental_div_mod(p, 2);
    vstd::arithmetic::div_mod::lemma_mod_bound(p, 2);
}

/// The doubled point whose coverage the sweep is about to settle at event
/// `k`: just below the coordinate for a start, exactly at it for an end.
spec fn front(es: Seq<(i32, RangePart)>, k: int) -> int {
    if es[k].1 is Start {
        2 * es[k].0 - 1
    } else {
        2 * es[k].0
    }
}

/// Merge a collection of ranges.
///
/// The result lists, sorted ascending and separated by gaps, exactly the
/// maximal runs of doubled points that some input range covers: touching
/// ranges fuse, and a single-point range survives as a single-point range.
#[verifier::rlimit(100)]
pub fn calc(items: RangeVec) -> (r: RangeVec)
    requires
        wf(items@),
    ensures
        merged(r@),
        forall|p: int| covers(r@, p) <==> covers(items@, p),
{
    let ghost rs = items@;
    let n = items.ranges.len();
    let mut track: Vec<(i32, RangePart)> = Vec::new();
    let mut j: usize = 0;
    while j < n
        invariant
            j <= n,
            n == rs.len(),
            items.ranges@ == rs,
            wf(rs),
            ev_sorted(track@),
            track@.len() == 2 * j,
            forall|x: int| ev_start_le(track@, x) == n_start_le(rs.take(j as int), x),
            forall|x: int| ev_end_le(track@, x) == n_end_le(rs.take(j as int), x),
            ev_starts(track@) == j as int,
            ev_ends(track@) == j as int,
        decreases n - j,
    {
        let it = items.ranges[j];
        insert_event(&mut track, (it.start, RangePart::Start));
        insert_event(&mut track, (it.end, RangePart::End));
        proof {
            assert(rs.take(j + 1).drop_last() =~= rs.take(j as int));
            assert(rs.take(j + 1).last() == rs[j as int]);
            assert(rs[j as int] == it);
            assert forall|x: int|
                ev_start_le(track@, x) == n_start_le(rs.take(j + 1), x) && ev_end_le(track@, x)
                    == n_end_le(rs.take(j + 1), x) by {
                assert(n_start_le(rs.take(j + 1), x) == n_start_le(rs.take(j as int), x) + if it.start
                    <= x {
                    1int
                } else {
                    0int
                });
                assert(n_end_le(rs.take(j + 1), x) == n_end_le(rs.take(j as int), x) + if it.end
                    <= x {
                    1int
                } else {
                    0int
                });
            }
        }
        j += 1;
    }
    let m = track.len();
    let ghost es = track@;
    let mut result: Vec<Range> = Vec::new();
    let mut current: i32 = 0;
    let mut cnt: usize = 0;
    let mut k: usize = 0;
    proof {
        assert(rs.take(n as int) =~= rs);
        assert(es.take(0) =~= Seq::<(i32, RangePart)>::empty());
        if m > 0 {
            lemma_pivot(es, 0);
            let v0 = es[0].0 as int;
            lemma_ends_le_starts(rs, v0);
            lemma_ev_member(es, 0, v0);
            if es[0].1 is End {
                assert(n_start_le(rs, v0) == 0);
                assert(n_end_le(rs, v0) >= 1);
                assert(false);
            }
            assert forall|p: int| p <= front(es, 0) implies !covers(rs, p) by {
                let x = p / 2;
                lemma_parity(p);
                assert(x <= v0 - 1);
                lemma_cov_decompose(rs, x);
                lemma_cov_bounds(rs, 2 * x);
                lemma_cov_bounds(rs, 2 * x + 1);
                assert forall|jj: int|
                    0 <= jj < es.len() implies ((#[trigger] es[jj]).1 is Start ==> es[jj].0 > x) by {
                    if jj > 0 {
                        assert(ev_le(es[0], es[jj]));
                    }
                }
                lemma_ev_pointwise(es, x);
                assert(n_start_le(rs, x) == 0);
                lemma_n_le_mono(rs, x - 1, x);
            }
        }
    }
    while k < m
        invariant
            k <= m,
            m == es.len(),
            track@ == es,
            wf(rs),
            ev_sorted(es),
            forall|x: int| ev_start_le(es, x) == n_start_le(rs, x),
            forall|x: int| ev_end_le(es, x) == n_end_le(rs, x),
            ev_starts(es) == rs.len(),
            ev_ends(es) == rs.len(),
            m == 2 * rs.len(),
            cnt as int == ev_starts(es.take(k as int)) - ev_ends(es.take(k as int)),
            forall|q: int|
                0 <= q < result@.len() ==> (#[trigger] result@[q]).start <= result@[q].end,
            forall|q: int|
                0 <= q < result@.len() - 1 ==> (#[trigger] result@[q]).end < result@[q + 1].start,
            cnt == 0 && k < m ==> (forall|p: int|
                p <= front(es, k as int) ==> (covers(result@, p) <==> covers(rs, p))) && (forall|
                q: int,
            |
                0 <= q < result@.len() ==> 2 * (#[trigger] result@[q]).end <= front(es, k as int)),
            cnt > 0 ==> k < m && cov_count(rs, 2 * (current as int) - 1) == 0 && 2 * (current as int)
                - 1 <= front(es, k as int) && (forall|p: int|
                2 * (current as int) <= p <= front(es, k as int) ==> cov_count(rs, p) >= 1) && (
            forall|p: int|
                p < 2 * (current as int) ==> (covers(result@, p) <==> covers(rs, p))) && (forall|
                q: int,
            |
                0 <= q < result@.len() ==> (#[trigger] result@[q]).end < current),
            k == m ==> cnt == 0 && (forall|p: int| covers(result@, p) <==> covers(rs, p)),
        decreases m - k,
    {
        let ev = track[k];
        let num = ev.0;
        let ghost v = num as int;
        let ghost sa = ev_starts(es.take(k as int));
        let ghost ea = ev_ends(es.take(k as int));
        let ghost cnt0 = cnt as int;
        let ghost cur0 = current as int;
        let ghost res0 = result@;
        proof {
            assert(es[k as int] == ev);
            lemma_pivot(es, k as int);
            lemma_ends_le_starts(rs, v);
            lemma_ends_le_starts(rs, v - 1);
            assert(es.take(k + 1).drop_last() =~= es.take(k as int));
            assert(es.take(k + 1).last() == es[k as int]);
            lemma_cov_decompose(rs, v);
            lemma_cov_decompose(rs, v - 1);
            lemma_ev_bounds(es.take(k as int), v);
        }
        match ev.1 {
            RangePart::Start => {
                proof {
                    assert(ea == n_end_le(rs, v - 1));
                    assert(n_start_le(rs, v - 1) <= sa);
                    assert(sa <= n_start_le(rs, v) - 1);
                    assert(cov_count(rs, 2 * v) >= cnt0 + 1);
                }
                if cnt == 0 {
                    current = num;
                    proof {
                        assert(cov_count(rs, 2 * v - 1) == n_start_le(rs, v - 1) - n_end_le(
                            rs,
                            v - 1,
                        ));
                        lemma_cov_bounds(rs, 2 * v - 1);
                        assert(cov_count(rs, 2 * v - 1) == 0);
                    }
                }
                cnt = cnt + 1;
            },
            RangePart::End => {
                proof {
                    assert(sa == n_start_le(rs, v));
                    assert(n_end_le(rs, v - 1) <= ea);
                    assert(ea <= n_end_le(rs, v) - 1);
                    assert(cnt0 >= 1);
                }
                if cnt == 1 {
                    result.push(Range { start: current, end: num });
                    proof {
                        assert(2 * cur0 - 1 <= 2 * v);
                        assert(cur0 <= v);
                        assert(n_end_le(rs, v) >= ea + 1);
                        assert(n_end_le(rs, v) == n_start_le(rs, v));
                        assert(cov_count(rs, 2 * v + 1) == 0);
                    }
                }
                cnt = cnt - 1;
            },
        }
        k = k + 1;
        proof {
            let kk = k as int;
            let part = es[kk - 1].1;
            assert(cnt as int == ev_starts(es.take(kk)) - ev_ends(es.take(kk)));
            if kk == m {
                assert(es.take(kk) =~= es);
                assert(cnt == 0);
            }
            if cnt > 0 {
                // the sweep is inside a run; es[kk] exists
                assert(kk < m);
                let w = es[kk].0 as int;
                assert(ev_le(es[kk - 1], es[kk]));
                let fr0 = front(es, kk - 1);
                let fr1 = front(es, kk);
                // the frontier never moves backwards
                assert(fr1 >= fr0);
                if part is Start {
                    // a start was just processed: coverage holds from the new
                    // or carried open coordinate through the new frontier
                    assert(cov_count(rs, 2 * v) >= 1);
                    if w > v {
                        lemma_gap(es, rs, kk - 1);
                        assert forall|p: int| 2 * v <= p <= fr1 implies cov_count(rs, p) >= 1 by {
                            let x = p / 2;
                            lemma_parity(p);
                            lemma_cov_decompose(rs, x);
                            if p == 2 * x && x == w {
                                assert(es[kk].1 is End);
                                assert(n_start_le(rs, w) == n_start_le(rs, v));
                                assert(n_end_le(rs, x - 1) == n_end_le(rs, v - 1));
                            } else if p == 2 * x {
                                assert(v <= x <= w - 1);
                                lemma_n_le_mono(rs, v, x);
                                lemma_n_le_mono(rs, x, w - 1);
                                lemma_n_le_mono(rs, v - 1, x - 1);
                                lemma_n_le_mono(rs, x - 1, w - 1);
                                assert(n_start_le(rs, x) == n_start_le(rs, v));
                                assert(n_end_le(rs, x - 1) == n_end_le(rs, v - 1));
                            } else {
                                assert(v <= x <= w - 1);
                                lemma_n_le_mono(rs, v, x);
                                lemma_n_le_mono(rs, x, w - 1);
                                lemma_n_le_mono(rs, v - 1, x);
                                assert(n_start_le(rs, x) == n_start_le(rs, v));
                                assert(n_end_le(rs, x) == n_end_le(rs, v - 1));
                            }
                            assert(cov_count(rs, p) == n_start_le(rs, v) - n_end_le(rs, v - 1));
                        }
                    } else {
                        // same coordinate: the frontier is at most 2v
                        assert(fr1 <= 2 * v);
                        assert forall|p: int| 2 * v <= p <= fr1 implies cov_count(rs, p) >= 1 by {
                            assert(p == 2 * v);
                        }
                    }
                    if cnt0 == 0 {
                        // newly opened at v
                        assert(current as int == v);
                        assert forall|p: int| p < 2 * v implies (covers(result@, p) <==> covers(
                            rs,
                            p,
                        )) by {
                            assert(p <= fr0);
                        }
                        assert forall|q: int|
                            0 <= q < result@.len() implies (#[trigger] result@[q]).end
                                < current by {
                            assert(2 * result@[q].end <= fr0);
                        }
                    }
                    assert forall|p: int|
                        2 * (current as int) <= p <= fr1 implies cov_count(rs, p) >= 1 by {
                        if p <= fr0 {
                        } else {
                            assert(p >= 2 * v);
                        }
                    }
                } else {
                    // an end was just processed without closing: cnt0 >= 2
                    assert(cnt0 >= 2);
                    assert(fr0 == 2 * v);
                    if w > v {
                        // every end at or below v is now behind the sweep
                        let t1 = es.take(kk);
                        let s1 = es.skip(kk);
                        assert(forall|jj: int| 0 <= jj < t1.len() ==> #[trigger] t1[jj] == es[jj]);
                        assert(forall|jj: int|
                            0 <= jj < s1.len() ==> #[trigger] s1[jj] == es[kk + jj]);
                        assert forall|jj: int|
                            0 <= jj < t1.len() implies ((#[trigger] t1[jj]).1 is End ==> t1[jj].0
                                <= v) by {
                            if jj < kk - 1 {
                                assert(ev_le(es[jj], es[kk - 1]));
                            }
                        }
                        assert forall|jj: int|
                            0 <= jj < s1.len() implies ((#[trigger] s1[jj]).1 is End ==> s1[jj].0
                                > v) by {
                            if jj > 0 {
                                assert(ev_le(es[kk], es[kk + jj]));
                            }
                        }
                        lemma_ev_pointwise(t1, v);
                        lemma_ev_pointwise(s1, v);
                        lemma_ev_split(es, kk, v);
                        assert(n_end_le(rs, v) == ea + 1);
                        assert(cnt as int == n_start_le(rs, v) - n_end_le(rs, v));
                        assert(cov_count(rs, 2 * v + 1) == cnt as int);
                        lemma_gap(es, rs, kk - 1);
                        assert forall|p: int| 2 * v < p <= fr1 implies cov_count(rs, p) >= 1 by {
                            let x = p / 2;
                            lemma_parity(p);
                            lemma_cov_decompose(rs, x);
                            if p == 2 * x {
                                assert(v + 1 <= x);
                            } else {
                                assert(v <= x);
                            }
                            if x <= w - 1 {
                                lemma_n_le_mono(rs, v, x);
                                lemma_n_le_mono(rs, x, w - 1);
                            }
                            if v <= x - 1 && x - 1 <= w - 1 {
                                lemma_n_le_mono(rs, v, x - 1);
                                lemma_n_le_mono(rs, x - 1, w - 1);
                            }
                            if p == 2 * x && x == w {
                                assert(es[kk].1 is End);
                                assert(n_start_le(rs, w) == n_start_le(rs, v));
                                assert(n_end_le(rs, x - 1) == n_end_le(rs, v));
                            } else if p == 2 * x {
                                assert(v + 1 <= x <= w - 1);
                                assert(n_start_le(rs, x) == n_start_le(rs, v));
                                assert(n_end_le(rs, x - 1) == n_end_le(rs, v));
                            } else {
                                assert(v <= x <= w - 1);
                                assert(n_start_le(rs, x) == n_start_le(rs, v));
                                assert(n_end_le(rs, x) == n_end_le(rs, v));
                            }
                            assert(cov_count(rs, p) == n_start_le(rs, v) - n_end_le(rs, v));
                        }
                    } else {
                        assert(es[kk].1 is End);
                        assert(fr1 == 2 * v);
                    }
                    assert forall|p: int|
                        2 * (current as int) <= p <= fr1 implies cov_count(rs, p) >= 1 by {
                        if p <= fr0 {
                        } else {
                            assert(p > 2 * v);
                        }
                    }
                }
            }
            if cnt == 0 && cnt0 == 1 && part is End {
                // a run was closed at v: the pushed range is exactly the run
                assert(result@ =~= res0.push(Range { start: cur0 as i32, end: v as i32 }));
                assert(result@[result@.len() - 1].start as int == cur0);
                assert(result@[result@.len() - 1].end as int == v);
                assert(n_end_le(rs, v) == n_start_le(rs, v));
                assert(cov_count(rs, 2 * v + 1) == 0);
                assert forall|p: int| p <= 2 * v implies (covers(result@, p) <==> covers(
                    rs,
                    p,
                )) by {
                    let last = result@.len() - 1;
                    if p < 2 * cur0 {
                        assert(covers(res0, p) <==> covers(rs, p));
                        if covers(res0, p) {
                            let i = choose|i: int|
                                0 <= i < res0.len() && #[trigger] (2 * res0[i].start) <= p <= 2
                                    * res0[i].end;
                            assert(result@[i] == res0[i]);
                            assert(covers(result@, p));
                        }
                        if covers(result@, p) {
                            let i = choose|i: int|
                                0 <= i < result@.len() && #[trigger] (2 * result@[i].start) <= p
                                    <= 2 * result@[i].end;
                            assert(i < last);
                            assert(res0[i] == result@[i]);
                            assert(covers(res0, p));
                        }
                    } else {
                        assert(cov_count(rs, p) >= 1);
                        lemma_cov_bounds(rs, p);
                        assert(2 * result@[last].start <= p <= 2 * result@[last].end);
                    }
                }
                // beyond the closing coordinate nothing is covered up to the
                // next frontier (or at all, when no event remains)
                if kk < m {
                    let w = es[kk].0 as int;
                    assert(ev_le(es[kk - 1], es[kk]));
                    let fr1 = front(es, kk);
                    if w > v {
                        lemma_gap(es, rs, kk - 1);
                        assert forall|p: int| 2 * v < p <= fr1 implies !covers(rs, p) by {
                            let x = p / 2;
                            lemma_parity(p);
                            lemma_cov_decompose(rs, x);
                            lemma_cov_bounds(rs, 2 * x);
                            lemma_cov_bounds(rs, 2 * x + 1);
                            if p == 2 * x {
                                assert(v + 1 <= x);
                            } else {
                                assert(v <= x);
                            }
                            if x <= w - 1 {
                                lemma_n_le_mono(rs, v, x);
                                lemma_n_le_mono(rs, x, w - 1);
                            }
                            if v <= x - 1 && x - 1 <= w - 1 {
                                lemma_n_le_mono(rs, v, x - 1);
                                lemma_n_le_mono(rs, x - 1, w - 1);
                            }
                            if p == 2 * x && x == w {
                                assert(es[kk].1 is End);
                                assert(n_start_le(rs, w) == n_start_le(rs, v));
                                assert(n_end_le(rs, x - 1) == n_end_le(rs, v));
                            } else if p == 2 * x {
                                assert(v + 1 <= x <= w - 1);
                                assert(n_start_le(rs, x) == n_start_le(rs, v));
                                assert(n_end_le(rs, x - 1) == n_end_le(rs, v));
                            } else {
                                assert(v <= x <= w - 1);
                                assert(n_start_le(rs, x) == n_start_le(rs, v));
                                assert(n_end_le(rs, x) == n_end_le(rs, v));
                            }
                            assert(cov_count(rs, p) == n_start_le(rs, v) - n_end_le(rs, v));
                        }
                    } else {
                        assert(es[kk].1 is End);
                        assert(fr1 == 2 * v);
                    }
                    assert forall|p: int| p <= fr1 implies (covers(result@, p) <==> covers(
                        rs,
                        p,
                    )) by {
                        if p > 2 * v {
                            if covers(result@, p) {
                                let i = choose|i: int|
                                    0 <= i < result@.len() && #[trigger] (2 * result@[i].start)
                                        <= p <= 2 * result@[i].end;
                                assert(result@[i].end <= v);
                                assert(false);
                            }
                        }
                    }
                    assert forall|q: int|
                        0 <= q < result@.len() implies 2 * (#[trigger] result@[q]).end <= fr1 by {
                        assert(fr1 >= 2 * v);
                        if q < result@.len() - 1 {
                            assert(res0[q] == result@[q]);
                            assert(result@[q].end < cur0);
                        }
                    }
                } else {
                    // the whole event list is behind the sweep
                    assert forall|jj: int|
                        0 <= jj < es.len() implies ((#[trigger] es[jj]).1 is End ==> es[jj].0
                            <= v) by {
                        if jj < kk - 1 {
                            assert(ev_le(es[jj], es[kk - 1]));
                        }
                    }
                    lemma_ev_pointwise(es, v);
                    assert(n_end_le(rs, v) == rs.len());
                    assert forall|p: int| covers(result@, p) <==> covers(rs, p) by {
                        if p > 2 * v {
                            let x = p / 2;
                            lemma_parity(p);
                            lemma_cov_decompose(rs, x);
                            lemma_cov_bounds(rs, 2 * x);
                            lemma_cov_bounds(rs, 2 * x + 1);
                            if p == 2 * x {
                                assert(v + 1 <= x);
                                lemma_n_le_mono(rs, v, x - 1);
                            } else {
                                assert(v <= x);
                            }
                            lemma_n_le_mono(rs, v, x);
                            lemma_n_le_mono(rs, x, x);
                            if covers(result@, p) {
                                let i = choose|i: int|
                                    0 <= i < result@.len() && #[trigger] (2 * result@[i].start)
                                        <= p <= 2 * result@[i].end;
                                assert(result@[i].end <= v);
                                assert(false);
                            }
                            if covers(rs, p) {
                                lemma_cov_bounds(rs, p);
                                assert(false);
                            }
                        }
                    }
                }
            }
        }
    }
    RangeVec { ranges: result }
}

proof fn lemma_merged_order(rs: Seq<Range>, i: int, j: int)
    requires
        merged(rs),
        0 <= i <= j < rs.len(),
    ensures
        rs[i].start <= rs[j].start,
        i < j ==> rs[i].end < rs[j].start,
    decreases j - i,
{
    if i < j {
        lemma_merged_order(rs, i, j - 1);
        assert(rs[j - 1].end < rs[j].start);
    }
}

/// Merging is idempotent: the merged form of a coverage is unique, so two
/// merged collections that cover the same doubled points are equal. In
/// particular, since [`calc`] returns a merged collection with the coverage
/// of its input, `calc(calc(x)) == calc(x)` for every well-formed `x`.
#[verifier::rlimit(100)]
pub proof fn lemma_merge_idempotent(y: Seq<Range>, z: Seq<Range>)
    requires
        merged(y),
        merged(z),
        forall|p: int| covers(y, p) <==> covers(z, p),
    ensures
        y == z,
    decreases y.len(),
{
    if y.len() == 0 {
        if z.len() > 0 {
            assert(2 * z[0].start <= 2 * z[0].start <= 2 * z[0].end);
            assert(covers(z, 2 * z[0].start));
            assert(false);
        }
        assert(y =~= z);
    } else if z.len() == 0 {
        assert(covers(y, 2 * y[0].start));
        assert(false);
    } else {
        let a = y[0];
        let b = z[0];
        assert(a.start <= a.end && b.start <= b.end);
        // equal starts: each head starts at the least covered point
        assert(covers(y, 2 * a.start));
        assert(covers(z, 2 * b.start));
        let jz = choose|j: int|
            0 <= j < z.len() && #[trigger] (2 * z[j].start) <= 2 * a.start <= 2 * z[j].end;
        lemma_merged_order(z, 0, jz);
        let jy = choose|j: int|
            0 <= j < y.len() && #[trigger] (2 * y[j].start) <= 2 * b.start <= 2 * y[j].end;
        lemma_merged_order(y, 0, jy);
        assert(a.start == b.start);
        // equal ends: just past the head's end nothing is covered
        if b.end < a.end {
            assert(2 * a.start <= 2 * b.end + 1 <= 2 * a.end);
            assert(covers(y, 2 * b.end + 1));
            let j = choose|j: int|
                0 <= j < z.len() && #[trigger] (2 * z[j].start) <= 2 * b.end + 1 <= 2 * z[j].end;
            if j > 0 {
                lemma_merged_order(z, 0, j);
            }
            assert(false);
        }
        if a.end < b.end {
            assert(covers(z, 2 * a.end + 1));
            let j = choose|j: int|
                0 <= j < y.len() && #[trigger] (2 * y[j].start) <= 2 * a.end + 1 <= 2 * y[j].end;
            if j > 0 {
                lemma_merged_order(y, 0, j);
            }
            assert(false);
        }
        assert(a == b);
        let ys = y.skip(1);
        let zs = z.skip(1);
        assert(forall|q: int| 0 <= q < ys.len() ==> #[trigger] ys[q] == y[q + 1]);
        assert(forall|q: int| 0 <= q < zs.len() ==> #[trigger] zs[q] == z[q + 1]);
        assert forall|p: int| covers(ys, p) <==> covers(zs, p) by {
            assert forall|p2: int| covers(ys, p2) implies covers(y, p2) && p2 > 2 * y[0].end by {
                let i = choose|i: int|
                    0 <= i < ys.len() && #[trigger] (2 * ys[i].start) <= p2 <= 2 * ys[i].end;
                assert(2 * y[i + 1].start <= p2 <= 2 * y[i + 1].end);
                lemma_merged_order(y, 0, i + 1);
            }
            assert forall|p2: int| covers(zs, p2) implies covers(z, p2) && p2 > 2 * z[0].end by {
                let i = choose|i: int|
                    0 <= i < zs.len() && #[trigger] (2 * zs[i].start) <= p2 <= 2 * zs[i].end;
                assert(2 * z[i + 1].start <= p2 <= 2 * z[i + 1].end);
                lemma_merged_order(z, 0, i + 1);
            }
            if covers(y, p) && p > 2 * y[0].end {
                let i = choose|i: int|
                    0 <= i < y.len() && #[trigger] (2 * y[i].start) <= p <= 2 * y[i].end;
                assert(i > 0);
                assert(ys[i - 1] == y[i]);
                assert(covers(ys, p));
            }
            if covers(z, p) && p > 2 * z[0].end {
                let i = choose|i: int|
                    0 <= i < z.len() && #[trigger] (2 * z[i].start) <= p <= 2 * z[i].end;
                assert(i > 0);
                assert(zs[i - 1] == z[i]);
                assert(covers(zs, p));
            }
        }
        assert(merged(ys));
        assert(merged(zs));
        lemma_merge_idempotent(ys, zs);
        assert forall|i: int| 0 <= i < y.len() implies y[i] == z[i] by {
            if i > 0 {
                assert(y[i] == ys[i - 1]);
                assert(z[i] == zs[i - 1]);
            }
        }
        assert(y =~= z);
    }
}

/// A parse failure; it carries the description of what went wrong.
#[derive(Debug)]
pub struct RangeParseError {
    msg: String,
}

impl View for RangeParseError {
    type V = Seq<char>;

    closed spec fn view(&self) -> Seq<char> {
        self.msg@
    }
}

impl RangeParseError {
    /// Build an error from its description.
    pub fn new(s: &str) -> (r: Self)
        ensures
            r@ == s@,
    {
        RangeParseError { msg: s.to_owned() }
    }

    /// The stored description of the failure.
    pub fn message(&self) -> (r: &str)
        ensures
            r@ == self@,
    {
        self.msg.as_str()
    }
}

/// A non-empty run of digits.
pub open spec fn valid_num(s: Seq<char>) -> bool {
    s.len() >= 1 && all_digits(s)
}

/// A non-empty run of digits with an optional leading minus sign.
pub open spec fn valid_signed(s: Seq<char>) -> bool {
    valid_num(s) || (s.len() >= 2 && s[0] == '-' && all_digits(s.skip(1)))
}

/// The value of a signed digit string; an empty string counts as 0.
pub open spec fn signed_val(s: Seq<char>) -> int {
    if s.len() > 0 && s[0] == '-' {
        -digits_val(s.skip(1))
    } else {
        digits_val(s)
    }
}

/// How a trimmed token splits into a start piece and an end piece at its
/// separating `-`. The start may be absent (an empty piece) or carry its
/// own sign; the separator is never confused with a sign on the end.
pub open spec fn split_token(t: Seq<char>) -> Option<(Seq<char>, Seq<char>)> {
    if t.len() == 0 {
        None
    } else if t[0] == '-' && valid_signed(t.skip(1)) {
        Some((Seq::<char>::empty(), t.skip(1)))
    } else if t[0] == '-' {
        let d = 1 + first_where(t.skip(1), non_digit_pred());
        if d >= 2 && d < t.len() && t[d] == '-' && valid_signed(t.skip(d + 1)) {
            Some((t.take(d), t.skip(d + 1)))
        } else {
            None
        }
    } else {
        let p = first_where(t, non_digit_pred());
        if p < t.len() && t[p] == '-' && valid_signed(t.skip(p + 1)) {
            Some((t.take(p), t.skip(p + 1)))
        } else {
            None
        }
    }
}

/// What parsing one token reports: a shape failure, an out-of-range value
/// (start checked before end), or nothing.
pub open spec fn token_err(tok: Seq<char>) -> Option<Seq<char>> {
    let t = spec_trim(tok);
    match split_token(t) {
        None => Some(msg_bad_format()),
        Some(ab) => {
            let sa = signed_val(ab.0);
            let sb = signed_val(ab.1);
            if sa > i32::MAX {
                Some(msg_too_large())
            } else if sa < i32::MIN {
                Some(msg_too_small())
            } else if sb > i32::MAX {
                Some(msg_too_large())
            } else if sb < i32::MIN {
                Some(msg_too_small())
            } else {
                None
            }
        },
    }
}

/// The two values of a well-formed token (an absent start means 0).
pub open spec fn token_val(tok: Seq<char>) -> (int, int) {
    match split_token(spec_trim(tok)) {
        Some(ab) => (signed_val(ab.0), signed_val(ab.1)),
        None => (0, 0),
    }
}

/// The first failure over a token list, scanning left to right.
pub open spec fn first_err(toks: Seq<Seq<char>>) -> Option<Seq<char>>
    decreases toks.len(),
{
    if toks.len() == 0 {
        None
    } else if token_err(toks[0]) is Some {
        token_err(toks[0])
    } else {
        first_err(toks.skip(1))
    }
}

proof fn lemma_first_err(toks: Seq<Seq<char>>, i: int)
    requires
        0 <= i <= toks.len(),
        forall|j: int| 0 <= j < i ==> token_err(#[trigger] toks[j]) is None,
    ensures
        i == toks.len() ==> first_err(toks) is None,
        i < toks.len() && token_err(toks[i]) is Some ==> first_err(toks) == token_err(toks[i]),
    decreases toks.len(),
{
    if toks.len() > 0 {
        if i == 0 {
        } else {
            assert(token_err(toks[0]) is None);
            assert(forall|j: int| 0 <= j < i - 1 ==> #[trigger] toks.skip(1)[j] == toks[j + 1]);
            if i < toks.len() {
                assert(toks.skip(1)[i - 1] == toks[i]);
            }
            lemma_first_err(toks.skip(1), i - 1);
        }
    }
}

fn check_signed(t: &str, lo: usize, hi: usize) -> (r: bool)
    requires
        lo <= hi <= t@.len(),
    ensures
        r == valid_signed(t@.subrange(lo as int, hi as int)),
{
    let ghost sub = t@.subrange(lo as int, hi as int);
    proof {
        assert(forall|j: int| 0 <= j < sub.len() ==> #[trigger] sub[j] == t@[lo + j]);
    }
    if lo == hi {
        return false;
    }
    let c = t.get_char(lo);
    if c == '-' {
        proof {
            assert(!is_digit(sub[0]));
        }
        if hi - lo < 2 {
            return false;
        }
        let k = scan_non_digit(t, lo + 1, hi);
        proof {
            assert(sub.skip(1) =~= t@.subrange(lo + 1, hi as int));
            if k == hi {
                assert(forall|j: int|
                    0 <= j < sub.skip(1).len() ==> is_digit(#[trigger] sub.skip(1)[j]));
            } else {
                assert(!is_digit(sub.skip(1)[k - lo - 1]));
            }
        }
        k == hi
    } else {
        let k = scan_non_digit(t, lo, hi);
        proof {
            if k == hi {
                assert(forall|j: int| 0 <= j < sub.len() ==> is_digit(#[trigger] sub[j]));
            } else {
                assert(!is_digit(sub[k - lo]));
                assert(sub[0] != '-');
            }
        }
        k == hi
    }
}

fn parse_signed(t: &str, lo: usize, hi: usize) -> (r: Result<i32, RangeParseError>)
    requires
        lo <= hi <= t@.len(),
        valid_signed(t@.subrange(lo as int, hi as int)),
    ensures
        (match r {
            Ok(v) => i32::MIN <= signed_val(t@.subrange(lo as int, hi as int)) <= i32::MAX && v
                as int == signed_val(t@.subrange(lo as int, hi as int)),
            Err(e) => (signed_val(t@.subrange(lo as int, hi as int)) > i32::MAX && e@
                == msg_too_large()) || (signed_val(t@.subrange(lo as int, hi as int)) < i32::MIN
                && e@ == msg_too_small()),
        }),
{
    let ghost sub = t@.subrange(lo as int, hi as int);
    proof {
        assert(forall|j: int| 0 <= j < sub.len() ==> #[trigger] sub[j] == t@[lo + j]);
    }
    proof {
        assert(sub.len() >= 1);
        assert(sub[0] == t@[lo as int]);
    }
    let c = t.get_char(lo);
    if c == '-' {
        proof {
            assert(!is_digit(sub[0]));
            assert(!valid_num(sub));
            assert(sub.len() >= 2 && sub[0] == '-' && all_digits(sub.skip(1)));
            assert(sub.skip(1) =~= t@.subrange(lo + 1, hi as int));
            assert forall|j: int| lo + 1 <= j < hi implies is_digit(#[trigger] t@[j]) by {
                assert(t@[j] == sub[j - lo]);
                assert(sub[j - lo] == sub.skip(1)[j - lo - 1]);
            }
        }
        match parse_mag(t, lo + 1, hi) {
            None => {
                proof {
                    assert(signed_val(sub) < i32::MIN);
                }
                Err(RangeParseError::new("number too small to fit in target type"))
            },
            Some(v) => {
                if v > 0x8000_0000 {
                    Err(RangeParseError::new("number too small to fit in target type"))
                } else if v == 0x8000_0000 {
                    Ok(i32::MIN)
                } else {
                    Ok(-(v as i32))
                }
            },
        }
    } else {
        proof {
            assert(sub[0] != '-');
            assert(valid_num(sub));
            assert forall|j: int| lo <= j < hi implies is_digit(#[trigger] t@[j]) by {
                assert(t@[j] == sub[j - lo]);
            }
        }
        match parse_mag(t, lo, hi) {
            None => {
                proof {
                    assert(signed_val(sub) > i32::MAX);
                }
                Err(RangeParseError::new("number too large to fit in target type"))
            },
            Some(v) => {
                if v > 0x7FFF_FFFF {
                    Err(RangeParseError::new("number too large to fit in target type"))
                } else {
                    Ok(v as i32)
                }
            },
        }
    }
}

impl Range {
    /// Parse one token such as `"1-5"`, `"-7"` or `"-4--2"`.
    ///
    /// The token is trimmed of spaces and must match `start? '-' end`
    /// where both pieces are signed decimal numbers; an absent start
    /// means 0.
    pub fn from_str(tok: &str) -> (r: Result<Range, RangeParseError>)
        ensures
            (match r {
                Ok(rg) => token_err(tok@) is None && rg.start as int == token_val(tok@).0
                    && rg.end as int == token_val(tok@).1,
                Err(e) => token_err(tok@) == Some(e@),
            }),
    {
        let t = trim_str(tok);
        let n = t.unicode_len();
        if n == 0 {
            return Err(RangeParseError::new("Bad range format"));
        }
        let c0 = t.get_char(0);
        if c0 == '-' {
            proof {
                assert(t@.skip(1) =~= t@.subrange(1, n as int));
            }
            if check_signed(t, 1, n) {
                match parse_signed(t, 1, n) {
                    Ok(ev) => Ok(Range { start: 0, end: ev }),
                    Err(e) => Err(e),
                }
            } else {
                let k = scan_non_digit(t, 1, n);
                proof {
                    assert(k - 1 == first_where(t@.skip(1), non_digit_pred()));
                }
                if k >= 2 && k < n {
                    let ck = t.get_char(k);
                    if ck == '-' {
                        proof {
                            assert(t@.skip(k + 1) =~= t@.subrange(k + 1, n as int));
                            assert(t@.take(k as int) =~= t@.subrange(0, k as int));
                        }
                        if check_signed(t, k + 1, n) {
                            match parse_signed(t, 0, k) {
                                Err(e) => Err(e),
                                Ok(sv) => match parse_signed(t, k + 1, n) {
                                    Err(e) => Err(e),
                                    Ok(ev) => Ok(Range { start: sv, end: ev }),
                                },
                            }
                        } else {
                            Err(RangeParseError::new("Bad range format"))
                        }
                    } else {
                        Err(RangeParseError::new("Bad range format"))
                    }
                } else {
                    Err(RangeParseError::new("Bad range format"))
                }
            }
        } else {
            let k = scan_non_digit(t, 0, n);
            proof {
                assert(k as int == first_where(t@, non_digit_pred())) by {
                    assert(t@.subrange(0, n as int) =~= t@);
                }
            }
            if k < n {
                let ck = t.get_char(k);
                if ck == '-' {
                    proof {
                        assert(t@.skip(k + 1) =~= t@.subrange(k + 1, n as int));
                        assert(t@.take(k as int) =~= t@.subrange(0, k as int));
                    }
                    if check_signed(t, k + 1, n) {
                        let sv: i32 = if k == 0 {
                            0
                        } else {
                            proof {
                                assert(valid_signed(t@.take(k as int)));
                            }
                            match parse_signed(t, 0, k) {
                                Ok(v) => v,
                                Err(e) => {
                                    return Err(e);
                                },
                            }
                        };
                        match parse_signed(t, k + 1, n) {
                            Err(e) => Err(e),
                            Ok(ev) => Ok(Range { start: sv, end: ev }),
                        }
                    } else {
                        Err(RangeParseError::new("Bad range format"))
                    }
                } else {
                    Err(RangeParseError::new("Bad range format"))
                }
            } else {
                Err(RangeParseError::new("Bad range format"))
            }
        }
    }
}

/// The signed decimal text of a value.
pub open spec fn fmt_int(n: int) -> Seq<char> {
    if n < 0 {
        seq!['-'] + fmt_nat(-n)
    } else {
        fmt_nat(n)
    }
}

/// The text of one range: `start`, `-`, `end`, with the start omitted
/// exactly when it is zero (a negative start keeps its sign).
pub open spec fn fmt_range(r: Range) -> Seq<char> {
    (if r.start == 0 {
        Seq::<char>::empty()
    } else {
        fmt_int(r.start as int)
    }) + seq!['-'] + fmt_int(r.end as int)
}

/// What follows the first range in the joined text: `", "` before each
/// further range.
pub open spec fn fmt_rest(rs: Seq<Range>) -> Seq<char>
    decreases rs.len(),
{
    if rs.len() == 0 {
        Seq::<char>::empty()
    } else {
        seq![',', ' '] + fmt_range(rs[0]) + fmt_rest(rs.skip(1))
    }
}

/// The text of a collection: its ranges joined by `", "`.
pub open spec fn fmt_ranges(rs: Seq<Range>) -> Seq<char>
    decreases rs.len(),
{
    if rs.len() == 0 {
        Seq::<char>::empty()
    } else {
        fmt_range(rs[0]) + fmt_rest(rs.skip(1))
    }
}

proof fn lemma_fmt_rest_push(rs: Seq<Range>, r: Range)
    ensures
        fmt_rest(rs.push(r)) == fmt_rest(rs) + seq![',', ' '] + fmt_range(r),
    decreases rs.len(),
{
    if rs.len() == 0 {
        assert(rs.push(r)[0] == r);
        assert(rs.push(r).skip(1) =~= Seq::<Range>::empty());
        assert(fmt_rest(rs.push(r).skip(1)) =~= Seq::<char>::empty());
        assert(fmt_rest(rs.push(r)) == seq![',', ' '] + fmt_range(r) + fmt_rest(
            rs.push(r).skip(1),
        ));
        assert(fmt_rest(rs.push(r)) =~= fmt_rest(rs) + seq![',', ' '] + fmt_range(r));
    } else {
        assert(rs.push(r)[0] == rs[0]);
        assert(rs.push(r).skip(1) =~= rs.skip(1).push(r));
        lemma_fmt_rest_push(rs.skip(1), r);
        assert(fmt_rest(rs.push(r)) == seq![',', ' '] + fmt_range(rs[0]) + fmt_rest(
            rs.push(r).skip(1),
        ));
        assert(fmt_rest(rs.push(r)) =~= fmt_rest(rs) + seq![',', ' '] + fmt_range(r));
    }
}

proof fn lemma_fmt_ranges_push(rs: Seq<Range>, r: Range)
    ensures
        rs.len() == 0 ==> fmt_ranges(rs.push(r)) == fmt_range(r),
        rs.len() > 0 ==> fmt_ranges(rs.push(r)) == fmt_ranges(rs) + seq![',', ' '] + fmt_range(r),
{
    if rs.len() == 0 {
        assert(rs.push(r)[0] == r);
        assert(rs.push(r).skip(1) =~= Seq::<Range>::empty());
        assert(fmt_rest(rs.push(r).skip(1)) =~= Seq::<char>::empty());
        assert(fmt_ranges(rs.push(r)) =~= fmt_range(r));
    } else {
        assert(rs.push(r)[0] == rs[0]);
        assert(rs.push(r).skip(1) =~= rs.skip(1).push(r));
        lemma_fmt_rest_push(rs.skip(1), r);
        assert(fmt_ranges(rs.push(r)) =~= fmt_ranges(rs) + seq![',', ' '] + fmt_range(r));
    }
}

/// The pieces of the signed decimal text of a value.
proof fn lemma_fmt_int(n: int)
    requires
        i32::MIN <= n <= i32::MAX,
    ensures
        fmt_int(n).len() >= 1,
        valid_signed(fmt_int(n)),
        signed_val(fmt_int(n)) == n,
        (fmt_int(n)[0] == '-') == (n < 0),
        n >= 0 ==> all_digits(fmt_int(n)),
        n < 0 ==> fmt_int(n).len() >= 2 && all_digits(fmt_int(n).skip(1)),
        forall|j: int|
            0 <= j < fmt_int(n).len() ==> #[trigger] fmt_int(n)[j] != ','
                && fmt_int(n)[j] != ' ',
{
    let f = fmt_int(n);
    if n < 0 {
        lemma_fmt_nat(-n);
        assert(f == seq!['-'] + fmt_nat(-n));
        assert(f[0] == '-');
        assert(f.skip(1) =~= fmt_nat(-n));
        assert forall|j: int|
            0 <= j < f.len() implies #[trigger] f[j] != ',' && f[j] != ' ' by {
            if j > 0 {
                assert(f[j] == fmt_nat(-n)[j - 1]);
                assert(is_digit(f[j]));
            }
        }
    } else {
        lemma_fmt_nat(n);
        assert(is_digit(f[0]));
        assert forall|j: int|
            0 <= j < f.len() implies #[trigger] f[j] != ',' && f[j] != ' ' by {
            assert(is_digit(f[j]));
        }
    }
}

#[verifier::rlimit(100)]
proof fn lemma_fmt_range_token(r: Range)
    ensures
        fmt_range(r).len() >= 2,
        forall|j: int|
            0 <= j < fmt_range(r).len() ==> #[trigger] fmt_range(r)[j] != ','
                && fmt_range(r)[j] != ' ',
        token_err(fmt_range(r)) is None,
        token_val(fmt_range(r)) == (r.start as int, r.end as int),
{
    let va = r.start as int;
    let vb = r.end as int;
    let aa = if r.start == 0 {
        Seq::<char>::empty()
    } else {
        fmt_int(va)
    };
    let bb = fmt_int(vb);
    let f = fmt_range(r);
    lemma_fmt_int(vb);
    if r.start != 0 {
        lemma_fmt_int(va);
    }
    let d = aa.len() as int;
    assert(f.len() == d + 1 + bb.len());
    assert forall|j: int| 0 <= j < f.len() implies (if j < d {
        f[j] == aa[j]
    } else if j == d {
        f[j] == '-'
    } else {
        f[j] == bb[j - d - 1]
    }) by {
        assert(f == (aa + seq!['-']) + bb);
    }
    assert forall|j: int|
        0 <= j < f.len() implies #[trigger] f[j] != ',' && f[j] != ' ' by {
        if j < d {
            assert(f[j] == aa[j]);
        } else if j > d {
            assert(f[j] == bb[j - d - 1]);
        }
    }
    lemma_first_where_is(f, non_space_pred(), 0);
    lemma_trim_end_idx_is(f, f.len() as int);
    assert(spec_trim(f) =~= f);
    assert(f.skip(d + 1) =~= bb);
    if r.start == 0 {
        // the token begins with the separator; the whole rest is the end
        assert(f[0] == '-');
        assert(f.skip(1) =~= bb);
        assert(split_token(f) == Some((Seq::<char>::empty(), bb)));
        assert(signed_val(Seq::<char>::empty()) == 0);
    } else if r.start > 0 {
        assert(all_digits(aa));
        assert(is_digit(f[0]));
        assert(f[0] != '-');
        assert forall|j: int| 0 <= j < d implies !(non_digit_pred()(f[j])) by {
            assert(f[j] == aa[j]);
        }
        assert(non_digit_pred()(f[d]));
        lemma_first_where_is(f, non_digit_pred(), d);
        assert(f.take(d) =~= aa);
        assert(split_token(f) == Some((aa, bb)));
    } else {
        // a negative start: its sign is not the separator
        lemma_fmt_nat(-va);
        let m = fmt_nat(-va).len() as int;
        assert(aa == seq!['-'] + fmt_nat(-va));
        assert(d == m + 1);
        assert(f[0] == '-');
        let g = f.skip(1);
        assert(g.len() == f.len() - 1);
        assert(forall|j: int| 0 <= j < g.len() ==> #[trigger] g[j] == f[j + 1]);
        // the first branch of the split cannot apply: g holds the separator
        assert(g[m] == f[m + 1]);
        assert(f[d] == '-');
        assert(!is_digit(g[m]));
        assert(g[0] == f[1]);
        assert(f[1] == aa[1]);
        assert(aa[1] == fmt_nat(-va)[0]);
        assert(is_digit(g[0]));
        assert(!valid_signed(g)) by {
            assert(!is_digit(g[m]));
            assert(g[0] != '-');
        }
        assert forall|j: int| 0 <= j < m implies !(non_digit_pred()(g[j])) by {
            assert(g[j] == f[j + 1]);
            assert(f[j + 1] == aa[j + 1]);
            assert(aa[j + 1] == fmt_nat(-va)[j]);
        }
        assert(non_digit_pred()(g[m]));
        lemma_first_where_is(g, non_digit_pred(), m);
        assert(1 + first_where(g, non_digit_pred()) == d);
        assert(f.take(d) =~= aa);
        assert(split_token(f) == Some((aa, bb)));
    }
}

/// Rendering a collection and parsing the text back returns exactly its
/// ranges, token for token. Together with [`lemma_merge_idempotent`] this
/// gives the round trip: merging the parse of the text of a merged
/// collection yields that collection again.
#[verifier::rlimit(100)]
pub proof fn lemma_format_parse_round_trip(rs: Seq<Range>)
    requires
        rs.len() >= 1,
    ensures
        split_at_commas(fmt_ranges(rs)).len() == rs.len(),
        first_err(split_at_commas(fmt_ranges(rs))) is None,
        forall|i: int|
            0 <= i < rs.len() ==> token_val(#[trigger] split_at_commas(fmt_ranges(rs))[i]) == (
            rs[i].start as int,
            rs[i].end as int,
        ),
    decreases rs.len(),
{
    let f0 = fmt_range(rs[0]);
    lemma_fmt_range_token(rs[0]);
    let s = fmt_ranges(rs);
    if rs.len() == 1 {
        assert(rs.skip(1) =~= Seq::<Range>::empty());
        assert(s =~= f0);
        lemma_split_first(s, s.len() as int);
        let toks = split_at_commas(s);
        assert(toks =~~= seq![s]);
        assert(toks[0] == f0);
        assert(token_err(toks[0]) is None);
        assert(toks.skip(1) =~~= Seq::<Seq<char>>::empty());
        assert(first_err(toks.skip(1)) is None);
        assert(first_err(toks) is None);
    } else {
        let rest = rs.skip(1);
        let tail = seq![' '] + fmt_ranges(rest);
        assert(rest.len() >= 1);
        assert(fmt_ranges(rest) == fmt_range(rest[0]) + fmt_rest(rest.skip(1)));
        assert(s =~= f0 + seq![','] + tail);
        assert forall|j: int| 0 <= j < f0.len() implies s[j] != ',' by {
            assert(s[j] == f0[j]);
        }
        assert(s[f0.len() as int] == ',');
        lemma_split_first(s, f0.len() as int);
        assert(s.take(f0.len() as int) =~= f0);
        assert(s.skip(f0.len() as int + 1) =~= tail);
        lemma_format_parse_round_trip(rest);
        lemma_split_len(fmt_ranges(rest));
        let tk = split_at_commas(fmt_ranges(rest));
        assert(tail[0] == ' ');
        assert(tail.skip(1) =~= fmt_ranges(rest));
        let tks = split_at_commas(tail);
        assert(tks =~~= seq![seq![' '] + tk[0]] + tk.skip(1));
        let toks = split_at_commas(s);
        assert(toks =~~= seq![f0] + tks);
        lemma_trim_leading_space(tk[0]);
        assert(token_err(seq![' '] + tk[0]) == token_err(tk[0]));
        assert(token_val(seq![' '] + tk[0]) == token_val(tk[0]));
        assert(token_err(tk[0]) is None && first_err(tk) == first_err(tk.skip(1))) by {
            assert(tk.len() >= 1);
            if token_err(tk[0]) is Some {
                assert(first_err(tk) == token_err(tk[0]));
            }
        }
        assert(first_err(toks) == first_err(toks.skip(1))) by {
            assert(toks[0] == f0);
        }
        assert(toks.skip(1) =~~= tks);
        assert(first_err(tks) == first_err(tks.skip(1))) by {
            assert(tks[0] == seq![' '] + tk[0]);
        }
        assert(tks.skip(1) =~~= tk.skip(1));
        assert(first_err(toks) is None);
        assert(toks.len() == rs.len());
        assert forall|i: int| 0 <= i < rs.len() implies token_val(#[trigger] toks[i]) == (
            rs[i].start as int,
            rs[i].end as int,
        ) by {
            if i == 0 {
                assert(toks[0] == f0);
            } else if i == 1 {
                assert(toks[1] == seq![' '] + tk[0]);
                assert(token_val(tk[0]) == (rest[0].start as int, rest[0].end as int));
            } else {
                assert(toks[i] == tk[i - 1]);
                assert(token_val(tk[i - 1]) == (rest[i - 1].start as int, rest[i - 1].end as int));
            }
        }
    }
}

fn i32_str(v: i32) -> (r: String)
    ensures
        r@ == fmt_int(v as int),
{
    if v < 0 {
        let mag64: u64 = (-(v as i64)) as u64;
        let mag: u32 = mag64 as u32;
        let mut out = String::new();
        proof {
            reveal_strlit("-");
        }
        out.append("-");
        let h = nat_str(mag);
        out.append(h.as_str());
        proof {
            assert(out@ =~= fmt_int(v as int));
        }
        out
    } else {
        nat_str(v as u32)
    }
}

fn range_str(rg: Range) -> (r: String)
    ensures
        r@ == fmt_range(rg),
{
    let mut out = String::new();
    if rg.start != 0 {
        let h = i32_str(rg.start);
        out.append(h.as_str());
    }
    proof {
        reveal_strlit("-");
    }
    out.append("-");
    let e = i32_str(rg.end);
    out.append(e.as_str());
    proof {
        assert(out@ =~= fmt_range(rg));
    }
    out
}

impl RangeVec {
    /// Parse a comma-separated range list such as `"1-5,3-7"` or
    /// `"-4--2, 5-9"`.
    ///
    /// Each token is trimmed of spaces and must match
    /// `start? '-' end` where both pieces are signed decimal numbers and
    /// an absent start means 0. A token of any other shape is a format
    /// error; a value outside the `i32` domain a number error. The first
    /// failure wins and nothing is returned.
    pub fn from_str(s: &str) -> (r: Result<RangeVec, RangeParseError>)
        ensures
            r is Ok <==> first_err(split_at_commas(s@)) is None,
            (match r {
                Ok(rv) => rv@.len() == split_at_commas(s@).len() && forall|i: int|
                    0 <= i < rv@.len() ==> (#[trigger] rv@[i]).start as int == token_val(
                        split_at_commas(s@)[i],
                    ).0 && rv@[i].end as int == token_val(split_at_commas(s@)[i]).1,
                Err(e) => first_err(split_at_commas(s@)) == Some(e@),
            }),
        decreases s@.len(),
    {
        let ghost toks = split_at_commas(s@);
        let n = s.unicode_len();
        let k = scan_comma(s);
        proof {
            lemma_split_first(s@, k as int);
            lemma_split_len(s@);
        }
        let tok = s.substring_char(0, k);
        proof {
            if k < n {
                assert(tok@ =~= s@.take(k as int));
                assert(toks[0] == s@.take(k as int));
            } else {
                assert(tok@ =~= s@);
                assert(toks[0] == s@);
            }
        }
        match Range::from_str(tok) {
            Err(e) => {
                proof {
                    lemma_first_err(toks, 0);
                }
                Err(e)
            },
            Ok(rg) => {
                if k == n {
                    let mut v: Vec<Range> = Vec::new();
                    v.push(rg);
                    proof {
                        assert(toks.len() == 1);
                        assert(toks.skip(1) =~~= Seq::<Seq<char>>::empty());
                        assert(first_err(toks) is None);
                    }
                    Ok(RangeVec { ranges: v })
                } else {
                    let rest_str = s.substring_char(k + 1, n);
                    proof {
                        assert(rest_str@ == s@.skip(k + 1));
                        assert(toks.skip(1) =~~= split_at_commas(rest_str@));
                        assert(forall|j: int|
                            0 <= j < toks.len() - 1 ==> #[trigger] toks.skip(1)[j] == toks[j + 1]);
                    }
                    match Self::from_str(rest_str) {
                        Err(e) => {
                            proof {
                                assert(first_err(toks) == first_err(toks.skip(1)));
                            }
                            Err(e)
                        },
                        Ok(mut rv) => {
                            rv.ranges.insert(0, rg);
                            proof {
                                assert(first_err(toks) == first_err(toks.skip(1)));
                                assert forall|i: int|
                                    0 <= i < rv@.len() implies (#[trigger] rv@[i]).start as int
                                    == token_val(toks[i]).0 && rv@[i].end as int == token_val(
                                    toks[i],
                                ).1 by {
                                    if i > 0 {
                                        assert(toks[i] == split_at_commas(rest_str@)[i - 1]);
                                    }
                                }
                            }
                            Ok(rv)
                        },
                    }
                }
            },
        }
    }

    /// Render the collection as text: ranges joined by `", "`, each as
    /// `start-end` with a zero start omitted.
    pub fn to_string(&self) -> (r: String)
        ensures
            r@ == fmt_ranges(self@),
    {
        let mut out = String::new();
        let mut i: usize = 0;
        let len = self.ranges.len();
        while i < len
            invariant
                i <= len,
                len == self@.len(),
                out@ == fmt_ranges(self@.take(i as int)),
            decreases len - i,
        {
            if i > 0 {
                proof {
                    reveal_strlit(", ");
                }
                out.append(", ");
            }
            let h = range_str(self.ranges[i]);
            out.append(h.as_str());
            proof {
                assert(self@.take(i + 1) =~= self@.take(i as int).push(self@[i as int]));
                lemma_fmt_ranges_push(self@.take(i as int), self@[i as int]);
                assert(out@ =~= fmt_ranges(self@.take(i + 1)));
            }
            i += 1;
        }
        proof {
            assert(self@.take(len as int) =~= self@);
        }
        out
    }
}


} // verus!
