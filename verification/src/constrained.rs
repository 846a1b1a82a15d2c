//! Range lists over the byte domain `0..=255`.
//!
//! The merge sweeps a counting array indexed by value: each range increments
//! the slot at its start and decrements the slot at its end, so a range is
//! treated as covering the half-open span `[start, end)`. A zero-width range
//! therefore contributes nothing unless another range overlaps it.

use vstd::prelude::*;

use crate::text::{
    count_where, dash_pred, digits_val, first_where, fmt_nat,
    lemma_count_where_concat, lemma_count_where_zero, lemma_first_where_is, lemma_fmt_nat,
    lemma_split_first, lemma_split_len, lemma_trim_end_idx_is, lemma_trim_leading_space,
    msg_empty_number, msg_invalid_digit, msg_too_large, msg_wrong_format, nat_str,
    non_digit_pred, non_space_pred, parse_mag, scan_comma, scan_non_digit, spec_trim,
    split_at_commas, trim_str,
};

verus! {

/// A span of byte values. When emitted by [`calc`] it covers the points
/// `start..end` (half-open) and satisfies `start < end`.
#[derive(Clone, Copy, PartialEq, Eq, Structural, Debug)]
pub struct Range {
    pub start: u8,
    pub end: u8,
}

/// An ordered collection of ranges: insertion order before a merge, sorted
/// and disjoint after.
#[derive(Debug)]
pub struct RangeVec {
    pub ranges: Vec<Range>,
}

impl View for RangeVec {
    type V = Seq<Range>;

    open spec fn view(&self) -> Seq<Range> {
        self.ranges@
    }
}

/// Every range runs forward: `start <= end`.
pub open spec fn wf(rs: Seq<Range>) -> bool {
    forall|i: int| 0 <= i < rs.len() ==> #[trigger] rs[i].start <= rs[i].end
}

/// Point `x` lies in the half-open span of some range of `rs`.
pub open spec fn covers(rs: Seq<Range>, x: int) -> bool {
    exists|i: int| 0 <= i < rs.len() && #[trigger] rs[i].start <= x < rs[i].end
}

/// Sorted ascending, non-empty spans, with a gap between neighbours.
pub open spec fn merged(rs: Seq<Range>) -> bool {
    &&& forall|i: int| 0 <= i < rs.len() ==> #[trigger] rs[i].start < rs[i].end
    &&& forall|i: int| 0 <= i < rs.len() - 1 ==> #[trigger] rs[i].end < rs[i + 1].start
}

spec fn n_start_at(rs: Seq<Range>, v: int) -> int
    decreases rs.len(),
{
    if rs.len() == 0 {
        0
    } else {
        n_start_at(rs.drop_last(), v) + if rs.last().start == v {
            1int
        } else {
            0int
        }
    }
}

spec fn n_end_at(rs: Seq<Range>, v: int) -> int
    decreases rs.len(),
{
    if rs.len() == 0 {
        0
    } else {
        n_end_at(rs.drop_last(), v) + if rs.last().end == v {
            1int
        } else {
            0int
        }
    }
}

spec fn n_start_le(rs: Seq<Range>, v: int) -> int
    decreases rs.len(),
{
    if rs.len() == 0 {
        0
    } else {
        n_start_le(rs.drop_last(), v) + if rs.last().start <= v {
            1int
        } else {
            0int
        }
    }
}

spec fn n_end_le(rs: Seq<Range>, v: int) -> int
    decreases rs.len(),
{
    if rs.len() == 0 {
        0
    } else {
        n_end_le(rs.drop_last(), v) + if rs.last().end <= v {
            1int
        } else {
            0int
        }
    }
}

/// Number of ranges whose half-open span contains `x`.
spec fn cov_count(rs: Seq<Range>, x: int) -> int
    decreases rs.len(),
{
    if rs.len() == 0 {
        0
    } else {
        cov_count(rs.drop_last(), x) + if rs.last().start <= x < rs.last().end {
            1int
        } else {
            0int
        }
    }
}

proof fn lemma_at_bounds(rs: Seq<Range>, v: int)
    ensures
        0 <= n_start_at(rs, v) <= rs.len(),
        0 <= n_end_at(rs, v) <= rs.len(),
    decreases rs.len(),
{
    if rs.len() > 0 {
        lemma_at_bounds(rs.drop_last(), v);
    }
}

proof fn lemma_le_step(rs: Seq<Range>, v: int)
    ensures
        n_start_le(rs, v) == n_start_le(rs, v - 1) + n_start_at(rs, v),
        n_end_le(rs, v) == n_end_le(rs, v - 1) + n_end_at(rs, v),
    decreases rs.len(),
{
    if rs.len() > 0 {
        lemma_le_step(rs.drop_last(), v);
    }
}

proof fn lemma_cov_count_char(rs: Seq<Range>, x: int)
    requires
        wf(rs),
    ensures
        cov_count(rs, x) == n_start_le(rs, x) - n_end_le(rs, x),
    decreases rs.len(),
{
    if rs.len() > 0 {
        assert(wf(rs.drop_last())) by {
            assert(forall|i: int|
                0 <= i < rs.len() - 1 ==> #[trigger] rs.drop_last()[i] == rs[i]);
        }
        lemma_cov_count_char(rs.drop_last(), x);
        assert(rs[rs.len() - 1].start <= rs[rs.len() - 1].end);
    }
}

proof fn lemma_cov_bounds(rs: Seq<Range>, x: int)
    ensures
        0 <= cov_count(rs, x) <= rs.len(),
        cov_count(rs, x) > 0 <==> covers(rs, x),
        x < 0 ==> cov_count(rs, x) == 0,
        x >= 255 ==> cov_count(rs, x) == 0,
    decreases rs.len(),
{
    if rs.len() > 0 {
        lemma_cov_bounds(rs.drop_last(), x);
        let last = rs[rs.len() - 1];
        if last.start <= x < last.end {
            assert(covers(rs, x));
        }
        if cov_count(rs, x) > 0 && !(last.start <= x < last.end) {
            let i = choose|i: int|
                0 <= i < rs.drop_last().len() && #[trigger] rs.drop_last()[i].start <= x
                    < rs.drop_last()[i].end;
            assert(rs[i] == rs.drop_last()[i]);
            assert(covers(rs, x));
        }
        if covers(rs, x) && !(last.start <= x < last.end) {
            let i = choose|i: int| 0 <= i < rs.len() && #[trigger] rs[i].start <= x < rs[i].end;
            assert(rs.drop_last()[i] == rs[i]);
            assert(covers(rs.drop_last(), x));
        }
    }
}

proof fn lemma_extreme(rs: Seq<Range>)
    ensures
        n_start_le(rs, 255) == rs.len(),
        n_end_le(rs, 255) == rs.len(),
        cov_count(rs, -1) == 0,
    decreases rs.len(),
{
    if rs.len() > 0 {
        lemma_extreme(rs.drop_last());
    }
}

/// Merge a collection of byte ranges.
///
/// The result lists, sorted ascending and separated by gaps, exactly the
/// maximal runs of points that some input range covers; a range covers the
/// half-open span `[start, end)`, so touching ranges fuse and a zero-width
/// range on its own vanishes.
pub fn calc(items: RangeVec) -> (r: RangeVec)
    requires
        wf(items@),
    ensures
        merged(r@),
        forall|x: int| covers(r@, x) <==> covers(items@, x),
{
    let ghost rs = items@;
    let n = items.ranges.len();
    let mut track: Vec<i128> = Vec::new();
    let mut k: usize = 0;
    while k < 256
        invariant
            track@.len() == k,
            k <= 256,
            forall|v: int| 0 <= v < k ==> track@[v] == 0,
        decreases 256 - k,
    {
        track.push(0);
        k += 1;
    }
    proof {
        assert(forall|v: int| 0 <= v < 256 ==> rs.take(0).len() == 0 && track@[v] == 0);
    }
    let mut j: usize = 0;
    while j < n
        invariant
            j <= n,
            n == rs.len(),
            items@ == rs,
            items.ranges@ == rs,
            wf(rs),
            track@.len() == 256,
            forall|v: int|
                0 <= v < 256 ==> #[trigger] track@[v] == n_start_at(rs.take(j as int), v)
                    - n_end_at(rs.take(j as int), v),
            forall|v: int| 0 <= v < 256 ==> -(j as int) <= #[trigger] track@[v] <= j as int,
        decreases n - j,
    {
        let s = items.ranges[j].start;
        let e = items.ranges[j].end;
        let t0 = track[s as usize];
        track[s as usize] = t0 + 1;
        let t1 = track[e as usize];
        track[e as usize] = t1 - 1;
        proof {
            assert(rs.take(j + 1).drop_last() =~= rs.take(j as int));
            assert(rs.take(j + 1).last() == rs[j as int]);
            assert forall|v: int| 0 <= v < 256 implies #[trigger] track@[v] == n_start_at(
                rs.take(j + 1),
                v,
            ) - n_end_at(rs.take(j + 1), v) && -(j + 1) <= track@[v] <= j + 1 by {
                assert(n_start_at(rs.take(j + 1), v) == n_start_at(rs.take(j as int), v) + if rs[j
                    as int].start == v {
                    1int
                } else {
                    0int
                });
                assert(n_end_at(rs.take(j + 1), v) == n_end_at(rs.take(j as int), v) + if rs[j
                    as int].end == v {
                    1int
                } else {
                    0int
                });
            }
        }
        j += 1;
    }
    proof {
        assert(rs.take(n as int) =~= rs);
    }
    let mut result: Vec<Range> = Vec::new();
    let mut current: u8 = 0;
    let mut cnt: i128 = 0;
    let mut idx: usize = 0;
    proof {
        lemma_extreme(rs);
    }
    while idx < 256
        invariant
            idx <= 256,
            wf(rs),
            n == rs.len(),
            track@.len() == 256,
            forall|v: int|
                0 <= v < 256 ==> #[trigger] track@[v] == n_start_at(rs, v) - n_end_at(rs, v),
            cnt == cov_count(rs, idx - 1),
            forall|q: int| 0 <= q < result@.len() ==> #[trigger] result@[q].start < result@[q].end,
            forall|q: int|
                0 <= q < result@.len() - 1 ==> #[trigger] result@[q].end < result@[q + 1].start,
            cnt == 0 ==> (forall|x: int| x < idx ==> (covers(result@, x) <==> covers(rs, x)))
                && (forall|q: int| 0 <= q < result@.len() ==> #[trigger] result@[q].end < idx),
            cnt > 0 ==> {
                &&& current < idx
                &&& cov_count(rs, current - 1) == 0
                &&& forall|x: int| current <= x < idx ==> cov_count(rs, x) > 0
                &&& forall|x: int| x < current ==> (covers(result@, x) <==> covers(rs, x))
                &&& forall|q: int|
                    0 <= q < result@.len() ==> #[trigger] result@[q].end < current
            },
            cnt >= 0,
        decreases 256 - idx,
    {
        let val = track[idx];
        proof {
            lemma_at_bounds(rs, idx as int);
            lemma_le_step(rs, idx as int);
            lemma_cov_count_char(rs, idx as int);
            lemma_cov_count_char(rs, idx - 1);
            lemma_cov_bounds(rs, idx as int);
            lemma_cov_bounds(rs, idx - 1);
            assert(cov_count(rs, idx as int) == cnt + val);
        }
        if cnt == 0 && val > 0 {
            current = idx as u8;
        }
        if cnt > 0 && cnt + val == 0 {
            let ghost res0 = result@;
            result.push(
                Range { start: current, end: idx as u8 },
            );
            proof {
                assert(result@ =~= res0.push(Range { start: current, end: idx as u8 }));
                assert forall|x: int| x < idx + 1 implies (covers(result@, x) <==> covers(
                    rs,
                    x,
                )) by {
                    let m = result@.len() - 1;
                    if x < current {
                        assert(covers(res0, x) <==> covers(rs, x));
                        if covers(res0, x) {
                            let i = choose|i: int|
                                0 <= i < res0.len() && #[trigger] res0[i].start <= x < res0[i].end;
                            assert(result@[i] == res0[i]);
                            assert(covers(result@, x));
                        }
                        if covers(result@, x) {
                            let i = choose|i: int|
                                0 <= i < result@.len() && #[trigger] result@[i].start <= x
                                    < result@[i].end;
                            assert(i < m);
                            assert(res0[i] == result@[i]);
                            assert(covers(res0, x));
                        }
                    } else if x < idx {
                        assert(cov_count(rs, x) > 0);
                        lemma_cov_bounds(rs, x);
                        assert(result@[m].start <= x < result@[m].end);
                    } else {
                        assert(x == idx);
                        assert(cov_count(rs, idx as int) == 0);
                        if covers(result@, x) {
                            let i = choose|i: int|
                                0 <= i < result@.len() && #[trigger] result@[i].start <= x
                                    < result@[i].end;
                            assert(false);
                        }
                    }
                }
            }
        }
        proof {
            if cnt == 0 && val <= 0 {
                assert(cov_count(rs, idx as int) <= 0);
            }
        }
        cnt = cnt + val;
        idx += 1;
    }
    proof {
        assert(cov_count(rs, 255) == n_start_le(rs, 255) - n_end_le(rs, 255)) by {
            lemma_cov_count_char(rs, 255);
        }
        assert(cnt == 0);
        assert forall|x: int| covers(result@, x) <==> covers(rs, x) by {
            if x < 256 {
            } else {
                if covers(result@, x) {
                    let i = choose|i: int|
                        0 <= i < result@.len() && #[trigger] result@[i].start <= x < result@[i].end;
                    assert(false);
                }
                if covers(rs, x) {
                    let i = choose|i: int|
                        0 <= i < rs.len() && #[trigger] rs[i].start <= x < rs[i].end;
                    assert(false);
                }
            }
        }
    }
    RangeVec { ranges: result }
}

proof fn lemma_merged_order(rs: Seq<Range>, i: int, j: int)
    requires
        merged(rs),
        0 <= i <= j < rs.len(),
    ensures
        rs[i].start <= rs[j].start,
        i < j ==> rs[i].end < rs[j].start,
    decreases j - i,
{
    if i < j {
        lemma_merged_order(rs, i, j - 1);
        assert(rs[j - 1].end < rs[j].start);
    }
}

/// Merging is idempotent: the merged form of a coverage is unique, so two
/// merged collections that cover the same points are equal. In particular,
/// since [`calc`] returns a merged collection with the coverage of its
/// input, `calc(calc(x)) == calc(x)` for every well-formed `x`.
#[verifier::rlimit(100)]
pub proof fn lemma_merge_idempotent(y: Seq<Range>, z: Seq<Range>)
    requires
        merged(y),
        merged(z),
        forall|x: int| covers(y, x) <==> covers(z, x),
    ensures
        y == z,
    decreases y.len(),
{
    if y.len() == 0 {
        if z.len() > 0 {
            assert(z[0].start <= z[0].start < z[0].end);
            assert(covers(z, z[0].start as int));
            assert(false);
        }
        assert(y =~= z);
    } else if z.len() == 0 {
        assert(covers(y, y[0].start as int));
        assert(false);
    } else {
        let a = y[0];
        let b = z[0];
        assert(a.start < a.end && b.start < b.end);
        // equal starts: each head starts at the least covered point
        assert(covers(y, a.start as int));
        assert(covers(z, b.start as int));
        let jz = choose|j: int| 0 <= j < z.len() && #[trigger] z[j].start <= a.start < z[j].end;
        lemma_merged_order(z, 0, jz);
        let jy = choose|j: int| 0 <= j < y.len() && #[trigger] y[j].start <= b.start < y[j].end;
        lemma_merged_order(y, 0, jy);
        assert(a.start == b.start);
        // equal ends: the head's end is the first uncovered point after it
        if b.end < a.end {
            assert(a.start <= b.end < a.end);
            assert(covers(y, b.end as int));
            let j = choose|j: int| 0 <= j < z.len() && #[trigger] z[j].start <= b.end < z[j].end;
            if j > 0 {
                lemma_merged_order(z, 0, j);
            }
            assert(false);
        }
        if a.end < b.end {
            assert(covers(z, a.end as int));
            let j = choose|j: int| 0 <= j < y.len() && #[trigger] y[j].start <= a.end < y[j].end;
            if j > 0 {
                lemma_merged_order(y, 0, j);
            }
            assert(false);
        }
        assert(a == b);
        let ys = y.skip(1);
        let zs = z.skip(1);
        assert(forall|q: int| 0 <= q < ys.len() ==> #[trigger] ys[q] == y[q + 1]);
        assert(forall|q: int| 0 <= q < zs.len() ==> #[trigger] zs[q] == z[q + 1]);
        assert forall|x: int| covers(ys, x) <==> covers(zs, x) by {
            assert forall|x2: int| covers(ys, x2) implies covers(y, x2) && x2 > y[0].end by {
                let i = choose|i: int| 0 <= i < ys.len() && #[trigger] ys[i].start <= x2 < ys[i].end;
                assert(y[i + 1].start <= x2 < y[i + 1].end);
                lemma_merged_order(y, 0, i + 1);
            }
            assert forall|x2: int| covers(zs, x2) implies covers(z, x2) && x2 > z[0].end by {
                let i = choose|i: int| 0 <= i < zs.len() && #[trigger] zs[i].start <= x2 < zs[i].end;
                assert(z[i + 1].start <= x2 < z[i + 1].end);
                lemma_merged_order(z, 0, i + 1);
            }
            if covers(y, x) && x > y[0].end {
                let i = choose|i: int| 0 <= i < y.len() && #[trigger] y[i].start <= x < y[i].end;
                assert(i > 0);
                assert(ys[i - 1] == y[i]);
                assert(covers(ys, x));
            }
            if covers(z, x) && x > z[0].end {
                let i = choose|i: int| 0 <= i < z.len() && #[trigger] z[i].start <= x < z[i].end;
                assert(i > 0);
                assert(zs[i - 1] == z[i]);
                assert(covers(zs, x));
            }
        }
        assert(merged(ys));
        assert(merged(zs));
        lemma_merge_idempotent(ys, zs);
        assert forall|i: int| 0 <= i < y.len() implies y[i] == z[i] by {
            if i > 0 {
                assert(y[i] == ys[i - 1]);
                assert(z[i] == zs[i - 1]);
            }
        }
        assert(y =~= z);
    }
}

/// A parse failure; it carries the description of what went wrong.
#[derive(Debug)]
pub struct RangeParseError {
    msg: String,
}

impl View for RangeParseError {
    type V = Seq<char>;

    closed spec fn view(&self) -> Seq<char> {
        self.msg@
    }
}

impl RangeParseError {
    /// The stored description of the failure.
    pub fn message(&self) -> (r: &str)
        ensures
            r@ == self@,
    {
        self.msg.as_str()
    }
}

fn err_of(m: &str) -> (r: RangeParseError)
    ensures
        r@ == m@,
{
    RangeParseError { msg: m.to_owned() }
}

/// What parsing one `-`-separated numeric piece reports: nothing, or the
/// description of the first failure a left-to-right scan meets.
pub open spec fn piece_err(p: Seq<char>) -> Option<Seq<char>> {
    let k = first_where(p, non_digit_pred());
    if p.len() == 0 {
        Some(msg_empty_number())
    } else if digits_val(p.take(k)) > 255 {
        Some(msg_too_large())
    } else if k < p.len() {
        Some(msg_invalid_digit())
    } else {
        None
    }
}

/// What parsing one token reports. A trimmed token must hold exactly one
/// `-`; the piece before it may be empty (meaning 0), the piece after it
/// must be a decimal byte.
pub open spec fn token_err(tok: Seq<char>) -> Option<Seq<char>> {
    let t = spec_trim(tok);
    if count_where(t, dash_pred()) != 1 {
        Some(msg_wrong_format())
    } else {
        let d = first_where(t, dash_pred());
        let a = t.take(d);
        let b = t.skip(d + 1);
        if a.len() > 0 && piece_err(a) is Some {
            piece_err(a)
        } else {
            piece_err(b)
        }
    }
}

/// The two values of a well-formed token (an empty start piece means 0).
pub open spec fn token_val(tok: Seq<char>) -> (int, int) {
    let t = spec_trim(tok);
    let d = first_where(t, dash_pred());
    (digits_val(t.take(d)), digits_val(t.skip(d + 1)))
}

/// The first failure over a token list, scanning left to right.
pub open spec fn first_err(toks: Seq<Seq<char>>) -> Option<Seq<char>>
    decreases toks.len(),
{
    if toks.len() == 0 {
        None
    } else if token_err(toks[0]) is Some {
        token_err(toks[0])
    } else {
        first_err(toks.skip(1))
    }
}

fn parse_piece(t: &str, lo: usize, hi: usize) -> (r: Result<u8, RangeParseError>)
    requires
        lo <= hi <= t@.len(),
    ensures
        (match r {
            Ok(v) => piece_err(t@.subrange(lo as int, hi as int)) is None && v as int == digits_val(
                t@.subrange(lo as int, hi as int),
            ),
            Err(e) => piece_err(t@.subrange(lo as int, hi as int)) == Some(e@),
        }),
{
    let ghost sub = t@.subrange(lo as int, hi as int);
    if lo == hi {
        return Err(err_of("cannot parse integer from empty string"));
    }
    let k = scan_non_digit(t, lo, hi);
    proof {
        assert(forall|j: int| 0 <= j < sub.len() ==> #[trigger] sub[j] == t@[lo + j]);
        assert(sub.take(k - lo) =~= t@.subrange(lo as int, k as int));
    }
    match parse_mag(t, lo, k) {
        None => {
            proof {
                assert(digits_val(sub.take(k - lo)) > 255);
            }
            Err(err_of("number too large to fit in target type"))
        },
        Some(v) => {
            if v > 255 {
                Err(err_of("number too large to fit in target type"))
            } else if k < hi {
                Err(err_of("invalid digit found in string"))
            } else {
                proof {
                    assert(sub.take(k - lo) =~= sub);
                }
                Ok(v as u8)
            }
        },
    }
}

fn parse_token(tok: &str) -> (r: Result<Range, RangeParseError>)
    ensures
        (match r {
            Ok(rg) => token_err(tok@) is None && rg.start as int == token_val(tok@).0 && rg.end
                as int == token_val(tok@).1,
            Err(e) => token_err(tok@) == Some(e@),
        }),
{
    let t = trim_str(tok);
    let n = t.unicode_len();
    let mut i: usize = 0;
    let mut dashes: usize = 0;
    let mut d: usize = 0;
    while i < n
        invariant
            i <= n,
            n == t@.len(),
            t@ == spec_trim(tok@),
            dashes <= i,
            dashes as int == count_where(t@.take(i as int), dash_pred()),
            dashes > 0 ==> d < i && t@[d as int] == '-' && (forall|j: int|
                0 <= j < d ==> t@[j] != '-'),
            dashes == 0 ==> forall|j: int| 0 <= j < i ==> t@[j] != '-',
        decreases n - i,
    {
        let c = t.get_char(i);
        proof {
            assert(t@.take(i + 1).drop_last() =~= t@.take(i as int));
            assert(t@.take(i + 1).last() == t@[i as int]);
        }
        if c == '-' {
            if dashes == 0 {
                d = i;
            }
            dashes += 1;
        }
        i += 1;
    }
    proof {
        assert(t@.take(n as int) =~= t@);
    }
    if dashes != 1 {
        return Err(err_of("Wrong format"));
    }
    proof {
        lemma_first_where_is(t@, dash_pred(), d as int);
        assert(t@.subrange(0, d as int) =~= t@.take(d as int));
        assert(t@.subrange(d + 1, n as int) =~= t@.skip(d + 1));
    }
    let start_v: u8 = if d == 0 {
        0
    } else {
        match parse_piece(t, 0, d) {
            Ok(v) => v,
            Err(e) => {
                return Err(e);
            },
        }
    };
    let end_v: u8 = match parse_piece(t, d + 1, n) {
        Ok(v) => v,
        Err(e) => {
            return Err(e);
        },
    };
    Ok(Range { start: start_v, end: end_v })
}

proof fn lemma_first_err(toks: Seq<Seq<char>>, i: int)
    requires
        0 <= i <= toks.len(),
        forall|j: int| 0 <= j < i ==> token_err(#[trigger] toks[j]) is None,
    ensures
        i == toks.len() ==> first_err(toks) is None,
        i < toks.len() && token_err(toks[i]) is Some ==> first_err(toks) == token_err(toks[i]),
    decreases toks.len(),
{
    if toks.len() > 0 {
        if i == 0 {
        } else {
            assert(token_err(toks[0]) is None);
            assert(forall|j: int| 0 <= j < i - 1 ==> #[trigger] toks.skip(1)[j] == toks[j + 1]);
            if i < toks.len() {
                assert(toks.skip(1)[i - 1] == toks[i]);
            }
            lemma_first_err(toks.skip(1), i - 1);
        }
    }
}

/// The text of one range: `start`, `-`, `end`, with the start omitted when
/// it is zero.
pub open spec fn fmt_range(r: Range) -> Seq<char> {
    (if r.start == 0 {
        Seq::<char>::empty()
    } else {
        fmt_nat(r.start as int)
    }) + seq!['-'] + fmt_nat(r.end as int)
}

/// What follows the first range in the joined text: `", "` before each
/// further range.
pub open spec fn fmt_rest(rs: Seq<Range>) -> Seq<char>
    decreases rs.len(),
{
    if rs.len() == 0 {
        Seq::<char>::empty()
    } else {
        seq![',', ' '] + fmt_range(rs[0]) + fmt_rest(rs.skip(1))
    }
}

/// The text of a collection: its ranges joined by `", "`.
pub open spec fn fmt_ranges(rs: Seq<Range>) -> Seq<char>
    decreases rs.len(),
{
    if rs.len() == 0 {
        Seq::<char>::empty()
    } else {
        fmt_range(rs[0]) + fmt_rest(rs.skip(1))
    }
}

proof fn lemma_fmt_rest_push(rs: Seq<Range>, r: Range)
    ensures
        fmt_rest(rs.push(r)) == fmt_rest(rs) + seq![',', ' '] + fmt_range(r),
    decreases rs.len(),
{
    if rs.len() == 0 {
        assert(rs.push(r)[0] == r);
        assert(rs.push(r).skip(1) =~= Seq::<Range>::empty());
        assert(fmt_rest(rs.push(r).skip(1)) =~= Seq::<char>::empty());
        assert(fmt_rest(rs.push(r)) == seq![',', ' '] + fmt_range(r) + fmt_rest(
            rs.push(r).skip(1),
        ));
        assert(fmt_rest(rs.push(r)) =~= fmt_rest(rs) + seq![',', ' '] + fmt_range(r));
    } else {
        assert(rs.push(r)[0] == rs[0]);
        assert(rs.push(r).skip(1) =~= rs.skip(1).push(r));
        lemma_fmt_rest_push(rs.skip(1), r);
        assert(fmt_rest(rs.push(r)) == seq![',', ' '] + fmt_range(rs[0]) + fmt_rest(
            rs.push(r).skip(1),
        ));
        assert(fmt_rest(rs.push(r)) =~= fmt_rest(rs) + seq![',', ' '] + fmt_range(r));
    }
}

proof fn lemma_fmt_ranges_push(rs: Seq<Range>, r: Range)
    ensures
        rs.len() == 0 ==> fmt_ranges(rs.push(r)) == fmt_range(r),
        rs.len() > 0 ==> fmt_ranges(rs.push(r)) == fmt_ranges(rs) + seq![',', ' '] + fmt_range(r),
{
    if rs.len() == 0 {
        assert(rs.push(r)[0] == r);
        assert(rs.push(r).skip(1) =~= Seq::<Range>::empty());
        assert(fmt_ranges(rs.push(r)) =~= fmt_range(r));
    } else {
        assert(rs.push(r)[0] == rs[0]);
        assert(rs.push(r).skip(1) =~= rs.skip(1).push(r));
        lemma_fmt_rest_push(rs.skip(1), r);
        assert(fmt_ranges(rs.push(r)) =~= fmt_ranges(rs) + seq![',', ' '] + fmt_range(r));
    }
}

fn range_str(rg: Range) -> (r: String)
    ensures
        r@ == fmt_range(rg),
{
    let mut out = String::new();
    if rg.start != 0 {
        let h = nat_str(rg.start as u32);
        out.append(h.as_str());
    }
    proof {
        reveal_strlit("-");
    }
    out.append("-");
    let e = nat_str(rg.end as u32);
    out.append(e.as_str());
    proof {
        assert(out@ =~= fmt_range(rg));
    }
    out
}

#[verifier::rlimit(100)]
proof fn lemma_fmt_range_token(r: Range)
    ensures
        fmt_range(r).len() >= 2,
        forall|j: int|
            0 <= j < fmt_range(r).len() ==> #[trigger] fmt_range(r)[j] != ','
                && fmt_range(r)[j] != ' ',
        token_err(fmt_range(r)) is None,
        token_val(fmt_range(r)) == (r.start as int, r.end as int),
{
    let va = r.start as int;
    let vb = r.end as int;
    let aa = if r.start == 0 {
        Seq::<char>::empty()
    } else {
        fmt_nat(va)
    };
    let bb = fmt_nat(vb);
    let f = fmt_range(r);
    lemma_fmt_nat(vb);
    if r.start != 0 {
        lemma_fmt_nat(va);
    }
    let d = aa.len() as int;
    assert(f.len() == d + 1 + bb.len());
    assert forall|j: int| 0 <= j < f.len() implies (if j < d {
        f[j] == aa[j]
    } else if j == d {
        f[j] == '-'
    } else {
        f[j] == bb[j - d - 1]
    }) by {
        assert(f == (aa + seq!['-']) + bb);
    }
    assert forall|j: int|
        0 <= j < f.len() implies #[trigger] f[j] != ',' && f[j] != ' ' by {
        if j < d {
            assert(crate::text::is_digit(aa[j]));
        } else if j > d {
            assert(crate::text::is_digit(bb[j - d - 1]));
        }
    }
    lemma_first_where_is(f, non_space_pred(), 0);
    lemma_trim_end_idx_is(f, f.len() as int);
    assert(spec_trim(f) =~= f);
    lemma_count_where_zero(aa, dash_pred());
    lemma_count_where_zero(bb, dash_pred());
    lemma_count_where_concat(aa, seq!['-'], dash_pred());
    lemma_count_where_concat(aa + seq!['-'], bb, dash_pred());
    assert(count_where(seq!['-'], dash_pred()) == 1) by {
        let dd = seq!['-'];
        assert(dd.last() == '-');
        assert(dash_pred()(dd.last()));
        assert(dd.drop_last() =~= Seq::<char>::empty());
        assert(count_where(dd.drop_last(), dash_pred()) == 0);
    }
    assert(count_where(f, dash_pred()) == 1);
    assert forall|j: int| 0 <= j < d implies !(dash_pred()(f[j])) by {
        assert(crate::text::is_digit(aa[j]));
    }
    lemma_first_where_is(f, dash_pred(), d);
    assert(f.take(d) =~= aa);
    assert(f.skip(d + 1) =~= bb);
    if r.start != 0 {
        lemma_first_where_is(aa, non_digit_pred(), aa.len() as int);
        assert(aa.take(aa.len() as int) =~= aa);
        assert(piece_err(aa) is None);
    }
    lemma_first_where_is(bb, non_digit_pred(), bb.len() as int);
    assert(bb.take(bb.len() as int) =~= bb);
    assert(piece_err(bb) is None);
}

/// Rendering a collection and parsing the text back returns exactly its
/// ranges, token for token. Together with [`lemma_merge_idempotent`] this
/// gives the round trip: merging the parse of the text of a merged
/// collection yields that collection again.
#[verifier::rlimit(100)]
pub proof fn lemma_format_parse_round_trip(rs: Seq<Range>)
    requires
        rs.len() >= 1,
    ensures
        split_at_commas(fmt_ranges(rs)).len() == rs.len(),
        first_err(split_at_commas(fmt_ranges(rs))) is None,
        forall|i: int|
            0 <= i < rs.len() ==> token_val(#[trigger] split_at_commas(fmt_ranges(rs))[i]) == (
            rs[i].start as int,
            rs[i].end as int,
        ),
    decreases rs.len(),
{
    let f0 = fmt_range(rs[0]);
    lemma_fmt_range_token(rs[0]);
    let s = fmt_ranges(rs);
    if rs.len() == 1 {
        assert(rs.skip(1) =~= Seq::<Range>::empty());
        assert(s =~= f0);
        lemma_split_first(s, s.len() as int);
        let toks = split_at_commas(s);
        assert(toks =~~= seq![s]);
        assert(toks[0] == f0);
        assert(token_err(toks[0]) is None);
        assert(toks.skip(1) =~~= Seq::<Seq<char>>::empty());
        assert(first_err(toks.skip(1)) is None);
        assert(first_err(toks) is None);
    } else {
        let rest = rs.skip(1);
        let tail = seq![' '] + fmt_ranges(rest);
        assert(rest.len() >= 1);
        assert(fmt_ranges(rest) == fmt_range(rest[0]) + fmt_rest(rest.skip(1)));
        assert(s =~= f0 + seq![','] + tail);
        assert forall|j: int| 0 <= j < f0.len() implies s[j] != ',' by {
            assert(s[j] == f0[j]);
        }
        assert(s[f0.len() as int] == ',');
        lemma_split_first(s, f0.len() as int);
        assert(s.take(f0.len() as int) =~= f0);
        assert(s.skip(f0.len() as int + 1) =~= tail);
        lemma_format_parse_round_trip(rest);
        lemma_split_len(fmt_ranges(rest));
        let tk = split_at_commas(fmt_ranges(rest));
        assert(tail[0] == ' ');
        assert(tail.skip(1) =~= fmt_ranges(rest));
        let tks = split_at_commas(tail);
        assert(tks =~~= seq![seq![' '] + tk[0]] + tk.skip(1));
        let toks = split_at_commas(s);
        assert(toks =~~= seq![f0] + tks);
        lemma_trim_leading_space(tk[0]);
        assert(token_err(seq![' '] + tk[0]) == token_err(tk[0]));
        assert(token_val(seq![' '] + tk[0]) == token_val(tk[0]));
        assert(token_err(tk[0]) is None && first_err(tk) == first_err(tk.skip(1))) by {
            assert(tk.len() >= 1);
            if token_err(tk[0]) is Some {
                assert(first_err(tk) == token_err(tk[0]));
            }
        }
        assert(first_err(toks) == first_err(toks.skip(1))) by {
            assert(toks[0] == f0);
        }
        assert(toks.skip(1) =~~= tks);
        assert(first_err(tks) == first_err(tks.skip(1))) by {
            assert(tks[0] == seq![' '] + tk[0]);
        }
        assert(tks.skip(1) =~~= tk.skip(1));
        assert(first_err(toks) is None);
        assert(toks.len() == rs.len());
        assert forall|i: int| 0 <= i < rs.len() implies token_val(#[trigger] toks[i]) == (
            rs[i].start as int,
            rs[i].end as int,
        ) by {
            if i == 0 {
                assert(toks[0] == f0);
            } else if i == 1 {
                assert(toks[1] == seq![' '] + tk[0]);
                assert(token_val(tk[0]) == (rest[0].start as int, rest[0].end as int));
            } else {
                assert(toks[i] == tk[i - 1]);
                assert(token_val(tk[i - 1]) == (rest[i - 1].start as int, rest[i - 1].end as int));
            }
        }
    }
}

impl RangeVec {
    /// Parse a comma-separated range list such as `"1-5,3-7"`.
    ///
    /// Each token is trimmed of spaces and split at its single `-`; an
    /// empty start piece means 0. A token with any other number of `-`
    /// pieces is a format error, a piece that is not a decimal byte a
    /// number error; the first failure wins and nothing is returned.
    pub fn from_str(s: &str) -> (r: Result<RangeVec, RangeParseError>)
        ensures
            r is Ok <==> first_err(split_at_commas(s@)) is None,
            (match r {
                Ok(rv) => rv@.len() == split_at_commas(s@).len() && forall|i: int|
                    0 <= i < rv@.len() ==> (#[trigger] rv@[i]).start as int == token_val(
                        split_at_commas(s@)[i],
                    ).0 && rv@[i].end as int == token_val(split_at_commas(s@)[i]).1,
                Err(e) => first_err(split_at_commas(s@)) == Some(e@),
            }),
        decreases s@.len(),
    {
        let ghost toks = split_at_commas(s@);
        let n = s.unicode_len();
        let k = scan_comma(s);
        proof {
            lemma_split_first(s@, k as int);
            lemma_split_len(s@);
        }
        let tok = s.substring_char(0, k);
        proof {
            if k < n {
                assert(tok@ =~= s@.take(k as int));
                assert(toks[0] == s@.take(k as int));
            } else {
                assert(tok@ =~= s@);
                assert(toks[0] == s@);
            }
        }
        match parse_token(tok) {
            Err(e) => {
                proof {
                    lemma_first_err(toks, 0);
                }
                Err(e)
            },
            Ok(rg) => {
                if k == n {
                    let mut v: Vec<Range> = Vec::new();
                    v.push(rg);
                    proof {
                        assert(toks.len() == 1);
                        assert(toks.skip(1) =~~= Seq::<Seq<char>>::empty());
                        assert(first_err(toks) is None);
                    }
                    Ok(RangeVec { ranges: v })
                } else {
                    let rest_str = s.substring_char(k + 1, n);
                    proof {
                        assert(rest_str@ == s@.skip(k + 1));
                        assert(toks.skip(1) =~~= split_at_commas(rest_str@));
                        assert(forall|j: int|
                            0 <= j < toks.len() - 1 ==> #[trigger] toks.skip(1)[j] == toks[j + 1]);
                    }
                    match Self::from_str(rest_str) {
                        Err(e) => {
                            proof {
                                assert(first_err(toks) == first_err(toks.skip(1)));
                            }
                            Err(e)
                        },
                        Ok(mut rv) => {
                            rv.ranges.insert(0, rg);
                            proof {
                                assert(first_err(toks) == first_err(toks.skip(1)));
                                assert forall|i: int| 0 <= i < rv@.len() implies (#[trigger] rv@[i]).start
                                    as int == token_val(toks[i]).0 && rv@[i].end as int
                                    == token_val(toks[i]).1 by {
                                    if i > 0 {
                                        assert(toks[i] == split_at_commas(rest_str@)[i - 1]);
                                    }
                                }
                            }
                            Ok(rv)
                        },
                    }
                }
            },
        }
    }

    /// Render the collection as text: ranges joined by `", "`, each as
    /// `start-end` with a zero start omitted.
    pub fn to_string(&self) -> (r: String)
        ensures
            r@ == fmt_ranges(self@),
    {
        let mut out = String::new();
        let mut i: usize = 0;
        let len = self.ranges.len();
        while i < len
            invariant
                i <= len,
                len == self@.len(),
                out@ == fmt_ranges(self@.take(i as int)),
            decreases len - i,
        {
            if i > 0 {
                proof {
                    reveal_strlit(", ");
                }
                out.append(", ");
            }
            let h = range_str(self.ranges[i]);
            out.append(h.as_str());
            proof {
                assert(self@.take(i + 1) =~= self@.take(i as int).push(self@[i as int]));
                lemma_fmt_ranges_push(self@.take(i as int), self@[i as int]);
                assert(out@ =~= fmt_ranges(self@.take(i + 1)));
            }
            i += 1;
        }
        proof {
            assert(self@.take(len as int) =~= self@);
        }
        out
    }
}

} // verus!
