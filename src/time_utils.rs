//! Interval algebra over half-open time ranges: overlap, merge, gap scan,
//! and free/busy aggregation.
use vstd::prelude::*;

use crate::event::{all_occurrences_wf, EventOccurrence};
use crate::sort::{sort_by_start, sorted_by_start, Timed};

verus! {

/// The earliest instant that the library holds: the first second that
/// chrono's `DateTime<Utc>` can represent.
pub const MIN_INSTANT: i64 = -8334601315200;

/// The latest instant that the library holds: the last second that
/// chrono's `DateTime<Utc>` can represent.
pub const MAX_INSTANT: i64 = 8210266876799;

/// `t` lies between the earliest and the latest instant, both included.
pub open spec fn instant_ok(t: int) -> bool {
    MIN_INSTANT <= t <= MAX_INSTANT
}

/// A time range `[start, end)`, in seconds from the Unix epoch.
#[derive(Clone, Copy, Debug, PartialEq, Eq, Structural)]
pub struct TimeRange {
    pub start: i64,
    pub end: i64,
}

pub open spec fn spec_max(a: int, b: int) -> int {
    if a >= b { a } else { b }
}

pub open spec fn spec_min(a: int, b: int) -> int {
    if a <= b { a } else { b }
}

impl TimeRange {
    /// Both ends are instants the library holds, and the range is not reversed.
    pub open spec fn wf(self) -> bool {
        instant_ok(self.start as int) && instant_ok(self.end as int) && self.start <= self.end
    }

    /// Half-open overlap: the ranges share at least one instant.
    pub open spec fn spec_overlaps(self, other: TimeRange) -> bool {
        self.start < other.end && other.start < self.end
    }

    /// Length of the common part of two ranges, zero when they do not overlap.
    pub open spec fn spec_overlap_len(self, other: TimeRange) -> int {
        spec_max(
            0,
            spec_min(self.end as int, other.end as int) - spec_max(
                self.start as int,
                other.start as int,
            ),
        )
    }

    pub open spec fn len(self) -> int {
        self.end - self.start
    }

    pub fn new(start: i64, end: i64) -> (r: TimeRange)
        requires
            start <= end,
        ensures
            r.start == start,
            r.end == end,
    {
        TimeRange { start, end }
    }

    pub fn overlaps(&self, other: &TimeRange) -> (r: bool)
        ensures
            r == self.spec_overlaps(*other),
    {
        self.start < other.end && other.start < self.end
    }

    /// Length in seconds of the part that both ranges cover.
    pub fn overlap_duration(&self, other: &TimeRange) -> (r: i64)
        requires
            self.wf(),
            other.wf(),
        ensures
            r as int == self.spec_overlap_len(*other),
    {
        let overlap_start = if self.start >= other.start {
            self.start
        } else {
            other.start
        };
        let overlap_end = if self.end <= other.end {
            self.end
        } else {
            other.end
        };
        if overlap_start < overlap_end {
            overlap_end - overlap_start
        } else {
            0
        }
    }

    /// Length of the range in seconds.
    pub fn duration(&self) -> (r: i64)
        requires
            self.wf(),
        ensures
            r as int == self.len(),
    {
        self.end - self.start
    }
}

impl Timed for TimeRange {
    open spec fn start_key(&self) -> int {
        self.start as int
    }

    fn start_time(&self) -> (r: i64) {
        self.start
    }
}

/// Every range of `rs` is well formed.
pub open spec fn all_wf(rs: Seq<TimeRange>) -> bool {
    forall|i: int| 0 <= i < rs.len() ==> (#[trigger] rs[i]).wf()
}

/// The ranges are well formed, in order, and pairwise apart: each ends
/// strictly before the next one starts, so no two overlap or touch.
pub open spec fn sorted_disjoint(rs: Seq<TimeRange>) -> bool {
    &&& all_wf(rs)
    &&& forall|i: int, j: int|
        #![trigger rs[i], rs[j]]
        0 <= i < j < rs.len() ==> rs[i].end < rs[j].start
}

/// Closed coverage on a grid of half seconds: the point `x` (in half
/// seconds) lies in some closed range `[2 * start, 2 * end]` of `rs`.
/// Two ranges that touch share a point; two with a gap between them do not.
pub open spec fn covers(rs: Seq<TimeRange>, x: int) -> bool {
    exists|i: int| 0 <= i < rs.len() && 2 * rs[i].start <= x <= 2 * (#[trigger] rs[i]).end
}

/// `out` is the merge of `input`: sorted, pairwise apart, and covering
/// exactly the points that the ranges of `input` cover, so that ranges
/// which overlap or touch become one.
pub open spec fn is_merge_of(out: Seq<TimeRange>, input: Seq<TimeRange>) -> bool {
    &&& sorted_disjoint(out)
    &&& forall|x: int| covers(out, x) == covers(input, x)
}

/// The merge of `input` (see `is_merge_of`; it is unique).
pub open spec fn merged(input: Seq<TimeRange>) -> Seq<TimeRange> {
    choose|out: Seq<TimeRange>| is_merge_of(out, input)
}

/// Two sequences of ranges that are sorted, apart, and cover the same
/// points are equal.
pub proof fn lemma_merge_unique(a: Seq<TimeRange>, b: Seq<TimeRange>)
    requires
        sorted_disjoint(a),
        sorted_disjoint(b),
        forall|x: int| covers(a, x) == covers(b, x),
    ensures
        a == b,
    decreases a.len() + b.len(),
{
    if a.len() == 0 || b.len() == 0 {
        if a.len() > 0 {
            assert(covers(a, 2 * a[0].start));
        }
        if b.len() > 0 {
            assert(covers(b, 2 * b[0].start));
        }
        assert(a =~= b);
    } else {
        let a0 = a[0];
        let b0 = b[0];
        assert(covers(a, 2 * a0.start));
        assert(covers(b, 2 * b0.start));
        assert(a0.start == b0.start) by {
            let i = choose|i: int| 0 <= i < b.len() && 2 * b[i].start <= 2 * a0.start <= 2 * (
            #[trigger] b[i]).end;
            if i > 0 {
                assert(b[0].end < b[i].start);
            }
            let j = choose|j: int| 0 <= j < a.len() && 2 * a[j].start <= 2 * b0.start <= 2 * (
            #[trigger] a[j]).end;
            if j > 0 {
                assert(a[0].end < a[j].start);
            }
        }
        assert(a0.end == b0.end) by {
            if a0.end < b0.end {
                let x = 2 * a0.end + 1;
                assert(covers(b, x));
                let j = choose|j: int| 0 <= j < a.len() && 2 * a[j].start <= x <= 2 * (
                #[trigger] a[j]).end;
                if j > 0 {
                    assert(a[0].end < a[j].start);
                }
            }
            if b0.end < a0.end {
                let x = 2 * b0.end + 1;
                assert(covers(a, x));
                let j = choose|j: int| 0 <= j < b.len() && 2 * b[j].start <= x <= 2 * (
                #[trigger] b[j]).end;
                if j > 0 {
                    assert(b[0].end < b[j].start);
                }
            }
        }
        let ra = a.drop_first();
        let rb = b.drop_first();
        assert forall|x: int| covers(ra, x) == covers(rb, x) by {
            lemma_covers_rest(a, x);
            lemma_covers_rest(b, x);
        }
        assert(sorted_disjoint(ra)) by {
            assert forall|i: int, j: int| 0 <= i < j < ra.len() implies #[trigger] ra[i].end < #[trigger] ra[j].start by {
                assert(ra[i] == a[i + 1] && ra[j] == a[j + 1]);
            }
        }
        assert(sorted_disjoint(rb)) by {
            assert forall|i: int, j: int| 0 <= i < j < rb.len() implies #[trigger] rb[i].end < #[trigger] rb[j].start by {
                assert(rb[i] == b[i + 1] && rb[j] == b[j + 1]);
            }
        }
        lemma_merge_unique(ra, rb);
        assert(a =~= seq![a0] + ra);
        assert(b =~= seq![b0] + rb);
    }
}

/// Without its first range, a sorted and apart sequence covers exactly the
/// points past that range's end.
pub proof fn lemma_covers_rest(a: Seq<TimeRange>, x: int)
    requires
        sorted_disjoint(a),
        a.len() > 0,
    ensures
        covers(a.drop_first(), x) == (covers(a, x) && x > 2 * a[0].end),
{
    let r = a.drop_first();
    if covers(r, x) {
        let i = choose|i: int| 0 <= i < r.len() && 2 * r[i].start <= x <= 2 * (#[trigger] r[i]).end;
        assert(r[i] == a[i + 1]);
        assert(a[0].end < a[i + 1].start);
    }
    if covers(a, x) && x > 2 * a[0].end {
        let i = choose|i: int| 0 <= i < a.len() && 2 * a[i].start <= x <= 2 * (#[trigger] a[i]).end;
        assert(i > 0);
        assert(r[i - 1] == a[i]);
    }
}

/// A sequence that is sorted and apart is its own merge.
pub proof fn lemma_merge_of_itself(a: Seq<TimeRange>)
    requires
        sorted_disjoint(a),
    ensures
        is_merge_of(a, a),
        merged(a) == a,
{
    assert(is_merge_of(a, a));
    let m = merged(a);
    assert(is_merge_of(m, a));
    lemma_merge_unique(m, a);
}

/// Merging is idempotent: when `m` is the merge of `r`, the merge of `m` is
/// `m` again, and it is sorted and pairwise apart.
pub proof fn lemma_merge_idempotent(r: Seq<TimeRange>, m: Seq<TimeRange>)
    requires
        is_merge_of(m, r),
    ensures
        merged(r) == m,
        merged(m) == m,
        sorted_disjoint(m),
{
    let c = merged(r);
    assert(is_merge_of(c, r));
    lemma_merge_unique(c, m);
    lemma_merge_of_itself(m);
}

/// A point is covered by `s` with `r` added when `s` or `r` covers it.
pub proof fn lemma_covers_push(s: Seq<TimeRange>, r: TimeRange, x: int)
    ensures
        covers(s.push(r), x) == (covers(s, x) || (2 * r.start <= x <= 2 * r.end)),
{
    let t = s.push(r);
    if covers(s, x) {
        let i = choose|i: int| 0 <= i < s.len() && 2 * s[i].start <= x <= 2 * (#[trigger] s[i]).end;
        assert(t[i] == s[i]);
    }
    if 2 * r.start <= x <= 2 * r.end {
        assert(t[s.len() as int] == r);
    }
    if covers(t, x) {
        let i = choose|i: int| 0 <= i < t.len() && 2 * t[i].start <= x <= 2 * (#[trigger] t[i]).end;
        if i < s.len() {
            assert(t[i] == s[i]);
        }
    }
}

/// Two sequences that hold the same ranges, in any order, cover the same
/// points, and one is well formed when the other is.
pub proof fn lemma_covers_permutation(a: Seq<TimeRange>, b: Seq<TimeRange>)
    requires
        a.to_multiset() == b.to_multiset(),
        all_wf(b),
    ensures
        all_wf(a),
        a.len() == b.len(),
        forall|x: int| covers(a, x) == covers(b, x),
{
    broadcast use vstd::seq_lib::group_to_multiset_ensures;

    vstd::seq_lib::to_multiset_len(a);
    vstd::seq_lib::to_multiset_len(b);
    assert forall|i: int| 0 <= i < a.len() implies (#[trigger] a[i]).wf() by {
        assert(a.contains(a[i]));
        assert(a.to_multiset().count(a[i]) > 0);
        assert(b.contains(a[i]));
    }
    assert forall|x: int| covers(a, x) == covers(b, x) by {
        if covers(a, x) {
            let i = choose|i: int| 0 <= i < a.len() && 2 * a[i].start <= x <= 2 * (
            #[trigger] a[i]).end;
            assert(a.contains(a[i]));
            assert(a.to_multiset().count(a[i]) > 0);
            assert(b.contains(a[i]));
            let j = choose|j: int| 0 <= j < b.len() && b[j] == a[i];
            assert(2 * b[j].start <= x <= 2 * b[j].end);
        }
        if covers(b, x) {
            let i = choose|i: int| 0 <= i < b.len() && 2 * b[i].start <= x <= 2 * (
            #[trigger] b[i]).end;
            assert(b.contains(b[i]));
            assert(b.to_multiset().count(b[i]) > 0);
            assert(a.contains(b[i]));
            let j = choose|j: int| 0 <= j < a.len() && a[j] == b[i];
            assert(2 * a[j].start <= x <= 2 * a[j].end);
        }
    }
}

/// Merges overlapping or touching ranges into sorted ranges that are
/// pairwise apart. Empty input gives empty output.
pub fn merge_ranges(ranges: &[TimeRange]) -> (r: Vec<TimeRange>)
    requires
        all_wf(ranges@),
    ensures
        is_merge_of(r@, ranges@),
        r@ == merged(ranges@),
{
    let mut copy: Vec<TimeRange> = Vec::new();
    let mut k: usize = 0;
    while k < ranges.len()
        invariant
            k <= ranges@.len(),
            copy@ == ranges@.take(k as int),
        decreases ranges@.len() - k,
    {
        copy.push(ranges[k]);
        k = k + 1;
        assert(copy@ =~= ranges@.take(k as int));
    }
    assert(copy@ =~= ranges@);
    let sorted = sort_by_start(copy);
    proof {
        lemma_covers_permutation(sorted@, ranges@);
    }
    let n = sorted.len();
    let mut out: Vec<TimeRange> = Vec::new();
    if n == 0 {
        assert forall|x: int| covers(out@, x) == covers(ranges@, x) by {
            if covers(sorted@, x) {
                let i = choose|i: int| 0 <= i < sorted@.len() && 2 * sorted@[i].start <= x <= 2 * (
                #[trigger] sorted@[i]).end;
            }
        }
    } else {
        out.push(sorted[0]);
        assert forall|x: int| covers(out@, x) == covers(sorted@.take(1), x) by {
            assert(out@ =~= sorted@.take(1));
        }
        let mut i: usize = 1;
        while i < n
            invariant
                1 <= i <= n,
                n == sorted@.len(),
                all_wf(sorted@),
                sorted_by_start(sorted@),
                out@.len() > 0,
                sorted_disjoint(out@),
                forall|x: int| covers(out@, x) == covers(sorted@.take(i as int), x),
                forall|j: int| i <= j < n ==> out@.last().start <= (#[trigger] sorted@[j]).start,
            decreases n - i,
        {
            let r = sorted[i];
            assert(r.wf());
            let last_idx = out.len() - 1;
            let last = out[last_idx];
            let ghost prev = out@;
            assert(sorted@.take(i + 1) =~= sorted@.take(i as int).push(r));
            if r.start <= last.end {
                let new_end = if r.end > last.end {
                    r.end
                } else {
                    last.end
                };
                let merged_range = TimeRange { start: last.start, end: new_end };
                out.set(last_idx, merged_range);
                assert(prev =~= prev.drop_last().push(last));
                assert(out@ =~= prev.drop_last().push(merged_range));
                assert forall|x: int| covers(out@, x) == covers(sorted@.take(i + 1), x) by {
                    lemma_covers_push(prev.drop_last(), last, x);
                    lemma_covers_push(prev.drop_last(), merged_range, x);
                    lemma_covers_push(sorted@.take(i as int), r, x);
                }
                assert forall|a: int, b: int|
                    #![trigger out@[a], out@[b]]
                    0 <= a < b < out@.len() implies out@[a].end < out@[b].start by {
                    assert(prev[a].end < prev[b].start);
                }
            } else {
                out.push(r);
                assert forall|x: int| covers(out@, x) == covers(sorted@.take(i + 1), x) by {
                    lemma_covers_push(prev, r, x);
                    lemma_covers_push(sorted@.take(i as int), r, x);
                }
                assert forall|a: int, b: int|
                    #![trigger out@[a], out@[b]]
                    0 <= a < b < out@.len() implies out@[a].end < out@[b].start by {
                    if b < prev.len() {
                        assert(prev[a].end < prev[b].start);
                    } else if a < last_idx {
                        assert(prev[a].end < prev[last_idx as int].start);
                    }
                }
            }
            i = i + 1;
        }
        assert(sorted@.take(n as int) =~= sorted@);
    }
    proof {
        let c = merged(ranges@);
        assert(is_merge_of(out@, ranges@));
        assert(is_merge_of(c, ranges@));
        lemma_merge_unique(c, out@);
    }
    out
}

/// The gaps that the sorted, apart busy ranges `m` leave in
/// `[cursor, end)`, left to right: before each busy range, the part of
/// `[cursor, end)` up to its start, after which the cursor moves past the
/// range's end; after the last one, the rest up to `end`. Only gaps that
/// are not empty and at least `min` long are kept.
pub open spec fn gaps(m: Seq<TimeRange>, cursor: i64, end: i64, min: int) -> Seq<TimeRange>
    decreases m.len(),
{
    if m.len() == 0 {
        if cursor < end && end - cursor >= min {
            seq![TimeRange { start: cursor, end: end }]
        } else {
            seq![]
        }
    } else {
        let p = m[0];
        let gap_end = if p.start <= end {
            p.start
        } else {
            end
        };
        let next = if cursor >= p.end {
            cursor
        } else {
            p.end
        };
        let here = if cursor < gap_end && gap_end - cursor >= min {
            seq![TimeRange { start: cursor, end: gap_end }]
        } else {
            seq![]
        };
        here + gaps(m.drop_first(), next, end, min)
    }
}

/// Once the cursor has reached the end, no gap is left.
pub proof fn lemma_gaps_past_end(m: Seq<TimeRange>, cursor: i64, end: i64, min: int)
    requires
        cursor >= end,
    ensures
        gaps(m, cursor, end, min) == Seq::<TimeRange>::empty(),
    decreases m.len(),
{
    if m.len() > 0 {
        let next = if cursor >= m[0].end {
            cursor
        } else {
            m[0].end
        };
        lemma_gaps_past_end(m.drop_first(), next, end, min);
        assert(gaps(m, cursor, end, min) =~= Seq::<TimeRange>::empty());
    }
}

/// Each gap lies in `[cursor, end)`, is well formed, not empty, and at
/// least `min` long.
pub proof fn lemma_gaps_shape(m: Seq<TimeRange>, cursor: i64, end: i64, min: int)
    requires
        all_wf(m),
        instant_ok(cursor as int),
        instant_ok(end as int),
    ensures
        forall|k: int|
            0 <= k < gaps(m, cursor, end, min).len() ==> {
                let g = #[trigger] gaps(m, cursor, end, min)[k];
                &&& g.wf()
                &&& cursor <= g.start < g.end <= end
                &&& g.end - g.start >= min
            },
    decreases m.len(),
{
    if m.len() > 0 {
        let p = m[0];
        assert(p.wf());
        let next = if cursor >= p.end {
            cursor
        } else {
            p.end
        };
        let rest = m.drop_first();
        assert(all_wf(rest)) by {
            assert forall|i: int| 0 <= i < rest.len() implies (#[trigger] rest[i]).wf() by {
                assert(rest[i] == m[i + 1]);
            }
        }
        lemma_gaps_shape(rest, next, end, min);
        let gap_end = if p.start <= end {
            p.start
        } else {
            end
        };
        let here = if cursor < gap_end && gap_end - cursor >= min {
            seq![TimeRange { start: cursor, end: gap_end }]
        } else {
            seq![]
        };
        let all = gaps(m, cursor, end, min);
        assert(all == here + gaps(rest, next, end, min));
        assert forall|k: int| 0 <= k < all.len() implies {
            let g = #[trigger] all[k];
            &&& g.wf()
            &&& cursor <= g.start < g.end <= end
            &&& g.end - g.start >= min
        } by {
            if k >= here.len() {
                assert(all[k] == gaps(rest, next, end, min)[k - here.len()]);
            }
        }
    }
}

/// The gaps come in order, each ending no later than the next starts, and
/// none overlaps a busy range.
pub proof fn lemma_gaps_apart(m: Seq<TimeRange>, cursor: i64, end: i64, min: int)
    requires
        sorted_disjoint(m),
        instant_ok(cursor as int),
        instant_ok(end as int),
    ensures
        ({
            let g = gaps(m, cursor, end, min);
            &&& forall|k: int, l: int| #![trigger g[k], g[l]] 0 <= k < l < g.len() ==> g[k].end <= g[l].start
            &&& forall|k: int, i: int|
                #![trigger g[k], m[i]]
                0 <= k < g.len() && 0 <= i < m.len() ==> !g[k].spec_overlaps(m[i])
        }),
    decreases m.len(),
{
    lemma_gaps_shape(m, cursor, end, min);
    if m.len() > 0 {
        let p = m[0];
        assert(p.wf());
        let next = if cursor >= p.end {
            cursor
        } else {
            p.end
        };
        let rest = m.drop_first();
        assert(sorted_disjoint(rest)) by {
            assert forall|i: int| 0 <= i < rest.len() implies (#[trigger] rest[i]).wf() by {
                assert(rest[i] == m[i + 1]);
            }
            assert forall|i: int, j: int| 0 <= i < j < rest.len() implies #[trigger] rest[i].end
                < #[trigger] rest[j].start by {
                assert(rest[i] == m[i + 1] && rest[j] == m[j + 1]);
            }
        }
        lemma_gaps_apart(rest, next, end, min);
        lemma_gaps_shape(rest, next, end, min);
        let gap_end = if p.start <= end {
            p.start
        } else {
            end
        };
        let here = if cursor < gap_end && gap_end - cursor >= min {
            seq![TimeRange { start: cursor, end: gap_end }]
        } else {
            seq![]
        };
        let tail = gaps(rest, next, end, min);
        let g = gaps(m, cursor, end, min);
        assert(g == here + tail);
        assert forall|k: int, l: int| #![trigger g[k], g[l]] 0 <= k < l < g.len() implies g[k].end
            <= g[l].start by {
            if k >= here.len() {
                assert(g[k] == tail[k - here.len()]);
                assert(g[l] == tail[l - here.len()]);
            } else {
                assert(g[l] == tail[l - here.len()]);
                assert(next <= tail[l - here.len()].start);
            }
        }
        assert forall|k: int, i: int|
            #![trigger g[k], m[i]]
            0 <= k < g.len() && 0 <= i < m.len() implies !g[k].spec_overlaps(m[i]) by {
            if i > 0 {
                assert(m[i] == rest[i - 1]);
                assert(m[0].end < m[i].start);
            }
            if k >= here.len() {
                assert(g[k] == tail[k - here.len()]);
                assert(next <= tail[k - here.len()].start);
            }
        }
    }
}

/// Free slots of at least `min_duration` seconds within `search_range`,
/// given busy ranges: the gaps of the range that the merged busy ranges
/// leave, left to right.
pub fn find_free_slots(busy_periods: &[TimeRange], search_range: &TimeRange, min_duration: i64) -> (r: Vec<
    TimeRange,
>)
    requires
        all_wf(busy_periods@),
        search_range.wf(),
    ensures
        r@ == gaps(merged(busy_periods@), search_range.start, search_range.end, min_duration as int),
        forall|k: int|
            0 <= k < r@.len() ==> {
                let g = #[trigger] r@[k];
                &&& g.wf()
                &&& search_range.start <= g.start < g.end <= search_range.end
                &&& g.end - g.start >= min_duration
            },
        forall|k: int, l: int| #![trigger r@[k], r@[l]] 0 <= k < l < r@.len() ==> r@[k].end <= r@[l].start,
        forall|k: int, j: int|
            #![trigger r@[k], busy_periods@[j]]
            0 <= k < r@.len() && 0 <= j < busy_periods@.len() ==> !r@[k].spec_overlaps(busy_periods@[j]),
{
    let merged_v = merge_ranges(busy_periods);
    let end = search_range.end;
    let ghost m = merged_v@;
    let ghost goal = gaps(m, search_range.start, end, min_duration as int);
    let mut free: Vec<TimeRange> = Vec::new();
    let mut cursor = search_range.start;
    let mut i: usize = 0;
    assert(m.skip(0) =~= m);
    while i < merged_v.len() && cursor < end
        invariant
            i <= m.len(),
            m == merged_v@,
            sorted_disjoint(m),
            instant_ok(cursor as int),
            instant_ok(end as int),
            free@ + gaps(m.skip(i as int), cursor, end, min_duration as int) == goal,
        decreases m.len() - i,
    {
        let p = merged_v[i];
        assert(p.wf());
        let ghost rest = m.skip(i as int);
        assert(rest[0] == p);
        assert(rest.drop_first() =~= m.skip(i + 1));
        let gap_end = if p.start <= end {
            p.start
        } else {
            end
        };
        let ghost before = free@;
        if cursor < gap_end && gap_end - cursor >= min_duration {
            free.push(TimeRange { start: cursor, end: gap_end });
        }
        let ghost here = free@.subrange(before.len() as int, free@.len() as int);
        assert(free@ =~= before + here);
        if cursor < p.end {
            cursor = p.end;
        }
        i = i + 1;
        assert(free@ + gaps(m.skip(i as int), cursor, end, min_duration as int) =~= before + (here
            + gaps(m.skip(i as int), cursor, end, min_duration as int)));
    }
    if cursor >= end {
        proof {
            lemma_gaps_past_end(m.skip(i as int), cursor, end, min_duration as int);
        }
        assert(free@ =~= goal);
    } else {
        assert(m.skip(i as int) =~= Seq::<TimeRange>::empty());
        let ghost before = free@;
        if end - cursor >= min_duration {
            free.push(TimeRange { start: cursor, end: end });
        }
        assert(free@ =~= goal);
    }
    proof {
        lemma_gaps_shape(m, search_range.start, end, min_duration as int);
        lemma_gaps_apart(m, search_range.start, end, min_duration as int);
        let g = free@;
        let bs = busy_periods@;
        assert forall|k: int, j: int|
            #![trigger g[k], bs[j]]
            0 <= k < g.len() && 0 <= j < bs.len() implies !g[k].spec_overlaps(bs[j]) by {
            if g[k].spec_overlaps(bs[j]) {
                assert(bs[j].wf());
                let y = if bs[j].start == bs[j].end {
                    2 * bs[j].start
                } else if g[k].start >= bs[j].start {
                    2 * g[k].start + 1
                } else {
                    2 * bs[j].start + 1
                };
                assert(2 * bs[j].start <= y <= 2 * bs[j].end);
                assert(covers(bs, y));
                assert(covers(m, y));
                let i = choose|i: int| 0 <= i < m.len() && 2 * m[i].start <= y <= 2 * (
                #[trigger] m[i]).end;
                assert(g[k].spec_overlaps(m[i]));
            }
        }
    }
    free
}

/// A merged busy interval with the titles of the occurrences within it.
#[derive(Clone, Debug)]
pub struct BusyPeriod {
    pub range: TimeRange,
    pub event_titles: Vec<String>,
}

/// Busy and free periods of a query range, with their totals in minutes.
#[derive(Clone, Debug)]
pub struct FreeBusyResult {
    pub busy_periods: Vec<BusyPeriod>,
    pub free_periods: Vec<TimeRange>,
    pub total_busy_minutes: i64,
    pub total_free_minutes: i64,
}

/// The part of occurrence `o` that lies within `range`.
pub open spec fn clip(o: EventOccurrence, range: TimeRange) -> TimeRange {
    TimeRange {
        start: if o.start >= range.start {
            o.start
        } else {
            range.start
        },
        end: if o.end <= range.end {
            o.end
        } else {
            range.end
        },
    }
}

/// The clipped ranges of the occurrences that overlap `range`, in input order.
pub open spec fn clipped_ranges(occs: Seq<EventOccurrence>, range: TimeRange) -> Seq<TimeRange>
    decreases occs.len(),
{
    if occs.len() == 0 {
        seq![]
    } else {
        let rest = clipped_ranges(occs.drop_last(), range);
        if occs.last().range().spec_overlaps(range) {
            rest.push(clip(occs.last(), range))
        } else {
            rest
        }
    }
}

/// The titles of the occurrences that overlap `range`, in input order.
pub open spec fn clipped_titles(occs: Seq<EventOccurrence>, range: TimeRange) -> Seq<String>
    decreases occs.len(),
{
    if occs.len() == 0 {
        seq![]
    } else {
        let rest = clipped_titles(occs.drop_last(), range);
        if occs.last().range().spec_overlaps(range) {
            rest.push(occs.last().title)
        } else {
            rest
        }
    }
}

/// Some clipped range that lies within `b` carries the title `t`.
pub open spec fn contributes(rs: Seq<TimeRange>, ts: Seq<String>, b: TimeRange, t: Seq<char>) -> bool {
    exists|j: int|
        0 <= j < rs.len() && j < ts.len() && b.start <= (#[trigger] rs[j]).start && rs[j].end
            <= b.end && ts[j]@ == t
}

/// Some title of `titles` reads `t`.
pub open spec fn has_title(titles: Seq<String>, t: Seq<char>) -> bool {
    exists|q: int| 0 <= q < titles.len() && (#[trigger] titles[q])@ == t
}

/// No two titles of `titles` read the same.
pub open spec fn titles_distinct(titles: Seq<String>) -> bool {
    forall|a: int, b: int|
        #![trigger titles[a], titles[b]]
        0 <= a < b < titles.len() ==> titles[a]@ != titles[b]@
}

/// The ranges of busy periods.
pub open spec fn period_ranges(bs: Seq<BusyPeriod>) -> Seq<TimeRange> {
    bs.map_values(|b: BusyPeriod| b.range)
}

/// Sum of the lengths of the ranges, in seconds.
pub open spec fn total_len(s: Seq<TimeRange>) -> int
    decreases s.len(),
{
    if s.len() == 0 {
        0
    } else {
        total_len(s.drop_last()) + s.last().len()
    }
}

/// Sum of the whole minutes of each range.
pub open spec fn total_minutes(s: Seq<TimeRange>) -> int
    decreases s.len(),
{
    if s.len() == 0 {
        0
    } else {
        total_minutes(s.drop_last()) + s.last().len() / 60
    }
}

pub proof fn lemma_total_len_single(r: TimeRange)
    ensures
        total_len(seq![r]) == r.len(),
{
    reveal_with_fuel(total_len, 2);
    assert(seq![r].drop_last() =~= Seq::<TimeRange>::empty());
}

pub proof fn lemma_total_len_concat(a: Seq<TimeRange>, b: Seq<TimeRange>)
    ensures
        total_len(a + b) == total_len(a) + total_len(b),
    decreases b.len(),
{
    if b.len() == 0 {
        assert(a + b =~= a);
    } else {
        assert((a + b).drop_last() =~= a + b.drop_last());
        lemma_total_len_concat(a, b.drop_last());
    }
}

/// For well-formed ranges, the whole minutes sum to no more than the
/// seconds, and neither sum is negative.
pub proof fn lemma_total_minutes_bounded(s: Seq<TimeRange>)
    requires
        all_wf(s),
    ensures
        0 <= total_minutes(s) <= total_len(s),
    decreases s.len(),
{
    if s.len() > 0 {
        let r = s.drop_last();
        assert(all_wf(r)) by {
            assert forall|i: int| 0 <= i < r.len() implies (#[trigger] r[i]).wf() by {
                assert(r[i] == s[i]);
            }
        }
        assert(s[s.len() - 1].wf());
        lemma_total_minutes_bounded(r);
    }
}

/// Busy ranges and the gaps they leave partition `[c, e)`: their lengths
/// add up to `e - c`.
pub proof fn lemma_partition(m: Seq<TimeRange>, c: i64, e: i64)
    requires
        sorted_disjoint(m),
        c <= e,
        instant_ok(c as int),
        instant_ok(e as int),
        forall|i: int| 0 <= i < m.len() ==> c <= (#[trigger] m[i]).start && m[i].end <= e,
    ensures
        total_len(gaps(m, c, e, 0)) + total_len(m) == e - c,
    decreases m.len(),
{
    if m.len() == 0 {
        if c < e {
            lemma_total_len_single(TimeRange { start: c, end: e });
        }
    } else {
        let p = m[0];
        assert(p.wf());
        let rest = m.drop_first();
        assert(sorted_disjoint(rest)) by {
            assert forall|i: int| 0 <= i < rest.len() implies (#[trigger] rest[i]).wf() by {
                assert(rest[i] == m[i + 1]);
            }
            assert forall|i: int, j: int| 0 <= i < j < rest.len() implies #[trigger] rest[i].end
                < #[trigger] rest[j].start by {
                assert(rest[i] == m[i + 1] && rest[j] == m[j + 1]);
            }
        }
        assert forall|i: int| 0 <= i < rest.len() implies p.end <= (#[trigger] rest[i]).start
            && rest[i].end <= e by {
            assert(rest[i] == m[i + 1]);
            assert(m[0].end < m[i + 1].start);
        }
        lemma_partition(rest, p.end, e);
        let here = if c < p.start {
            seq![TimeRange { start: c, end: p.start }]
        } else {
            seq![]
        };
        assert(gaps(m, c, e, 0) == here + gaps(rest, p.end, e, 0));
        lemma_total_len_concat(here, gaps(rest, p.end, e, 0));
        assert(total_len(here) == p.start - c) by {
            if c < p.start {
                lemma_total_len_single(TimeRange { start: c, end: p.start });
            }
        }
        assert(m =~= seq![p] + rest);
        lemma_total_len_concat(seq![p], rest);
        lemma_total_len_single(p);
    }
}

/// The merge of ranges that lie within `range` lies within it too.
pub proof fn lemma_merged_within(m: Seq<TimeRange>, input: Seq<TimeRange>, range: TimeRange)
    requires
        is_merge_of(m, input),
        forall|i: int|
            0 <= i < input.len() ==> range.start <= (#[trigger] input[i]).start && input[i].end
                <= range.end,
    ensures
        forall|k: int| 0 <= k < m.len() ==> range.start <= (#[trigger] m[k]).start && m[k].end <= range.end,
{
    assert forall|k: int| 0 <= k < m.len() implies range.start <= (#[trigger] m[k]).start && m[k].end
        <= range.end by {
        assert(m[k].wf());
        assert(covers(m, 2 * m[k].start));
        assert(covers(input, 2 * m[k].start));
        let i = choose|i: int| 0 <= i < input.len() && 2 * input[i].start <= 2 * m[k].start <= 2 * (
        #[trigger] input[i]).end;
        assert(covers(m, 2 * m[k].end));
        assert(covers(input, 2 * m[k].end));
        let j = choose|j: int| 0 <= j < input.len() && 2 * input[j].start <= 2 * m[k].end <= 2 * (
        #[trigger] input[j]).end;
    }
}

/// Whether some title of `titles` reads the same as `t`.
pub fn contains_title(titles: &Vec<String>, t: &String) -> (r: bool)
    ensures
        r == has_title(titles@, t@),
{
    let mut q: usize = 0;
    while q < titles.len()
        invariant
            q <= titles@.len(),
            forall|p: int| 0 <= p < q ==> (#[trigger] titles@[p])@ != t@,
        decreases titles@.len() - q,
    {
        if titles[q] == *t {
            return true;
        }
        q = q + 1;
    }
    false
}

/// `r` is the free/busy breakdown of `range` for `occs`: the clipped
/// occurrences merged into busy periods, each with the distinct titles of
/// the occurrences within it, the gaps between them as free periods (busy
/// and free periods partition the range), and the totals in minutes.
pub open spec fn free_busy_of(occs: Seq<EventOccurrence>, range: TimeRange, r: FreeBusyResult) -> bool {
    let rs = clipped_ranges(occs, range);
    let ts = clipped_titles(occs, range);
    let busy = period_ranges(r.busy_periods@);
    &&& busy == merged(rs)
    &&& sorted_disjoint(busy)
    &&& forall|k: int|
        0 <= k < r.busy_periods@.len() ==> {
            let b = #[trigger] r.busy_periods@[k];
            &&& titles_distinct(b.event_titles@)
            &&& forall|t: Seq<char>|
                has_title(b.event_titles@, t) == contributes(rs, ts, b.range, t)
        }
    &&& r.free_periods@ == gaps(busy, range.start, range.end, 0)
    &&& total_len(busy) + total_len(r.free_periods@) == range.len()
    &&& r.total_busy_minutes == total_minutes(busy)
    &&& r.total_free_minutes == range.len() / 60 - total_minutes(busy)
}

/// Free/busy breakdown of `range` for a set of occurrences: the clipped
/// occurrences merged into busy periods, each with the distinct titles of
/// the occurrences within it, and the gaps between them as free periods.
/// Busy and free periods partition the range exactly.
pub fn compute_free_busy(occurrences: &[EventOccurrence], range: &TimeRange) -> (r: FreeBusyResult)
    requires
        all_occurrences_wf(occurrences@),
        range.wf(),
    ensures
        free_busy_of(occurrences@, *range, r),
{
    let ghost occs = occurrences@;
    let mut rs: Vec<TimeRange> = Vec::new();
    let mut ts: Vec<String> = Vec::new();
    let mut i: usize = 0;
    while i < occurrences.len()
        invariant
            i <= occs.len(),
            occs == occurrences@,
            all_occurrences_wf(occs),
            range.wf(),
            rs@ == clipped_ranges(occs.take(i as int), *range),
            ts@ == clipped_titles(occs.take(i as int), *range),
            all_wf(rs@),
            rs@.len() == ts@.len(),
            forall|j: int|
                0 <= j < rs@.len() ==> range.start <= (#[trigger] rs@[j]).start && rs@[j].end
                    <= range.end,
        decreases occs.len() - i,
    {
        let o = &occurrences[i];
        assert(o.wf());
        assert(occs.take(i + 1).drop_last() =~= occs.take(i as int));
        assert(occs.take(i + 1).last() == *o);
        let occ_range = TimeRange::new(o.start, o.end);
        if occ_range.overlaps(range) {
            let s = if o.start >= range.start {
                o.start
            } else {
                range.start
            };
            let e = if o.end <= range.end {
                o.end
            } else {
                range.end
            };
            rs.push(TimeRange { start: s, end: e });
            ts.push(o.title.clone());
        }
        i = i + 1;
    }
    assert(occs.take(occs.len() as int) =~= occs);
    let busy_ranges = merge_ranges(rs.as_slice());
    proof {
        lemma_merged_within(busy_ranges@, rs@, *range);
    }
    let ghost m = busy_ranges@;
    let mut busy_periods: Vec<BusyPeriod> = Vec::new();
    let mut k: usize = 0;
    while k < busy_ranges.len()
        invariant
            k <= m.len(),
            m == busy_ranges@,
            rs@.len() == ts@.len(),
            period_ranges(busy_periods@) == m.take(k as int),
            forall|q: int|
                0 <= q < busy_periods@.len() ==> {
                    let b = #[trigger] busy_periods@[q];
                    &&& titles_distinct(b.event_titles@)
                    &&& forall|t: Seq<char>|
                        has_title(b.event_titles@, t) == contributes(rs@, ts@, b.range, t)
                },
        decreases m.len() - k,
    {
        let b = busy_ranges[k];
        let mut titles: Vec<String> = Vec::new();
        let mut j: usize = 0;
        while j < rs.len()
            invariant
                j <= rs@.len(),
                rs@.len() == ts@.len(),
                titles_distinct(titles@),
                forall|t: Seq<char>|
                    has_title(titles@, t) == contributes(rs@.take(j as int), ts@, b, t),
            decreases rs@.len() - j,
        {
            let ghost prev = titles@;
            if b.start <= rs[j].start && rs[j].end <= b.end {
                if !contains_title(&titles, &ts[j]) {
                    titles.push(ts[j].clone());
                    assert(titles@ == prev.push(ts@[j as int]));
                    assert forall|a: int, c: int|
                        #![trigger titles@[a], titles@[c]]
                        0 <= a < c < titles@.len() implies titles@[a]@ != titles@[c]@ by {
                        if c == prev.len() {
                            assert(prev[a] == titles@[a]);
                        }
                    }
                }
            }
            assert(titles@.len() >= prev.len());
            assert(titles@.len() > prev.len() ==> titles@[prev.len() as int]@ == ts@[j as int]@);
            assert(forall|q: int| 0 <= q < prev.len() ==> titles@[q] == prev[q]);
            assert forall|t: Seq<char>|
                has_title(titles@, t) == contributes(rs@.take(j + 1), ts@, b, t) by {
                if has_title(titles@, t) {
                    let q = choose|q: int| 0 <= q < titles@.len() && (#[trigger] titles@[q])@ == t;
                    if q < prev.len() {
                        assert(prev[q] == titles@[q]);
                        assert(has_title(prev, t));
                        let w = choose|w: int|
                            0 <= w < rs@.take(j as int).len() && w < ts@.len() && b.start <= (
                            #[trigger] rs@.take(j as int)[w]).start && rs@.take(j as int)[w].end
                                <= b.end && ts@[w]@ == t;
                        assert(rs@.take(j + 1)[w] == rs@.take(j as int)[w]);
                    } else {
                        assert(rs@.take(j + 1)[j as int] == rs@[j as int]);
                    }
                }
                if contributes(rs@.take(j + 1), ts@, b, t) {
                    let w = choose|w: int|
                        0 <= w < rs@.take(j + 1).len() && w < ts@.len() && b.start <= (
                        #[trigger] rs@.take(j + 1)[w]).start && rs@.take(j + 1)[w].end <= b.end
                            && ts@[w]@ == t;
                    if w < j {
                        assert(rs@.take(j as int)[w] == rs@.take(j + 1)[w]);
                        assert(contributes(rs@.take(j as int), ts@, b, t));
                        assert(has_title(prev, t));
                        let q = choose|q: int| 0 <= q < prev.len() && (#[trigger] prev[q])@ == t;
                        assert(titles@[q] == prev[q]);
                    } else {
                        if titles@.len() == prev.len() {
                            assert(has_title(prev, t));
                            let q = choose|q: int| 0 <= q < prev.len() && (#[trigger] prev[q])@ == t;
                            assert(titles@[q] == prev[q]);
                        } else {
                            assert(titles@[prev.len() as int]@ == t);
                        }
                    }
                }
            }
            j = j + 1;
        }
        assert(rs@.take(rs@.len() as int) =~= rs@);
        let ghost before = busy_periods@;
        busy_periods.push(BusyPeriod { range: b, event_titles: titles });
        assert(period_ranges(busy_periods@) =~= m.take(k + 1)) by {
            assert(period_ranges(before) == m.take(k as int));
            assert(period_ranges(before).len() == before.len());
            assert(before.len() == k);
            assert(busy_periods@.len() == k + 1);
            assert(busy_periods@[k as int].range == b);
            assert forall|q: int| 0 <= q < busy_periods@.len() implies period_ranges(busy_periods@)[q]
                == m.take(k + 1)[q] by {
                if q < before.len() {
                    assert(busy_periods@[q] == before[q]);
                    assert(period_ranges(before)[q] == before[q].range);
                }
            }
        }
        assert forall|q: int| 0 <= q < busy_periods@.len() implies {
            let bp = #[trigger] busy_periods@[q];
            &&& titles_distinct(bp.event_titles@)
            &&& forall|t: Seq<char>|
                has_title(bp.event_titles@, t) == contributes(rs@, ts@, bp.range, t)
        } by {
            if q < before.len() {
                assert(busy_periods@[q] == before[q]);
            }
        }
        k = k + 1;
    }
    assert(m.take(m.len() as int) =~= m);
    let free_periods = find_free_slots(busy_ranges.as_slice(), range, 0);
    proof {
        lemma_merge_of_itself(m);
        lemma_partition(m, range.start, range.end);
        lemma_gaps_shape(m, range.start, range.end, 0);
        let g = gaps(m, range.start, range.end, 0);
        assert(all_wf(g)) by {
            assert forall|a: int| 0 <= a < g.len() implies (#[trigger] g[a]).wf() by {
                assert(g[a] == gaps(m, range.start, range.end, 0)[a]);
            }
        }
        lemma_total_minutes_bounded(g);
    }
    let mut total_busy: i64 = 0;
    let mut q: usize = 0;
    while q < busy_ranges.len()
        invariant
            q <= m.len(),
            m == busy_ranges@,
            sorted_disjoint(m),
            total_busy == total_minutes(m.take(q as int)),
            total_len(m) <= range.len(),
            range.wf(),
        decreases m.len() - q,
    {
        proof {
            assert(m.take(q + 1).drop_last() =~= m.take(q as int));
            assert(m.take(q + 1).last() == m[q as int]);
            assert(m =~= m.take(q + 1) + m.skip(q + 1));
            lemma_total_len_concat(m.take(q + 1), m.skip(q + 1));
            assert(all_wf(m.take(q + 1)));
            assert(all_wf(m.skip(q + 1))) by {
                assert forall|a: int| 0 <= a < m.skip(q + 1).len() implies (#[trigger] m.skip(
                    q + 1,
                )[a]).wf() by {
                    assert(m.skip(q + 1)[a] == m[q + 1 + a]);
                }
            }
            lemma_total_minutes_bounded(m.take(q + 1));
            lemma_total_minutes_bounded(m.skip(q + 1));
            assert(m[q as int].wf());
        }
        total_busy = total_busy + busy_ranges[q].duration() / 60;
        q = q + 1;
    }
    assert(m.take(m.len() as int) =~= m);
    proof {
        lemma_total_minutes_bounded(m);
    }
    let total_free = range.duration() / 60 - total_busy;
    FreeBusyResult {
        busy_periods,
        free_periods,
        total_busy_minutes: total_busy,
        total_free_minutes: total_free,
    }
}

/// Half-open overlap: two ranges that share exactly one boundary instant
/// (`a.end == b.start`) do not overlap, in either order, and share no time.
pub proof fn lemma_touching_ranges_do_not_overlap(a: TimeRange, b: TimeRange)
    requires
        a.wf(),
        b.wf(),
        a.end == b.start,
    ensures
        !a.spec_overlaps(b),
        !b.spec_overlaps(a),
        a.spec_overlap_len(b) == 0,
        b.spec_overlap_len(a) == 0,
{
}

} // verus!
