//! Facts about scores that relate several charts.
use vstd::prelude::*;
use crate::fitness::{chart_score, group_end, group_score, row_score, score_from, weight};
use crate::mutation::swapped;
use crate::chart::{PreferenceTable, SeatingChart};
use crate::fitness::SeatingFitness;

verus! {

/// `f(lo) + ... + f(hi - 1)`.
pub open spec fn range_sum(f: spec_fn(int) -> int, lo: int, hi: int) -> int
    decreases hi - lo,
{
    if hi <= lo {
        0
    } else {
        range_sum(f, lo, hi - 1) + f(hi - 1)
    }
}

/// The transposition of `i` and `j`.
pub open spec fn transpose(i: int, j: int, p: int) -> int {
    if p == i {
        j
    } else if p == j {
        i
    } else {
        p
    }
}

proof fn lemma_sum_ext(f1: spec_fn(int) -> int, f2: spec_fn(int) -> int, lo: int, hi: int)
    requires
        forall|p: int| lo <= p < hi ==> #[trigger] f1(p) == f2(p),
    ensures
        range_sum(f1, lo, hi) == range_sum(f2, lo, hi),
    decreases hi - lo,
{
    if hi > lo {
        lemma_sum_ext(f1, f2, lo, hi - 1);
    }
}

proof fn lemma_sum_split(f: spec_fn(int) -> int, lo: int, mid: int, hi: int)
    requires
        lo <= mid <= hi,
    ensures
        range_sum(f, lo, hi) == range_sum(f, lo, mid) + range_sum(f, mid, hi),
    decreases hi - mid,
{
    if hi > mid {
        lemma_sum_split(f, lo, mid, hi - 1);
    }
}

/// Summing over a range is unchanged by exchanging two of its points.
proof fn lemma_sum_transpose(f: spec_fn(int) -> int, lo: int, hi: int, i: int, j: int)
    requires
        lo <= i < hi,
        lo <= j < hi,
    ensures
        range_sum(|p: int| f(transpose(i, j, p)), lo, hi) == range_sum(f, lo, hi),
{
    let ft = |p: int| f(transpose(i, j, p));
    if i == j {
        lemma_sum_ext(ft, f, lo, hi);
    } else {
        let a = if i < j { i } else { j };
        let b = if i < j { j } else { i };
        lemma_sum_split(ft, lo, a, hi);
        lemma_sum_split(ft, a, a + 1, hi);
        lemma_sum_split(ft, a + 1, b, hi);
        lemma_sum_split(ft, b, b + 1, hi);
        lemma_sum_split(f, lo, a, hi);
        lemma_sum_split(f, a, a + 1, hi);
        lemma_sum_split(f, a + 1, b, hi);
        lemma_sum_split(f, b, b + 1, hi);
        lemma_sum_ext(ft, f, lo, a);
        lemma_sum_ext(ft, f, a + 1, b);
        lemma_sum_ext(ft, f, b + 1, hi);
        assert(range_sum(ft, a, a) == 0);
        assert(range_sum(ft, a, a + 1) == ft(a));
        assert(range_sum(f, a, a) == 0);
        assert(range_sum(f, a, a + 1) == f(a));
        assert(range_sum(ft, b, b) == 0);
        assert(range_sum(ft, b, b + 1) == ft(b));
        assert(range_sum(f, b, b) == 0);
        assert(range_sum(f, b, b + 1) == f(b));
    }
}

/// The terms of `row_score`.
pub open spec fn row_term(t: Seq<Seq<isize>>, s: Seq<usize>, p: int) -> spec_fn(int) -> int {
    |q: int| if q != p { weight(t, s, p, q) } else { 0 }
}

/// The terms of `group_score`.
pub open spec fn group_term(t: Seq<Seq<isize>>, s: Seq<usize>, lo: int, hi: int) -> spec_fn(int) -> int {
    |p: int| row_score(t, s, p, lo, hi)
}

proof fn lemma_row_is_sum(t: Seq<Seq<isize>>, s: Seq<usize>, p: int, lo: int, hi: int)
    ensures
        row_score(t, s, p, lo, hi) == range_sum(row_term(t, s, p), lo, hi),
    decreases hi - lo,
{
    if hi > lo {
        lemma_row_is_sum(t, s, p, lo, hi - 1);
    }
}

proof fn lemma_group_is_sum(t: Seq<Seq<isize>>, s: Seq<usize>, lo: int, hi: int, p_end: int)
    ensures
        group_score(t, s, lo, hi, p_end) == range_sum(group_term(t, s, lo, hi), lo, p_end),
    decreases p_end - lo,
{
    if p_end > lo {
        lemma_group_is_sum(t, s, lo, hi, p_end - 1);
    }
}

/// A group's score depends only on the seats inside it.
proof fn lemma_group_agree(t: Seq<Seq<isize>>, s1: Seq<usize>, s2: Seq<usize>, lo: int, hi: int)
    requires
        forall|p: int| lo <= p < hi ==> s1[p] == s2[p],
    ensures
        group_score(t, s1, lo, hi, hi) == group_score(t, s2, lo, hi, hi),
{
    assert forall|p: int| lo <= p < hi implies #[trigger] group_term(t, s1, lo, hi)(p) == group_term(t, s2, lo, hi)(p) by {
        lemma_row_is_sum(t, s1, p, lo, hi);
        lemma_row_is_sum(t, s2, p, lo, hi);
        lemma_sum_ext(row_term(t, s1, p), row_term(t, s2, p), lo, hi);
    }
    lemma_group_is_sum(t, s1, lo, hi, hi);
    lemma_group_is_sum(t, s2, lo, hi, hi);
    lemma_sum_ext(group_term(t, s1, lo, hi), group_term(t, s2, lo, hi), lo, hi);
}

/// Exchanging two seats of one group leaves that group's score unchanged.
proof fn lemma_group_transpose(t: Seq<Seq<isize>>, s: Seq<usize>, lo: int, hi: int, i: int, j: int)
    requires
        0 <= lo <= i < hi <= s.len(),
        lo <= j < hi,
    ensures
        group_score(t, swapped(s, i, j), lo, hi, hi) == group_score(t, s, lo, hi, hi),
{
    let s2 = swapped(s, i, j);
    assert forall|x: int| 0 <= x < s.len() implies #[trigger] s2[x] == s[transpose(i, j, x)] by {}
    assert forall|p: int| lo <= p < hi implies #[trigger] group_term(t, s2, lo, hi)(p) == group_term(t, s, lo, hi)(
        transpose(i, j, p),
    ) by {
        let tp = transpose(i, j, p);
        let f = row_term(t, s, tp);
        lemma_row_is_sum(t, s2, p, lo, hi);
        lemma_row_is_sum(t, s, tp, lo, hi);
        assert forall|q: int| lo <= q < hi implies #[trigger] row_term(t, s2, p)(q) == f(transpose(i, j, q)) by {
            assert(s2[p] == s[tp]);
            assert(s2[q] == s[transpose(i, j, q)]);
        }
        lemma_sum_ext(row_term(t, s2, p), |q: int| f(transpose(i, j, q)), lo, hi);
        lemma_sum_transpose(f, lo, hi, i, j);
    }
    let gs = group_term(t, s, lo, hi);
    lemma_group_is_sum(t, s2, lo, hi, hi);
    lemma_group_is_sum(t, s, lo, hi, hi);
    lemma_sum_ext(group_term(t, s2, lo, hi), |p: int| gs(transpose(i, j, p)), lo, hi);
    lemma_sum_transpose(gs, lo, hi, i, j);
}

/// The groups from `start` on score the same on two charts that agree there.
proof fn lemma_score_from_agree(t: Seq<Seq<isize>>, s1: Seq<usize>, s2: Seq<usize>, g: int, start: int)
    requires
        s1.len() == s2.len(),
        0 <= start,
        forall|p: int| start <= p < s1.len() ==> s1[p] == s2[p],
    ensures
        score_from(t, s1, g, start) == score_from(t, s2, g, start),
    decreases s1.len() - start,
{
    if g > 0 && start < s1.len() {
        let end = group_end(s1.len() as int, g, start);
        lemma_group_agree(t, s1, s2, start, end);
        lemma_score_from_agree(t, s1, s2, g, end);
    }
}

proof fn lemma_score_from_transpose(
    t: Seq<Seq<isize>>,
    s: Seq<usize>,
    g: int,
    start: int,
    k: int,
    i: int,
    j: int,
)
    requires
        g > 0,
        k >= 0,
        start == k * g,
        start <= i < s.len(),
        start <= j < s.len(),
        i / g == j / g,
    ensures
        score_from(t, swapped(s, i, j), g, start) == score_from(t, s, g, start),
    decreases s.len() - start,
{
    let s2 = swapped(s, i, j);
    let end = group_end(s.len() as int, g, start);
    if i < start + g {
        assert(i / g == k) by (nonlinear_arith)
            requires k * g <= i < k * g + g, g > 0;
        assert(j < start + g) by (nonlinear_arith)
            requires j / g == k, g > 0, start == k * g, j >= 0;
        lemma_group_transpose(t, s, start, end, i, j);
        lemma_score_from_agree(t, s2, s, g, end);
    } else {
        assert(j >= start + g) by (nonlinear_arith)
            requires i / g == j / g, g > 0, start == k * g, i >= start + g, j >= 0;
        lemma_group_agree(t, s2, s, start, end);
        assert(end == (k + 1) * g) by (nonlinear_arith)
            requires end == start + g, start == k * g;
        lemma_score_from_transpose(t, s, g, end, k + 1, i, j);
    }
}

/// Exchanging two people seated in the same group does not change the
/// chart's score: the ordered pairs inside the group are the same pairs, so
/// the terms that involve the two people only trade places.
pub proof fn lemma_swap_within_group_keeps_score(t: Seq<Seq<isize>>, s: Seq<usize>, g: int, i: int, j: int)
    requires
        g > 0,
        0 <= i < s.len(),
        0 <= j < s.len(),
        i / g == j / g,
    ensures
        chart_score(t, swapped(s, i, j), g) == chart_score(t, s, g),
{
    lemma_score_from_transpose(t, s, g, 0, 0, i, j);
}

/// Scoring is a function of the chart and the table: two evaluations of the
/// same chart against the same table (each result as `fitness` states it)
/// are equal.
pub proof fn lemma_fitness_deterministic(
    table: PreferenceTable,
    chart: SeatingChart,
    r1: SeatingFitness,
    r2: SeatingFitness,
)
    requires
        r1.value == chart_score(table@, chart.seats@, chart.group_size as int),
        r2.value == chart_score(table@, chart.seats@, chart.group_size as int),
    ensures
        r1 == r2,
{
}

/// With a single group (the group size at least the number of people), the
/// score is the sum over all ordered pairs of distinct positions, and
/// exchanging any two people leaves it unchanged.
pub proof fn lemma_single_group(t: Seq<Seq<isize>>, s: Seq<usize>, g: int, i: int, j: int)
    requires
        g >= s.len() > 0,
        0 <= i < s.len(),
        0 <= j < s.len(),
    ensures
        chart_score(t, s, g) == group_score(t, s, 0, s.len() as int, s.len() as int),
        chart_score(t, swapped(s, i, j), g) == chart_score(t, s, g),
{
    assert(group_end(s.len() as int, g, 0) == s.len());
    assert(score_from(t, s, g, s.len() as int) == 0);
    assert(i / g == 0 && j / g == 0) by (nonlinear_arith)
        requires 0 <= i < g, 0 <= j < g;
    lemma_swap_within_group_keeps_score(t, s, g, i, j);
}

proof fn lemma_sum_add(f1: spec_fn(int) -> int, f2: spec_fn(int) -> int, lo: int, hi: int)
    ensures
        range_sum(|p: int| f1(p) + f2(p), lo, hi) == range_sum(f1, lo, hi) + range_sum(f2, lo, hi),
    decreases hi - lo,
{
    if hi > lo {
        lemma_sum_add(f1, f2, lo, hi - 1);
    }
}

proof fn lemma_sum_point(f: spec_fn(int) -> int, lo: int, hi: int, i: int)
    requires
        lo <= i < hi,
    ensures
        range_sum(f, lo, hi) == range_sum(|p: int| if p != i { f(p) } else { 0 }, lo, hi) + f(i),
    decreases hi - lo,
{
    let h = |p: int| if p != i { f(p) } else { 0 };
    if hi - 1 == i {
        lemma_sum_ext(f, h, lo, hi - 1);
    } else {
        lemma_sum_point(f, lo, hi - 1, i);
    }
}

proof fn lemma_sum_only(i: int, v: int, lo: int, hi: int)
    requires
        lo <= i < hi,
    ensures
        range_sum(|q: int| if q == i { v } else { 0 }, lo, hi) == v,
{
    let f = |q: int| if q == i { v } else { 0 };
    lemma_sum_point(f, lo, hi, i);
    lemma_sum_zero(|p: int| if p != i { f(p) } else { 0 }, lo, hi);
}

proof fn lemma_sum_zero(f: spec_fn(int) -> int, lo: int, hi: int)
    requires
        forall|p: int| lo <= p < hi ==> #[trigger] f(p) == 0,
    ensures
        range_sum(f, lo, hi) == 0,
    decreases hi - lo,
{
    if hi > lo {
        lemma_sum_zero(f, lo, hi - 1);
    }
}

/// The terms linking person `e`, seated at position `i`, with the people at
/// the other positions `q` of `lo..hi`: what `e` feels about each of them,
/// plus what each feels about `e`.
pub open spec fn mates_term(t: Seq<Seq<isize>>, s: Seq<usize>, i: int, e: usize) -> spec_fn(int) -> int {
    |q: int|
        if q != i {
            t[e as int][s[q] as int] as int + t[s[q] as int][e as int] as int
        } else {
            0
        }
}

/// Sum of `mates_term` over `lo..hi`.
pub open spec fn mates_score(t: Seq<Seq<isize>>, s: Seq<usize>, lo: int, hi: int, i: int, e: usize) -> int {
    range_sum(mates_term(t, s, i, e), lo, hi)
}

/// The terms of row `p` that do not involve position `i`.
pub open spec fn others_row(t: Seq<Seq<isize>>, s: Seq<usize>, p: int, i: int) -> spec_fn(int) -> int {
    |q: int| if q != p && q != i { weight(t, s, p, q) } else { 0 }
}

/// The terms of a group that do not involve position `i`.
pub open spec fn others_term(t: Seq<Seq<isize>>, s: Seq<usize>, lo: int, hi: int, i: int) -> spec_fn(int) -> int {
    |p: int| if p != i { range_sum(others_row(t, s, p, i), lo, hi) } else { 0 }
}

/// A group with person `e` seated at its position `i` scores the terms
/// that do not involve `i`, plus `e`'s terms with the other members.
proof fn lemma_group_seat(t: Seq<Seq<isize>>, s: Seq<usize>, lo: int, hi: int, i: int, e: usize)
    requires
        0 <= lo <= i < hi <= s.len(),
    ensures
        group_score(t, s.update(i, e), lo, hi, hi) == range_sum(others_term(t, s, lo, hi, i), lo, hi)
            + mates_score(t, s, lo, hi, i, e),
{
    let u = s.update(i, e);
    let gu = group_term(t, u, lo, hi);
    lemma_group_is_sum(t, u, lo, hi, hi);
    lemma_sum_point(gu, lo, hi, i);
    let out_of = |p: int| if p != i { t[s[p] as int][e as int] as int } else { 0 };
    let into = |q: int| if q != i { t[e as int][s[q] as int] as int } else { 0 };
    let ot = others_term(t, s, lo, hi, i);
    // the row of position i
    lemma_row_is_sum(t, u, i, lo, hi);
    lemma_sum_ext(row_term(t, u, i), into, lo, hi);
    // the other rows
    let gu_off = |p: int| if p != i { gu(p) } else { 0 };
    assert forall|p: int| lo <= p < hi implies #[trigger] gu_off(p) == ot(p) + out_of(p) by {
        if p != i {
            let inner = others_row(t, s, p, i);
            let at_i = |q: int| if q == i { t[s[p] as int][e as int] as int } else { 0 };
            lemma_row_is_sum(t, u, p, lo, hi);
            assert forall|q: int| lo <= q < hi implies #[trigger] row_term(t, u, p)(q) == inner(q) + at_i(q) by {
                assert(u[p] == s[p]);
                if q != i {
                    assert(u[q] == s[q]);
                }
            }
            lemma_sum_ext(row_term(t, u, p), |q: int| inner(q) + at_i(q), lo, hi);
            lemma_sum_add(inner, at_i, lo, hi);
            lemma_sum_only(i, t[s[p] as int][e as int] as int, lo, hi);
            assert(gu(p) == row_score(t, u, p, lo, hi));
        }
    }
    lemma_sum_ext(gu_off, |p: int| ot(p) + out_of(p), lo, hi);
    lemma_sum_add(ot, out_of, lo, hi);
    lemma_sum_add(into, out_of, lo, hi);
    lemma_sum_ext(|q: int| into(q) + out_of(q), mates_term(t, s, i, e), lo, hi);
}

/// The change in a group's score when person `e` takes the seat `i`.
pub open spec fn seat_delta(t: Seq<Seq<isize>>, s: Seq<usize>, g: int, i: int, e: usize) -> int {
    let lo = (i / g) * g;
    let hi = group_end(s.len() as int, g, lo);
    mates_score(t, s, lo, hi, i, e) - mates_score(t, s, lo, hi, i, s[i])
}

proof fn lemma_score_from_cross(
    t: Seq<Seq<isize>>,
    s: Seq<usize>,
    g: int,
    start: int,
    k: int,
    i: int,
    j: int,
)
    requires
        g > 0,
        k >= 0,
        start == k * g || start >= s.len(),
        0 <= start,
        0 <= i < s.len(),
        0 <= j < s.len(),
        i / g != j / g,
    ensures
        score_from(t, swapped(s, i, j), g, start) - score_from(t, s, g, start) == (if i >= start {
            seat_delta(t, s, g, i, s[j])
        } else {
            0
        }) + (if j >= start {
            seat_delta(t, s, g, j, s[i])
        } else {
            0
        }),
    decreases s.len() - start,
{
    let s2 = swapped(s, i, j);
    let n = s.len() as int;
    if start < n {
        let end = group_end(n, g, start);
        assert(end == start + g || end == n);
        assert(end == (k + 1) * g || end >= n) by (nonlinear_arith)
            requires end == start + g || end == n, start == k * g;
        let in_i = start <= i < end;
        let in_j = start <= j < end;
        if in_i {
            assert(i / g == k) by (nonlinear_arith)
                requires k * g <= i < k * g + g, g > 0;
            assert((i / g) * g == start);
        }
        if in_j {
            assert(j / g == k) by (nonlinear_arith)
                requires k * g <= j < k * g + g, g > 0;
            assert((j / g) * g == start);
        }
        if in_i {
            assert(!in_j);
            lemma_group_agree(t, s2, s.update(i, s[j]), start, end);
            lemma_group_seat(t, s, start, end, i, s[j]);
            lemma_group_seat(t, s, start, end, i, s[i]);
            assert(s.update(i, s[i]) =~= s);
        } else if in_j {
            lemma_group_agree(t, s2, s.update(j, s[i]), start, end);
            lemma_group_seat(t, s, start, end, j, s[i]);
            lemma_group_seat(t, s, start, end, j, s[j]);
            assert(s.update(j, s[j]) =~= s);
        } else {
            lemma_group_agree(t, s2, s, start, end);
        }
        lemma_score_from_cross(t, s, g, end, k + 1, i, j);
    }
}

/// Exchanging people `x` (at `i`) and `y` (at `j`) seated in different
/// groups changes the score by exactly their terms with their group mates:
/// `y`'s and minus `x`'s terms with the others of `i`'s group, plus `x`'s
/// and minus `y`'s terms with the others of `j`'s group.
pub proof fn lemma_swap_across_groups(t: Seq<Seq<isize>>, s: Seq<usize>, g: int, i: int, j: int)
    requires
        g > 0,
        0 <= i < s.len(),
        0 <= j < s.len(),
        i / g != j / g,
    ensures
        chart_score(t, swapped(s, i, j), g) - chart_score(t, s, g) == seat_delta(t, s, g, i, s[j])
            + seat_delta(t, s, g, j, s[i]),
{
    lemma_score_from_cross(t, s, g, 0, 0, i, j);
}

} // verus!
