//! Scoring a seating chart: the sum of directed preferences inside each group.
use vstd::prelude::*;
use crate::chart::{PreferenceTable, SeatingChart, weight_fits};

verus! {

/// A chart's score; higher is better.
#[derive(PartialEq, Eq, Structural, PartialOrd, Ord, Clone, Copy, Debug)]
pub struct SeatingFitness {
    pub value: isize,
}

/// What the person at position `p` feels about the person at position `q`.
pub open spec fn weight(t: Seq<Seq<isize>>, s: Seq<usize>, p: int, q: int) -> int {
    t[s[p] as int][s[q] as int] as int
}

/// Sum of what the person at `p` feels about each other position in `lo..hi`.
pub open spec fn row_score(t: Seq<Seq<isize>>, s: Seq<usize>, p: int, lo: int, hi: int) -> int
    decreases hi - lo,
{
    if hi <= lo {
        0
    } else {
        row_score(t, s, p, lo, hi - 1) + if hi - 1 != p {
            weight(t, s, p, hi - 1)
        } else {
            0
        }
    }
}

/// Sum of `row_score` over the positions `lo..p_end` of the group `lo..hi`.
pub open spec fn group_score(t: Seq<Seq<isize>>, s: Seq<usize>, lo: int, hi: int, p_end: int) -> int
    decreases p_end - lo,
{
    if p_end <= lo {
        0
    } else {
        group_score(t, s, lo, hi, p_end - 1) + row_score(t, s, p_end - 1, lo, hi)
    }
}

/// End of the group that starts at `start`.
pub open spec fn group_end(len: int, g: int, start: int) -> int {
    if start + g < len { start + g } else { len }
}

/// Score of the groups from position `start` on.
pub open spec fn score_from(t: Seq<Seq<isize>>, s: Seq<usize>, g: int, start: int) -> int
    decreases s.len() - start,
{
    if g <= 0 || start >= s.len() {
        0
    } else {
        let end = group_end(s.len() as int, g, start);
        group_score(t, s, start, end, end) + score_from(t, s, g, end)
    }
}

/// Score of a chart with seats `s` cut into groups of `g`.
pub open spec fn chart_score(t: Seq<Seq<isize>>, s: Seq<usize>, g: int) -> int {
    score_from(t, s, g, 0)
}

pub open spec fn abs(x: int) -> int {
    if x < 0 { -x } else { x }
}

proof fn lemma_add_bounded(acc: int, w: int, count: int, n: int)
    requires
        n > 0,
        count >= 0,
        abs(acc) * n * n <= count * isize::MAX,
        n * n * abs(w) <= isize::MAX,
    ensures
        abs(acc + w) * n * n <= (count + 1) * isize::MAX,
{
    assert(abs(acc + w) <= abs(acc) + abs(w));
    assert(abs(acc + w) * n * n <= abs(acc) * n * n + abs(w) * n * n) by (nonlinear_arith)
        requires abs(acc + w) <= abs(acc) + abs(w), n > 0;
    assert(abs(w) * n * n == n * n * abs(w)) by (nonlinear_arith);
    assert((count + 1) * isize::MAX == count * isize::MAX + isize::MAX) by (nonlinear_arith);
}

proof fn lemma_fits(acc: int, count: int, n: int)
    requires
        n > 0,
        0 <= count <= n * n,
        abs(acc) * n * n <= count * isize::MAX,
    ensures
        isize::MIN <= acc <= isize::MAX,
{
    assert(count * isize::MAX <= n * n * isize::MAX) by (nonlinear_arith)
        requires count <= n * n;
    assert(abs(acc) * (n * n) <= isize::MAX * (n * n)) by (nonlinear_arith)
        requires abs(acc) * n * n <= n * n * isize::MAX;
    assert(n * n > 0) by (nonlinear_arith) requires n > 0;
    assert(abs(acc) <= isize::MAX) by (nonlinear_arith)
        requires abs(acc) * (n * n) <= isize::MAX * (n * n), n * n > 0;
}

impl SeatingFitness {
    /// The neutral score.
    pub fn zero() -> (r: SeatingFitness)
        ensures
            r.value == 0,
    {
        SeatingFitness { value: 0 }
    }

    /// The absolute difference of two scores.
    pub fn abs_diff(&self, other: &SeatingFitness) -> (r: SeatingFitness)
        requires
            abs(self.value - other.value) <= isize::MAX,
        ensures
            r.value == abs(self.value - other.value),
    {
        if self.value >= other.value {
            SeatingFitness { value: self.value - other.value }
        } else {
            SeatingFitness { value: other.value - self.value }
        }
    }
}

/// Scores `chart`: for every group and every ordered pair of distinct
/// positions `p`, `q` in it, adds what the person at `p` feels about the
/// person at `q`.
pub fn fitness(chart: &SeatingChart, table: &PreferenceTable) -> (r: SeatingFitness)
    requires
        table.wf(),
        chart.wf(table.size()),
    ensures
        r.value == chart_score(table@, chart.seats@, chart.group_size as int),
{
    let ghost t = table@;
    let ghost s = chart.seats@;
    let ghost gi = chart.group_size as int;
    let n = chart.seats.len();
    let g = chart.group_size;
    let mut acc: isize = 0;
    let ghost mut count: int = 0;
    let mut start: usize = 0;
    while start < n
        invariant
            table.wf(),
            chart.wf(table.size()),
            t == table@,
            s == chart.seats@,
            gi == g,
            g == chart.group_size,
            n == s.len(),
            start <= n,
            0 <= count <= start * n,
            abs(acc as int) * n * n <= count * isize::MAX,
            acc + score_from(t, s, gi, start as int) == chart_score(t, s, gi),
        decreases n - start,
    {
        let end: usize = if g < n - start { start + g } else { n };
        assert(end == group_end(n as int, gi, start as int));
        let ghost acc0 = acc as int;
        let mut p: usize = start;
        while p < end
            invariant
                table.wf(),
                chart.wf(table.size()),
                t == table@,
                s == chart.seats@,
                n == s.len(),
                start <= p <= end <= n,
                start < n,
                0 <= count <= p * n,
                abs(acc as int) * n * n <= count * isize::MAX,
                acc == acc0 + group_score(t, s, start as int, end as int, p as int),
            decreases end - p,
        {
            let ghost accp = acc as int;
            let mut q: usize = start;
            while q < end
                invariant
                    table.wf(),
                    chart.wf(table.size()),
                    t == table@,
                    s == chart.seats@,
                    n == s.len(),
                    start <= q <= end <= n,
                    start <= p < end,
                    0 <= count <= p * n + (q - start),
                    abs(acc as int) * n * n <= count * isize::MAX,
                    acc == accp + row_score(t, s, p as int, start as int, q as int),
                decreases end - q,
            {
                if p != q {
                    let a = chart.seats[p];
                    let b = chart.seats[q];
                    assert(s[p as int] < n && s[q as int] < n);
                    let w = table.rows[a][b];
                    assert(w == weight(t, s, p as int, q as int));
                    assert(weight_fits(table.rows@[a as int]@[b as int], table.rows@.len()));
                    proof {
                        lemma_add_bounded(acc as int, w as int, count, n as int);
                        assert(count + 1 <= n * n) by (nonlinear_arith)
                            requires count <= p * n + (q - start), q < end, end <= n, p < n, start >= 0;
                        lemma_fits(acc + w, count + 1, n as int);
                        count = count + 1;
                    }
                    acc = acc + w;
                }
                q = q + 1;
            }
            assert(count <= (p + 1) * n) by (nonlinear_arith)
                requires count <= p * n + (q - start), q == end, end <= n, start >= 0;
            p = p + 1;
        }
        assert(count <= end * n) by (nonlinear_arith)
            requires count <= p * n, p == end;
        start = end;
    }
    SeatingFitness { value: acc }
}

} // verus!
