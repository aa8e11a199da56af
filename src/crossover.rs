//! Crossover: a child built from two parents by alternating whole groups and
//! keeping the first occurrence of each person.
use vstd::prelude::*;
use vstd::set_lib::{set_int_range, lemma_int_range};
use crate::chart::{SeatingChart, is_permutation, all_false};
use crate::fitness::group_end;

verus! {

/// Groups of `a` and `b` alternated from position `start` on:
/// `a`'s group, then `b`'s group at the same place, then the next pair.
pub open spec fn interleaved(a: Seq<usize>, b: Seq<usize>, g: int, start: int) -> Seq<usize>
    decreases a.len() - start,
{
    if g <= 0 || start >= a.len() {
        seq![]
    } else {
        let end = group_end(a.len() as int, g, start);
        a.subrange(start, end) + b.subrange(start, end) + interleaved(a, b, g, end)
    }
}

/// The people of `s` below `n`, each at its first occurrence only.
pub open spec fn keep_first(s: Seq<usize>, n: nat) -> Seq<usize>
    decreases s.len(),
{
    if s.len() == 0 {
        seq![]
    } else {
        let prev = keep_first(s.drop_last(), n);
        let x = s.last();
        if x < n && !prev.contains(x) {
            prev.push(x)
        } else {
            prev
        }
    }
}

/// The seats of the child of parents with seats `a` and `b`.
pub open spec fn crossover_seats(a: Seq<usize>, b: Seq<usize>, g: int) -> Seq<usize> {
    keep_first(interleaved(a, b, g, 0), a.len())
}

proof fn lemma_keep_first(s: Seq<usize>, n: nat)
    ensures
        keep_first(s, n).no_duplicates(),
        forall|x: usize| #[trigger] keep_first(s, n).contains(x) <==> (s.contains(x) && x < n),
    decreases s.len(),
{
    if s.len() > 0 {
        let prev = keep_first(s.drop_last(), n);
        lemma_keep_first(s.drop_last(), n);
        assert(s =~= s.drop_last().push(s.last()));
        assert forall|x: usize| s.contains(x) <==> (s.drop_last().contains(x) || x == s.last()) by {
            if s.contains(x) {
                let i = choose|i: int| 0 <= i < s.len() && s[i] == x;
                if i < s.len() - 1 {
                    assert(s.drop_last()[i] == x);
                }
            }
            if s.drop_last().contains(x) {
                let i = choose|i: int| 0 <= i < s.drop_last().len() && s.drop_last()[i] == x;
                assert(s[i] == x);
            }
            if x == s.last() {
                assert(s[s.len() - 1] == x);
            }
        }
        let x = s.last();
        if x < n && !prev.contains(x) {
            assert forall|y: usize| prev.push(x).contains(y) <==> (prev.contains(y) || y == x) by {
                if prev.push(x).contains(y) {
                    let i = choose|i: int| 0 <= i < prev.push(x).len() && prev.push(x)[i] == y;
                    if i < prev.len() {
                        assert(prev[i] == y);
                    }
                }
                if prev.contains(y) {
                    let i = choose|i: int| 0 <= i < prev.len() && prev[i] == y;
                    assert(prev.push(x)[i] == y);
                }
                if y == x {
                    assert(prev.push(x)[prev.len() as int] == y);
                }
            }
            assert(keep_first(s, n) == prev.push(x));
            assert forall|i: int, j: int|
                0 <= i < prev.push(x).len() && 0 <= j < prev.push(x).len() && i != j
                implies prev.push(x)[i] != prev.push(x)[j] by {
                if i == prev.len() {
                    assert(prev[j] == prev.push(x)[j]);
                } else if j == prev.len() {
                    assert(prev[i] == prev.push(x)[i]);
                }
            }
        } else {
            assert(keep_first(s, n) == prev);
        }
        assert forall|y: usize| #[trigger] keep_first(s, n).contains(y) <==> (s.contains(y) && y < n) by {
            assert(s.contains(y) <==> (s.drop_last().contains(y) || y == s.last()));
            assert(prev.contains(y) <==> (s.drop_last().contains(y) && y < n));
        }
    }
}

proof fn lemma_interleaved_covers(a: Seq<usize>, b: Seq<usize>, g: int, start: int, i: int)
    requires
        g > 0,
        a.len() == b.len(),
        0 <= start <= i < a.len(),
    ensures
        interleaved(a, b, g, start).contains(a[i]),
    decreases a.len() - start,
{
    let end = group_end(a.len() as int, g, start);
    let whole = a.subrange(start, end) + b.subrange(start, end) + interleaved(a, b, g, end);
    assert(interleaved(a, b, g, start) == whole);
    if i < end {
        assert(whole[i - start] == a[i]);
    } else {
        lemma_interleaved_covers(a, b, g, end, i);
        let rest = interleaved(a, b, g, end);
        let k = choose|k: int| 0 <= k < rest.len() && rest[k] == a[i];
        assert(whole[2 * (end - start) + k] == a[i]);
    }
}

/// `c` with each value as a mathematical integer.
pub open spec fn as_ints(c: Seq<usize>) -> Seq<int> {
    c.map_values(|x: usize| x as int)
}

proof fn lemma_int_view(c: Seq<usize>)
    requires
        c.no_duplicates(),
    ensures
        as_ints(c).no_duplicates(),
        as_ints(c).len() == as_ints(c).to_set().len(),
        forall|v: int| #[trigger] as_ints(c).to_set().contains(v)
            <==> (exists|i: int| 0 <= i < c.len() && c[i] as int == v),
{
    let m = as_ints(c);
    assert forall|i: int, j: int| 0 <= i < m.len() && 0 <= j < m.len() && i != j implies m[i] != m[j] by {
        assert(c[i] != c[j]);
    }
    m.unique_seq_to_set();
    assert forall|v: int| #[trigger] m.to_set().contains(v)
        <==> (exists|i: int| 0 <= i < c.len() && c[i] as int == v) by {
        if m.to_set().contains(v) {
            let i = choose|i: int| 0 <= i < m.len() && m[i] == v;
            assert(c[i] as int == v);
        }
        if exists|i: int| 0 <= i < c.len() && c[i] as int == v {
            let i = choose|i: int| 0 <= i < c.len() && c[i] as int == v;
            assert(m[i] == v);
        }
    }
}

/// A sequence of distinct values below `n` that holds every value below `n`
/// is a permutation of `0..n`.
proof fn lemma_distinct_cover_is_permutation(c: Seq<usize>, n: nat)
    requires
        n <= usize::MAX,
        c.no_duplicates(),
        forall|i: int| 0 <= i < c.len() ==> (#[trigger] c[i]) < n,
        forall|x: usize| x < n ==> #[trigger] c.contains(x),
    ensures
        is_permutation(c, n),
{
    let m = as_ints(c);
    lemma_int_view(c);
    assert forall|v: int| #[trigger] m.to_set().contains(v) <==> set_int_range(0, n as int).contains(v) by {
        if m.to_set().contains(v) {
            let i = choose|i: int| 0 <= i < c.len() && c[i] as int == v;
            assert(c[i] < n);
        }
        if 0 <= v < n {
            let x = v as usize;
            assert(c.contains(x));
            let i = choose|i: int| 0 <= i < c.len() && c[i] == x;
            assert(c[i] as int == v);
        }
    }
    assert(m.to_set() =~= set_int_range(0, n as int));
    lemma_int_range(0, n as int);
}

/// A permutation of `0..n` holds every value below `n`.
pub proof fn lemma_permutation_covers(c: Seq<usize>, n: nat)
    requires
        is_permutation(c, n),
    ensures
        forall|x: usize| x < n ==> #[trigger] c.contains(x),
{
    let m = as_ints(c);
    lemma_int_view(c);
    let r = set_int_range(0, n as int);
    lemma_int_range(0, n as int);
    assert forall|v: int| #[trigger] m.to_set().contains(v) implies r.contains(v) by {
        let i = choose|i: int| 0 <= i < c.len() && c[i] as int == v;
        assert(c[i] < n);
    }
    vstd::set_lib::lemma_subset_equality(m.to_set(), r);
    assert forall|x: usize| x < n implies #[trigger] c.contains(x) by {
        assert(r.contains(x as int));
        assert(m.to_set().contains(x as int));
        let i = choose|i: int| 0 <= i < c.len() && c[i] as int == x as int;
        assert(c[i] == x);
    }
}

/// The child of two valid parents is again a permutation of the same people.
pub proof fn lemma_crossover_is_permutation(a: Seq<usize>, b: Seq<usize>, g: int, n: nat)
    requires
        g > 0,
        n <= usize::MAX,
        is_permutation(a, n),
        is_permutation(b, n),
    ensures
        is_permutation(crossover_seats(a, b, g), n),
{
    let s = interleaved(a, b, g, 0);
    let c = crossover_seats(a, b, g);
    lemma_keep_first(s, n);
    assert forall|i: int| 0 <= i < c.len() implies (#[trigger] c[i]) < n by {
        assert(c.contains(c[i]));
    }
    assert forall|x: usize| x < n implies #[trigger] c.contains(x) by {
        lemma_permutation_covers(a, n);
        assert(a.contains(x));
        let i = choose|i: int| 0 <= i < a.len() && a[i] == x;
        lemma_interleaved_covers(a, b, g, 0, i);
    }
    lemma_distinct_cover_is_permutation(c, n);
}

proof fn lemma_interleaved_layout_from(a: Seq<usize>, b: Seq<usize>, g: int, m: int, k: int)
    requires
        g > 0,
        a.len() == b.len(),
        0 <= m <= k,
        k * g < a.len(),
    ensures
        ({
            let start0 = m * g;
            let start = k * g;
            let end = group_end(a.len() as int, g, start);
            let st = interleaved(a, b, g, start0);
            &&& st.subrange(2 * (start - start0), (start - start0) + (end - start0)) == a.subrange(start, end)
            &&& st.subrange((start - start0) + (end - start0), 2 * (end - start0)) == b.subrange(start, end)
            &&& 2 * (end - start0) <= st.len()
        }),
    decreases k - m,
{
    let start0 = m * g;
    let start = k * g;
    let end = group_end(a.len() as int, g, start);
    assert(m * g <= k * g) by (nonlinear_arith)
        requires m <= k, g > 0;
    let end0 = group_end(a.len() as int, g, start0);
    let head = a.subrange(start0, end0) + b.subrange(start0, end0);
    let rest = interleaved(a, b, g, end0);
    let st = interleaved(a, b, g, start0);
    assert(st == head + rest);
    if m == k {
        assert(st.subrange(0, end - start0) =~= a.subrange(start, end));
        assert(st.subrange(end - start0, 2 * (end - start0)) =~= b.subrange(start, end));
        assert(2 * (end - start0) <= st.len());
    } else {
        assert((m + 1) * g <= k * g) by (nonlinear_arith)
            requires m + 1 <= k, g > 0;
        assert((m + 1) * g == m * g + g) by (nonlinear_arith);
        assert(end0 == (m + 1) * g);
        lemma_interleaved_layout_from(a, b, g, m + 1, k);
        assert(head.len() == 2 * g);
        let off = 2 * g;
        assert(st.subrange(2 * (start - start0), (start - start0) + (end - start0)) =~= rest.subrange(
            2 * (start - end0),
            (start - end0) + (end - end0),
        ));
        assert(st.subrange((start - start0) + (end - start0), 2 * (end - start0)) =~= rest.subrange(
            (start - end0) + (end - end0),
            2 * (end - end0),
        ));
    }
}

/// The stream that a child is picked from, group by group: for the group of
/// the parents that starts at `k * g`, the stream holds that group of `a`
/// and then that group of `b`, both starting at twice the group's start.
/// The child keeps each person at their first place in this stream.
pub proof fn lemma_interleaved_layout(a: Seq<usize>, b: Seq<usize>, g: int, k: int)
    requires
        g > 0,
        a.len() == b.len(),
        0 <= k,
        k * g < a.len(),
    ensures
        ({
            let start = k * g;
            let end = group_end(a.len() as int, g, start);
            let st = interleaved(a, b, g, 0);
            &&& st.subrange(2 * start, start + end) == a.subrange(start, end)
            &&& st.subrange(start + end, 2 * end) == b.subrange(start, end)
        }),
{
    lemma_interleaved_layout_from(a, b, g, 0, k);
}

/// `keep_first` continued from an already kept `prev` over more of the stream.
pub open spec fn keep_from(prev: Seq<usize>, s: Seq<usize>, n: nat) -> Seq<usize>
    decreases s.len(),
{
    if s.len() == 0 {
        prev
    } else {
        let p = keep_from(prev, s.drop_last(), n);
        let x = s.last();
        if x < n && !p.contains(x) {
            p.push(x)
        } else {
            p
        }
    }
}

proof fn lemma_keep_first_from(s: Seq<usize>, n: nat)
    ensures
        keep_first(s, n) == keep_from(seq![], s, n),
    decreases s.len(),
{
    if s.len() > 0 {
        lemma_keep_first_from(s.drop_last(), n);
    }
}

proof fn lemma_keep_from_concat(prev: Seq<usize>, x: Seq<usize>, y: Seq<usize>, n: nat)
    ensures
        keep_from(prev, x + y, n) == keep_from(keep_from(prev, x, n), y, n),
    decreases y.len(),
{
    if y.len() == 0 {
        assert(x + y =~= x);
    } else {
        assert((x + y).drop_last() =~= x + y.drop_last());
        lemma_keep_from_concat(prev, x, y.drop_last(), n);
    }
}

/// Fresh, distinct people are all kept, in order.
proof fn lemma_keep_from_fresh(prev: Seq<usize>, x: Seq<usize>, n: nat)
    requires
        x.no_duplicates(),
        forall|i: int| 0 <= i < x.len() ==> (#[trigger] x[i]) < n && !prev.contains(x[i]),
    ensures
        keep_from(prev, x, n) == prev + x,
    decreases x.len(),
{
    if x.len() > 0 {
        let d = x.drop_last();
        assert forall|i: int, j: int| 0 <= i < d.len() && 0 <= j < d.len() && i != j implies d[i] != d[j] by {
            assert(x[i] != x[j]);
        }
        assert forall|i: int| 0 <= i < d.len() implies (#[trigger] d[i]) < n && !prev.contains(d[i]) by {
            assert(x[i] == d[i]);
        }
        lemma_keep_from_fresh(prev, d, n);
        let l = x.last();
        assert(x[x.len() - 1] == l);
        if (prev + d).contains(l) {
            let k = choose|k: int| 0 <= k < (prev + d).len() && (prev + d)[k] == l;
            if k >= prev.len() {
                assert(x[k - prev.len()] == l);
            } else {
                assert(prev[k] == l);
            }
        }
        assert((prev + d).push(l) =~= prev + x);
    }
}

/// People already kept are skipped.
proof fn lemma_keep_from_seen(prev: Seq<usize>, x: Seq<usize>, n: nat)
    requires
        forall|i: int| 0 <= i < x.len() ==> prev.contains(#[trigger] x[i]),
    ensures
        keep_from(prev, x, n) == prev,
    decreases x.len(),
{
    if x.len() > 0 {
        let d = x.drop_last();
        assert forall|i: int| 0 <= i < d.len() implies prev.contains(#[trigger] d[i]) by {
            assert(x[i] == d[i]);
        }
        lemma_keep_from_seen(prev, d, n);
        assert(prev.contains(x[x.len() - 1]));
    }
}

proof fn lemma_self_interleaved(a: Seq<usize>, g: int, n: nat, start: int)
    requires
        g > 0,
        is_permutation(a, n),
        0 <= start <= a.len(),
    ensures
        keep_from(a.subrange(0, start), interleaved(a, a, g, start), n) == a,
    decreases a.len() - start,
{
    let prev = a.subrange(0, start);
    if start >= a.len() {
        assert(prev =~= a);
    } else {
        let end = group_end(a.len() as int, g, start);
        let grp = a.subrange(start, end);
        let rest = interleaved(a, a, g, end);
        assert(interleaved(a, a, g, start) == grp + grp + rest);
        lemma_keep_from_concat(prev, grp + grp, rest, n);
        lemma_keep_from_concat(prev, grp, grp, n);
        assert forall|i: int, j: int| 0 <= i < grp.len() && 0 <= j < grp.len() && i != j implies grp[i] != grp[j] by {
            assert(a[start + i] != a[start + j]);
        }
        assert forall|i: int| 0 <= i < grp.len() implies (#[trigger] grp[i]) < n && !prev.contains(grp[i]) by {
            assert(grp[i] == a[start + i]);
            if prev.contains(grp[i]) {
                let k = choose|k: int| 0 <= k < prev.len() && prev[k] == grp[i];
                assert(a[k] == a[start + i]);
            }
        }
        lemma_keep_from_fresh(prev, grp, n);
        assert(prev + grp =~= a.subrange(0, end));
        assert forall|i: int| 0 <= i < grp.len() implies a.subrange(0, end).contains(#[trigger] grp[i]) by {
            assert(a.subrange(0, end)[start + i] == grp[i]);
        }
        lemma_keep_from_seen(a.subrange(0, end), grp, n);
        lemma_self_interleaved(a, g, n, end);
    }
}

/// Crossing a valid chart with itself gives back the same seats.
pub proof fn lemma_crossover_with_itself(a: Seq<usize>, g: int, n: nat)
    requires
        g > 0,
        is_permutation(a, n),
    ensures
        crossover_seats(a, a, g) == a,
{
    lemma_keep_first_from(interleaved(a, a, g, 0), n);
    assert(a.subrange(0, 0) =~= seq![]);
    lemma_self_interleaved(a, g, n, 0);
}

proof fn lemma_keep_from_prefix(prev: Seq<usize>, x: Seq<usize>, n: nat)
    ensures
        keep_from(prev, x, n).len() >= prev.len(),
        keep_from(prev, x, n).subrange(0, prev.len() as int) == prev,
    decreases x.len(),
{
    if x.len() > 0 {
        lemma_keep_from_prefix(prev, x.drop_last(), n);
        let p = keep_from(prev, x.drop_last(), n);
        assert(p.push(x.last()).subrange(0, prev.len() as int) =~= p.subrange(0, prev.len() as int));
    }
}

/// The child opens with the first parent's first group intact, followed by
/// the members of the second parent's first group that are not yet placed,
/// in the second parent's order (that is `keep_from(a0, b0)`).
pub proof fn lemma_crossover_prefix(a: Seq<usize>, b: Seq<usize>, g: int, n: nat)
    requires
        g > 0,
        n > 0,
        is_permutation(a, n),
        is_permutation(b, n),
    ensures
        ({
            let e = group_end(n as int, g, 0);
            let a0 = a.subrange(0, e);
            let b0 = b.subrange(0, e);
            let h = keep_from(a0, b0, n);
            let c = crossover_seats(a, b, g);
            &&& h.subrange(0, e) == a0
            &&& h.len() <= c.len()
            &&& c.subrange(0, h.len() as int) == h
        }),
{
    let e = group_end(n as int, g, 0);
    let a0 = a.subrange(0, e);
    let b0 = b.subrange(0, e);
    let rest = interleaved(a, b, g, e);
    let st = interleaved(a, b, g, 0);
    assert(st == a0 + b0 + rest);
    lemma_keep_first_from(st, n);
    lemma_keep_from_concat(seq![], a0 + b0, rest, n);
    lemma_keep_from_concat(seq![], a0, b0, n);
    assert forall|i: int| 0 <= i < a0.len() implies (#[trigger] a0[i]) < n && !seq![].contains(a0[i]) by {
        assert(a0[i] == a[i]);
    }
    assert forall|i: int, j: int| 0 <= i < a0.len() && 0 <= j < a0.len() && i != j implies a0[i] != a0[j] by {
        assert(a[i] != a[j]);
    }
    lemma_keep_from_fresh(seq![], a0, n);
    assert(seq![] + a0 =~= a0);
    let h = keep_from(a0, b0, n);
    lemma_keep_from_prefix(a0, b0, n);
    lemma_keep_from_prefix(h, rest, n);
}


/// Appends `v[lo..hi]` to `out`.
fn push_range(out: &mut Vec<usize>, v: &Vec<usize>, lo: usize, hi: usize)
    requires
        lo <= hi <= v@.len(),
    ensures
        final(out)@ == old(out)@ + v@.subrange(lo as int, hi as int),
{
    let ghost base = out@;
    let mut i: usize = lo;
    while i < hi
        invariant
            lo <= i <= hi <= v@.len(),
            out@ == base + v@.subrange(lo as int, i as int),
        decreases hi - i,
    {
        out.push(v[i]);
        assert(v@.subrange(lo as int, i + 1) == v@.subrange(lo as int, i as int).push(v@[i as int]));
        i = i + 1;
    }
}

/// The groups of `a` and `b` (cut at `g`) alternated into one stream.
fn interleave(a: &Vec<usize>, b: &Vec<usize>, g: usize) -> (r: Vec<usize>)
    requires
        g > 0,
        a@.len() == b@.len(),
    ensures
        r@ == interleaved(a@, b@, g as int, 0),
{
    let n = a.len();
    let mut out: Vec<usize> = Vec::new();
    let mut start: usize = 0;
    while start < n
        invariant
            g > 0,
            n == a@.len(),
            a@.len() == b@.len(),
            start <= n,
            out@ + interleaved(a@, b@, g as int, start as int) == interleaved(a@, b@, g as int, 0),
        decreases n - start,
    {
        let end: usize = if g < n - start { start + g } else { n };
        assert(end == group_end(n as int, g as int, start as int));
        let ghost before = out@;
        push_range(&mut out, a, start, end);
        push_range(&mut out, b, start, end);
        assert(out@ + interleaved(a@, b@, g as int, end as int) == before + interleaved(
            a@,
            b@,
            g as int,
            start as int,
        ));
        start = end;
    }
    assert(out@ + seq![] == out@);
    out
}

impl SeatingChart {
    /// The child of `self` and `other`: their groups are alternated
    /// (`self`'s first group, `other`'s first group, `self`'s second, ...),
    /// and the resulting stream is walked keeping each person at their first
    /// appearance. The child keeps `self`'s group size and is again a
    /// permutation of the same people; a chart crossed with itself gives
    /// back its own seats.
    pub fn crossover(&self, other: &SeatingChart) -> (r: SeatingChart)
        requires
            self.wf(self.seats@.len()),
            is_permutation(other.seats@, self.seats@.len()),
        ensures
            r.seats@ == crossover_seats(self.seats@, other.seats@, self.group_size as int),
            r.group_size == self.group_size,
            r.wf(self.seats@.len()),
            other.seats@ == self.seats@ ==> r.seats@ == self.seats@,
    {
        let n = self.seats.len();
        let stream = interleave(&self.seats, &other.seats, self.group_size);
        let mut placed = all_false(n);
        let mut child: Vec<usize> = Vec::new();
        let mut i: usize = 0;
        while i < stream.len()
            invariant
                i <= stream@.len(),
                placed@.len() == n,
                child@ == keep_first(stream@.subrange(0, i as int), n as nat),
                forall|x: usize| x < n ==> (placed@[x as int] <==> #[trigger] child@.contains(x)),
            decreases stream@.len() - i,
        {
            let x = stream[i];
            let ghost pre = stream@.subrange(0, i as int);
            let ghost cur = stream@.subrange(0, i + 1);
            assert(cur.drop_last() == pre);
            assert(cur.last() == x);
            proof {
                lemma_keep_first(pre, n as nat);
            }
            if x < n && !placed[x] {
                placed.set(x, true);
                let ghost old_child = child@;
                child.push(x);
                assert forall|y: usize| y < n implies (placed@[y as int] <==> #[trigger] child@.contains(y)) by {
                    if child@.contains(y) {
                        let k = choose|k: int| 0 <= k < child@.len() && child@[k] == y;
                        if k < old_child.len() {
                            assert(old_child[k] == y);
                        }
                    }
                    if old_child.contains(y) {
                        let k = choose|k: int| 0 <= k < old_child.len() && old_child[k] == y;
                        assert(child@[k] == y);
                    }
                    assert(child@[old_child.len() as int] == x);
                }
            }
            i = i + 1;
        }
        assert(stream@.subrange(0, stream@.len() as int) == stream@);
        proof {
            lemma_crossover_is_permutation(self.seats@, other.seats@, self.group_size as int, n as nat);
            if other.seats@ == self.seats@ {
                lemma_crossover_with_itself(self.seats@, self.group_size as int, n as nat);
            }
        }
        SeatingChart { seats: child, group_size: self.group_size }
    }
}

} // verus!
