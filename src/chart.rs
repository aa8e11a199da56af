//! Candidates (seating charts) and the preference table they are scored against.
use vstd::prelude::*;

verus! {

/// How much each person likes each other person: `rows[a][b]` is what
/// person `a` feels about person `b`.
pub struct PreferenceTable {
    pub rows: Vec<Vec<isize>>,
}

/// One seating assignment: `seats` lists the people (by index) in order and
/// is cut into consecutive groups of `group_size`; a short last group is
/// allowed.
pub struct SeatingChart {
    pub seats: Vec<usize>,
    pub group_size: usize,
}

/// `s` holds each of `0..n` exactly once.
pub open spec fn is_permutation(s: Seq<usize>, n: nat) -> bool {
    &&& s.len() == n
    &&& forall|i: int| 0 <= i < s.len() ==> (#[trigger] s[i]) < n
    &&& s.no_duplicates()
}

/// A weight is small enough that summing `n * n` weights of that size
/// cannot overflow.
pub open spec fn weight_fits(w: isize, n: nat) -> bool {
    n * n * (if w < 0 { -w } else { w as int }) <= isize::MAX
}

impl PreferenceTable {
    pub open spec fn view(&self) -> Seq<Seq<isize>> {
        Seq::new(self.rows@.len(), |i: int| self.rows@[i]@)
    }

    /// Number of people in the universe.
    pub open spec fn size(&self) -> nat {
        self.rows@.len()
    }

    /// Square, and every weight small enough for any chart's score to fit.
    pub open spec fn wf(&self) -> bool {
        &&& forall|i: int| 0 <= i < self.rows@.len() ==> (#[trigger] self.rows@[i])@.len() == self.rows@.len()
        &&& forall|i: int, j: int|
            0 <= i < self.rows@.len() && 0 <= j < self.rows@.len() ==> weight_fits(
                #[trigger] self.rows@[i]@[j],
                self.rows@.len(),
            )
    }
}

impl SeatingChart {
    /// A valid candidate over a universe of `n` people.
    pub open spec fn wf(&self, n: nat) -> bool {
        &&& self.group_size > 0
        &&& is_permutation(self.seats@, n)
    }
}

/// Whether `n * n * |w|` stays within `isize::MAX`.
pub fn weight_fits_check(w: isize, n: usize) -> (r: bool)
    ensures
        r == weight_fits(w, n as nat),
{
    let mag: u128 = if w < 0 { (0i128 - w as i128) as u128 } else { w as u128 };
    assert((n as u128) * (n as u128) <= u128::MAX) by (nonlinear_arith)
        requires n <= u64::MAX;
    let nn: u128 = (n as u128) * (n as u128);
    if mag == 0 {
        assert(n * n * 0 == 0) by (nonlinear_arith);
        return true;
    }
    if nn > (isize::MAX as u128) / mag {
        proof {
            assert(nn * mag > isize::MAX) by (nonlinear_arith)
                requires nn > (isize::MAX as u128) / mag, mag > 0;
        }
        false
    } else {
        proof {
            assert(nn * mag <= isize::MAX) by (nonlinear_arith)
                requires nn <= (isize::MAX as u128) / mag, mag > 0;
        }
        true
    }
}

impl PreferenceTable {
    /// Whether the table is square and every weight fits (see `wf`).
    pub fn is_valid(&self) -> (r: bool)
        ensures
            r == self.wf(),
    {
        let n = self.rows.len();
        let mut i: usize = 0;
        while i < n
            invariant
                n == self.rows@.len(),
                i <= n,
                forall|a: int| 0 <= a < i ==> (#[trigger] self.rows@[a])@.len() == n,
                forall|a: int, b: int|
                    0 <= a < i && 0 <= b < n ==> weight_fits(#[trigger] self.rows@[a]@[b], n as nat),
            decreases n - i,
        {
            if self.rows[i].len() != n {
                return false;
            }
            let mut j: usize = 0;
            while j < n
                invariant
                    n == self.rows@.len(),
                    i < n,
                    j <= n,
                    self.rows@[i as int]@.len() == n,
                    forall|b: int| 0 <= b < j ==> weight_fits(#[trigger] self.rows@[i as int]@[b], n as nat),
                decreases n - j,
            {
                if !weight_fits_check(self.rows[i][j], n) {
                    return false;
                }
                j = j + 1;
            }
            i = i + 1;
        }
        true
    }

    /// Number of people in the universe.
    pub fn len(&self) -> (r: usize)
        ensures
            r == self.size(),
    {
        self.rows.len()
    }
}

/// `n` copies of `false`.
pub(crate) fn all_false(n: usize) -> (r: Vec<bool>)
    ensures
        r@.len() == n,
        forall|i: int| 0 <= i < n ==> !(#[trigger] r@[i]),
{
    let mut r: Vec<bool> = Vec::new();
    let mut i: usize = 0;
    while i < n
        invariant
            i <= n,
            r@.len() == i,
            forall|j: int| 0 <= j < i ==> !(#[trigger] r@[j]),
        decreases n - i,
    {
        r.push(false);
        i = i + 1;
    }
    r
}

impl SeatingChart {
    /// A chart with the same seats and group size.
    pub fn duplicate(&self) -> (r: SeatingChart)
        ensures
            r.seats@ == self.seats@,
            r.group_size == self.group_size,
    {
        let mut seats: Vec<usize> = Vec::new();
        let mut i: usize = 0;
        while i < self.seats.len()
            invariant
                i <= self.seats@.len(),
                seats@ == self.seats@.subrange(0, i as int),
            decreases self.seats@.len() - i,
        {
            seats.push(self.seats[i]);
            assert(self.seats@.subrange(0, i + 1) == self.seats@.subrange(0, i as int).push(self.seats@[i as int]));
            i = i + 1;
        }
        assert(self.seats@.subrange(0, self.seats@.len() as int) == self.seats@);
        SeatingChart { seats, group_size: self.group_size }
    }

    /// Whether the seats hold each of `0..n` exactly once.
    pub fn is_permutation_of(&self, n: usize) -> (r: bool)
        ensures
            r == is_permutation(self.seats@, n as nat),
    {
        if self.seats.len() != n {
            return false;
        }
        let mut seen = all_false(n);
        let s = &self.seats;
        let mut i: usize = 0;
        while i < n
            invariant
                n == s@.len(),
                s@ == self.seats@,
                i <= n,
                seen@.len() == n,
                forall|p: int| 0 <= p < i ==> (#[trigger] s@[p]) < n,
                forall|p: int, q: int| 0 <= p < i && 0 <= q < i && p != q ==> s@[p] != s@[q],
                forall|x: int| 0 <= x < n ==> (#[trigger] seen@[x] <==> exists|p: int| 0 <= p < i && s@[p] == x),
            decreases n - i,
        {
            let x = s[i];
            if x >= n {
                assert(!(self.seats@[i as int] < n));
                return false;
            }
            if seen[x] {
                let ghost p = choose|p: int| 0 <= p < i && s@[p] == x;
                assert(self.seats@[p] == self.seats@[i as int]);
                return false;
            }
            seen.set(x, true);
            assert forall|y: int| 0 <= y < n implies (#[trigger] seen@[y] <==> exists|p: int|
                0 <= p < i + 1 && s@[p] == y) by {
                if y == x {
                    assert(s@[i as int] == y);
                } else if exists|p: int| 0 <= p < i + 1 && s@[p] == y {
                    let p = choose|p: int| 0 <= p < i + 1 && s@[p] == y;
                    assert(p < i);
                }
            }
            i = i + 1;
        }
        true
    }
}

} // verus!
