//! Mutation: a chart with two positions swapped.
use vstd::prelude::*;
use crate::chart::{SeatingChart, is_permutation};
use crate::random::random_usize;

verus! {

/// `s` with the values at positions `i` and `j` exchanged.
pub open spec fn swapped(s: Seq<usize>, i: int, j: int) -> Seq<usize> {
    s.update(i, s[j]).update(j, s[i])
}

/// Exchanging two positions of a permutation gives a permutation.
pub proof fn lemma_swap_is_permutation(s: Seq<usize>, n: nat, i: int, j: int)
    requires
        is_permutation(s, n),
        0 <= i < s.len(),
        0 <= j < s.len(),
    ensures
        is_permutation(swapped(s, i, j), n),
{
    let t = swapped(s, i, j);
    assert forall|k: int| 0 <= k < t.len() implies (#[trigger] t[k]) < n by {
        if k == j {
            assert(t[k] == s[i]);
        } else if k == i {
            assert(t[k] == s[j]);
        } else {
            assert(t[k] == s[k]);
        }
    }
    // the position in `s` that each position of `t` takes its value from
    let src = |k: int| if k == j { i } else if k == i { j } else { k };
    assert forall|k: int| 0 <= k < t.len() implies #[trigger] t[k] == s[src(k)] by {}
    assert forall|a: int, b: int| 0 <= a < t.len() && 0 <= b < t.len() && a != b implies t[a] != t[b] by {
        assert(t[a] == s[src(a)]);
        assert(t[b] == s[src(b)]);
        assert(src(a) != src(b));
    }
}

impl SeatingChart {
    /// A new chart equal to `self` but with the people at positions `i` and
    /// `j` exchanged; `self` is left as it is. With `i == j` the new chart
    /// has the same seats.
    pub fn mutate_at(&self, i: usize, j: usize) -> (r: SeatingChart)
        requires
            i < self.seats@.len(),
            j < self.seats@.len(),
        ensures
            r.seats@ == swapped(self.seats@, i as int, j as int),
            r.group_size == self.group_size,
            i == j ==> r.seats@ == self.seats@,
            forall|n: nat| self.wf(n) ==> #[trigger] r.wf(n),
    {
        let mut seats = self.duplicate().seats;
        let a = seats[i];
        let b = seats[j];
        seats.set(i, b);
        seats.set(j, a);
        assert(i == j ==> seats@ =~= self.seats@);
        proof {
            assert forall|n: nat| self.wf(n) implies #[trigger] is_permutation(seats@, n) by {
                lemma_swap_is_permutation(self.seats@, n, i as int, j as int);
            }
        }
        SeatingChart { seats, group_size: self.group_size }
    }

    /// A new chart with two positions, drawn at random, exchanged (they may
    /// coincide, and then nothing changes).
    pub fn mutate(&self) -> (r: SeatingChart)
        requires
            self.seats@.len() > 0,
        ensures
            r.group_size == self.group_size,
            exists|i: int, j: int|
                0 <= i < self.seats@.len() && 0 <= j < self.seats@.len() && r.seats@ == swapped(
                    self.seats@,
                    i,
                    j,
                ),
            forall|n: nat| self.wf(n) ==> #[trigger] r.wf(n),
    {
        let n = self.seats.len();
        let i = random_usize() % n;
        let j = random_usize() % n;
        self.mutate_at(i, j)
    }
}

} // verus!
