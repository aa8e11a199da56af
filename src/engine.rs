//! The generational search: configuration, selection, and the loop that
//! breeds one population from the last while remembering the best chart seen.
use vstd::prelude::*;
use crate::chart::{PreferenceTable, SeatingChart, is_permutation};
use crate::crossover::crossover_seats;
use crate::fitness::{SeatingFitness, chart_score, fitness};
use crate::mutation::swapped;
use crate::random::random_usize;

verus! {

/// Why a search cannot be set up.
#[derive(PartialEq, Eq, Structural, Clone, Copy, Debug)]
pub enum ConfigError {
    /// The initial population holds no chart.
    EmptyPopulation,
    /// The preference table holds no person.
    NoPeople,
    /// The table is not square, or a weight is too large for scores to fit.
    InvalidTable,
    /// A chart has group size zero.
    ZeroGroupSize,
    /// A chart does not seat each person exactly once.
    NotAPermutation,
    /// The selection count is zero or larger than the population.
    InvalidSelectionCount,
    /// The generation bound is zero.
    ZeroGenerations,
}

/// The score of chart `c` against table `t`.
pub open spec fn score_of(t: Seq<Seq<isize>>, c: SeatingChart) -> int {
    chart_score(t, c.seats@, c.group_size as int)
}

/// The first reason, in the order of `ConfigError`'s variants, why these
/// settings are refused; `None` when they are accepted.
pub open spec fn config_error(
    population: Seq<SeatingChart>,
    table: PreferenceTable,
    selection_count: usize,
    max_generations: usize,
) -> Option<ConfigError> {
    if population.len() == 0 {
        Some(ConfigError::EmptyPopulation)
    } else if table.size() == 0 {
        Some(ConfigError::NoPeople)
    } else if !table.wf() {
        Some(ConfigError::InvalidTable)
    } else if exists|p: int| 0 <= p < population.len() && (#[trigger] population[p]).group_size == 0 {
        Some(ConfigError::ZeroGroupSize)
    } else if exists|p: int|
        0 <= p < population.len() && !is_permutation((#[trigger] population[p]).seats@, table.size()) {
        Some(ConfigError::NotAPermutation)
    } else if selection_count == 0 || selection_count > population.len() {
        Some(ConfigError::InvalidSelectionCount)
    } else if max_generations == 0 {
        Some(ConfigError::ZeroGenerations)
    } else {
        None
    }
}

/// Of the two positions `x` and `y`, the one with the higher score; `x`
/// on a tie.
pub open spec fn winner(scores: Seq<isize>, x: int, y: int) -> int {
    if scores[x] >= scores[y] { x } else { y }
}

/// Tournament selection: for each pair of draws `(x, y)`, the position of the
/// fitter of the two charts at `x % len` and `y % len`, where `len` is the
/// number of scores. There is nothing to select from an empty population:
/// then the result is `None`.
pub fn select_parents(scores: &Vec<isize>, draws: &Vec<(usize, usize)>) -> (r: Option<Vec<usize>>)
    ensures
        r is None <==> scores@.len() == 0,
        r matches Some(v) ==> {
            &&& v@.len() == draws@.len()
            &&& forall|j: int| 0 <= j < draws@.len() ==> #[trigger] v@[j] == winner(
                scores@,
                (draws@[j].0 as int) % (scores@.len() as int),
                (draws@[j].1 as int) % (scores@.len() as int),
            )
        },
{
    let len = scores.len();
    if len == 0 {
        return None;
    }
    let mut v: Vec<usize> = Vec::new();
    let mut j: usize = 0;
    while j < draws.len()
        invariant
            len == scores@.len(),
            len > 0,
            j <= draws@.len(),
            v@.len() == j,
            forall|i: int| 0 <= i < j ==> #[trigger] v@[i] == winner(
                scores@,
                (draws@[i].0 as int) % (len as int),
                (draws@[i].1 as int) % (len as int),
            ),
        decreases draws@.len() - j,
    {
        let (a, b) = draws[j];
        let x = a % len;
        let y = b % len;
        if scores[x] >= scores[y] {
            v.push(x);
        } else {
            v.push(y);
        }
        j = j + 1;
    }
    Some(v)
}

/// A running search.
pub struct Simulator {
    /// The current generation of charts.
    pub population: Vec<SeatingChart>,
    pub table: PreferenceTable,
    /// How many parents each generation selects.
    pub selection_count: usize,
    pub max_generations: usize,
    /// Generations bred so far.
    pub generation: usize,
    /// The best chart seen so far (the first found, among equals).
    pub best: SeatingChart,
    pub best_score: isize,
}

impl Simulator {
    pub open spec fn wf(&self) -> bool {
        &&& self.table.wf()
        &&& self.table.size() > 0
        &&& self.population@.len() > 0
        &&& forall|p: int| 0 <= p < self.population@.len() ==> (#[trigger] self.population@[p]).wf(self.table.size())
        &&& 0 < self.selection_count <= self.population@.len()
        &&& self.generation <= self.max_generations
        &&& self.best.wf(self.table.size())
        &&& self.best_score == score_of(self.table@, self.best)
    }

    /// The position, in the population bred from, of the parent selected
    /// for slot `j` of the selection.
    pub open spec fn parent(&self, picks: Seq<(usize, usize)>, j: int) -> int {
        winner(
            self.scores(),
            (picks[j].0 as int) % (self.population@.len() as int),
            (picks[j].1 as int) % (self.population@.len() as int),
        )
    }

    /// The two parents of child `c`: selection slots `c` and `c + 1`, taken
    /// round the selection.
    pub open spec fn first_parent(&self, picks: Seq<(usize, usize)>, c: int) -> SeatingChart {
        self.population@[self.parent(picks, c % (self.selection_count as int))]
    }

    pub open spec fn second_parent(&self, picks: Seq<(usize, usize)>, c: int) -> SeatingChart {
        self.population@[self.parent(picks, (c + 1) % (self.selection_count as int))]
    }

    /// The seats of child `c`: the crossover of its parents, with the two
    /// positions drawn for it exchanged.
    pub open spec fn child_seats(
        &self,
        picks: Seq<(usize, usize)>,
        swaps: Seq<(usize, usize)>,
        c: int,
    ) -> Seq<usize> {
        let a = self.first_parent(picks, c);
        let b = self.second_parent(picks, c);
        let n = self.table.size() as int;
        swapped(
            crossover_seats(a.seats@, b.seats@, a.group_size as int),
            (swaps[c].0 as int) % n,
            (swaps[c].1 as int) % n,
        )
    }

    /// The scores of the current population.
    pub open spec fn scores(&self) -> Seq<isize> {
        Seq::new(self.population@.len(), |p: int| score_of(self.table@, self.population@[p]) as isize)
    }

    /// `next_best` with score `next_score` is what tracking the best gives
    /// after this population is scored: the best so far when no chart beats
    /// it, else the first chart of the population with the highest score.
    pub open spec fn best_updated(&self, next_best: SeatingChart, next_score: isize) -> bool {
        ||| (next_best == self.best && next_score == self.best_score)
        ||| exists|p: int|
            0 <= p < self.population@.len() && next_score > self.best_score && next_score
                == self.scores()[p] && next_best.seats@ == (#[trigger] self.population@[p]).seats@
                && next_best.group_size == self.population@[p].group_size && forall|q: int|
                0 <= q < p ==> #[trigger] self.scores()[q] < next_score
    }

    /// `next` is the population bred from this one with the draws `picks`
    /// (one pair per selection slot) and `swaps` (one pair per child).
    pub open spec fn bred(
        &self,
        next: Seq<SeatingChart>,
        picks: Seq<(usize, usize)>,
        swaps: Seq<(usize, usize)>,
    ) -> bool {
        &&& picks.len() == self.selection_count
        &&& swaps.len() == self.population@.len()
        &&& next.len() == self.population@.len()
        &&& forall|c: int|
            0 <= c < next.len() ==> (#[trigger] next[c]).seats@ == self.child_seats(picks, swaps, c)
                && next[c].group_size == self.first_parent(picks, c).group_size
    }

    /// Sets up a search over `table` from an initial population, refusing
    /// invalid settings (see `config_error`). The best chart starts as the
    /// first of the population.
    pub fn new(
        population: Vec<SeatingChart>,
        table: PreferenceTable,
        selection_count: usize,
        max_generations: usize,
    ) -> (r: Result<Simulator, ConfigError>)
        ensures
            match r {
                Ok(sim) => {
                    &&& config_error(population@, table, selection_count, max_generations) is None
                    &&& sim.wf()
                    &&& sim.population@ == population@
                    &&& sim.table == table
                    &&& sim.selection_count == selection_count
                    &&& sim.max_generations == max_generations
                    &&& sim.generation == 0
                    &&& sim.best.seats@ == population@[0].seats@
                    &&& sim.best.group_size == population@[0].group_size
                },
                Err(e) => config_error(population@, table, selection_count, max_generations) == Some(e),
            },
    {
        if population.len() == 0 {
            return Err(ConfigError::EmptyPopulation);
        }
        let n = table.len();
        if n == 0 {
            return Err(ConfigError::NoPeople);
        }
        if !table.is_valid() {
            return Err(ConfigError::InvalidTable);
        }
        let mut p: usize = 0;
        while p < population.len()
            invariant
                population@.len() > 0,
                n == table.size(),
                n > 0,
                table.wf(),
                p <= population@.len(),
                forall|q: int| 0 <= q < p ==> (#[trigger] population@[q]).group_size != 0,
            decreases population@.len() - p,
        {
            if population[p].group_size == 0 {
                assert(population@[p as int].group_size == 0);
                return Err(ConfigError::ZeroGroupSize);
            }
            p = p + 1;
        }
        let mut p: usize = 0;
        while p < population.len()
            invariant
                population@.len() > 0,
                n == table.size(),
                n > 0,
                table.wf(),
                forall|q: int| 0 <= q < population@.len() ==> (#[trigger] population@[q]).group_size != 0,
                p <= population@.len(),
                forall|q: int| 0 <= q < p ==> is_permutation((#[trigger] population@[q]).seats@, n as nat),
            decreases population@.len() - p,
        {
            if !population[p].is_permutation_of(n) {
                assert(!is_permutation(population@[p as int].seats@, n as nat));
                return Err(ConfigError::NotAPermutation);
            }
            p = p + 1;
        }
        if selection_count == 0 || selection_count > population.len() {
            return Err(ConfigError::InvalidSelectionCount);
        }
        if max_generations == 0 {
            return Err(ConfigError::ZeroGenerations);
        }
        let best = population[0].duplicate();
        let best_score = fitness(&best, &table).value;
        Ok(Simulator {
            population,
            table,
            selection_count,
            max_generations,
            generation: 0,
            best,
            best_score,
        })
    }

    /// The best chart seen so far.
    pub fn best(&self) -> (r: &SeatingChart)
        ensures
            r == &self.best,
    {
        &self.best
    }

    /// The score of the best chart seen so far.
    pub fn best_fitness(&self) -> (r: SeatingFitness)
        ensures
            r.value == self.best_score,
    {
        SeatingFitness { value: self.best_score }
    }

    /// Whether the generation bound has been reached.
    pub fn is_done(&self) -> (r: bool)
        ensures
            r == (self.generation >= self.max_generations),
    {
        self.generation >= self.max_generations
    }
    /// Breeds one generation with the random choices given: every chart is
    /// scored and the best chart seen is updated (a later chart replaces it
    /// only when strictly better); `picks` holds one pair of draws per
    /// selection slot (see `select_parents`); child `c` is the crossover of
    /// the parents in slots `c` and `c + 1` (round the selection, so with one
    /// slot a parent is crossed with itself), with the positions `swaps[c]`
    /// (each taken modulo the number of people) exchanged.
    pub fn step_with(&mut self, picks: &Vec<(usize, usize)>, swaps: &Vec<(usize, usize)>)
        requires
            old(self).wf(),
            old(self).generation < old(self).max_generations,
            picks@.len() == old(self).selection_count,
            swaps@.len() == old(self).population@.len(),
        ensures
            final(self).wf(),
            final(self).table == old(self).table,
            final(self).selection_count == old(self).selection_count,
            final(self).max_generations == old(self).max_generations,
            final(self).generation == old(self).generation + 1,
            final(self).best_score >= old(self).best_score,
            forall|p: int|
                0 <= p < old(self).population@.len() ==> final(self).best_score >= #[trigger] old(
                    self,
                ).scores()[p],
            old(self).best_updated(final(self).best, final(self).best_score),
            old(self).bred(final(self).population@, picks@, swaps@),
    {
        let ghost s0 = *self;
        let n = self.table.len();
        let len = self.population.len();
        let k = self.selection_count;
        let mut scores: Vec<isize> = Vec::new();
        let mut p: usize = 0;
        while p < len
            invariant
                self.wf(),
                *self == s0,
                len == self.population@.len(),
                p <= len,
                scores@.len() == p,
                forall|q: int| 0 <= q < p ==> #[trigger] scores@[q] == self.scores()[q],
                forall|q: int| 0 <= q < p ==> #[trigger] scores@[q] as int == score_of(self.table@, self.population@[q]),
            decreases len - p,
        {
            let f = fitness(&self.population[p], &self.table);
            scores.push(f.value);
            p = p + 1;
        }
        assert(scores@ =~= self.scores());

        let mut best_score = self.best_score;
        let mut best_pos: usize = len;
        let mut p: usize = 0;
        while p < len
            invariant
                *self == s0,
                len == self.population@.len(),
                scores@ == self.scores(),
                p <= len,
                best_score >= self.best_score,
                forall|q: int| 0 <= q < p ==> best_score >= #[trigger] scores@[q],
                best_pos <= len,
                best_pos < len ==> forall|q: int| 0 <= q < best_pos ==> #[trigger] scores@[q] < best_score,
                best_pos == len ==> best_score == self.best_score,
                best_pos < len ==> best_pos < p && best_score == scores@[best_pos as int] && best_score
                    > self.best_score,
                forall|q: int| 0 <= q < len ==> #[trigger] scores@[q] as int == score_of(self.table@, self.population@[q]),
            decreases len - p,
        {
            if scores[p] > best_score {
                best_score = scores[p];
                best_pos = p;
            }
            p = p + 1;
        }

        let opt = select_parents(&scores, picks);
        let sel = match opt {
            Some(v) => v,
            None => Vec::new(),
        };
        assert(sel@.len() == k);
        assert forall|j: int| 0 <= j < k implies #[trigger] sel@[j] == self.parent(picks@, j) && sel@[j] < len by {}

        let mut children: Vec<SeatingChart> = Vec::new();
        let mut c: usize = 0;
        while c < len
            invariant
                self.wf(),
                *self == s0,
                len == self.population@.len(),
                n == self.table.size(),
                k == self.selection_count,
                sel@.len() == k,
                forall|j: int| 0 <= j < k ==> #[trigger] sel@[j] == self.parent(picks@, j) && sel@[j] < len,
                swaps@.len() == len,
                c <= len,
                children@.len() == c,
                forall|i: int|
                    0 <= i < c ==> (#[trigger] children@[i]).seats@ == self.child_seats(picks@, swaps@, i)
                        && children@[i].group_size == self.first_parent(picks@, i).group_size
                        && children@[i].wf(n as nat),
            decreases len - c,
        {
            let a = sel[c % k];
            let b = sel[(c + 1) % k];
            let child = self.population[a].crossover(&self.population[b]);
            let (x, y) = swaps[c];
            let m = child.mutate_at(x % n, y % n);
            children.push(m);
            c = c + 1;
        }

        if best_pos < len {
            self.best = self.population[best_pos].duplicate();
            self.best_score = best_score;
        }
        self.population = children;
        self.generation = self.generation + 1;
        assert forall|q: int| 0 <= q < len implies self.best_score >= #[trigger] s0.scores()[q] by {
            assert(scores@[q] == s0.scores()[q]);
            assert(best_score >= scores@[q]);
            assert(self.best_score == best_score);
        }
    }

    /// Breeds one generation with fresh random choices (see `step_with`).
    pub fn step(&mut self)
        requires
            old(self).wf(),
            old(self).generation < old(self).max_generations,
        ensures
            final(self).wf(),
            final(self).table == old(self).table,
            final(self).selection_count == old(self).selection_count,
            final(self).max_generations == old(self).max_generations,
            final(self).generation == old(self).generation + 1,
            final(self).best_score >= old(self).best_score,
            forall|p: int|
                0 <= p < old(self).population@.len() ==> final(self).best_score >= #[trigger] old(
                    self,
                ).scores()[p],
            old(self).best_updated(final(self).best, final(self).best_score),
            exists|picks: Seq<(usize, usize)>, swaps: Seq<(usize, usize)>|
                #[trigger] old(self).bred(final(self).population@, picks, swaps),
    {
        let picks = draw_pairs(self.selection_count);
        let swaps = draw_pairs(self.population.len());
        self.step_with(&picks, &swaps);
    }

    /// Breeds generations until the generation bound is reached. The best
    /// score never goes down; when at least one generation is bred, it is at
    /// least the score of every chart of the starting population, and the
    /// best chart changes only for one that scores strictly higher.
    pub fn run(&mut self)
        requires
            old(self).wf(),
        ensures
            final(self).wf(),
            final(self).table == old(self).table,
            final(self).selection_count == old(self).selection_count,
            final(self).max_generations == old(self).max_generations,
            final(self).generation == final(self).max_generations,
            final(self).best_score >= old(self).best_score,
            final(self).best == old(self).best || final(self).best_score > old(self).best_score,
            old(self).generation < old(self).max_generations ==> forall|p: int|
                0 <= p < old(self).population@.len() ==> final(self).best_score >= #[trigger] old(
                    self,
                ).scores()[p],
            final(self).population@.len() == old(self).population@.len(),
    {
        let ghost start = *self;
        while self.generation < self.max_generations
            invariant
                self.wf(),
                self.table == start.table,
                self.selection_count == start.selection_count,
                self.max_generations == start.max_generations,
                self.generation >= start.generation,
                self.generation == start.generation ==> *self == start,
                self.best_score >= start.best_score,
                self.best == start.best || self.best_score > start.best_score,
                self.generation > start.generation ==> forall|p: int|
                    0 <= p < start.population@.len() ==> self.best_score >= #[trigger] start.scores()[p],
                self.population@.len() == start.population@.len(),
            decreases self.max_generations - self.generation,
        {
            let ghost before = *self;
            self.step();
            assert(self.best == before.best || self.best_score > before.best_score);
            assert forall|p: int| 0 <= p < start.population@.len() implies self.best_score
                >= #[trigger] start.scores()[p] by {
                if before.generation == start.generation {
                    assert(before.scores()[p] == start.scores()[p]);
                }
            }
        }
    }
}

/// `count` pairs of random draws.
fn draw_pairs(count: usize) -> (r: Vec<(usize, usize)>)
    ensures
        r@.len() == count,
{
    let mut r: Vec<(usize, usize)> = Vec::new();
    let mut i: usize = 0;
    while i < count
        invariant
            i <= count,
            r@.len() == i,
        decreases count - i,
    {
        let x = random_usize();
        let y = random_usize();
        r.push((x, y));
        i = i + 1;
    }
    r
}

} // verus!
