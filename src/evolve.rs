//! The initial population and the generational loop.

use vstd::prelude::*;
use rand::rngs::StdRng;
use crate::bits::{count_ones, crossed, flipped, is_bit_string, mutated};
use crate::random::{draw_bit_string, draw_index, draw_ratio};
use crate::recombine::{crossover, lemma_crossover_child, lemma_mutation_flips_one, mutate};
use crate::select::{
    converged, is_converged, is_ranking, lemma_ranking_best, rank, ranked_by, total_fitness,
    total_of, Scored,
};

verus! {

/// The chance that a child is mutated, as `numerator` in `denominator`.
#[derive(Clone, Copy, Debug)]
pub struct MutationRate {
    pub numerator: u32,
    pub denominator: u32,
}

impl MutationRate {
    /// A probability in `[0, 1]`.
    pub open spec fn valid(self) -> bool {
        0 < self.denominator && self.numerator <= self.denominator
    }

    /// No child is ever mutated.
    pub open spec fn never(self) -> bool {
        self.numerator == 0
    }

    /// Every child is mutated.
    pub open spec fn always(self) -> bool {
        self.numerator == self.denominator
    }
}

/// What one generation looked like before it was judged.
pub struct Report {
    /// A fittest member.
    pub best: Vec<char>,
    /// Its fitness.
    pub best_fitness: usize,
    /// The sum of the fitness of all members.
    pub total_fitness: u128,
    /// The number of members.
    pub size: usize,
}

/// The result of a run: the last population, one report per generation
/// examined, and whether the run stopped because it converged.
pub struct Evolution {
    pub population: Vec<Vec<char>>,
    pub reports: Vec<Report>,
    pub converged: bool,
}

/// Every member of `pop` has length `l`.
pub open spec fn uniform(pop: Seq<Vec<char>>, l: nat) -> bool {
    forall|i: int| 0 <= i < pop.len() ==> (#[trigger] pop[i])@.len() == l
}

/// Every member of `pop` is a bit string.
pub open spec fn all_bit_strings(pop: Seq<Vec<char>>) -> bool {
    forall|i: int| 0 <= i < pop.len() ==> is_bit_string((#[trigger] pop[i])@)
}

/// `n` bit strings of length `l` each.
pub open spec fn is_population(pop: Seq<Vec<char>>, n: nat, l: nat) -> bool {
    pop.len() == n && uniform(pop, l) && all_bit_strings(pop)
}

/// `report` gives a fittest member of `pop`, its fitness, the fitness total
/// and the size of `pop`.
pub open spec fn describes(report: Report, pop: Seq<Vec<char>>) -> bool {
    &&& report.size == pop.len()
    &&& report.total_fitness == total_of(pop)
    &&& report.best_fitness == count_ones(report.best@)
    &&& exists|j: int| 0 <= j < pop.len() && report.best@ == (#[trigger] pop[j])@
    &&& forall|j: int| 0 <= j < pop.len() ==> count_ones((#[trigger] pop[j])@) <= report.best_fitness
}

/// The population that `report` describes has converged.
pub open spec fn report_converged(report: Report) -> bool {
    converged(report.total_fitness as int, report.size as int, report.best_fitness as int)
}

/// The crossover of `a` and `b` at `idx`, then mutated at `m` unless `m` is negative.
pub open spec fn child_of(a: Seq<char>, b: Seq<char>, idx: int, m: int) -> Seq<char> {
    if m < 0 {
        crossed(a, b, idx)
    } else {
        mutated(crossed(a, b, idx), m)
    }
}

/// `child` is bred from two parents among the first `half` of `ranked`, cut
/// at a valid index, and mutated or not as `rate` allows.
pub open spec fn is_offspring(child: Seq<char>, ranked: Seq<Scored>, half: int, rate: MutationRate) -> bool {
    exists|ia: int, ib: int, idx: int, m: int|
        0 <= ia < half && 0 <= ib < half && 0 <= idx < ranked[ia].individual@.len()
            && m < ranked[ia].individual@.len()
            && (rate.never() ==> m < 0)
            && (rate.always() ==> m >= 0)
            && child == #[trigger] child_of(ranked[ia].individual@, ranked[ib].individual@, idx, m)
}

/// `n` individuals of `l` random bits each.
pub fn generate_random_bits(n: usize, l: usize, rng: &mut StdRng) -> (pop: Vec<Vec<char>>)
    requires
        l > 0,
    ensures
        is_population(pop@, n as nat, l as nat),
{
    let mut pop: Vec<Vec<char>> = Vec::with_capacity(n);
    let mut i: usize = 0;
    while i < n
        invariant
            l > 0,
            i <= n,
            is_population(pop@, i as nat, l as nat),
        decreases n - i,
    {
        let b = draw_bit_string(rng, l);
        pop.push(b);
        i = i + 1;
    }
    pop
}

/// Any two populations generated for the same `n` and `l` have the same
/// shape: as many members, member for member of the same length, all of
/// them bit strings.
pub proof fn lemma_generated_shape(p: Seq<Vec<char>>, q: Seq<Vec<char>>, n: nat, l: nat)
    requires
        is_population(p, n, l),
        is_population(q, n, l),
    ensures
        p.len() == q.len(),
        forall|i: int| 0 <= i < p.len() ==> (#[trigger] p[i])@.len() == q[i]@.len(),
        all_bit_strings(p) && all_bit_strings(q),
{
    assert forall|i: int| 0 <= i < p.len() implies (#[trigger] p[i])@.len() == q[i]@.len() by {
        assert(p[i]@.len() == l);
        assert(q[i]@.len() == l);
    }
}

/// A bred child keeps the parents' length, and stays a bit string when both
/// parents are bit strings.
proof fn lemma_child_shape(a: Seq<char>, b: Seq<char>, idx: int, m: int)
    requires
        a.len() == b.len(),
        0 <= idx < a.len(),
        m < a.len(),
    ensures
        child_of(a, b, idx, m).len() == a.len(),
        is_bit_string(a) && is_bit_string(b) ==> is_bit_string(child_of(a, b, idx, m)),
{
    lemma_crossover_child(a, b, idx);
    if m >= 0 && is_bit_string(a) && is_bit_string(b) {
        lemma_mutation_flips_one(crossed(a, b, idx), m);
    }
}

/// `ranked.len()` children, each bred from two parents drawn uniformly from
/// the first half of `ranked`, by crossover and then, with chance `rate`,
/// mutation.
pub fn next_generation(ranked: &Vec<Scored>, rate: MutationRate, rng: &mut StdRng) -> (next: Vec<Vec<char>>)
    requires
        ranked@.len() >= 2,
        rate.valid(),
        ranked@[0].individual@.len() > 0,
        forall|k: int|
            0 <= k < ranked@.len() ==> (#[trigger] ranked@[k]).individual@.len()
                == ranked@[0].individual@.len(),
    ensures
        next@.len() == ranked@.len(),
        uniform(next@, ranked@[0].individual@.len()),
        forall|k: int|
            0 <= k < next@.len() ==> is_offspring(
                (#[trigger] next@[k])@,
                ranked@,
                (ranked@.len() / 2) as int,
                rate,
            ),
        (forall|k: int| 0 <= k < ranked@.len() ==> is_bit_string((#[trigger] ranked@[k]).individual@))
            ==> all_bit_strings(next@),
{
    let n = ranked.len();
    let half = n / 2;
    let ghost l = ranked@[0].individual@.len();
    let ghost parents_bits = forall|k: int|
        0 <= k < ranked@.len() ==> is_bit_string((#[trigger] ranked@[k]).individual@);
    let mut next: Vec<Vec<char>> = Vec::with_capacity(n);
    let mut i: usize = 0;
    while i < n
        invariant
            n == ranked@.len(),
            half == n / 2,
            n >= 2,
            rate.valid(),
            l == ranked@[0].individual@.len(),
            l > 0,
            forall|k: int| 0 <= k < ranked@.len() ==> (#[trigger] ranked@[k]).individual@.len() == l,
            parents_bits == forall|k: int|
                0 <= k < ranked@.len() ==> is_bit_string((#[trigger] ranked@[k]).individual@),
            i <= n,
            next@.len() == i,
            uniform(next@, l),
            parents_bits ==> all_bit_strings(next@),
            forall|k: int| 0 <= k < i ==> is_offspring((#[trigger] next@[k])@, ranked@, half as int, rate),
        decreases n - i,
    {
        let mutate_now = draw_ratio(rng, rate.numerator, rate.denominator);
        let ia = draw_index(rng, half);
        let ib = draw_index(rng, half);
        let a = &ranked[ia].individual;
        let b = &ranked[ib].individual;
        let crossed_child = crossover(a, b, rng);
        let ghost idx = choose|idx: int| 0 <= idx < a@.len() && crossed_child@ == crossed(a@, b@, idx);
        let ghost mut m: int = -1;
        let child = if mutate_now {
            let mutant = mutate(&crossed_child, rng);
            proof {
                m = choose|m: int| 0 <= m < crossed_child@.len() && mutant@ == mutated(crossed_child@, m);
            }
            mutant
        } else {
            crossed_child
        };
        proof {
            assert(child@ == child_of(a@, b@, idx, m));
            lemma_child_shape(a@, b@, idx, m);
            if parents_bits {
                assert(is_bit_string(a@));
                assert(is_bit_string(b@));
            }
            assert(is_offspring(child@, ranked@, half as int, rate));
        }
        next.push(child);
        i = i + 1;
    }
    next
}

/// With mutation switched off, an offspring is exactly the single-point
/// crossover of two parents of the fitter half, at some cut index.
pub proof fn lemma_unmutated_offspring(child: Seq<char>, ranked: Seq<Scored>, half: int, rate: MutationRate)
    requires
        is_offspring(child, ranked, half, rate),
        rate.never(),
    ensures
        exists|ia: int, ib: int, idx: int|
            0 <= ia < half && 0 <= ib < half && 0 <= idx < ranked[ia].individual@.len() && child
                == #[trigger] crossed(ranked[ia].individual@, ranked[ib].individual@, idx),
{
    let (ia, ib, idx, m) = choose|ia: int, ib: int, idx: int, m: int|
        0 <= ia < half && 0 <= ib < half && 0 <= idx < ranked[ia].individual@.len()
            && m < ranked[ia].individual@.len()
            && (rate.never() ==> m < 0)
            && (rate.always() ==> m >= 0)
            && child == #[trigger] child_of(ranked[ia].individual@, ranked[ib].individual@, idx, m);
    assert(child == crossed(ranked[ia].individual@, ranked[ib].individual@, idx));
}

/// With one-digit individuals of equal length and certain mutation, an
/// offspring is the flipped digit of a parent of the fitter half.
pub proof fn lemma_single_digit_offspring(child: Seq<char>, ranked: Seq<Scored>, half: int, rate: MutationRate)
    requires
        is_offspring(child, ranked, half, rate),
        rate.always(),
        forall|k: int| 0 <= k < ranked.len() ==> (#[trigger] ranked[k]).individual@.len() == 1,
        half <= ranked.len(),
    ensures
        exists|ib: int|
            0 <= ib < half && child =~= seq![flipped((#[trigger] ranked[ib]).individual@[0])],
{
    let (ia, ib, idx, m) = choose|ia: int, ib: int, idx: int, m: int|
        0 <= ia < half && 0 <= ib < half && 0 <= idx < ranked[ia].individual@.len()
            && m < ranked[ia].individual@.len()
            && (rate.never() ==> m < 0)
            && (rate.always() ==> m >= 0)
            && child == #[trigger] child_of(ranked[ia].individual@, ranked[ib].individual@, idx, m);
    let b = ranked[ib].individual@;
    assert(crossed(ranked[ia].individual@, b, idx) =~= b);
    assert(child =~= seq![flipped(b[0])]);
}

/// `next` is a generation bred from a ranking of `pop`.
pub open spec fn bred(pop: Seq<Vec<char>>, next: Seq<Vec<char>>, rate: MutationRate) -> bool {
    &&& next.len() == pop.len()
    &&& exists|ranked: Seq<Scored>|
        is_ranking(pop, ranked) && forall|k: int|
            0 <= k < next.len() ==> is_offspring(
                (#[trigger] next[k])@,
                ranked,
                (pop.len() / 2) as int,
                rate,
            )
}

/// A ranking keeps the lengths of the members, and keeps them bit strings.
proof fn lemma_ranking_shape(pop: Seq<Vec<char>>, ranked: Seq<Scored>, l: nat)
    requires
        is_ranking(pop, ranked),
        uniform(pop, l),
    ensures
        ranked.len() == pop.len(),
        forall|k: int| 0 <= k < ranked.len() ==> (#[trigger] ranked[k]).individual@.len() == l,
        all_bit_strings(pop) ==> forall|k: int|
            0 <= k < ranked.len() ==> is_bit_string((#[trigger] ranked[k]).individual@),
{
    let order = choose|order: Seq<int>| ranked_by(pop, ranked, order);
    assert forall|k: int| 0 <= k < ranked.len() implies (#[trigger] ranked[k]).individual@.len() == l
        && (all_bit_strings(pop) ==> is_bit_string(ranked[k].individual@)) by {
        assert(0 <= order[k] < pop.len());
        assert(ranked[k].individual@ == pop[order[k]]@);
    }
}

/// One generation: rank and describe `pop`; unless it has converged, breed
/// the next generation from the fitter half.
pub fn generation(pop: &Vec<Vec<char>>, rate: MutationRate, rng: &mut StdRng) -> (r: (
    Report,
    Option<Vec<Vec<char>>>,
))
    requires
        pop@.len() >= 2,
        rate.valid(),
        pop@[0]@.len() > 0,
        uniform(pop@, pop@[0]@.len()),
    ensures
        describes(r.0, pop@),
        r.1 is None <==> report_converged(r.0),
        r.1 is Some ==> bred(pop@, r.1->0@, rate),
        r.1 is Some ==> uniform(r.1->0@, pop@[0]@.len()),
        r.1 is Some && all_bit_strings(pop@) ==> all_bit_strings(r.1->0@),
{
    let ghost l = pop@[0]@.len();
    let ranked = rank(pop);
    proof {
        lemma_ranking_best(pop@, ranked@);
        lemma_ranking_shape(pop@, ranked@, l);
    }
    let total = total_fitness(pop);
    let best = ranked[0].individual.clone();
    assert(best@ =~= ranked@[0].individual@);
    let report = Report {
        best,
        best_fitness: ranked[0].fitness,
        total_fitness: total,
        size: pop.len(),
    };
    if is_converged(total, pop.len(), ranked[0].fitness) {
        (report, None)
    } else {
        let next = next_generation(&ranked, rate, rng);
        assert(bred(pop@, next@, rate));
        (report, Some(next))
    }
}

/// `history` starts at `start` and is a run of generations that `reports`
/// describe one by one: none of them converged, and each after the first
/// was bred from the one before.
pub open spec fn is_run(
    start: Seq<Vec<char>>,
    history: Seq<Seq<Vec<char>>>,
    reports: Seq<Report>,
    rate: MutationRate,
) -> bool {
    &&& history.len() == reports.len() + 1
    &&& history[0] == start
    &&& forall|k: int|
        0 <= k < reports.len() ==> describes(#[trigger] reports[k], history[k])
            && !report_converged(reports[k]) && bred(history[k], history[k + 1], rate)
}

/// Runs generations from `pop` until one has converged, examining at most
/// `max_generations` of them. A converged generation is returned as it is,
/// its report last; otherwise the last one bred is returned.
pub fn evolve(pop: Vec<Vec<char>>, rate: MutationRate, max_generations: u64, rng: &mut StdRng) -> (r: Evolution)
    requires
        pop@.len() >= 2,
        rate.valid(),
        pop@[0]@.len() > 0,
        uniform(pop@, pop@[0]@.len()),
    ensures
        r.population@.len() == pop@.len(),
        uniform(r.population@, pop@[0]@.len()),
        all_bit_strings(pop@) ==> all_bit_strings(r.population@),
        r.reports@.len() <= max_generations,
        r.converged ==> r.reports@.len() > 0 && describes(r.reports@.last(), r.population@)
            && report_converged(r.reports@.last()) && exists|history: Seq<Seq<Vec<char>>>|
            is_run(pop@, history, r.reports@.drop_last(), rate) && history.last()
                == r.population@,
        !r.converged ==> r.reports@.len() == max_generations && exists|
            history: Seq<Seq<Vec<char>>>,
        | is_run(pop@, history, r.reports@, rate) && history.last() == r.population@,
{
    let ghost pop0 = pop@;
    let ghost l = pop@[0]@.len();
    let ghost bits = all_bit_strings(pop@);
    let ghost mut history: Seq<Seq<Vec<char>>> = seq![pop@];
    let mut curr = pop;
    let mut reports: Vec<Report> = Vec::new();
    let mut count: u64 = 0;
    while count < max_generations
        invariant
            rate.valid(),
            l > 0,
            l == pop0[0]@.len(),
            pop0 == pop@,
            curr@.len() == pop0.len(),
            pop0.len() >= 2,
            uniform(curr@, l),
            bits == all_bit_strings(pop0),
            bits ==> all_bit_strings(curr@),
            count <= max_generations,
            reports@.len() == count,
            is_run(pop0, history, reports@, rate),
            history.last() == curr@,
        decreases max_generations - count,
    {
        let (report, next) = generation(&curr, rate, rng);
        let ghost before = reports@;
        reports.push(report);
        match next {
            None => {
                assert(reports@.drop_last() =~= before);
                return Evolution { population: curr, reports, converged: true };
            },
            Some(p) => {
                proof {
                    let extended = history.push(p@);
                    assert forall|k: int| 0 <= k < reports@.len() implies describes(
                        #[trigger] reports@[k],
                        extended[k],
                    ) && !report_converged(reports@[k]) && bred(extended[k], extended[k + 1], rate) by {
                        if k < before.len() {
                            assert(reports@[k] == before[k]);
                        }
                    }
                    history = extended;
                }
                curr = p;
            },
        }
        count = count + 1;
    }
    Evolution { population: curr, reports, converged: false }
}

} // verus!
