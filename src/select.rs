//! Scoring and ranking a population, and the convergence test.

use vstd::prelude::*;
use crate::bits::{count_ones, fitness};

verus! {

/// An individual paired with its fitness.
pub struct Scored {
    pub individual: Vec<char>,
    pub fitness: usize,
}

/// `order` lists each index of `[0, n)` exactly once.
pub open spec fn is_permutation(order: Seq<int>, n: nat) -> bool {
    &&& order.len() == n
    &&& forall|k: int| 0 <= k < n ==> 0 <= #[trigger] order[k] < n
    &&& order.no_duplicates()
    &&& forall|j: int| 0 <= j < n ==> #[trigger] order.contains(j)
}

/// `ranked` holds the members of `pop` in the order `order`, each with its fitness.
pub open spec fn ranked_by(pop: Seq<Vec<char>>, ranked: Seq<Scored>, order: Seq<int>) -> bool {
    &&& is_permutation(order, pop.len())
    &&& ranked.len() == pop.len()
    &&& forall|k: int|
        0 <= k < ranked.len() ==> (#[trigger] ranked[k]).individual@ == pop[order[k]]@
            && ranked[k].fitness == count_ones(pop[order[k]]@)
}

/// Fitness never rises along `ranked`.
pub open spec fn non_increasing(ranked: Seq<Scored>) -> bool {
    forall|i: int, j: int| 0 <= i <= j < ranked.len() ==> ranked[i].fitness >= ranked[j].fitness
}

/// `ranked` is `pop` reordered by descending fitness.
pub open spec fn is_ranking(pop: Seq<Vec<char>>, ranked: Seq<Scored>) -> bool {
    &&& exists|order: Seq<int>| ranked_by(pop, ranked, order)
    &&& non_increasing(ranked)
}

/// The sum of the fitness of every member of `pop`.
pub open spec fn total_of(pop: Seq<Vec<char>>) -> nat
    decreases pop.len(),
{
    if pop.len() == 0 {
        0
    } else {
        total_of(pop.drop_last()) + count_ones(pop.last()@)
    }
}

/// The average fitness `total / n` is above 99% of the best fitness `best`.
/// With a best fitness of 0 the ratio is undefined and this does not hold.
pub open spec fn converged(total: int, n: int, best: int) -> bool {
    100 * total > 99 * n * best
}

/// The population's members with their fitness, best first.
pub fn rank(pop: &Vec<Vec<char>>) -> (ranked: Vec<Scored>)
    ensures
        is_ranking(pop@, ranked@),
{
    let n = pop.len();
    let mut scores: Vec<usize> = Vec::with_capacity(n);
    let mut i: usize = 0;
    while i < n
        invariant
            n == pop@.len(),
            i <= n,
            scores@.len() == i,
            forall|j: int| 0 <= j < i ==> scores@[j] == count_ones(#[trigger] pop@[j]@),
        decreases n - i,
    {
        scores.push(fitness(&pop[i]));
        i = i + 1;
    }
    let mut order: Vec<usize> = Vec::with_capacity(n);
    i = 0;
    while i < n
        invariant
            n == pop@.len(),
            scores@.len() == n,
            i <= n,
            order@.len() == i,
            forall|k: int| 0 <= k < i ==> #[trigger] order@[k] < i,
            order@.no_duplicates(),
            forall|j: int| 0 <= j < i ==> #[trigger] order@.contains(j as usize),
            forall|a: int, b: int|
                0 <= a <= b < i ==> scores@[order@[a] as int] >= scores@[order@[b] as int],
        decreases n - i,
    {
        let s = scores[i];
        let mut p: usize = 0;
        while p < order.len() && scores[order[p]] >= s
            invariant
                scores@.len() == n,
                order@.len() == i,
                i < n,
                forall|k: int| 0 <= k < i ==> #[trigger] order@[k] < i,
                p <= i,
                s == scores@[i as int],
                forall|k: int| 0 <= k < p ==> scores@[#[trigger] order@[k] as int] >= s,
            decreases i - p,
        {
            p = p + 1;
        }
        proof {
            if p < i {
                assert forall|k: int| p <= k < i implies scores@[#[trigger] order@[k] as int] < s by {
                    assert(scores@[order@[p as int] as int] >= scores@[order@[k] as int]);
                }
            }
        }
        let ghost prev = order@;
        order.insert(p, i);
        proof {
            assert(order@ =~= prev.subrange(0, p as int).push(i).add(prev.subrange(p as int, i as int)));
            assert forall|k: int| 0 <= k < i + 1 implies #[trigger] order@[k] < i + 1 by {
                if k < p {
                    assert(order@[k] == prev[k]);
                } else if k > p {
                    assert(order@[k] == prev[k - 1]);
                }
            }
            assert forall|j: int| 0 <= j < i + 1 implies #[trigger] order@.contains(j as usize) by {
                if j < i {
                    assert(prev.contains(j as usize));
                    let k = choose|k: int| 0 <= k < prev.len() && prev[k] == j as usize;
                    if k < p {
                        assert(order@[k] == prev[k]);
                    } else {
                        assert(order@[k + 1] == prev[k]);
                    }
                } else {
                    assert(order@[p as int] == i);
                }
            }
            assert forall|a: int, b: int| 0 <= a < b < i + 1 implies order@[a] != order@[b] by {
                if a < p && b < p {
                } else if a < p && b == p {
                    assert(prev[a] < i);
                } else if a < p {
                    assert(order@[b] == prev[b - 1]);
                } else if a == p {
                    assert(order@[b] == prev[b - 1]);
                    assert(prev[b - 1] < i);
                } else {
                    assert(order@[a] == prev[a - 1]);
                    assert(order@[b] == prev[b - 1]);
                }
            }
            assert forall|a: int, b: int|
                0 <= a <= b < i + 1 implies scores@[order@[a] as int] >= scores@[order@[b] as int] by {
                let oa = if a < p { a } else if a == p { -1 } else { a - 1 };
                let ob = if b < p { b } else if b == p { -1 } else { b - 1 };
                if oa >= 0 {
                    assert(order@[a] == prev[oa]);
                }
                if ob >= 0 {
                    assert(order@[b] == prev[ob]);
                }
            }
        }
        i = i + 1;
    }
    let mut ranked: Vec<Scored> = Vec::with_capacity(n);
    let mut k: usize = 0;
    while k < n
        invariant
            n == pop@.len(),
            scores@.len() == n,
            order@.len() == n,
            forall|m: int| 0 <= m < n ==> #[trigger] order@[m] < n,
            forall|j: int| 0 <= j < n ==> scores@[j] == count_ones(#[trigger] pop@[j]@),
            k <= n,
            ranked@.len() == k,
            forall|m: int|
                0 <= m < k ==> (#[trigger] ranked@[m]).individual@ == pop@[order@[m] as int]@
                    && ranked@[m].fitness == scores@[order@[m] as int],
        decreases n - k,
    {
        let j = order[k];
        let individual = pop[j].clone();
        assert(individual@ =~= pop@[j as int]@);
        ranked.push(Scored { individual, fitness: scores[j] });
        k = k + 1;
    }
    let ghost order_int = order@.map_values(|x: usize| x as int);
    proof {
        assert forall|a: int, b: int| 0 <= a < b < n implies order_int[a] != order_int[b] by {
            assert(order@[a] != order@[b]);
        }
        assert forall|j: int| 0 <= j < n implies #[trigger] order_int.contains(j) by {
            assert(order@.contains(j as usize));
            let m = choose|m: int| 0 <= m < n && order@[m] == j as usize;
            assert(order_int[m] == j);
        }
        assert(ranked_by(pop@, ranked@, order_int));
    }
    ranked
}

/// The sum of the fitness of every member of the population.
pub fn total_fitness(pop: &Vec<Vec<char>>) -> (r: u128)
    ensures
        r == total_of(pop@),
{
    let mut total: u128 = 0;
    let mut i: usize = 0;
    while i < pop.len()
        invariant
            i <= pop@.len(),
            total == total_of(pop@.subrange(0, i as int)),
            total <= i * (usize::MAX as int),
        decreases pop@.len() - i,
    {
        let f = fitness(&pop[i]);
        proof {
            assert(pop@.subrange(0, i + 1).drop_last() =~= pop@.subrange(0, i as int));
            assert(total + f <= (i + 1) * (usize::MAX as int)) by (nonlinear_arith)
                requires
                    total <= i * (usize::MAX as int),
                    f <= usize::MAX,
            ;
            assert((i + 1) * (usize::MAX as int) <= (usize::MAX as int) * (usize::MAX as int))
                by (nonlinear_arith)
                requires
                    i < usize::MAX,
            ;
            assert((usize::MAX as int) * (usize::MAX as int) < u128::MAX) by (nonlinear_arith)
                requires
                    usize::MAX <= u64::MAX,
            ;
        }
        total = total + f as u128;
        i = i + 1;
    }
    assert(pop@.subrange(0, i as int) =~= pop@);
    total
}

/// Whether a population of `n` members with fitness summing to `total` and a
/// best fitness of `best` has converged: its average exceeds 99% of `best`.
pub fn is_converged(total: u128, n: usize, best: usize) -> (r: bool)
    ensures
        r == converged(total as int, n as int, best as int),
{
    proof {
        assert((n as int) * (best as int) <= (usize::MAX as int) * (usize::MAX as int))
            by (nonlinear_arith)
            requires
                n <= usize::MAX,
                best <= usize::MAX,
        ;
        assert((usize::MAX as int) * (usize::MAX as int) < u128::MAX) by (nonlinear_arith)
            requires
                usize::MAX <= u64::MAX,
        ;
    }
    let nb: u128 = n as u128 * best as u128;
    if total >= nb {
        proof {
            assert(total > 0 ==> 100 * total > 99 * nb) by (nonlinear_arith)
                requires
                    total >= nb,
            ;
            assert(99 * (n as int) * (best as int) == 99 * nb) by (nonlinear_arith)
                requires
                    nb == n as int * best as int,
            ;
        }
        total > 0
    } else {
        let d: u128 = nb - total;
        proof {
            assert(99 * (n as int) * (best as int) == 99 * nb) by (nonlinear_arith)
                requires
                    nb == n as int * best as int,
            ;
            assert((100 * d < nb) == (d <= (nb - 1) / 100)) by (nonlinear_arith)
                requires
                    nb >= 1,
            ;
        }
        d <= (nb - 1) / 100
    }
}

/// The first member of a ranking is a member of the population whose fitness
/// is at least that of every member.
pub proof fn lemma_ranking_best(pop: Seq<Vec<char>>, ranked: Seq<Scored>)
    requires
        is_ranking(pop, ranked),
        pop.len() > 0,
    ensures
        exists|j: int| 0 <= j < pop.len() && ranked[0].individual@ == (#[trigger] pop[j])@,
        ranked[0].fitness == count_ones(ranked[0].individual@),
        forall|j: int| 0 <= j < pop.len() ==> count_ones((#[trigger] pop[j])@) <= ranked[0].fitness,
{
    let order = choose|order: Seq<int>| ranked_by(pop, ranked, order);
    assert(ranked[0].individual@ == pop[order[0]]@);
    assert forall|j: int| 0 <= j < pop.len() implies count_ones((#[trigger] pop[j])@) <= ranked[0].fitness by {
        assert(order.contains(j));
        let k = choose|k: int| 0 <= k < order.len() && order[k] == j;
        assert(ranked[k].fitness == count_ones(pop[j]@));
    }
}

} // verus!
