use bitga::bits::{crossover_at, fitness, mutate_at};
use bitga::evolve::{evolve, generate_random_bits, generation, next_generation, MutationRate};
use bitga::recombine::{crossover, mutate};
use bitga::select::{is_converged, rank, total_fitness, Scored};
use rand::rngs::StdRng;
use rand::SeedableRng;

fn bits(s: &str) -> Vec<char> {
    s.chars().collect()
}

fn text(b: &[char]) -> String {
    b.iter().collect()
}

fn population(items: &[&str]) -> Vec<Vec<char>> {
    items.iter().map(|s| bits(s)).collect()
}

fn is_crossover(child: &[char], a: &[char], b: &[char]) -> bool {
    (0..a.len()).any(|idx| crossover_at(&a.to_vec(), &b.to_vec(), idx) == child.to_vec())
}

#[test]
fn fitness_counts_ones() {
    assert_eq!(fitness(&bits("10110")), 3);
    assert_eq!(fitness(&bits("")), 0);
    assert_eq!(fitness(&bits("00000000")), 0);
    assert_eq!(fitness(&bits("11111111")), 8);
}

#[test]
fn fitness_lies_within_length() {
    let mut rng = StdRng::seed_from_u64(11);
    for b in generate_random_bits(20, 33, &mut rng) {
        let f = fitness(&b);
        assert!(f <= b.len());
        assert_eq!(f, b.iter().filter(|c| **c == '1').count());
    }
}

#[test]
fn crossover_at_fixed_cut() {
    let a = bits("0000");
    let b = bits("1111");
    assert_eq!(text(&crossover_at(&a, &b, 2)), "0011");
    assert_eq!(text(&crossover_at(&a, &b, 0)), "1111");
    assert_eq!(text(&crossover_at(&a, &b, 3)), "0001");
    assert_eq!(text(&crossover_at(&bits("10101"), &bits("01010"), 1)), "11010");
}

#[test]
fn crossover_child_has_a_boundary() {
    let mut rng = StdRng::seed_from_u64(3);
    let a = bits("0000000000");
    let b = bits("1111111111");
    let mut seen_mixed = false;
    for _ in 0..50 {
        let child = crossover(&a, &b, &mut rng);
        assert_eq!(child.len(), 10);
        assert!(is_crossover(&child, &a, &b));
        for i in 0..10 {
            assert!(child[i] == a[i] || child[i] == b[i]);
        }
        if child != b {
            seen_mixed = true;
        }
    }
    assert!(seen_mixed);
}

#[test]
fn crossover_of_length_one_takes_second_parent() {
    let mut rng = StdRng::seed_from_u64(5);
    for _ in 0..10 {
        assert_eq!(text(&crossover(&bits("0"), &bits("1"), &mut rng)), "1");
    }
}

#[test]
fn mutate_at_flips_one_digit() {
    assert_eq!(text(&mutate_at(&bits("0101"), 1)), "0001");
    assert_eq!(text(&mutate_at(&bits("0101"), 0)), "1101");
    assert_eq!(text(&mutate_at(&bits("1"), 0)), "0");
}

#[test]
fn mutate_differs_in_exactly_one_position() {
    let mut rng = StdRng::seed_from_u64(7);
    let b = bits("0110100111");
    for _ in 0..50 {
        let m = mutate(&b, &mut rng);
        assert_eq!(m.len(), b.len());
        let diffs: Vec<usize> = (0..b.len()).filter(|&i| m[i] != b[i]).collect();
        assert_eq!(diffs.len(), 1);
        let i = diffs[0];
        assert_eq!(m[i], if b[i] == '0' { '1' } else { '0' });
    }
}

#[test]
fn generated_population_has_requested_shape() {
    let mut rng = StdRng::seed_from_u64(1);
    let pop = generate_random_bits(6, 200, &mut rng);
    assert_eq!(pop.len(), 6);
    for b in &pop {
        assert_eq!(b.len(), 200);
        assert!(b.iter().all(|c| *c == '0' || *c == '1'));
    }
    assert!(pop.iter().any(|b| b.iter().any(|c| *c == '1')));
}

#[test]
fn generating_twice_gives_the_same_shape() {
    let mut rng = StdRng::seed_from_u64(2);
    let p = generate_random_bits(8, 70, &mut rng);
    let q = generate_random_bits(8, 70, &mut rng);
    assert_eq!(p.len(), q.len());
    for i in 0..p.len() {
        assert_eq!(p[i].len(), q[i].len());
    }
    assert_ne!(p, q);
}

#[test]
fn generating_no_individuals() {
    let mut rng = StdRng::seed_from_u64(2);
    assert!(generate_random_bits(0, 5, &mut rng).is_empty());
}

#[test]
fn ranking_is_descending_and_best_first() {
    let pop = population(&["0100", "1111", "0000", "1101", "1001"]);
    let ranked = rank(&pop);
    let scores: Vec<usize> = ranked.iter().map(|s| s.fitness).collect();
    assert_eq!(scores, vec![4, 3, 2, 1, 0]);
    assert_eq!(text(&ranked[0].individual), "1111");
    assert_eq!(text(&ranked[4].individual), "0000");
    for s in &ranked {
        assert!(pop.contains(&s.individual));
        assert_eq!(s.fitness, fitness(&s.individual));
    }
}

#[test]
fn ranking_keeps_equal_members() {
    let pop = population(&["10", "01", "10", "00"]);
    let ranked = rank(&pop);
    assert_eq!(ranked.len(), 4);
    let mut members: Vec<String> = ranked.iter().map(|s| text(&s.individual)).collect();
    members.sort();
    assert_eq!(members, vec!["00", "01", "10", "10"]);
    assert_eq!(ranked[3].fitness, 0);
}

#[test]
fn total_fitness_sums_members() {
    assert_eq!(total_fitness(&population(&["0100", "1111", "0000"])), 5);
    assert_eq!(total_fitness(&Vec::new()), 0);
}

#[test]
fn convergence_threshold() {
    assert!(!is_converged(0, 2, 0));
    assert!(!is_converged(99, 1, 100));
    assert!(is_converged(100, 1, 100));
    assert!(is_converged(159, 10, 16));
    assert!(!is_converged(158, 10, 16));
    assert!(is_converged(2, 2, 1));
    assert!(!is_converged(1, 2, 1));
}

#[test]
fn never_mutating_children_are_crossovers_of_the_top_half() {
    let mut rng = StdRng::seed_from_u64(9);
    let pop = population(&["111000", "000111", "101010", "010101"]);
    let ranked: Vec<Scored> = rank(&pop);
    let rate = MutationRate { numerator: 0, denominator: 1 };
    let next = next_generation(&ranked, rate, &mut rng);
    assert_eq!(next.len(), 4);
    for child in &next {
        let ok = (0..2).any(|ia| {
            (0..2).any(|ib| is_crossover(child, &ranked[ia].individual, &ranked[ib].individual))
        });
        assert!(ok);
    }
}

#[test]
fn always_mutating_flips_a_crossover() {
    let mut rng = StdRng::seed_from_u64(4);
    let pop = population(&["1111", "1111", "0000", "0000"]);
    let ranked = rank(&pop);
    let rate = MutationRate { numerator: 3, denominator: 3 };
    let next = next_generation(&ranked, rate, &mut rng);
    for child in &next {
        assert_eq!(fitness(child), 3);
    }
}

#[test]
fn generation_of_length_one_flips_the_best() {
    let mut rng = StdRng::seed_from_u64(6);
    let pop = population(&["1", "0"]);
    let rate = MutationRate { numerator: 1, denominator: 1 };
    let (report, next) = generation(&pop, rate, &mut rng);
    assert_eq!(text(&report.best), "1");
    assert_eq!(report.best_fitness, 1);
    assert_eq!(report.total_fitness, 1);
    assert_eq!(report.size, 2);
    assert_eq!(next.unwrap(), population(&["0", "0"]));
}

#[test]
fn generation_stops_on_converged_population() {
    let mut rng = StdRng::seed_from_u64(6);
    let pop = population(&["110", "011", "101"]);
    let rate = MutationRate { numerator: 1, denominator: 2 };
    let (report, next) = generation(&pop, rate, &mut rng);
    assert!(next.is_none());
    assert_eq!(report.total_fitness, 6);
    assert_eq!(report.best_fitness, 2);
}

#[test]
fn all_zero_population_is_not_converged() {
    let mut rng = StdRng::seed_from_u64(6);
    let pop = population(&["000", "000"]);
    let rate = MutationRate { numerator: 0, denominator: 1 };
    let (report, next) = generation(&pop, rate, &mut rng);
    assert_eq!(report.best_fitness, 0);
    assert_eq!(next.unwrap(), pop);
}

#[test]
fn length_one_with_certain_mutation_alternates() {
    let mut rng = StdRng::seed_from_u64(8);
    let pop = population(&["1", "0"]);
    let rate = MutationRate { numerator: 1, denominator: 1 };
    let run = evolve(pop, rate, 10, &mut rng);
    assert!(run.converged);
    assert_eq!(run.reports.len(), 3);
    assert_eq!(run.reports[0].total_fitness, 1);
    assert_eq!(run.reports[1].total_fitness, 0);
    assert_eq!(run.reports[1].best_fitness, 0);
    assert_eq!(run.reports[2].total_fitness, 2);
    assert_eq!(run.population, population(&["1", "1"]));
}

#[test]
fn length_one_random_start_converges() {
    let mut rng = StdRng::seed_from_u64(12);
    let pop = generate_random_bits(2, 1, &mut rng);
    let rate = MutationRate { numerator: 1, denominator: 1 };
    let run = evolve(pop, rate, 10, &mut rng);
    assert!(run.converged);
    assert!(run.reports.len() <= 3);
    assert_eq!(run.population, population(&["1", "1"]));
}

#[test]
fn without_mutation_run_converges_by_crossover() {
    let mut rng = StdRng::seed_from_u64(21);
    let rate = MutationRate { numerator: 0, denominator: 1 };
    let mut pop = generate_random_bits(4, 8, &mut rng);
    let mut steps = 0;
    loop {
        assert!(steps < 10_000);
        let ranked = rank(&pop);
        let (report, next) = generation(&pop, rate, &mut rng);
        assert_eq!(report.best_fitness, ranked[0].fitness);
        match next {
            None => break,
            Some(children) => {
                assert_eq!(children.len(), 4);
                for child in &children {
                    assert_eq!(child.len(), 8);
                    let ok = (0..2).any(|ia| {
                        (0..2).any(|ib| {
                            is_crossover(child, &ranked[ia].individual, &ranked[ib].individual)
                        })
                    });
                    assert!(ok);
                }
                pop = children;
            }
        }
        steps += 1;
    }
    let total = total_fitness(&pop) as f64;
    let best = rank(&pop)[0].fitness as f64;
    assert!(total / 4.0 / best > 0.99);
}

#[test]
fn small_mutation_rate_converges() {
    let mut rng = StdRng::seed_from_u64(33);
    let pop = generate_random_bits(10, 16, &mut rng);
    let rate = MutationRate { numerator: 1, denominator: 100 };
    let run = evolve(pop, rate, 100_000, &mut rng);
    assert!(run.converged);
    assert_eq!(run.population.len(), 10);
    let last = run.reports.last().unwrap();
    let avg = last.total_fitness as f64 / last.size as f64;
    assert!(avg >= 0.99 * last.best_fitness as f64);
    assert_eq!(last.total_fitness, total_fitness(&run.population));
    for b in &run.population {
        assert_eq!(b.len(), 16);
        assert!(fitness(b) <= last.best_fitness);
    }
}

#[test]
fn zero_generations_returns_input() {
    let mut rng = StdRng::seed_from_u64(1);
    let pop = population(&["01", "10"]);
    let rate = MutationRate { numerator: 1, denominator: 2 };
    let run = evolve(pop.clone(), rate, 0, &mut rng);
    assert!(!run.converged);
    assert!(run.reports.is_empty());
    assert_eq!(run.population, pop);
}

#[test]
fn generation_limit_is_respected() {
    let mut rng = StdRng::seed_from_u64(1);
    let pop = population(&["000", "000"]);
    let rate = MutationRate { numerator: 0, denominator: 1 };
    let run = evolve(pop, rate, 5, &mut rng);
    assert!(!run.converged);
    assert_eq!(run.reports.len(), 5);
}
