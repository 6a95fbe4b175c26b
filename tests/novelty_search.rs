use novelty_search::archive::{consider_for_archive, copy_vector, evaluate_generation, Evaluation};
use novelty_search::driver::{generation, run, Params};
use novelty_search::metric::distance;
use novelty_search::novelty::novelty;
use novelty_search::random::{draw_noise, draw_offspring};
use novelty_search::selection::select_elites;
use novelty_search::variation::{crossover, next_population, Draw};
use novelty_search::NoveltyError;

fn three_points() -> Vec<Vec<i32>> {
    vec![vec![0, 0], vec![10000, 10000], vec![10100, 10100]]
}

fn params(k: usize, threshold: u64, remain_agents: usize, generation_budget: usize, noise_amplitude: u32) -> Params {
    Params { k, threshold, remain_agents, generation_budget, noise_amplitude }
}

#[test]
fn distance_is_symmetric_and_zero_on_itself() {
    let a = vec![1, 2, 3];
    let b = vec![4, 6, 3];
    assert_eq!(distance(&a, &b), Ok(5));
    assert_eq!(distance(&b, &a), Ok(5));
    assert_eq!(distance(&a, &a), Ok(0));
}

#[test]
fn distance_rounds_down() {
    assert_eq!(distance(&vec![0, 0], &vec![1, 1]), Ok(1));
    assert_eq!(distance(&vec![0, 0], &vec![10000, 10000]), Ok(14142));
    assert_eq!(distance(&vec![-3, 0], &vec![0, 4]), Ok(5));
}

#[test]
fn distance_of_extreme_components() {
    let a = vec![i32::MIN, i32::MIN];
    let b = vec![i32::MAX, i32::MAX];
    // sqrt(2) * (2^32 - 1), rounded down
    assert_eq!(distance(&a, &b), Ok(6074000998));
}

#[test]
fn distance_refuses_mismatched_lengths() {
    assert_eq!(distance(&vec![1, 2], &vec![1, 2, 3]), Err(NoveltyError::DimensionMismatch));
    assert_eq!(distance(&vec![], &vec![1]), Err(NoveltyError::DimensionMismatch));
}

#[test]
fn novelty_of_three_points_against_empty_archive() {
    let pop = three_points();
    let archive: Vec<Vec<i32>> = Vec::new();
    assert_eq!(novelty(0, &pop, &archive, 2), Ok(14212));
    assert_eq!(novelty(1, &pop, &archive, 2), Ok(7141));
    assert_eq!(novelty(2, &pop, &archive, 2), Ok(7212));
}

#[test]
fn novelty_clamps_k_to_pool_size() {
    let pop = vec![vec![0, 0], vec![3, 4]];
    let archive: Vec<Vec<i32>> = Vec::new();
    assert_eq!(novelty(0, &pop, &archive, 5), Ok(5));
    assert_eq!(novelty(1, &pop, &archive, 5), Ok(5));
}

#[test]
fn novelty_counts_value_equal_individuals() {
    let pop = vec![vec![0, 0], vec![0, 0], vec![6, 8]];
    let archive: Vec<Vec<i32>> = Vec::new();
    assert_eq!(novelty(0, &pop, &archive, 1), Ok(0));
    assert_eq!(novelty(0, &pop, &archive, 2), Ok(5));
}

#[test]
fn novelty_uses_archive_entries() {
    let pop = vec![vec![0, 0], vec![30, 40]];
    let archive = vec![vec![3, 4]];
    assert_eq!(novelty(0, &pop, &archive, 1), Ok(5));
    assert_eq!(novelty(0, &pop, &archive, 2), Ok(27));
}

#[test]
fn novelty_errors() {
    let archive: Vec<Vec<i32>> = Vec::new();
    assert_eq!(novelty(0, &vec![vec![1, 1]], &archive, 3), Err(NoveltyError::EmptyComparisonPool));
    assert_eq!(novelty(0, &three_points(), &archive, 0), Err(NoveltyError::InvalidParameters));
    assert_eq!(novelty(0, &vec![vec![1, 1], vec![1]], &archive, 1), Err(NoveltyError::DimensionMismatch));
    assert_eq!(novelty(0, &vec![vec![1, 1]], &vec![vec![2, 2, 2]], 1), Err(NoveltyError::DimensionMismatch));
}

#[test]
fn archive_admission_is_strict() {
    let mut archive: Vec<Vec<i32>> = Vec::new();
    assert!(!consider_for_archive(&mut archive, &vec![1, 2], 1000, 1000));
    assert!(archive.is_empty());
    assert!(consider_for_archive(&mut archive, &vec![1, 2], 1001, 1000));
    assert_eq!(archive, vec![vec![1, 2]]);
    assert!(!consider_for_archive(&mut archive, &vec![3, 4], 0, 0));
    assert_eq!(archive.len(), 1);
}

#[test]
fn copy_vector_keeps_components() {
    assert_eq!(copy_vector(&vec![5, -6, 7]), vec![5, -6, 7]);
}

#[test]
fn evaluation_pass_on_three_points() {
    let pop = three_points();
    let mut archive: Vec<Vec<i32>> = Vec::new();
    let evals = evaluate_generation(&pop, &mut archive, 2, 1000);
    assert_eq!(
        evals,
        vec![
            Evaluation { score: 14212, admitted: true },
            Evaluation { score: 7141, admitted: true },
            // the two points admitted just before now lie 141 away
            Evaluation { score: 141, admitted: false },
        ]
    );
    assert_eq!(archive, vec![vec![0, 0], vec![10000, 10000]]);
}

#[test]
fn evaluation_pass_with_k_larger_than_pool() {
    let pop = vec![vec![0, 0], vec![3, 4]];
    let mut archive: Vec<Vec<i32>> = Vec::new();
    let evals = evaluate_generation(&pop, &mut archive, 5, 4);
    assert_eq!(evals[0], Evaluation { score: 5, admitted: true });
    // archive now holds (0,0): the pool of (3,4) has two entries at distance 5
    assert_eq!(evals[1], Evaluation { score: 5, admitted: true });
    assert_eq!(archive.len(), 2);
}

#[test]
fn evaluation_pass_keeps_archive_prefix() {
    let pop = vec![vec![0, 0], vec![100, 0], vec![0, 100]];
    let mut archive = vec![vec![50, 50]];
    let evals = evaluate_generation(&pop, &mut archive, 1, 60);
    assert_eq!(archive[0], vec![50, 50]);
    assert_eq!(archive.len(), 1 + evals.iter().filter(|e| e.admitted).count());
    for e in &evals {
        assert_eq!(e.admitted, e.score > 60);
    }
}

#[test]
fn selection_takes_best_with_earlier_ties_first() {
    assert_eq!(select_elites(&vec![5, 9, 5, 7], 3), vec![1, 3, 0]);
    assert_eq!(select_elites(&vec![5, 9, 5, 7], 4), vec![1, 3, 0, 2]);
    assert_eq!(select_elites(&vec![2, 2, 2], 2), vec![0, 1]);
    assert_eq!(select_elites(&vec![4, 1], 0), Vec::<usize>::new());
}

#[test]
fn self_crossover_without_noise_is_identity() {
    let parent = vec![3, -5, 12];
    let elites = vec![parent.clone(), vec![100, 100, 100]];
    let draw = Draw { first: 0, second: 0, noise: vec![0, 0, 0] };
    let child = crossover(&elites[draw.first], &elites[draw.second], &draw.noise);
    assert_eq!(child, parent);
}

#[test]
fn crossover_averages_down_and_adds_noise() {
    assert_eq!(crossover(&vec![1, 2], &vec![2, 5], &vec![0, 1]), vec![1, 4]);
    assert_eq!(crossover(&vec![-3, -1], &vec![0, 0], &vec![0, -2]), vec![-2, -3]);
}

#[test]
fn crossover_saturates() {
    assert_eq!(crossover(&vec![i32::MAX], &vec![i32::MAX], &vec![5]), vec![i32::MAX]);
    assert_eq!(crossover(&vec![i32::MIN], &vec![i32::MIN], &vec![-5]), vec![i32::MIN]);
}

#[test]
fn next_population_is_elites_then_offspring() {
    let pop = vec![vec![0], vec![10], vec![20]];
    let draws = vec![Draw { first: 0, second: 1, noise: vec![0] }];
    let next = next_population(&pop, &vec![1, 3, 2], 2, &draws);
    assert_eq!(next, vec![vec![10], vec![20], vec![15]]);
}

#[test]
fn noise_stays_within_amplitude() {
    let noise = draw_noise(500, 200);
    assert_eq!(noise.len(), 500);
    assert!(noise.iter().all(|&v| (-100..100).contains(&v)));
    assert!(draw_noise(20, 0).iter().all(|&v| v == 0));
    assert!(draw_noise(20, 1).iter().all(|&v| v == 0));
}

#[test]
fn drawn_parents_index_the_elites() {
    for _ in 0..50 {
        let d = draw_offspring(1, 3, 0);
        assert_eq!((d.first, d.second), (0, 0));
        assert_eq!(d.noise, vec![0, 0, 0]);
        let e = draw_offspring(3, 2, 10);
        assert!(e.first < 3 && e.second < 3);
        assert_eq!(e.noise.len(), 2);
    }
}

#[test]
fn generation_keeps_size_and_elites() {
    let pop = vec![vec![0, 0], vec![1000, 0], vec![0, 1000], vec![5000, 5000]];
    let mut archive: Vec<Vec<i32>> = Vec::new();
    let (next, evals) = generation(&pop, &mut archive, &params(1, 1500, 2, 1, 200));
    assert_eq!(next.len(), pop.len());
    assert_eq!(evals.len(), pop.len());
    let scores: Vec<u64> = evals.iter().map(|e| e.score).collect();
    let chosen = select_elites(&scores, 2);
    assert_eq!(next[0], pop[chosen[0]]);
    assert_eq!(next[1], pop[chosen[1]]);
    for child in &next[2..] {
        assert_eq!(child.len(), 2);
    }
    assert_eq!(archive.len(), evals.iter().filter(|e| e.admitted).count());
}

#[test]
fn generation_with_one_elite_and_no_noise_copies_it() {
    let pop = vec![vec![0, 0], vec![7, 7], vec![100, 100]];
    let mut archive: Vec<Vec<i32>> = Vec::new();
    let (next, _) = generation(&pop, &mut archive, &params(1, 0, 1, 1, 0));
    assert_eq!(next, vec![vec![100, 100], vec![100, 100], vec![100, 100]]);
}

#[test]
fn run_refuses_invalid_parameters() {
    let pop = three_points();
    assert_eq!(run(&pop, &params(0, 1, 1, 1, 0)).err(), Some(NoveltyError::InvalidParameters));
    assert_eq!(run(&pop, &params(2, 1, 3, 1, 0)).err(), Some(NoveltyError::InvalidParameters));
    assert_eq!(run(&pop, &params(2, 1, 0, 1, 0)).err(), Some(NoveltyError::InvalidParameters));
    assert_eq!(run(&pop, &params(2, 1, 1, 0, 0)).err(), Some(NoveltyError::InvalidParameters));
    assert_eq!(run(&Vec::new(), &params(2, 1, 1, 1, 0)).err(), Some(NoveltyError::InvalidParameters));
}

#[test]
fn run_refuses_mixed_dimensions() {
    let pop = vec![vec![0, 0], vec![1, 1, 1], vec![2, 2]];
    assert_eq!(run(&pop, &params(2, 1, 1, 1, 0)).err(), Some(NoveltyError::DimensionMismatch));
}

#[test]
fn run_of_one_generation_on_three_points() {
    let out = run(&three_points(), &params(2, 1000, 1, 1, 0)).unwrap();
    assert_eq!(out.history.len(), 1);
    assert_eq!(out.history[0].population, three_points());
    assert_eq!(out.archive, vec![vec![0, 0], vec![10000, 10000]]);
    assert_eq!(out.population, vec![vec![0, 0], vec![0, 0], vec![0, 0]]);
}

#[test]
fn run_keeps_population_size_and_grows_archive() {
    let pop: Vec<Vec<i32>> = (0..12).map(|i| vec![i * 1000, i * 1000, 0, 100]).collect();
    let out = run(&pop, &params(5, 1500, 5, 30, 200)).unwrap();
    assert_eq!(out.history.len(), 30);
    assert_eq!(out.population.len(), 12);
    let mut archived = 0;
    for record in &out.history {
        assert_eq!(record.population.len(), 12);
        assert!(record.population.iter().all(|v| v.len() == 4));
        archived += record.evaluations.iter().filter(|e| e.admitted).count();
    }
    assert_eq!(out.archive.len(), archived);
    assert_eq!(out.history[0].population, pop);
}
