use cvrp_genetic::chromosome::non_depot_indices;
use cvrp_genetic::data::Data;
use cvrp_genetic::description::{Description, Node, NodeEntry};
use cvrp_genetic::genetic_algo::{
    find_best_path, initial_population, mutate, pmx_crossover, pmx_crossover_with_swath,
    select_elites, tournament_round_winner, tournament_selection, Config,
};
use cvrp_genetic::rng::{rand_range, rand_ratio, rng_from_seed};

fn entry(id: &str, demand: i32, is_depot: bool) -> NodeEntry {
    NodeEntry {
        id: id.to_string(),
        node: Node { demand, is_depot },
    }
}

/// Depot at the origin and five customers at x = 1..=5 on a line.
fn toy_instance() -> (Description, Vec<Vec<i32>>) {
    let nodes = vec![
        entry("depot", 0, true),
        entry("c1", 2, false),
        entry("c2", 3, false),
        entry("c3", 1, false),
        entry("c4", 2, false),
        entry("c5", 2, false),
    ];
    let desc = Description {
        capacity: 5,
        edge_weight_type: "EUC_2D".to_string(),
        nodes,
    };
    let n = 6usize;
    let mut matrix = vec![vec![0i32; n]; n];
    for i in 0..n {
        for j in 0..n {
            matrix[i][j] = (i as i32 - j as i32).abs();
        }
    }
    (desc, matrix)
}

fn is_permutation_of(mut got: Vec<usize>, mut expected: Vec<usize>) -> bool {
    got.sort_unstable();
    expected.sort_unstable();
    got == expected
}

#[test]
fn pmx_single_slot_swath() {
    let a = vec![1usize, 2, 3];
    let b = vec![3usize, 1, 2];
    // Swath [1, 1]: slot 1 takes 2 from the first parent, and the displaced
    // 1 is chased to slot 2.
    assert_eq!(pmx_crossover_with_swath(&a, &b, 1, 1), vec![3, 2, 1]);
    // Swath [0, 0]: slot 0 takes 1, and the displaced 3 lands on slot 1.
    assert_eq!(pmx_crossover_with_swath(&a, &b, 0, 0), vec![1, 3, 2]);
}

#[test]
fn pmx_full_range_swath_copies_first_parent() {
    let a = vec![4usize, 1, 3, 2, 0];
    let b = vec![0usize, 2, 4, 1, 3];
    assert_eq!(pmx_crossover_with_swath(&a, &b, 0, 4), a);
}

#[test]
fn pmx_preserves_permutation_for_every_swath() {
    let a = vec![8usize, 4, 7, 3, 6, 2, 5, 1, 9, 0];
    let b = vec![0usize, 1, 2, 3, 4, 5, 6, 7, 8, 9];
    for left in 0..a.len() {
        for right in left..a.len() {
            let off = pmx_crossover_with_swath(&a, &b, left, right);
            assert_eq!(off.len(), a.len());
            assert!(is_permutation_of(off.clone(), a.clone()));
            assert_eq!(&off[left..=right], &a[left..=right]);
        }
    }
}

#[test]
fn pmx_random_swath_preserves_permutation() {
    let mut rng = rng_from_seed(7);
    let a = vec![5usize, 3, 1, 4, 2, 6];
    let b = vec![6usize, 5, 4, 3, 2, 1];
    for _ in 0..100 {
        let off = pmx_crossover(&a, &b, &mut rng);
        assert!(is_permutation_of(off, a.clone()));
    }
}

#[test]
fn mutate_preserves_permutation() {
    let mut rng = rng_from_seed(11);
    let mut chromosome = vec![4usize, 2, 5, 1, 3];
    for _ in 0..200 {
        mutate(&mut chromosome, &mut rng, 500);
        assert!(is_permutation_of(chromosome.clone(), vec![1, 2, 3, 4, 5]));
    }
}

#[test]
fn zero_mutation_rate_changes_nothing() {
    let mut rng = rng_from_seed(23);
    let mut chromosome = vec![3usize, 1, 4, 2, 5];
    for _ in 0..50 {
        mutate(&mut chromosome, &mut rng, 0);
        assert_eq!(chromosome, vec![3, 1, 4, 2, 5]);
    }
}

#[test]
fn initial_population_holds_shuffled_permutations() {
    let (desc, matrix) = toy_instance();
    let data = Data::new(&desc, &matrix).unwrap();
    let base = non_depot_indices(&data);
    assert_eq!(base, vec![1, 2, 3, 4, 5]);
    let mut rng = rng_from_seed(3);
    let population = initial_population(&data, 40, &mut rng);
    assert_eq!(population.len(), 40);
    for chromosome in &population {
        assert!(is_permutation_of(chromosome.clone(), base.clone()));
    }
    // The shuffle really rearranges: with 40 draws of 5! orders, at least
    // one chromosome differs from the ascending base order.
    assert!(population.iter().any(|c| c != &base));
}

#[test]
fn select_elites_takes_a_minimum_cost_chromosome() {
    let population = vec![
        vec![1usize, 2, 3],
        vec![2usize, 1, 3],
        vec![3usize, 2, 1],
        vec![1usize, 3, 2],
    ];
    let costs = vec![14, 9, 12, 9];
    let elites = select_elites(&population, &costs, 1);
    assert_eq!(elites.len(), 1);
    assert!(elites[0] == population[1] || elites[0] == population[3]);
}

#[test]
fn tournament_round_takes_the_cheaper_slot() {
    let costs = vec![12, 7, 7, 20];
    assert_eq!(tournament_round_winner(&costs, 0, 1), 1);
    assert_eq!(tournament_round_winner(&costs, 1, 0), 1);
    assert_eq!(tournament_round_winner(&costs, 3, 2), 2);
    // on a cost tie the second draw wins
    assert_eq!(tournament_round_winner(&costs, 1, 2), 2);
    assert_eq!(tournament_round_winner(&costs, 2, 1), 1);
}

#[test]
fn tournament_takes_distinct_members_and_empties_their_slots() {
    let mut population = vec![
        vec![1usize, 2, 3],
        vec![2usize, 1, 3],
        vec![3usize, 2, 1],
        vec![1usize, 3, 2],
        vec![2usize, 3, 1],
        vec![3usize, 1, 2],
    ];
    let before = population.clone();
    let costs = vec![10, 11, 12, 13, 14, 15];
    let mut rng = rng_from_seed(5);
    let survivors = tournament_selection(3, &mut population, &costs, &mut rng);
    assert_eq!(survivors.len(), 3);
    for (k, s) in survivors.iter().enumerate() {
        assert!(before.contains(s));
        for other in survivors.iter().skip(k + 1) {
            assert_ne!(s, other);
        }
    }
    let emptied = population.iter().filter(|c| c.is_empty()).count();
    assert_eq!(emptied, 3);
}

#[test]
fn rand_wrappers_stay_in_range() {
    let mut rng = rng_from_seed(17);
    for _ in 0..200 {
        let v = rand_range(&mut rng, 3, 9);
        assert!((3..9).contains(&v));
        assert!(!rand_ratio(&mut rng, 0, 1000));
        assert!(rand_ratio(&mut rng, 1000, 1000));
    }
}

#[test]
fn seeded_search_covers_every_customer_once() {
    let (desc, matrix) = toy_instance();
    let data = Data::new(&desc, &matrix).unwrap();
    let config = Config {
        population_size: 17,
        survivor_count: 4,
        elite_count: 1,
        crossover_rate_ppt: 700,
        mutation_rate_ppt: 10,
    };
    let mut rng = rng_from_seed(42);
    let result = find_best_path(&data, 30, &config, &mut rng);
    assert!(is_permutation_of(result.best_path.clone(), vec![1, 2, 3, 4, 5]));
    let history = &result.best_solution_performance;
    assert!(!history.is_empty());
    assert_eq!(history[0].0, 0);
    for pair in history.windows(2) {
        assert!(pair[1].1 < pair[0].1);
        assert!(pair[0].0 < pair[1].0);
    }
    for (generation, _) in history {
        assert!(*generation < 30);
    }
    // The recorded best cost is the cost of the returned permutation.
    let last = history.last().unwrap();
    assert_eq!(data.calculate_cost(&result.best_path), last.1);
}

#[test]
fn zero_generations_returns_empty_best() {
    let (desc, matrix) = toy_instance();
    let data = Data::new(&desc, &matrix).unwrap();
    let config = Config {
        population_size: 10,
        survivor_count: 3,
        elite_count: 1,
        crossover_rate_ppt: 700,
        mutation_rate_ppt: 10,
    };
    let mut rng = rng_from_seed(1);
    let result = find_best_path(&data, 0, &config, &mut rng);
    assert!(result.best_path.is_empty());
    assert!(result.best_solution_performance.is_empty());
}
