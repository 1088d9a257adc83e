use std::collections::HashMap;

use nurse_routing::crossover::{
    best_neighbour, edge_crossover, multiset_minus, partially_mapped_crossover, pmx_with_range, route_span,
    simple_sub_path_crossover,
};
use nurse_routing::encoding::{join_delivery, transition_counts};
use nurse_routing::environment::{EnvPruned, PatientPruned};
use nurse_routing::genalg::{
    calculate_and_set_travel_time, calculate_and_set_travel_time_multiple, generate_random_genome,
    is_genome_for, Genotype, NurseStop,
};
use nurse_routing::mutation::{
    brute_f_seg, flip_coin, get_rand_range, get_seq_tt, insert_mutate, insert_optimal_mutate,
    inverse_mutation, meta_mutate, move_segment, move_seq_mutation, mutate, mutate_weighted, relocate,
    reverse_range, scramble_mutate, swap_mutate, swap_positions, MetaGenes, RATE_SCALE,
};
use nurse_routing::selection::{
    elitism_parent_selection, elitism_survivor_selection, random_best_half_parent_selection,
    rank_parent_selection, rank_weights, sort_population, tournament_parent_selection,
    tournament_pick, tournament_surivor_selection,
};
use nurse_routing::worker::{
    dedup_by_word, gen_child, gen_child_with, ring_successor, BestHistory, GenAlgConfig, Worker,
};

use NurseStop::{Depot, Patient};

fn patient(id: usize, start: i32, end: i32) -> PatientPruned {
    PatientPruned { travel_index: id, care_time: 10, demand: 10, end_time: end, start_time: start }
}

fn matrix(n: usize) -> Vec<Vec<u32>> {
    let mut rows = Vec::new();
    for a in 0..=n {
        let mut row = Vec::new();
        for b in 0..=n {
            let v = if a == b {
                0
            } else if a == 0 || b == 0 {
                10
            } else {
                5 * (a as i64 - b as i64).unsigned_abs() as u32
            };
            row.push(v);
        }
        rows.push(row);
    }
    rows
}

/// Four patients, two nurses, wide windows.
fn small_env() -> EnvPruned {
    let patients = (1..=4).map(|i| patient(i, 0, 1000)).collect();
    EnvPruned::from_parts("small".to_string(), 2, 100, 0, 1000, patients, &matrix(4)).unwrap()
}

/// Four patients, two routes, distinct time windows.
fn windowed_env() -> EnvPruned {
    let patients = vec![patient(1, 0, 100), patient(2, 50, 200), patient(3, 0, 120), patient(4, 100, 300)];
    EnvPruned::from_parts("windows".to_string(), 2, 30, 0, 400, patients, &matrix(4)).unwrap()
}

fn genome(stops: Vec<NurseStop>) -> Genotype {
    Genotype::new(stops, MetaGenes::new())
}

fn counts(stops: &[NurseStop]) -> HashMap<NurseStop, usize> {
    let mut m = HashMap::new();
    for s in stops {
        *m.entry(*s).or_insert(0) += 1;
    }
    m
}

fn evaluated(env: &EnvPruned, stops: Vec<NurseStop>) -> Genotype {
    let mut g = genome(stops);
    calculate_and_set_travel_time(env, &mut g);
    g
}

#[test]
fn evaluation_of_feasible_genome() {
    let env = small_env();
    let g = evaluated(&env, vec![Patient(1), Patient(2), Depot, Patient(3), Patient(4)]);
    // 10 + 5 + 10 on each route, scaled by the penalty base 20
    assert_eq!(g.travel_time, Some(50 * 20));
    assert_eq!(g.valid, Some(true));
}

#[test]
fn evaluation_counts_window_violation() {
    let patients = vec![patient(1, 0, 1000), patient(2, 0, 1000), patient(3, 0, 1000), patient(4, 0, 5)];
    let env = EnvPruned::from_parts("late".to_string(), 2, 100, 0, 1000, patients, &matrix(4)).unwrap();
    let g = evaluated(&env, vec![Patient(1), Patient(2), Depot, Patient(3), Patient(4)]);
    assert_eq!(g.travel_time, Some(50 * 21));
    assert_eq!(g.valid, Some(false));
}

#[test]
fn evaluation_checks_capacity_of_last_route() {
    let patients = (1..=4).map(|i| patient(i, 0, 1000)).collect();
    let env = EnvPruned::from_parts("cap".to_string(), 2, 15, 0, 1000, patients, &matrix(4)).unwrap();
    // the second route serves 30 > 15; the first route too
    let g = evaluated(&env, vec![Patient(1), Patient(2), Depot, Patient(3), Patient(4)]);
    assert_eq!(g.travel_time, Some(50 * 22));
    assert_eq!(g.valid, Some(false));
}

#[test]
fn evaluation_checks_return_bound() {
    let patients = (1..=4).map(|i| patient(i, 0, 1000)).collect();
    let env = EnvPruned::from_parts("ret".to_string(), 2, 100, 0, 40, patients, &matrix(4)).unwrap();
    // each route returns at 10 + 10 + 5 + 10 + 10 = 45 > 40
    let g = evaluated(&env, vec![Patient(1), Patient(2), Depot, Patient(3), Patient(4)]);
    assert_eq!(g.travel_time, Some(50 * 22));
    assert_eq!(g.valid, Some(false));
}

#[test]
fn evaluation_is_deterministic() {
    let env = windowed_env();
    let mut g = genome(vec![Patient(3), Patient(1), Depot, Patient(2), Patient(4)]);
    calculate_and_set_travel_time(&env, &mut g);
    let first = (g.travel_time, g.valid);
    calculate_and_set_travel_time(&env, &mut g);
    assert_eq!(first, (g.travel_time, g.valid));
}

#[test]
fn feasibility_follows_route_constraints() {
    let env = windowed_env();
    // patient 4 opens at 100; route 3 -> 4 waits and ends in time; loads 20 <= 30
    let good = evaluated(&env, vec![Patient(1), Patient(2), Depot, Patient(3), Patient(4)]);
    assert_eq!(good.valid, Some(true));
    // four patients on one route exceed the capacity 30
    let heavy = evaluated(&env, vec![Patient(1), Patient(2), Patient(3), Patient(4), Depot]);
    assert_eq!(heavy.valid, Some(false));
}

#[test]
fn batch_evaluation_skips_cached() {
    let env = small_env();
    let mut a = genome(vec![Patient(1), Patient(2), Depot, Patient(3), Patient(4)]);
    a.travel_time = Some(7);
    a.valid = Some(false);
    let b = genome(vec![Patient(4), Patient(3), Depot, Patient(2), Patient(1)]);
    let mut pop = vec![a, b];
    calculate_and_set_travel_time_multiple(&env, &mut pop);
    assert_eq!(pop[0].travel_time, Some(7));
    assert_eq!(pop[1].travel_time, Some(1000));
}

#[test]
fn environment_rejects_bad_parts() {
    let patients: Vec<PatientPruned> = (1..=4).map(|i| patient(i, 0, 1000)).collect();
    let mut rows = matrix(4);
    rows[2].pop();
    assert!(EnvPruned::from_parts("x".to_string(), 2, 100, 0, 1000, patients, &rows).is_none());
    let patients: Vec<PatientPruned> = (1..=4).map(|i| patient(i, 0, 1000)).collect();
    assert!(EnvPruned::from_parts("x".to_string(), 0, 100, 0, 1000, patients, &matrix(4)).is_none());
    let mut patients: Vec<PatientPruned> = (1..=4).map(|i| patient(i, 0, 1000)).collect();
    patients[1].travel_index = 7;
    assert!(EnvPruned::from_parts("x".to_string(), 2, 100, 0, 1000, patients, &matrix(4)).is_none());
    let mut patients: Vec<PatientPruned> = (1..=4).map(|i| patient(i, 0, 1000)).collect();
    patients[3].demand = -1;
    assert!(EnvPruned::from_parts("x".to_string(), 2, 100, 0, 1000, patients, &matrix(4)).is_none());
    let patients: Vec<PatientPruned> = (1..=4).map(|i| patient(i, 0, 1000)).collect();
    assert!(EnvPruned::from_parts("x".to_string(), 2, 100, 0, 1000, patients, &matrix(3)).is_none());
}

#[test]
fn travel_lookup() {
    let env = small_env();
    assert_eq!(env.get_travel_time_between(&0, &3), 10);
    assert_eq!(env.get_travel_time_between(&1, &4), 15);
}

#[test]
fn sequence_travel_time() {
    let env = small_env();
    assert_eq!(get_seq_tt(&vec![Depot, Patient(1), Patient(3), Depot], &env), 10 + 10 + 10);
    assert_eq!(get_seq_tt(&vec![Patient(2)], &env), 0);
}

#[test]
fn word_of_genome() {
    let g = genome(vec![Depot, Patient(12), Patient(3), Depot, Depot, Patient(4), Depot]);
    assert_eq!(g.get_as_word(), "12-3-D4-");
    let h = genome(vec![Patient(1), Depot, Patient(2)]);
    assert_eq!(h.get_as_word(), "1-D2-");
}

#[test]
fn routes_split_and_join_round_trip() {
    let stops = vec![Depot, Patient(2), Patient(1), Depot, Depot, Patient(4), Patient(3)];
    let g = genome(stops.clone());
    let routes = g.get_as_delivery_str();
    assert_eq!(routes, vec![vec![], vec![2, 1], vec![], vec![4, 3]]);
    assert_eq!(join_delivery(&routes), stops);
}

#[test]
fn random_genomes_are_genomes() {
    let env = small_env();
    let pop = generate_random_genome(&env, 30);
    assert_eq!(pop.len(), 30);
    let canonical = counts(&[Patient(1), Patient(2), Patient(3), Patient(4), Depot]);
    let mut orders = std::collections::HashSet::new();
    for g in &pop {
        assert_eq!(counts(&g.stops), canonical);
        assert!(g.travel_time.is_none());
        assert!(is_genome_for(&env, &g.stops));
        orders.insert(g.stops.clone());
    }
    // shuffled: thirty draws of 120 orderings are not all the same
    assert!(orders.len() > 1);
    assert!(generate_random_genome(&env, -3).is_empty());
}

#[test]
fn genome_check_rejects_duplicates() {
    let env = small_env();
    assert!(is_genome_for(&env, &vec![Patient(1), Patient(2), Depot, Patient(3), Patient(4)]));
    assert!(!is_genome_for(&env, &vec![Patient(1), Patient(1), Depot, Patient(3), Patient(4)]));
    assert!(!is_genome_for(&env, &vec![Patient(1), Patient(2), Patient(3), Patient(4)]));
    assert!(!is_genome_for(&env, &vec![Patient(1), Patient(2), Depot, Patient(3), Patient(9)]));
}

#[test]
fn structural_operators_keep_multiset() {
    let stops = vec![Patient(1), Patient(2), Depot, Patient(3), Patient(4), Depot, Patient(5)];
    let before = counts(&stops);
    for _ in 0..200 {
        let mut g = genome(stops.clone());
        swap_mutate(&mut g);
        insert_mutate(&mut g);
        scramble_mutate(&mut g);
        inverse_mutation(&mut g);
        move_seq_mutation(&mut g);
        assert_eq!(counts(&g.stops), before);
        assert_eq!(g.stops.len(), stops.len());
    }
}

#[test]
fn exact_structural_cores() {
    let mut v = vec![Patient(1), Patient(2), Patient(3), Depot, Patient(4)];
    swap_positions(&mut v, 0, 4);
    assert_eq!(v, vec![Patient(4), Patient(2), Patient(3), Depot, Patient(1)]);
    relocate(&mut v, 0, 3);
    assert_eq!(v, vec![Patient(2), Patient(3), Depot, Patient(4), Patient(1)]);
    reverse_range(&mut v, 1, 4);
    assert_eq!(v, vec![Patient(2), Patient(4), Depot, Patient(3), Patient(1)]);
    move_segment(&mut v, 0, 2, 2);
    assert_eq!(v, vec![Depot, Patient(3), Patient(2), Patient(4), Patient(1)]);
}

#[test]
fn random_range_is_ordered() {
    for _ in 0..100 {
        let (a, b) = get_rand_range(7);
        assert!(a <= b && b < 7);
    }
    for _ in 0..20 {
        let c = flip_coin();
        assert!(c == 1 || c == -1);
    }
}

#[test]
fn mutate_keeps_genome_and_drops_cache() {
    let env = small_env();
    let mut g = evaluated(&env, vec![Patient(1), Patient(2), Depot, Patient(3), Patient(4)]);
    let before = counts(&g.stops);
    for itr in [1, 20000] {
        for _ in 0..50 {
            mutate(&mut g, &env, itr);
            assert_eq!(counts(&g.stops), before);
            assert!(g.travel_time.is_none() && g.valid.is_none());
            assert_eq!(g.meta_genes.mut_weight_vec.len(), 6);
            assert!(g.meta_genes.mut_weight_vec.iter().all(|w| *w >= 1));
        }
    }
}

#[test]
fn meta_mutation_keeps_parameters_in_range() {
    let mut g = genome(vec![Patient(1)]);
    for _ in 0..500 {
        meta_mutate(&mut g);
        assert!(g.meta_genes.cross_rate <= RATE_SCALE);
        assert!(g.meta_genes.mut_rate <= RATE_SCALE);
        assert!(g.meta_genes.mut_weight_vec.iter().all(|w| *w >= 1));
    }
}

#[test]
fn meta_change_is_exact() {
    let mut m = MetaGenes { cross_rate: 500_000, mut_rate: 900_000, mut_weight_vec: vec![1, 2, 3, 4, 5, 6] };
    m.apply_meta_change(5, 0, 2, 1, 1);
    assert_eq!(m.mut_rate, 1_000_000);
    m.apply_meta_change(5, 0, 0, 0, 1);
    assert_eq!(m.cross_rate, 400_000);
    m.apply_meta_change(0, 0, 0, 0, -1);
    assert_eq!(m.mut_weight_vec, vec![1, 2, 3, 4, 5, 6]);
    m.apply_meta_change(3, 3, 0, 0, 1);
    assert_eq!(m.mut_weight_vec, vec![1, 2, 3, 5, 5, 6]);
    m.apply_meta_change(1, 5, 0, 0, -1);
    assert_eq!(m.mut_weight_vec, vec![1, 2, 3, 5, 5, 5]);
}

#[test]
fn brute_force_never_worsens_and_finds_better_orders() {
    let patients = (1..=4).map(|i| patient(i, 0, 1000)).collect();
    let env = EnvPruned::from_parts("one".to_string(), 1, 100, 0, 1000, patients, &matrix(4)).unwrap();
    let mut g = evaluated(&env, vec![Patient(1), Patient(3), Patient(2), Patient(4)]);
    let start = g.travel_time.unwrap();
    let before = counts(&g.stops);
    for _ in 0..200 {
        let prev = evaluated(&env, g.stops.clone()).travel_time.unwrap();
        brute_f_seg(&mut g, &env);
        let now = evaluated(&env, g.stops.clone()).travel_time.unwrap();
        assert!(now <= prev);
        assert_eq!(counts(&g.stops), before);
    }
    let end = evaluated(&env, g.stops.clone()).travel_time.unwrap();
    // 1 3 2 4 costs 10 + 10 + 5 + 10 + 10 = 45; 1 2 3 4 costs 35
    assert_eq!(start, 45 * 20);
    assert_eq!(end, 35 * 20);
}

#[test]
fn optimal_insertion_never_worsens() {
    let env = small_env();
    for _ in 0..50 {
        let mut g = evaluated(&env, vec![Patient(3), Patient(1), Depot, Patient(4), Patient(2)]);
        let before = g.travel_time.unwrap();
        insert_optimal_mutate(&mut g, &env);
        assert!(g.travel_time.unwrap() <= before);
        assert_eq!(counts(&g.stops), counts(&[Patient(1), Patient(2), Patient(3), Patient(4), Depot]));
    }
}

#[test]
fn multiset_difference() {
    let a = vec![Depot, Patient(1), Depot, Patient(2)];
    let b = vec![Patient(2), Depot, Patient(3)];
    assert_eq!(multiset_minus(&a, &b), vec![Patient(1), Depot]);
}

#[test]
fn pmx_copies_window_and_repairs() {
    let p1 = genome(vec![Patient(1), Patient(2), Patient(3), Patient(4), Patient(5), Depot]);
    let p2 = genome(vec![Patient(5), Patient(4), Depot, Patient(3), Patient(2), Patient(1)]);
    let c = pmx_with_range(&p1, &p2, 1, 3);
    assert_eq!(&c.stops[1..3], &[Patient(2), Patient(3)]);
    assert_eq!(counts(&c.stops), counts(&p2.stops));
    // the window brought 2 and 3 and pushed out 4 and depot; outside it the displaced
    // 3 and 2 of parent 2 are replaced, from the end of the pushed-out list
    assert_eq!(c.stops, vec![Patient(5), Patient(2), Patient(3), Depot, Patient(4), Patient(1)]);
    assert!(c.travel_time.is_none());
}

#[test]
fn crossovers_keep_multiset_without_common_structure() {
    let p1 = genome(vec![Patient(1), Patient(2), Patient(3), Depot, Patient(4), Patient(5), Patient(6)]);
    let p2 = genome(vec![Patient(6), Depot, Patient(4), Patient(2), Patient(5), Patient(1), Patient(3)]);
    let want = counts(&p1.stops);
    for _ in 0..200 {
        assert_eq!(counts(&partially_mapped_crossover(&p1, &p2).stops), want);
        assert_eq!(counts(&partially_mapped_crossover(&p2, &p1).stops), want);
        assert_eq!(counts(&edge_crossover(&p1, &p2).stops), want);
        assert_eq!(counts(&edge_crossover(&p2, &p1).stops), want);
        assert_eq!(counts(&simple_sub_path_crossover(&p1, &p2).stops), want);
    }
}

#[test]
fn edge_crossover_follows_shared_edges() {
    // identical parents: every edge is common, so the child retraces them
    let p = genome(vec![Patient(1), Patient(2), Patient(3), Patient(4)]);
    for _ in 0..20 {
        let c = edge_crossover(&p, &p);
        assert_eq!(counts(&c.stops), counts(&p.stops));
    }
}

#[test]
fn route_span_of_position() {
    let s = vec![Patient(1), Depot, Patient(2), Patient(3), Depot, Patient(4)];
    assert_eq!(route_span(&s, 3), (2, 4));
    assert_eq!(route_span(&s, 1), (1, 1));
    assert_eq!(route_span(&s, 5), (5, 6));
}

fn costed(c: u128) -> Genotype {
    let mut g = genome(vec![Patient(1)]);
    g.travel_time = Some(c);
    g.valid = Some(true);
    g
}

#[test]
fn sorting_by_cost_is_stable() {
    let mut pop = vec![costed(5), costed(1), costed(3), costed(1)];
    pop[1].stops = vec![Patient(7)];
    sort_population(&mut pop);
    let got: Vec<u128> = pop.iter().map(|g| g.travel_time.unwrap()).collect();
    assert_eq!(got, vec![1, 1, 3, 5]);
    assert_eq!(pop[0].stops, vec![Patient(7)]);
}

#[test]
fn tournament_pick_returns_best_of_tournament() {
    let pop = vec![costed(9), costed(4), costed(7), costed(2), costed(6)];
    // the whole population without replacement: the global best wins
    for _ in 0..20 {
        let r = tournament_pick(&pop, &1, &5, &false);
        assert_eq!(r.len(), 1);
        assert_eq!(r[0].travel_time, Some(2));
        let two = tournament_pick(&pop, &2, &5, &false);
        assert_eq!(two[0].travel_time, Some(2));
        assert_eq!(two[1].travel_time, Some(4));
    }
    for _ in 0..50 {
        let r = tournament_pick(&pop, &2, &3, &true);
        assert!(r[0].travel_time <= r[1].travel_time);
    }
}

#[test]
fn parent_selections() {
    let pop = vec![costed(1), costed(2), costed(3), costed(4), costed(5), costed(6)];
    let e = elitism_parent_selection(&pop, 3);
    assert_eq!(e.len(), 3);
    assert_eq!(e[2].0.travel_time, Some(5));
    assert_eq!(e[2].1.travel_time, Some(6));
    let t = tournament_parent_selection(&pop, 4, 3, false);
    assert_eq!(t.len(), 4);
    assert!(t.iter().all(|(a, b)| a.travel_time <= b.travel_time));
    let h = random_best_half_parent_selection(&pop, 10);
    assert!(h.iter().all(|(a, b)| a.travel_time <= Some(3) && b.travel_time <= Some(3)));
    let r = rank_parent_selection(&pop, 50);
    assert_eq!(r.len(), 50);
    // the last genome weighs nothing
    assert!(r.iter().all(|(a, b)| a.travel_time != Some(6) && b.travel_time != Some(6)));
    assert_eq!(rank_weights(4), vec![3, 2, 1, 0]);
    assert!(tournament_parent_selection(&pop, -2, 3, true).is_empty());
}

#[test]
fn elitism_survivors_keep_best() {
    let mut pop = vec![costed(8), costed(3), costed(5)];
    sort_population(&mut pop);
    let best = pop[0].travel_time;
    let s = elitism_survivor_selection(pop, &2);
    assert_eq!(s.len(), 2);
    assert_eq!(s[0].travel_time, best);
    assert_eq!(s[1].travel_time, Some(5));
}

#[test]
fn tournament_survivors_come_from_population() {
    let pop = vec![costed(8), costed(3), costed(5)];
    let s = tournament_surivor_selection(pop, &7, &2, &false);
    assert_eq!(s.len(), 7);
    assert!(s.iter().all(|g| g.travel_time == Some(3) || g.travel_time == Some(5)));
}

#[test]
fn dedup_keeps_first_of_each_word() {
    let a = evaluated(&small_env(), vec![Patient(1), Patient(2), Depot, Patient(3), Patient(4)]);
    let b = evaluated(&small_env(), vec![Patient(3), Patient(4), Depot, Patient(1), Patient(2)]);
    // a depot at an end gives the same word as the depot between the routes elsewhere
    let c = evaluated(&small_env(), vec![Depot, Patient(1), Patient(2), Patient(3), Patient(4)]);
    let d = evaluated(&small_env(), vec![Patient(1), Patient(2), Patient(3), Patient(4), Depot]);
    let out = dedup_by_word(&vec![a.clone(), b.clone(), a.clone(), c.clone(), d]);
    assert_eq!(out.len(), 3);
    assert_eq!(out[0].stops, a.stops);
    assert_eq!(out[1].stops, b.stops);
    assert_eq!(out[2].stops, c.stops);
}

#[test]
fn transition_matrix_counts() {
    let pop = vec![genome(vec![Patient(1), Depot, Patient(2)]), genome(vec![Patient(2), Patient(1), Depot])];
    let m = transition_counts(&pop, 2);
    let cell = |a: usize, b: usize| m[a * 3 + b];
    assert_eq!(cell(0, 1), 1);
    assert_eq!(cell(1, 0), 2);
    assert_eq!(cell(0, 2), 2);
    assert_eq!(cell(2, 0), 1);
    assert_eq!(cell(2, 1), 1);
    assert_eq!(cell(0, 0), 1);
    assert_eq!(m.iter().sum::<u64>(), 8);
}

fn config(crowding: bool) -> GenAlgConfig {
    GenAlgConfig {
        train_set: 0,
        pop_size: 20,
        children_per_parent_pair: 3,
        num_parent_pairs: 6,
        train_iterations: 60,
        crowding,
        crossover_chance: 500_000,
        mutation_chance: 0,
        next_mut_chance: 200_000,
        early_stop_after: 1000,
        cross_per: 10,
        cross_num: 3,
    }
}

#[test]
fn child_is_an_evaluated_genome() {
    let env = windowed_env();
    let cfg = config(false);
    let pop = generate_random_genome(&env, 2);
    for _ in 0..50 {
        let c = gen_child(&pop[0], &pop[1], &cfg, &env, 300_000, 400_000, 20000);
        assert!(is_genome_for(&env, &c.stops));
        assert_eq!(c.travel_time, evaluated(&env, c.stops.clone()).travel_time);
    }
}

fn run_worker(env: &EnvPruned, crowding: bool, tr_num: i32, generations: usize) -> (u128, usize) {
    let cfg = config(crowding);
    assert!(cfg.is_wf());
    let mut w = Worker::new(cfg, tr_num, env, None);
    let mut evaluations = w.population.len();
    for it in 1..generations {
        if w.migration_due(it) {
            let out = w.emigrants();
            assert_eq!(out.len(), 3);
            w.receive(env, out);
        }
        w.rank_population(env);
        evaluations += w.config.num_parent_pairs * w.config.children_per_parent_pair;
        w.breed(env, it);
        assert!(!w.population.is_empty());
    }
    w.rank_population(env);
    (w.best.min(w.population[0].travel_time.unwrap()), evaluations)
}

#[test]
fn search_beats_random_sampling_on_small_instance() {
    let env = windowed_env();
    // exploring workers, and crowding; a non-exploring worker without crowding runs
    // tournaments over its whole 20-genome population here, which keeps only its best
    for (crowding, tr_num) in [(false, 0), (true, 0), (true, 1)] {
        let (best, evaluations) = run_worker(&env, crowding, tr_num, 150);
        let mut sample = generate_random_genome(&env, evaluations as i32);
        calculate_and_set_travel_time_multiple(&env, &mut sample);
        let random_best = sample.iter().map(|g| g.travel_time.unwrap()).min().unwrap();
        assert!(best <= random_best);
    }
}

#[test]
fn ring_and_history() {
    assert_eq!(ring_successor(0, 3), 1);
    assert_eq!(ring_successor(2, 3), 0);
    let mut h = BestHistory::new(2);
    assert!(!h.on_report(Some(costed(10))));
    assert!(!h.on_report(Some(costed(12))));
    assert!(!h.on_report(Some(costed(4))));
    assert!(!h.on_report(None));
    assert!(h.on_report(None));
    let costs: Vec<u128> = h.history.iter().map(|g| g.travel_time.unwrap()).collect();
    assert_eq!(costs, vec![10, 4]);
}

#[test]
fn spike_joins_after_warm_up() {
    let env = small_env();
    let cfg = config(false);
    let mut spike = generate_random_genome(&env, 2);
    calculate_and_set_travel_time_multiple(&env, &mut spike);
    let mut bad = genome(vec![Patient(1)]);
    bad.travel_time = Some(0);
    spike.push(bad);
    let mut w = Worker::new(cfg, 1, &env, Some(spike));
    let n = w.population.len();
    w.inject_spike(&env, 10);
    assert_eq!(w.population.len(), n);
    w.inject_spike(&env, 6000);
    assert_eq!(w.population.len(), n + 2);
    w.inject_spike(&env, 7000);
    assert_eq!(w.population.len(), n + 2);
}

#[test]
fn genomes_compare_by_stops_and_order_by_cost() {
    let a = costed(3);
    let mut b = costed(8);
    assert!(a == b);
    assert!(a < b);
    assert_eq!(a.partial_cmp(&b), Some(std::cmp::Ordering::Less));
    b.stops = vec![Patient(2)];
    assert!(a != b);
    b.travel_time = None;
    assert_eq!(a.partial_cmp(&b), None);
}

#[test]
fn next_stop_prefers_common_then_fewest_open_edges() {
    let edges = vec![(0, 1), (1, 0), (0, 2), (2, 0), (1, 2), (2, 1), (0, 3), (3, 0)];
    let available = vec![false, true, true, true];
    let common = vec![false, false, true, true, false, false, false, false];
    assert_eq!(best_neighbour(&edges, &common, &available, 0, 0), Some(2));
    // no common edge: 3 has no open edge left, 1 and 2 have one each
    let plain = vec![false; 8];
    assert_eq!(best_neighbour(&edges, &plain, &available, 0, 0), Some(3));
    let only_one = vec![false, true, false, false];
    assert_eq!(best_neighbour(&edges, &plain, &only_one, 0, 0), Some(1));
    let none = vec![false, false, false, false];
    assert_eq!(best_neighbour(&edges, &plain, &none, 0, 0), None);
    // the depot may be placed while separators remain
    assert_eq!(best_neighbour(&edges, &plain, &none, 1, 1), Some(0));
}

#[test]
fn elitism_pairs_follow_cost_order() {
    let pop = vec![costed(2), costed(1), costed(9), costed(4)];
    let e = elitism_parent_selection(&pop, 2);
    assert_eq!(e[0].0.travel_time, Some(1));
    assert_eq!(e[0].1.travel_time, Some(2));
    assert_eq!(e[1].0.travel_time, Some(4));
    assert_eq!(e[1].1.travel_time, Some(9));
    // an unsorted population: the best half is still the two cheapest
    let h = random_best_half_parent_selection(&pop, 20);
    assert!(h.iter().all(|(a, b)| a.travel_time <= Some(2) && b.travel_time <= Some(2)));
    // the dearest genome has no rank weight
    let r = rank_parent_selection(&pop, 30);
    assert!(r.iter().all(|(a, b)| a.travel_time != Some(9) && b.travel_time != Some(9)));
}

#[test]
fn weighted_mutation_keeps_genome() {
    let env = small_env();
    let mut g = evaluated(&env, vec![Patient(1), Patient(2), Depot, Patient(3), Patient(4)]);
    g.meta_genes.mut_weight_vec = vec![1, 1, 1, 1, 50, 1];
    let before = counts(&g.stops);
    for itr in [1, 20000] {
        for _ in 0..50 {
            mutate_weighted(&mut g, &env, itr);
            assert_eq!(counts(&g.stops), before);
            assert!(g.travel_time.is_none());
        }
    }
}

#[test]
fn tournament_over_whole_population_keeps_best() {
    let pop = vec![costed(8), costed(3), costed(5)];
    let s = tournament_surivor_selection(pop, &4, &3, &false);
    assert!(s.iter().all(|g| g.travel_time == Some(3)));
}

#[test]
fn child_for_given_draws() {
    let env = small_env();
    let p1 = evaluated(&env, vec![Patient(1), Patient(2), Depot, Patient(3), Patient(4)]);
    let p2 = evaluated(&env, vec![Patient(4), Patient(3), Depot, Patient(2), Patient(1)]);
    // no crossover and no mutation: an evaluated copy of the chosen parent
    let c = gen_child_with(&p1, &p2, &env, false, true, 0, 1);
    assert_eq!(c.stops, p1.stops);
    assert_eq!(c.travel_time, p1.travel_time);
    let d = gen_child_with(&p1, &p2, &env, false, false, 0, 1);
    assert_eq!(d.stops, p2.stops);
    // crossover keeps the stops of the instance
    for _ in 0..20 {
        let e = gen_child_with(&p1, &p2, &env, true, true, 2, 1);
        assert_eq!(counts(&e.stops), counts(&p1.stops));
    }
}
