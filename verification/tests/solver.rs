use rcpsp_ga::{
    critical_activities, crossover, double_justification, fitness, lns, repair_topological_sort,
    select, serial_schedule, smart_mutation, solve_monstre, tournament_pick, update_global_best,
    Problem, ScheduleError,
};

fn chain_problem() -> Problem {
    // chain 0 -> 1 -> 2, durations [2, 3, 1], one resource of capacity 1,
    // demand 1 each
    Problem {
        n: 3,
        durations: vec![2, 3, 1],
        capacities: vec![1],
        precedences: vec![vec![], vec![0], vec![1]],
        resources: vec![vec![1], vec![1], vec![1]],
    }
}

fn parallel_problem() -> Problem {
    // two independent activities, durations [4, 4], one resource of
    // capacity 2, demand 1 each
    Problem {
        n: 2,
        durations: vec![4, 4],
        capacities: vec![2],
        precedences: vec![vec![], vec![]],
        resources: vec![vec![1], vec![1]],
    }
}

fn overloaded_problem() -> Problem {
    // a single activity whose demand exceeds the capacity on its own
    Problem {
        n: 1,
        durations: vec![5],
        capacities: vec![1],
        precedences: vec![vec![]],
        resources: vec![vec![2]],
    }
}

fn is_feasible(order: &[usize], precedences: &[Vec<usize>]) -> bool {
    for (i, &j) in order.iter().enumerate() {
        for &p in &precedences[j] {
            if !order[..i].contains(&p) {
                return false;
            }
        }
    }
    true
}

fn sorted(v: &[usize]) -> Vec<usize> {
    let mut s = v.to_vec();
    s.sort();
    s
}

#[test]
fn chain_schedule_exact_starts() {
    let p = chain_problem();
    let (start, makespan) = serial_schedule(&p, &vec![0, 1, 2]).unwrap();
    assert_eq!(start, vec![0, 2, 5]);
    assert_eq!(makespan, 6);
}

#[test]
fn chain_schedule_respects_precedence_and_capacity() {
    let p = chain_problem();
    let (start, _) = serial_schedule(&p, &vec![0, 1, 2]).unwrap();
    // every predecessor finishes before its successor starts
    for j in 0..p.n {
        for &pd in &p.precedences[j] {
            assert!(start[pd] + p.durations[pd] <= start[j]);
        }
    }
    // at every instant the single resource carries at most its capacity
    let horizon: usize = p.durations.iter().sum();
    for t in 0..horizon {
        let mut used = 0;
        for j in 0..p.n {
            if start[j] <= t && t < start[j] + p.durations[j] {
                used += p.resources[j][0];
            }
        }
        assert!(used <= p.capacities[0]);
    }
}

#[test]
fn schedule_builder_is_deterministic() {
    let p = chain_problem();
    let a = serial_schedule(&p, &vec![0, 1, 2]).unwrap();
    let b = serial_schedule(&p, &vec![0, 1, 2]).unwrap();
    assert_eq!(a, b);
    let q = parallel_problem();
    let c = serial_schedule(&q, &vec![1, 0]).unwrap();
    let d = serial_schedule(&q, &vec![1, 0]).unwrap();
    assert_eq!(c, d);
}

#[test]
fn chain_fitness_is_six_for_any_feasible_order() {
    let p = chain_problem();
    assert_eq!(fitness(&p, &vec![0, 1, 2]), 6);
}

#[test]
fn chain_solver_finds_optimum_any_seed() {
    let p = chain_problem();
    let (best, makespan) = solve_monstre(&p, 4, 2, 3);
    assert_eq!(makespan, 6);
    assert!(is_feasible(&best, &p.precedences));
    assert_eq!(sorted(&best), vec![0, 1, 2]);
}

#[test]
fn parallel_pair_schedules_together() {
    let p = parallel_problem();
    let (start, makespan) = serial_schedule(&p, &vec![0, 1]).unwrap();
    assert_eq!(start, vec![0, 0]);
    assert_eq!(makespan, 4);
}

#[test]
fn parallel_solver_finds_optimum_quickly() {
    let p = parallel_problem();
    let (_, makespan) = solve_monstre(&p, 4, 1, 2);
    assert_eq!(makespan, 4);
}

#[test]
fn overloaded_demand_reports_horizon_exceeded() {
    let p = overloaded_problem();
    let r = serial_schedule(&p, &vec![0]);
    assert_eq!(r, Err(ScheduleError::HorizonExceeded));
}

#[test]
fn overloaded_demand_fitness_is_worst() {
    let p = overloaded_problem();
    assert_eq!(fitness(&p, &vec![0]), usize::MAX);
}

#[test]
fn critical_activities_of_chain() {
    let p = chain_problem();
    let (start, _) = serial_schedule(&p, &vec![0, 1, 2]).unwrap();
    let crit = critical_activities(&p, &start);
    assert!(crit.contains(&2));
    assert!(!crit.contains(&0));
    assert!(!crit.contains(&1));
}

#[test]
fn repair_yields_bijection_for_any_permutation() {
    let p = chain_problem();
    let mut c = vec![2, 0, 1];
    repair_topological_sort(&p, &mut c);
    assert_eq!(sorted(&c), vec![0, 1, 2]);
    assert!(is_feasible(&c, &p.precedences));
}

#[test]
fn repair_orders_reversed_chain() {
    let p = chain_problem();
    let mut c = vec![2, 1, 0];
    repair_topological_sort(&p, &mut c);
    assert_eq!(c, vec![0, 1, 2]);
}

#[test]
fn repair_keeps_feasible_input_unchanged() {
    let p = chain_problem();
    let mut c = vec![0, 1, 2];
    repair_topological_sort(&p, &mut c);
    assert_eq!(c, vec![0, 1, 2]);
    // a wider instance: diamond 0 -> {1, 2} -> 3 with a feasible order
    // that interleaves the middle activities
    let d = Problem {
        n: 4,
        durations: vec![1, 2, 2, 1],
        capacities: vec![2],
        precedences: vec![vec![], vec![0], vec![0], vec![1, 2]],
        resources: vec![vec![1], vec![1], vec![1], vec![1]],
    };
    let mut c2 = vec![0, 2, 1, 3];
    repair_topological_sort(&d, &mut c2);
    assert_eq!(c2, vec![0, 2, 1, 3]);
}

#[test]
fn crossover_contains_every_activity_once() {
    let p = chain_problem();
    let child = crossover(&p, &vec![0, 1, 2], &vec![2, 1, 0]);
    assert_eq!(sorted(&child), vec![0, 1, 2]);
    let d = parallel_problem();
    let child2 = crossover(&d, &vec![1, 0], &vec![0, 1]);
    assert_eq!(sorted(&child2), vec![0, 1]);
}

#[test]
fn lns_preserves_activity_multiset() {
    let c = vec![4, 2, 0, 3, 1];
    let r = lns(&c, 2);
    assert_eq!(r.len(), c.len());
    assert_eq!(sorted(&r), vec![0, 1, 2, 3, 4]);
}

#[test]
fn lns_then_repair_is_feasible() {
    let p = chain_problem();
    let r = lns(&vec![0, 1, 2], 1);
    let mut r = r;
    repair_topological_sort(&p, &mut r);
    assert!(is_feasible(&r, &p.precedences));
    assert_eq!(sorted(&r), vec![0, 1, 2]);
}

#[test]
fn smart_mutation_preserves_activities() {
    let p = parallel_problem();
    let mut c = vec![1, 0];
    smart_mutation(&p, &mut c);
    assert_eq!(sorted(&c), vec![0, 1]);
}

#[test]
fn double_justification_preserves_activities() {
    let p = chain_problem();
    let r = double_justification(&p, &vec![0, 1, 2]);
    assert_eq!(sorted(&r), vec![0, 1, 2]);
}

#[test]
fn double_justification_keeps_chain_makespan() {
    let p = chain_problem();
    let mut r = double_justification(&p, &vec![0, 1, 2]);
    repair_topological_sort(&p, &mut r);
    assert_eq!(fitness(&p, &r), 6);
}

#[test]
fn tournament_pick_takes_first_lowest() {
    let fits = vec![5, 3, 3, 9];
    assert_eq!(tournament_pick(&fits, &vec![3, 1, 2]), 1);
    assert_eq!(tournament_pick(&fits, &vec![2, 1]), 2);
    assert_eq!(tournament_pick(&fits, &vec![0]), 0);
}

#[test]
fn select_returns_population_member() {
    let pop = vec![vec![0, 1, 2], vec![2, 0, 1], vec![1, 0, 2]];
    let fits = vec![6, 9, 7];
    for _ in 0..20 {
        let c = select(&pop, &fits, 5);
        assert!(pop.contains(&c));
    }
}

#[test]
fn global_best_fitness_never_regresses() {
    let mut best: Vec<usize> = Vec::new();
    let mut best_fit = usize::MAX;
    let candidates = [(vec![0, 1, 2], 9usize), (vec![2, 1, 0], 6), (vec![1, 0, 2], 8)];
    let mut previous = best_fit;
    for (c, f) in candidates.iter() {
        update_global_best(&mut best, &mut best_fit, c, *f);
        assert!(best_fit <= previous);
        previous = best_fit;
    }
    assert_eq!(best_fit, 6);
    assert_eq!(best, vec![2, 1, 0]);
}

#[test]
fn zero_duration_activities_complete_instantly() {
    let p = Problem {
        n: 3,
        durations: vec![0, 4, 0],
        capacities: vec![1],
        precedences: vec![vec![], vec![0], vec![1]],
        resources: vec![vec![1], vec![1], vec![1]],
    };
    let (start, makespan) = serial_schedule(&p, &vec![0, 1, 2]).unwrap();
    assert_eq!(start, vec![0, 0, 4]);
    assert_eq!(makespan, 4);
}

#[test]
fn empty_problem_has_zero_makespan() {
    let p = Problem {
        n: 0,
        durations: vec![],
        capacities: vec![1],
        precedences: vec![],
        resources: vec![],
    };
    let (start, makespan) = serial_schedule(&p, &vec![]).unwrap();
    assert_eq!(start, Vec::<usize>::new());
    assert_eq!(makespan, 0);
}

#[test]
fn resource_contention_serializes_independent_activities() {
    // two independent activities but capacity 1: they cannot overlap
    let p = Problem {
        n: 2,
        durations: vec![4, 4],
        capacities: vec![1],
        precedences: vec![vec![], vec![]],
        resources: vec![vec![1], vec![1]],
    };
    let (start, makespan) = serial_schedule(&p, &vec![0, 1]).unwrap();
    assert_eq!(start, vec![0, 4]);
    assert_eq!(makespan, 8);
}

#[test]
fn solver_result_is_feasible_permutation() {
    let d = Problem {
        n: 4,
        durations: vec![1, 2, 2, 1],
        capacities: vec![1],
        precedences: vec![vec![], vec![0], vec![0], vec![1, 2]],
        resources: vec![vec![1], vec![1], vec![1], vec![1]],
    };
    let (best, makespan) = solve_monstre(&d, 4, 2, 4);
    assert!(is_feasible(&best, &d.precedences));
    assert_eq!(sorted(&best), vec![0, 1, 2, 3]);
    // capacity 1 forces a serial schedule of total length 6
    assert_eq!(makespan, 6);
}

#[test]
fn crossover_copies_critical_then_second_parent() {
    // in the chain schedule only activity 2 finishes at the makespan, so
    // the child is [2] followed by the rest of the second parent's order
    let p = chain_problem();
    let child = crossover(&p, &vec![0, 1, 2], &vec![2, 1, 0]);
    assert_eq!(child, vec![2, 1, 0]);
    let child2 = crossover(&p, &vec![0, 1, 2], &vec![0, 1, 2]);
    assert_eq!(child2, vec![2, 0, 1]);
}

#[test]
fn crossover_falls_back_to_second_parent_on_overrun() {
    // the first parent cannot be scheduled at all, so the child is exactly
    // the second parent
    let p = Problem {
        n: 2,
        durations: vec![3, 3],
        capacities: vec![1],
        precedences: vec![vec![], vec![]],
        resources: vec![vec![2], vec![2]],
    };
    let child = crossover(&p, &vec![0, 1], &vec![1, 0]);
    assert_eq!(child, vec![1, 0]);
}

#[test]
fn lns_keeps_retained_order() {
    // the first len - nremove entries of the result must appear in the
    // same relative order as in the input
    let c = vec![4, 2, 0, 3, 1];
    for _ in 0..10 {
        let r = lns(&c, 2);
        let kept = &r[..3];
        let mut pos: i64 = -1;
        for &v in kept {
            let here = c.iter().position(|&x| x == v).unwrap() as i64;
            assert!(here > pos);
            pos = here;
        }
    }
}

#[test]
fn smart_mutation_relocates_only_the_bottleneck() {
    // in the chain schedule activity 2 finishes last, so only it moves:
    // the relative order of 0 and 1 is preserved
    let p = chain_problem();
    for _ in 0..10 {
        let mut c = vec![0, 1, 2];
        smart_mutation(&p, &mut c);
        assert_eq!(sorted(&c), vec![0, 1, 2]);
        let pos0 = c.iter().position(|&x| x == 0).unwrap();
        let pos1 = c.iter().position(|&x| x == 1).unwrap();
        assert!(pos0 < pos1);
    }
}

#[test]
fn double_justification_is_deterministic() {
    let p = chain_problem();
    let a = double_justification(&p, &vec![0, 1, 2]);
    let b = double_justification(&p, &vec![0, 1, 2]);
    assert_eq!(a, b);
    let d = Problem {
        n: 4,
        durations: vec![1, 2, 2, 1],
        capacities: vec![2],
        precedences: vec![vec![], vec![0], vec![0], vec![1, 2]],
        resources: vec![vec![1], vec![1], vec![1], vec![1]],
    };
    let e = double_justification(&d, &vec![0, 2, 1, 3]);
    let f = double_justification(&d, &vec![0, 2, 1, 3]);
    assert_eq!(e, f);
}

#[test]
fn empty_instance_solves_to_zero() {
    let p = Problem {
        n: 0,
        durations: vec![],
        capacities: vec![1],
        precedences: vec![],
        resources: vec![],
    };
    let (best, makespan) = solve_monstre(&p, 2, 1, 1);
    assert_eq!(best, Vec::<usize>::new());
    assert_eq!(makespan, 0);
}
