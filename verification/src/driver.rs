//! The island driver: the top-level orchestration of the genetic
//! algorithm.  One island per worker thread is seeded with random
//! precedence-feasible chromosomes; each epoch, every island evolves
//! independently and concurrently for a fixed number of generations; at
//! the epoch boundary the cross-island best is folded into the tracked
//! global best, which is then migrated into slot zero of every island.
//!
//! Strict per-task ownership: each island task owns its population
//! outright and draws from its own thread-local random source; results
//! merge only by value at the epoch barrier.

use vstd::prelude::*;

use rayon::iter::{IntoParallelIterator, ParallelIterator};

use crate::justify::double_justification;
use crate::operators::{copy_order, crossover, lns, select, smart_mutation};
use crate::problem::{acyclic, is_permutation, lemma_multiset_perm, precedence_feasible, Problem};
use crate::repair::{random_topological_sort, repair_topological_sort};
use crate::schedule::{demands_fit, fitness, spec_fitness};

verus! {

/// A chromosome the evolutionary pipeline accepts: a precedence-feasible
/// permutation of the activities.
pub open spec fn chrom_ok(p: Problem, s: Seq<usize>) -> bool {
    is_permutation(s, p.n as nat) && precedence_feasible(s, p.prec())
}

/// Every member of a population is a precedence-feasible permutation.
pub open spec fn pop_ok(p: Problem, pop: Seq<Vec<usize>>) -> bool {
    forall|i: int| 0 <= i < pop.len() ==> chrom_ok(p, (#[trigger] pop[i])@)
}

/// What one island epoch returns: a full population of feasible
/// permutations, and a local best whose recorded fitness is exact whenever
/// one was found.
pub open spec fn epoch_outcome_ok(
    p: Problem,
    pop_size: nat,
    out: (Vec<Vec<usize>>, Vec<usize>, usize),
) -> bool {
    &&& out.0@.len() == pop_size
    &&& pop_ok(p, out.0@)
    &&& (out.2 < usize::MAX ==> chrom_ok(p, out.1@) && spec_fitness(p, out.1@) == out.2)
}

/// Folds a candidate into the tracked best.  The tracked fitness never
/// regresses, and it improves exactly when the candidate is strictly
/// better.
pub fn update_global_best(
    best: &mut Vec<usize>,
    best_fit: &mut usize,
    cand: &Vec<usize>,
    cand_fit: usize,
)
    ensures
        *final(best_fit) <= *old(best_fit),
        cand_fit < *old(best_fit) ==> *final(best_fit) == cand_fit && final(best)@ == cand@,
        cand_fit >= *old(best_fit) ==> *final(best_fit) == *old(best_fit) && final(best)@ == old(
            best,
        )@,
{
    if cand_fit < *best_fit {
        *best_fit = cand_fit;
        *best = copy_order(cand);
    }
}

/// One island epoch: `generations` steps of evaluate, elitist carry-over,
/// tournament selection, crossover, probabilistic mutation and
/// destroy-rebuild, unconditional repair, and occasional justification
/// followed by repair.  Returns the final population together with the
/// island's best-seen chromosome and fitness.
#[verifier::loop_isolation(false)]
pub fn evolve_island(
    problem: &Problem,
    pop0: Vec<Vec<usize>>,
    pop_per_island: usize,
    generations: usize,
) -> (out: (Vec<Vec<usize>>, Vec<usize>, usize))
    requires
        problem.wf(),
        problem.bounds_ok(),
        acyclic(problem.prec()),
        pop_per_island >= 1,
        pop0@.len() == pop_per_island,
        pop_ok(*problem, pop0@),
    ensures
        epoch_outcome_ok(*problem, pop_per_island as nat, out),
        generations >= 1 && demands_fit(*problem) ==> out.2 < usize::MAX,
        generations >= 1 ==> forall|h: int|
            0 <= h < pop0@.len() ==> out.2 as int <= spec_fitness(
                *problem,
                (#[trigger] pop0@[h])@,
            ),
{
    let ghost pop0v = pop0@;
    let mut pop = pop0;
    let mut island_best: Vec<usize> = Vec::new();
    let mut island_best_fit: usize = usize::MAX;
    let mut g: usize = 0;
    while g < generations
        invariant
            pop@.len() == pop_per_island,
            pop_ok(*problem, pop@),
            island_best_fit < usize::MAX ==> chrom_ok(*problem, island_best@) && spec_fitness(
                *problem,
                island_best@,
            ) == island_best_fit,
            g >= 1 && demands_fit(*problem) ==> island_best_fit < usize::MAX,
            g == 0 ==> pop@ == pop0v,
            g >= 1 ==> forall|h: int|
                0 <= h < pop0v.len() ==> island_best_fit as int <= spec_fitness(
                    *problem,
                    (#[trigger] pop0v[h])@,
                ),
        decreases generations - g,
    {
        // evaluate every member
        let mut fits: Vec<usize> = Vec::new();
        let mut i: usize = 0;
        while i < pop_per_island
            invariant
                i <= pop_per_island,
                pop@.len() == pop_per_island,
                pop_ok(*problem, pop@),
                fits@.len() == i,
                forall|h: int|
                    0 <= h < i ==> #[trigger] fits@[h] as int == spec_fitness(
                        *problem,
                        pop@[h]@,
                    ),
                demands_fit(*problem) ==> forall|h: int|
                    0 <= h < i ==> #[trigger] fits@[h] < usize::MAX,
            decreases pop_per_island - i,
        {
            let f = fitness(problem, &pop[i]);
            fits.push(f);
            i = i + 1;
        }
        // track the island's best-seen chromosome
        let ghost ibf_pre = island_best_fit;
        let mut i: usize = 0;
        while i < pop_per_island
            invariant
                island_best_fit <= ibf_pre,
                forall|h: int| 0 <= h < i ==> island_best_fit as int <= #[trigger] fits@[h],
                i <= pop_per_island,
                pop@.len() == pop_per_island,
                pop_ok(*problem, pop@),
                fits@.len() == pop_per_island,
                forall|h: int|
                    0 <= h < pop_per_island ==> #[trigger] fits@[h] as int == spec_fitness(
                        *problem,
                        pop@[h]@,
                    ),
                island_best_fit < usize::MAX ==> chrom_ok(*problem, island_best@) && spec_fitness(
                    *problem,
                    island_best@,
                ) == island_best_fit,
                demands_fit(*problem) ==> forall|h: int|
                    0 <= h < pop_per_island ==> #[trigger] fits@[h] < usize::MAX,
                i >= 1 && demands_fit(*problem) ==> island_best_fit < usize::MAX,
            decreases pop_per_island - i,
        {
            if fits[i] < island_best_fit {
                island_best_fit = fits[i];
                island_best = copy_order(&pop[i]);
                proof {
                    assert(island_best@ == pop@[i as int]@);
                    assert(island_best_fit < usize::MAX);
                }
            }
            i = i + 1;
        }
        proof {
            assert forall|h: int|
                0 <= h < pop0v.len() implies island_best_fit as int <= spec_fitness(
                *problem,
                (#[trigger] pop0v[h])@,
            ) by {
                if g == 0 {
                    assert(fits@[h] as int == spec_fitness(*problem, pop@[h]@));
                }
            }
        }
        // build the next generation, slot zero carrying the elite
        let mut newpop: Vec<Vec<usize>> = Vec::new();
        if island_best_fit < usize::MAX {
            newpop.push(copy_order(&island_best));
        } else {
            newpop.push(copy_order(&pop[0]));
        }
        while newpop.len() < pop_per_island
            invariant
                1 <= newpop@.len() <= pop_per_island,
                pop@.len() == pop_per_island,
                pop_ok(*problem, pop@),
                fits@.len() == pop_per_island,
                pop_ok(*problem, newpop@),
            decreases pop_per_island - newpop@.len(),
        {
            let p1 = select(&pop, &fits, 5);
            let p2 = select(&pop, &fits, 5);
            proof {
                let i1 = choose|i1: int| 0 <= i1 < pop@.len() && p1@ == (#[trigger] pop@[i1])@;
                let i2 = choose|i2: int| 0 <= i2 < pop@.len() && p2@ == (#[trigger] pop@[i2])@;
            }
            let mut child = crossover(problem, &p1, &p2);
            if problem.n >= 1 && crate::rng::rand_below(100) < 30 {
                smart_mutation(problem, &mut child);
            }
            if crate::rng::rand_below(100) < 20 {
                let ghost pre = child@;
                // a quarter of the positions, rounded to the nearest count
                let nremove = child.len() / 4 + (if child.len() % 4 >= 2 {
                    1
                } else {
                    0
                });
                child = lns(&child, nremove);
                proof {
                    lemma_multiset_perm(pre, child@, problem.n as nat);
                }
            }
            repair_topological_sort(problem, &mut child);
            if crate::rng::rand_below(100) < 10 {
                child = double_justification(problem, &child);
                repair_topological_sort(problem, &mut child);
            }
            newpop.push(child);
        }
        pop = newpop;
        g = g + 1;
    }
    (pop, island_best, island_best_fit)
}

/// Relies on rayon's `current_num_threads`: the number of worker threads
/// in the current pool; a pool always holds at least one thread.
#[verifier::external_body]
fn worker_count() -> (r: usize)
    ensures
        r >= 1,
{
    rayon::current_num_threads()
}

/// Relies on rayon's parallel iterator `map` and `collect`: the verified
/// island epoch is applied to every island, one independent task per
/// island with no shared mutable state, and the outcomes are collected in
/// island order.
#[verifier::external_body]
fn evolve_islands_parallel(
    problem: &Problem,
    islands: Vec<Vec<Vec<usize>>>,
    pop_per_island: usize,
    generations: usize,
) -> (r: Vec<(Vec<Vec<usize>>, Vec<usize>, usize)>)
    requires
        problem.wf(),
        problem.bounds_ok(),
        acyclic(problem.prec()),
        pop_per_island >= 1,
        forall|i: int|
            0 <= i < islands@.len() ==> (#[trigger] islands@[i])@.len() == pop_per_island && pop_ok(
                *problem,
                islands@[i]@,
            ),
    ensures
        r@.len() == islands@.len(),
        forall|i: int|
            0 <= i < r@.len() ==> epoch_outcome_ok(
                *problem,
                pop_per_island as nat,
                #[trigger] r@[i],
            ),
        generations >= 1 && demands_fit(*problem) ==> forall|i: int|
            0 <= i < r@.len() ==> (#[trigger] r@[i]).2 < usize::MAX,
{
    islands.into_par_iter().map(
        |pop| evolve_island(problem, pop, pop_per_island, generations),
    ).collect()
}

/// The full island-model run: `worker count` islands of `pop_per_island`
/// random feasible chromosomes evolve for `epochs` epochs of
/// `generations_per_epoch` generations, with the global best migrated into
/// every island at each epoch boundary.  Returns the global-best
/// chromosome and its makespan; when no member ever scheduled within the
/// horizon, the worst possible fitness and an empty order are returned.
#[verifier::loop_isolation(false)]
pub fn solve_monstre(
    problem: &Problem,
    pop_per_island: usize,
    epochs: usize,
    generations_per_epoch: usize,
) -> (r: (Vec<usize>, usize))
    requires
        problem.wf(),
        problem.bounds_ok(),
        acyclic(problem.prec()),
        pop_per_island >= 1,
    ensures
        r.1 < usize::MAX ==> chrom_ok(*problem, r.0@) && spec_fitness(*problem, r.0@) == r.1,
        r.1 == usize::MAX ==> r.0@.len() == 0,
        epochs >= 1 && generations_per_epoch >= 1 && demands_fit(*problem) ==> r.1 < usize::MAX,
{
    let num_islands = worker_count();
    let mut islands: Vec<Vec<Vec<usize>>> = Vec::new();
    let mut w: usize = 0;
    while w < num_islands
        invariant
            w <= num_islands,
            islands@.len() == w,
            forall|i: int|
                0 <= i < w ==> (#[trigger] islands@[i])@.len() == pop_per_island && pop_ok(
                    *problem,
                    islands@[i]@,
                ),
        decreases num_islands - w,
    {
        let mut pop: Vec<Vec<usize>> = Vec::new();
        while pop.len() < pop_per_island
            invariant
                pop@.len() <= pop_per_island,
                pop_ok(*problem, pop@),
            decreases pop_per_island - pop@.len(),
        {
            pop.push(random_topological_sort(problem));
        }
        islands.push(pop);
        w = w + 1;
    }
    let mut global_best: Vec<usize> = Vec::new();
    let mut global_best_fit: usize = usize::MAX;
    let mut ep: usize = 0;
    while ep < epochs
        invariant
            islands@.len() == num_islands,
            forall|i: int|
                0 <= i < num_islands ==> (#[trigger] islands@[i])@.len() == pop_per_island
                    && pop_ok(*problem, islands@[i]@),
            global_best_fit < usize::MAX ==> chrom_ok(*problem, global_best@) && spec_fitness(
                *problem,
                global_best@,
            ) == global_best_fit,
            global_best_fit == usize::MAX ==> global_best@.len() == 0,
            ep >= 1 && generations_per_epoch >= 1 && demands_fit(*problem)
                ==> global_best_fit < usize::MAX,
        decreases epochs - ep,
    {
        let mut results = evolve_islands_parallel(
            problem,
            islands,
            pop_per_island,
            generations_per_epoch,
        );
        islands = Vec::new();
        while results.len() > 0
            invariant
                islands@.len() + results@.len() == num_islands,
                forall|i: int|
                    0 <= i < results@.len() ==> epoch_outcome_ok(
                        *problem,
                        pop_per_island as nat,
                        #[trigger] results@[i],
                    ),
                forall|i: int|
                    0 <= i < islands@.len() ==> (#[trigger] islands@[i])@.len() == pop_per_island
                        && pop_ok(*problem, islands@[i]@),
                global_best_fit < usize::MAX ==> chrom_ok(*problem, global_best@) && spec_fitness(
                    *problem,
                    global_best@,
                ) == global_best_fit,
                global_best_fit == usize::MAX ==> global_best@.len() == 0,
                generations_per_epoch >= 1 && demands_fit(*problem) && islands@.len() >= 1
                    ==> global_best_fit < usize::MAX,
                generations_per_epoch >= 1 && demands_fit(*problem) ==> forall|i: int|
                    0 <= i < results@.len() ==> (#[trigger] results@[i]).2 < usize::MAX,
            decreases results@.len(),
        {
            let tr = results.pop().unwrap();
            let (pp, bc, bf) = tr;
            islands.push(pp);
            update_global_best(&mut global_best, &mut global_best_fit, &bc, bf);
        }
        // migration: the incumbent overwrites slot zero of every island
        if global_best_fit < usize::MAX {
            let mut z: usize = 0;
            while z < islands.len()
                invariant
                    z <= islands@.len(),
                    islands@.len() == num_islands,
                    forall|i: int|
                        0 <= i < islands@.len() ==> (#[trigger] islands@[i])@.len()
                            == pop_per_island && pop_ok(*problem, islands@[i]@),
                    global_best_fit < usize::MAX,
                    chrom_ok(*problem, global_best@),
                    spec_fitness(*problem, global_best@) == global_best_fit,
                decreases islands@.len() - z,
            {
                let mig = copy_order(&global_best);
                let isl = &mut islands[z];
                isl[0] = mig;
                z = z + 1;
            }
        }
        ep = ep + 1;
    }
    (global_best, global_best_fit)
}

} // verus!
