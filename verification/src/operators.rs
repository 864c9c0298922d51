//! The evolutionary operators: tournament selection, forward-biased
//! crossover, bottleneck mutation, and the destroy-rebuild perturbation.

use vstd::prelude::*;

use crate::problem::{
    is_permutation, lemma_distinct_cover_is_perm, lemma_multiset_perm, lemma_perm_contains,
    Problem,
};
use crate::schedule::{
    argmax_fin, bottleneck_of, critical_activities, critical_pred, finish_times,
    lemma_not_in_take, not_pred, serial_schedule, ssgs_ok,
};

verus! {

/// Two permutations of `{0..n-1}` hold the same multiset of activities.
pub proof fn lemma_perms_same_multiset(a: Seq<usize>, b: Seq<usize>, n: nat)
    requires
        is_permutation(a, n),
        is_permutation(b, n),
    ensures
        a.to_multiset() == b.to_multiset(),
{
    broadcast use vstd::seq_lib::group_to_multiset_ensures;

    a.lemma_multiset_has_no_duplicates();
    b.lemma_multiset_has_no_duplicates();
    assert forall|v: usize| #[trigger] a.to_multiset().count(v) == b.to_multiset().count(v) by {
        if v < n {
            lemma_perm_contains(a, n, v);
            lemma_perm_contains(b, n, v);
            assert(a.to_multiset().count(v) > 0);
            assert(b.to_multiset().count(v) > 0);
        } else {
            assert(!a.contains(v)) by {
                if a.contains(v) {
                    let h = choose|h: int| 0 <= h < a.len() && #[trigger] a[h] == v;
                }
            }
            assert(!b.contains(v)) by {
                if b.contains(v) {
                    let h = choose|h: int| 0 <= h < b.len() && #[trigger] b[h] == v;
                }
            }
        }
    }
    assert(a.to_multiset() =~= b.to_multiset());
}

/// Swapping two entries of a permutation leaves a permutation.
pub proof fn lemma_swap_perm(s: Seq<usize>, i: int, j: int, n: nat)
    requires
        is_permutation(s, n),
        0 <= i < s.len(),
        0 <= j < s.len(),
    ensures
        is_permutation(s.update(i, s[j]).update(j, s[i]), n),
{
    let r = s.update(i, s[j]).update(j, s[i]);
    assert(r.len() == n);
    assert forall|x: int| 0 <= x < n implies (#[trigger] r[x]) < n by {}
    assert forall|x: int, y: int| 0 <= x < y < r.len() implies r[x] != r[y] by {}
}

/// A fresh element-by-element copy of an activity order.
pub(crate) fn copy_order(v: &Vec<usize>) -> (r: Vec<usize>)
    ensures
        r@ == v@,
{
    let mut r: Vec<usize> = Vec::new();
    let mut i: usize = 0;
    while i < v.len()
        invariant
            i <= v@.len(),
            r@ =~= v@.take(i as int),
        decreases v@.len() - i,
    {
        r.push(v[i]);
        proof {
            assert(v@.take(i as int + 1) =~= v@.take(i as int).push(v@[i as int]));
        }
        i = i + 1;
    }
    proof {
        assert(v@.take(v@.len() as int) =~= v@);
    }
    r
}

/// A vector of `len` entries, all false.
fn false_vec(len: usize) -> (v: Vec<bool>)
    ensures
        v@.len() == len,
        forall|i: int| 0 <= i < len ==> !(#[trigger] v@[i]),
{
    let mut v: Vec<bool> = Vec::new();
    let mut i: usize = 0;
    while i < len
        invariant
            i <= len,
            v@.len() == i,
            forall|x: int| 0 <= x < i ==> !(#[trigger] v@[x]),
        decreases len - i,
    {
        v.push(false);
        i = i + 1;
    }
    v
}

/// The index among `draws` with the lowest fitness; the earliest drawn
/// wins ties.
#[verifier::loop_isolation(false)]
pub fn tournament_pick(fits: &Vec<usize>, draws: &Vec<usize>) -> (w: usize)
    requires
        draws@.len() >= 1,
        forall|i: int| 0 <= i < draws@.len() ==> (#[trigger] draws@[i]) < fits@.len(),
    ensures
        draws@.contains(w),
        forall|i: int|
            0 <= i < draws@.len() ==> fits@[w as int] <= fits@[(#[trigger] draws@[i]) as int],
        exists|i: int|
            0 <= i < draws@.len() && draws@[i] == w && (forall|h: int|
                0 <= h < i ==> fits@[(#[trigger] draws@[h]) as int] > fits@[w as int]),
{
    let mut best = draws[0];
    let ghost mut bi: int = 0;
    let mut r: usize = 1;
    while r < draws.len()
        invariant
            1 <= r <= draws@.len(),
            0 <= bi < r,
            draws@[bi] == best,
            best < fits@.len(),
            forall|h: int| 0 <= h < r ==> fits@[best as int] <= fits@[(#[trigger] draws@[h]) as int],
            forall|h: int| 0 <= h < bi ==> fits@[(#[trigger] draws@[h]) as int] > fits@[best as int],
        decreases draws@.len() - r,
    {
        let d = draws[r];
        if fits[d] < fits[best] {
            best = d;
            proof {
                bi = r as int;
            }
        }
        r = r + 1;
    }
    proof {
        assert(draws@.contains(best)) by {
            assert(draws@[bi] == best);
        }
    }
    best
}

/// Tournament selection: `k` population indices are drawn uniformly at
/// random with replacement, and a copy of the drawn member with the lowest
/// fitness is returned, the first drawn winning ties.
#[verifier::loop_isolation(false)]
pub fn select(pop: &Vec<Vec<usize>>, fits: &Vec<usize>, k: usize) -> (c: Vec<usize>)
    requires
        pop@.len() >= 1,
        fits@.len() == pop@.len(),
        k >= 1,
    ensures
        exists|i: int| 0 <= i < pop@.len() && c@ == (#[trigger] pop@[i])@,
{
    let mut draws: Vec<usize> = Vec::new();
    let mut r: usize = 0;
    while r < k
        invariant
            draws@.len() == r,
            forall|h: int| 0 <= h < r ==> (#[trigger] draws@[h]) < pop@.len(),
        decreases k - r,
    {
        let d = crate::rng::rand_below(pop.len());
        draws.push(d);
        r = r + 1;
    }
    let w = tournament_pick(fits, &draws);
    let c = copy_order(&pop[w]);
    proof {
        assert(c@ == pop@[w as int]@);
    }
    c
}

/// Every element a filter keeps comes from the original sequence.
proof fn lemma_filter_subset(s: Seq<usize>, pred: spec_fn(usize) -> bool)
    ensures
        forall|v: usize| #[trigger] s.filter(pred).contains(v) ==> s.contains(v),
    decreases s.len(),
{
    reveal(Seq::filter);
    if s.len() > 0 {
        lemma_filter_subset(s.drop_last(), pred);
        assert forall|v: usize| #[trigger] s.filter(pred).contains(v) implies s.contains(v) by {
            if s.filter(pred).contains(v) {
                if pred(s.last()) && v == s.last() {
                    assert(s[s.len() - 1] == v);
                } else {
                    assert(s.drop_last().filter(pred).contains(v)) by {
                        let h = choose|h: int|
                            0 <= h < s.filter(pred).len() && #[trigger] s.filter(pred)[h] == v;
                        if pred(s.last()) {
                            assert(h < s.filter(pred).len() - 1);
                            assert(s.drop_last().filter(pred)[h] == v);
                        }
                    }
                    let h = choose|h: int|
                        0 <= h < s.drop_last().len() && #[trigger] s.drop_last()[h] == v;
                    assert(s[h] == v);
                }
            }
        }
    }
}

/// Filtering with a predicate that holds of every entry changes nothing.
proof fn lemma_filter_all_true(s: Seq<usize>, pred: spec_fn(usize) -> bool)
    requires
        forall|i: int| 0 <= i < s.len() ==> pred(#[trigger] s[i]),
    ensures
        s.filter(pred) == s,
    decreases s.len(),
{
    reveal(Seq::filter);
    if s.len() > 0 {
        lemma_filter_all_true(s.drop_last(), pred);
        assert(s.drop_last().push(s.last()) =~= s);
    }
}

/// A filter commutes with appending one element.
pub(crate) proof fn lemma_filter_push(s: Seq<usize>, g: usize, pred: spec_fn(usize) -> bool)
    ensures
        s.push(g).filter(pred) == (if pred(g) {
            s.filter(pred).push(g)
        } else {
            s.filter(pred)
        }),
{
    reveal(Seq::filter);
    assert(s.push(g).drop_last() =~= s);
    assert(s.push(g).last() == g);
}

/// Forward-biased crossover: the critical activities of the first parent's
/// schedule are copied in first-parent order, then every activity not yet
/// placed follows in second-parent order.  The child contains every
/// activity exactly once: it is exactly the first parent's critical
/// activities followed by the rest of the second parent, and the whole
/// second parent when the first parent's schedule overran the horizon.
#[verifier::loop_isolation(false)]
#[verifier::rlimit(100)]
pub fn crossover(problem: &Problem, p1: &Vec<usize>, p2: &Vec<usize>) -> (child: Vec<usize>)
    requires
        problem.wf(),
        problem.bounds_ok(),
        is_permutation(p1@, problem.n as nat),
        is_permutation(p2@, problem.n as nat),
    ensures
        is_permutation(child@, problem.n as nat),
        ssgs_ok(*problem, problem.prec(), p1@) ==> child@ == p1@.filter(
            critical_pred(*problem, p1@),
        ) + p2@.filter(not_pred(critical_pred(*problem, p1@))),
        !ssgs_ok(*problem, problem.prec(), p1@) ==> child@ == p2@,
{
    let n = problem.n;
    let mut child: Vec<usize> = Vec::new();
    let mut in_child = false_vec(n);
    let ghost mut critf: spec_fn(usize) -> bool = (|g: usize| false);
    let ghost mut cpart: Seq<usize> = Seq::<usize>::empty();
    let sres = serial_schedule(problem, p1);
    match sres {
        Result::Ok(sm) => {
            let start = sm.0;
            proof {
                critf = critical_pred(*problem, p1@);
                assert forall|x: int|
                    0 <= x < n implies #[trigger] start@[x] + problem.durations@[x]
                    < usize::MAX by {
                    assert(crate::schedule::ints_of(start@)[x] == start@[x] as int);
                    assert(crate::schedule::ssgs_fins(*problem, problem.prec(), p1@)[x]
                        <= problem.total_duration());
                }
                assert(finish_times(*problem, start@) == crate::schedule::ssgs_fins(
                    *problem,
                    problem.prec(),
                    p1@,
                )) by {
                    assert forall|x: int|
                        0 <= x < n implies finish_times(*problem, start@)[x]
                        == crate::schedule::ssgs_fins(*problem, problem.prec(), p1@)[x] by {
                        assert(crate::schedule::ints_of(start@)[x] == start@[x] as int);
                    }
                    assert(finish_times(*problem, start@) =~= crate::schedule::ssgs_fins(
                        *problem,
                        problem.prec(),
                        p1@,
                    ));
                }
            }
            let crit = critical_activities(problem, &start);
            proof {
                assert forall|g: usize| #[trigger] crit@.contains(g) == critf(g) by {}
            }
            let mut i: usize = 0;
            while i < n
                invariant
                    i <= n,
                    in_child@.len() == n,
                    child@.no_duplicates(),
                    forall|h: int| 0 <= h < child@.len() ==> (#[trigger] child@[h]) < n,
                    forall|g: usize| g < n ==> (in_child@[g as int] == child@.contains(g)),
                    forall|g: usize| #[trigger] child@.contains(g) ==> p1@.take(i as int).contains(g),
                    child@ == p1@.take(i as int).filter(critf),
                decreases n - i,
            {
                let g = p1[i];
                proof {
                    lemma_not_in_take(p1@, i as int);
                    crate::problem::lemma_push_contains(child@, g);
                    crate::problem::lemma_push_no_dup(child@, g);
                    assert(p1@.take(i as int + 1) =~= p1@.take(i as int).push(g));
                    crate::problem::lemma_push_contains(p1@.take(i as int), g);
                    lemma_filter_push(p1@.take(i as int), g, critf);
                }
                if crit.contains(&g) {
                    child.push(g);
                    in_child[g] = true;
                }
                i = i + 1;
            }
            proof {
                assert(p1@.take(n as int) =~= p1@);
                cpart = p1@.filter(critf);
                assert(child@ == cpart);
                lemma_filter_subset(p1@, critf);
                assert forall|g: usize| #[trigger] cpart.contains(g) implies critf(g) by {
                    let h = choose|h: int| 0 <= h < cpart.len() && #[trigger] cpart[h] == g;
                    p1@.lemma_filter_pred(critf, h);
                }
                assert forall|g: usize| g < n && #[trigger] critf(g) implies cpart.contains(g) by {
                    lemma_perm_contains(p1@, problem.n as nat, g);
                    let h = choose|h: int| 0 <= h < p1@.len() && #[trigger] p1@[h] == g;
                    p1@.lemma_filter_contains(critf, h);
                }
            }
        },
        Result::Err(_) => {
            proof {
                assert(!ssgs_ok(*problem, problem.prec(), p1@));
                assert(forall|g: usize| !(#[trigger] critf(g)));
            }
        },
    }
    proof {
        assert(p2@.take(0) =~= Seq::<usize>::empty());
        assert(p2@.take(0).filter(not_pred(critf)) == Seq::<usize>::empty()) by {
            reveal(Seq::filter);
        }
        assert(child@ == cpart + p2@.take(0).filter(not_pred(critf))) by {
            assert(child@ =~= cpart + p2@.take(0).filter(not_pred(critf)));
        }
    }
    let mut i: usize = 0;
    while i < n
        invariant
            i <= n,
            in_child@.len() == n,
            child@.no_duplicates(),
            forall|h: int| 0 <= h < child@.len() ==> (#[trigger] child@[h]) < n,
            forall|g: usize| g < n ==> (in_child@[g as int] == child@.contains(g)),
            forall|h: int| 0 <= h < i ==> child@.contains(#[trigger] p2@[h]),
            child@ == cpart + p2@.take(i as int).filter(not_pred(critf)),
            forall|g: usize| #[trigger] critf(g) ==> g < n,
            forall|g: usize| #[trigger] cpart.contains(g) ==> critf(g),
            forall|g: usize| g < n && #[trigger] critf(g) ==> cpart.contains(g),
        decreases n - i,
    {
        let g = p2[i];
        let ghost fpart = p2@.take(i as int).filter(not_pred(critf));
        proof {
            lemma_not_in_take(p2@, i as int);
            assert(p2@.take(i as int + 1) =~= p2@.take(i as int).push(g));
            lemma_filter_push(p2@.take(i as int), g, not_pred(critf));
            lemma_filter_subset(p2@.take(i as int), not_pred(critf));
        }
        if !in_child[g] {
            proof {
                assert(not_pred(critf)(g)) by {
                    if critf(g) {
                        assert(cpart.contains(g));
                        let h = choose|h: int| 0 <= h < cpart.len() && #[trigger] cpart[h] == g;
                        assert(child@[h] == g);
                        assert(child@.contains(g));
                    }
                }
                crate::problem::lemma_push_contains(child@, g);
                crate::problem::lemma_push_no_dup(child@, g);
                assert((cpart + fpart).push(g) =~= cpart + fpart.push(g));
            }
            child.push(g);
            in_child[g] = true;
        } else {
            proof {
                assert(critf(g)) by {
                    assert(child@.contains(g));
                    let h = choose|h: int| 0 <= h < child@.len() && #[trigger] child@[h] == g;
                    if h < cpart.len() {
                        assert(cpart[h] == g);
                        assert(cpart.contains(g));
                    } else {
                        assert(fpart[h - cpart.len()] == g);
                        assert(fpart.contains(g));
                        assert(p2@.take(i as int).contains(g));
                    }
                }
            }
        }
        i = i + 1;
    }
    proof {
        assert(p2@.take(n as int) =~= p2@);
        assert forall|v: usize| v < n implies child@.contains(v) by {
            lemma_perm_contains(p2@, problem.n as nat, v);
            let h = choose|h: int| 0 <= h < p2@.len() && #[trigger] p2@[h] == v;
        }
        lemma_distinct_cover_is_perm(child@, problem.n as nat);
        if !ssgs_ok(*problem, problem.prec(), p1@) {
            lemma_filter_all_true(p2@, not_pred(critf));
            assert(child@ == Seq::<usize>::empty() + p2@);
            assert(Seq::<usize>::empty() + p2@ =~= p2@);
        }
    }
    child
}

/// Relocating one entry of a permutation to another position leaves a
/// permutation.
proof fn lemma_relocate_perm(s: Seq<usize>, i: int, j: int, n: nat)
    requires
        is_permutation(s, n),
        0 <= i < s.len(),
        0 <= j <= s.len() - 1,
    ensures
        is_permutation(s.remove(i).insert(j, s[i]), n),
{
    let r = s.remove(i);
    let t = r.insert(j, s[i]);
    s.remove_ensures(i);
    r.insert_ensures(j, s[i]);
    assert(r.len() == s.len() - 1);
    assert(t.len() == s.len());
    assert forall|x: int| 0 <= x < r.len() implies #[trigger] r[x] == (if x < i {
        s[x]
    } else {
        s[x + 1]
    }) by {}
    assert forall|x: int| 0 <= x < t.len() implies #[trigger] t[x] == (if x < j {
        r[x]
    } else if x == j {
        s[i]
    } else {
        r[x - 1]
    }) by {}
    assert forall|x: int| 0 <= x < t.len() implies (#[trigger] t[x]) < n by {}
    assert forall|x: int, y: int| 0 <= x < y < t.len() implies t[x] != t[y] by {}
}

/// Bottleneck mutation: the activity with the latest finish time under the
/// schedule builder — the bottleneck, the smallest activity index winning
/// ties — is relocated to a uniformly random position; the other
/// activities keep their relative order.  An input whose schedule overruns
/// the horizon is returned unchanged.
#[verifier::loop_isolation(false)]
pub fn smart_mutation(problem: &Problem, chrom: &mut Vec<usize>)
    requires
        problem.wf(),
        problem.bounds_ok(),
        problem.n >= 1,
        is_permutation(old(chrom)@, problem.n as nat),
    ensures
        is_permutation(final(chrom)@, problem.n as nat),
        final(chrom)@.to_multiset() == old(chrom)@.to_multiset(),
        ssgs_ok(*problem, problem.prec(), old(chrom)@) ==> exists|np: int|
            0 <= np < problem.n && final(chrom)@ == old(chrom)@.remove(
                old(chrom)@.index_of(bottleneck_of(*problem, old(chrom)@)),
            ).insert(np, bottleneck_of(*problem, old(chrom)@)),
        !ssgs_ok(*problem, problem.prec(), old(chrom)@) ==> final(chrom)@ == old(chrom)@,
{
    let ghost input = chrom@;
    let n = problem.n;
    match serial_schedule(problem, chrom) {
        Result::Err(_) => {
            proof {
                lemma_perms_same_multiset(input, input, problem.n as nat);
            }
        },
        Result::Ok(sm) => {
            let start = sm.0;
            let ghost fseq = crate::schedule::ssgs_fins(*problem, problem.prec(), input);
            let mut worst: usize = 0;
            let mut maxf: usize = 0;
            let mut j: usize = 0;
            while j < n
                invariant
                    j <= n,
                    worst < n,
                    j == 0 ==> worst == 0 && maxf == 0,
                    j >= 1 ==> worst as int == argmax_fin(fseq, j as int) && maxf as int
                        == fseq[worst as int],
                decreases n - j,
            {
                proof {
                    assert(crate::schedule::ints_of(start@)[j as int] == start@[j as int] as int);
                    assert(fseq[j as int] <= problem.total_duration());
                    assert(fseq[j as int] == start@[j as int] + problem.durations@[j as int]);
                    assert(fseq[j as int] >= 0);
                }
                let f = start[j] + problem.durations[j];
                if f > maxf {
                    maxf = f;
                    worst = j;
                }
                j = j + 1;
            }
            proof {
                assert(worst as int == argmax_fin(fseq, n as int));
                assert(worst == bottleneck_of(*problem, input));
            }
            // the bottleneck's position in the chromosome
            let mut pos: usize = 0;
            proof {
                lemma_perm_contains(input, problem.n as nat, worst);
                let h = choose|h: int| 0 <= h < input.len() && #[trigger] input[h] == worst;
            }
            while chrom[pos] != worst
                invariant
                    0 <= pos < n,
                    chrom@ == input,
                    exists|h: int| pos <= h < n && input[h] == worst,
                decreases n - pos,
            {
                proof {
                    let h = choose|h: int| pos <= h < n && input[h] == worst;
                    assert(h > pos);
                }
                pos = pos + 1;
            }
            proof {
                assert(input.index_of(worst) == pos as int) by {
                    assert(input[pos as int] == worst);
                    assert(input.contains(worst));
                    let hx = input.index_of(worst);
                    assert(0 <= hx < input.len() && input[hx] == worst);
                    if hx != pos as int {
                        assert(input[hx] == input[pos as int]);
                    }
                }
            }
            let newpos = crate::rng::rand_below(n);
            let v = chrom.remove(pos);
            chrom.insert(newpos, v);
            proof {
                assert(chrom@ == input.remove(pos as int).insert(newpos as int, worst));
                lemma_relocate_perm(input, pos as int, newpos as int, problem.n as nat);
                lemma_perms_same_multiset(input, chrom@, problem.n as nat);
            }
        },
    }
}

/// The entries of a prefix whose positions carry the given mark, in their
/// original order.
pub open spec fn masked(s: Seq<usize>, mask: Seq<bool>, keep: bool) -> Seq<usize>
    decreases s.len(),
{
    if s.len() == 0 {
        Seq::<usize>::empty()
    } else {
        let rest = masked(s.drop_last(), mask, keep);
        if mask[s.len() - 1] == keep {
            rest.push(s.last())
        } else {
            rest
        }
    }
}

/// How many of the first `m` positions are marked.
pub open spec fn count_marked(mask: Seq<bool>, m: int) -> int
    decreases m,
{
    if m <= 0 {
        0
    } else {
        count_marked(mask, m - 1) + (if mask[m - 1] {
            1int
        } else {
            0int
        })
    }
}

/// Marking one unmarked position raises the count of every prefix that
/// covers it by one.
proof fn lemma_count_marked_update(mask: Seq<bool>, idx: int, m: int)
    requires
        0 <= idx < mask.len(),
        !mask[idx],
        m <= mask.len(),
    ensures
        count_marked(mask.update(idx, true), m) == count_marked(mask, m) + (if idx < m {
            1int
        } else {
            0int
        }),
    decreases m,
{
    if m > 0 {
        lemma_count_marked_update(mask, idx, m - 1);
    }
}

/// The marked and unmarked parts of a prefix partition it, and the marked
/// part is as long as the prefix's marked-position count.
proof fn lemma_masked_len(s: Seq<usize>, mask: Seq<bool>)
    ensures
        masked(s, mask, true).len() + masked(s, mask, false).len() == s.len(),
        masked(s, mask, true).len() == count_marked(mask, s.len() as int),
    decreases s.len(),
{
    if s.len() > 0 {
        lemma_masked_len(s.drop_last(), mask);
    }
}

/// Destroy-rebuild: a uniformly random set of `nremove` positions is
/// removed; the kept activities retain their relative order and the removed
/// ones are appended in a freshly randomized order.  The multiset of
/// activities is preserved, and for some mark of exactly `nremove`
/// positions the result is the unmarked entries in order followed by the
/// marked entries in some order; the result is not necessarily
/// precedence-feasible and must pass through repair before fitness
/// evaluation.
#[verifier::loop_isolation(false)]
pub fn lns(chrom: &Vec<usize>, nremove: usize) -> (r: Vec<usize>)
    requires
        nremove <= chrom@.len(),
    ensures
        r@.to_multiset() == chrom@.to_multiset(),
        r@.len() == chrom@.len(),
        exists|mask: Seq<bool>|
            #![auto]
            mask.len() == chrom@.len() && masked(chrom@, mask, true).len() == nremove && r@.take(
                masked(chrom@, mask, false).len() as int,
            ) == masked(chrom@, mask, false) && r@.skip(
                masked(chrom@, mask, false).len() as int,
            ).to_multiset() == masked(chrom@, mask, true).to_multiset(),
{
    broadcast use vstd::seq_lib::group_to_multiset_ensures;

    let len = chrom.len();
    let mut indices: Vec<usize> = Vec::new();
    let mut i: usize = 0;
    while i < len
        invariant
            i <= len,
            indices@.len() == i,
            forall|x: int| 0 <= x < i ==> #[trigger] indices@[x] as int == x,
        decreases len - i,
    {
        indices.push(i);
        i = i + 1;
    }
    proof {
        assert(is_permutation(indices@, len as nat)) by {
            assert forall|i1: int, i2: int|
                0 <= i1 < i2 < indices@.len() implies indices@[i1] != indices@[i2] by {}
        }
    }
    let ghost idbefore = indices@;
    crate::rng::shuffle(&mut indices);
    proof {
        lemma_multiset_perm(idbefore, indices@, len as nat);
    }
    let mut is_removed = false_vec(len);
    proof {
        assert(count_marked(is_removed@, len as int) == 0) by {
            lemma_count_marked_zero(is_removed@, len as int);
        }
    }
    let mut i: usize = 0;
    while i < nremove
        invariant
            i <= nremove,
            is_removed@.len() == len,
            count_marked(is_removed@, len as int) == i,
            forall|x: int|
                0 <= x < len ==> (#[trigger] is_removed@[x] == indices@.take(i as int).contains(
                    x as usize,
                )),
        decreases nremove - i,
    {
        let ix = indices[i];
        proof {
            lemma_not_in_take(indices@, i as int);
            assert(!is_removed@[ix as int]);
            lemma_count_marked_update(is_removed@, ix as int, len as int);
            assert(indices@.take(i as int + 1) =~= indices@.take(i as int).push(ix));
            crate::problem::lemma_push_contains(indices@.take(i as int), ix);
        }
        is_removed[ix] = true;
        i = i + 1;
    }
    let ghost mask = is_removed@;
    let mut kept: Vec<usize> = Vec::new();
    let mut removed: Vec<usize> = Vec::new();
    let mut i: usize = 0;
    while i < len
        invariant
            i <= len,
            kept@.to_multiset().add(removed@.to_multiset()) == chrom@.take(i as int).to_multiset(),
            kept@.len() + removed@.len() == i,
            kept@ == masked(chrom@.take(i as int), mask, false),
            removed@ == masked(chrom@.take(i as int), mask, true),
        decreases len - i,
    {
        let val = chrom[i];
        proof {
            assert(chrom@.take(i as int + 1) =~= chrom@.take(i as int).push(val));
            assert(chrom@.take(i as int + 1).drop_last() == chrom@.take(i as int)) by {
                assert(chrom@.take(i as int + 1).drop_last() =~= chrom@.take(i as int));
            }
            assert(chrom@.take(i as int + 1).last() == val);
            assert(mask[i as int] == is_removed@[i as int]);
        }
        if is_removed[i] {
            let ghost rpre = removed@;
            removed.push(val);
            proof {
                assert(kept@.to_multiset().add(rpre.to_multiset().insert(val))
                    =~= kept@.to_multiset().add(rpre.to_multiset()).insert(val));
            }
        } else {
            let ghost kpre = kept@;
            kept.push(val);
            proof {
                assert(kpre.to_multiset().insert(val).add(removed@.to_multiset())
                    =~= kpre.to_multiset().add(removed@.to_multiset()).insert(val));
            }
        }
        i = i + 1;
    }
    proof {
        assert(chrom@.take(len as int) =~= chrom@);
    }
    let ghost rbefore = removed@;
    crate::rng::shuffle(&mut removed);
    let ghost rafter = removed@;
    let ghost kbase = kept@;
    let mut i: usize = 0;
    while i < removed.len()
        invariant
            i <= removed@.len(),
            removed@ == rafter,
            kept@ =~= kbase + rafter.take(i as int),
        decreases removed@.len() - i,
    {
        let v2 = removed[i];
        kept.push(v2);
        proof {
            assert(rafter.take(i as int + 1) =~= rafter.take(i as int).push(v2));
            assert(kept@ =~= kbase + rafter.take(i as int + 1));
        }
        i = i + 1;
    }
    proof {
        assert(rafter.take(rafter.len() as int) =~= rafter);
        assert(kept@ == kbase + rafter);
        vstd::seq_lib::lemma_multiset_commutative(kbase, rafter);
        assert(kept@.to_multiset() =~= chrom@.to_multiset());
        assert(rafter.len() == rbefore.len()) by {
            assert(rafter.to_multiset().len() == rbefore.to_multiset().len());
        }
        assert(kbase == masked(chrom@, mask, false) && rbefore == masked(chrom@, mask, true));
        lemma_masked_len(chrom@, mask);
        assert(masked(chrom@, mask, true).len() == nremove);
        assert(kept@.take(kbase.len() as int) == kbase) by {
            assert(kept@.take(kbase.len() as int) =~= kbase);
        }
        assert(kept@.skip(kbase.len() as int) == rafter) by {
            assert(kept@.skip(kbase.len() as int) =~= rafter);
        }
        assert(mask.len() == chrom@.len() && masked(chrom@, mask, true).len() == nremove && kept@
            .take(masked(chrom@, mask, false).len() as int) == masked(chrom@, mask, false) && kept@
            .skip(masked(chrom@, mask, false).len() as int).to_multiset() == masked(
            chrom@,
            mask,
            true,
        ).to_multiset());
    }
    kept
}

/// An all-false mask marks nothing.
proof fn lemma_count_marked_zero(mask: Seq<bool>, m: int)
    requires
        forall|x: int| 0 <= x < mask.len() ==> !(#[trigger] mask[x]),
        m <= mask.len(),
    ensures
        count_marked(mask, m) == 0,
    decreases m,
{
    if m > 0 {
        lemma_count_marked_zero(mask, m - 1);
    }
}

} // verus!
