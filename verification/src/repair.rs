//! Topological repair: maps an arbitrary permutation to a
//! precedence-feasible permutation that stays maximally faithful to the
//! input order.  A Kahn-style elimination repeatedly takes, among the
//! activities whose predecessors are all placed, the one whose position in
//! the input permutation is earliest.
//!
//! An already-feasible permutation is returned unchanged, and on an acyclic
//! instance the result is always a precedence-feasible permutation.

use vstd::prelude::*;

use crate::problem::{
    acyclic, is_permutation, lemma_distinct_below_len, lemma_distinct_cover_is_perm,
    lemma_multiset_perm, lemma_push_contains, lemma_push_no_dup, placed_before,
    precedence_feasible, Problem,
};

verus! {

/// How many of the first `q` predecessors of `j` are not yet placed.
pub open spec fn unresolved_upto(prec: Seq<Vec<usize>>, j: int, placed: Seq<usize>, q: int) -> int
    decreases q,
{
    if q <= 0 {
        0
    } else {
        unresolved_upto(prec, j, placed, q - 1) + (if placed.contains(prec[j]@[q - 1]) {
            0int
        } else {
            1int
        })
    }
}

/// How many predecessors of `j` are not yet placed.
pub open spec fn unresolved(prec: Seq<Vec<usize>>, j: int, placed: Seq<usize>) -> int {
    unresolved_upto(prec, j, placed, prec[j]@.len() as int)
}

/// With no activity placed, every predecessor is unresolved.
proof fn lemma_unresolved_empty(prec: Seq<Vec<usize>>, j: int, q: int)
    ensures
        unresolved_upto(prec, j, Seq::<usize>::empty(), q) == (if q <= 0 {
            0int
        } else {
            q
        }),
    decreases q,
{
    if q > 0 {
        lemma_unresolved_empty(prec, j, q - 1);
        assert(!Seq::<usize>::empty().contains(prec[j]@[q - 1]));
    }
}

/// No unresolved predecessor means every predecessor is placed, and
/// conversely.
proof fn lemma_unresolved_zero(prec: Seq<Vec<usize>>, j: int, placed: Seq<usize>, q: int)
    requires
        0 <= q,
        unresolved_upto(prec, j, placed, q) == 0,
    ensures
        forall|q0: int| 0 <= q0 < q ==> placed.contains(#[trigger] prec[j]@[q0]),
    decreases q,
{
    if q > 0 {
        assert(unresolved_upto(prec, j, placed, q - 1) >= 0) by {
            lemma_unresolved_nonneg(prec, j, placed, q - 1);
        }
        lemma_unresolved_zero(prec, j, placed, q - 1);
    }
}

/// The unresolved count is never negative.
proof fn lemma_unresolved_nonneg(prec: Seq<Vec<usize>>, j: int, placed: Seq<usize>, q: int)
    ensures
        unresolved_upto(prec, j, placed, q) >= 0,
    decreases q,
{
    if q > 0 {
        lemma_unresolved_nonneg(prec, j, placed, q - 1);
    }
}

/// Every placed predecessor means no unresolved predecessor.
proof fn lemma_unresolved_all_placed(prec: Seq<Vec<usize>>, j: int, placed: Seq<usize>, q: int)
    requires
        forall|q0: int| 0 <= q0 < q ==> placed.contains(#[trigger] prec[j]@[q0]),
    ensures
        unresolved_upto(prec, j, placed, q) == 0,
    decreases q,
{
    if q > 0 {
        lemma_unresolved_all_placed(prec, j, placed, q - 1);
    }
}

/// An unplaced predecessor keeps the unresolved count positive.
proof fn lemma_unresolved_pos(prec: Seq<Vec<usize>>, j: int, placed: Seq<usize>, q: int, q0: int)
    requires
        0 <= q0 < q,
        !placed.contains(prec[j]@[q0]),
    ensures
        unresolved_upto(prec, j, placed, q) >= 1,
    decreases q,
{
    lemma_unresolved_nonneg(prec, j, placed, q - 1);
    if q0 < q - 1 {
        lemma_unresolved_pos(prec, j, placed, q - 1, q0);
    }
}

/// Placing one new activity lowers the unresolved count of `j` by one when
/// it is a predecessor of `j` and leaves it unchanged otherwise (the
/// predecessor list of `j` holding no duplicates).
proof fn lemma_unresolved_push(
    prec: Seq<Vec<usize>>,
    j: int,
    placed: Seq<usize>,
    u: usize,
    q: int,
)
    requires
        0 <= q <= prec[j]@.len(),
        prec[j]@.no_duplicates(),
        !placed.contains(u),
    ensures
        unresolved_upto(prec, j, placed.push(u), q) == unresolved_upto(prec, j, placed, q) - (
        if prec[j]@.take(q).contains(u) {
            1int
        } else {
            0int
        }),
    decreases q,
{
    if q > 0 {
        lemma_unresolved_push(prec, j, placed, u, q - 1);
        let pd = prec[j]@[q - 1];
        assert(placed.push(u).contains(pd) == (placed.contains(pd) || pd == u)) by {
            assert(placed.push(u)[placed.len() as int] == u);
            if placed.contains(pd) {
                let h = choose|h: int| 0 <= h < placed.len() && #[trigger] placed[h] == pd;
                assert(placed.push(u)[h] == pd);
            }
            if placed.push(u).contains(pd) && pd != u {
                let h = choose|h: int|
                    0 <= h < placed.push(u).len() && #[trigger] placed.push(u)[h] == pd;
                assert(h < placed.len());
                assert(placed[h] == pd);
            }
        }
        assert(prec[j]@.take(q) =~= prec[j]@.take(q - 1).push(pd));
        assert forall|v: usize| #[trigger] prec[j]@.take(q).contains(v) implies prec[j]@.take(
            q - 1,
        ).contains(v) || v == pd by {
            let h = choose|h: int| 0 <= h < q && #[trigger] prec[j]@.take(q)[h] == v;
            if h < q - 1 {
                assert(prec[j]@.take(q - 1)[h] == v);
            }
        }
        assert forall|v: usize| prec[j]@.take(q - 1).contains(v) implies #[trigger] prec[j]@.take(
            q,
        ).contains(v) by {
            let h = choose|h: int| 0 <= h < q - 1 && #[trigger] prec[j]@.take(q - 1)[h] == v;
            assert(prec[j]@.take(q)[h] == v);
        }
        if pd == u {
            assert(!prec[j]@.take(q - 1).contains(u)) by {
                if prec[j]@.take(q - 1).contains(u) {
                    let h = choose|h: int|
                        0 <= h < q - 1 && #[trigger] prec[j]@.take(q - 1)[h] == u;
                    assert(prec[j]@[h] == prec[j]@[q - 1]);
                }
            }
            assert(prec[j]@.take(q).contains(u)) by {
                assert(prec[j]@.take(q)[q - 1] == pd);
            }
            assert(placed.push(u).contains(pd));
        } else {
            assert(prec[j]@.take(q).contains(u) == prec[j]@.take(q - 1).contains(u));
            assert(placed.push(u).contains(pd) == placed.contains(pd));
        }
    }
}

/// Removing one entry of a duplicate-free sequence keeps it duplicate-free
/// and removes exactly that entry's value.
proof fn lemma_remove_props(s: Seq<usize>, i: int)
    requires
        s.no_duplicates(),
        0 <= i < s.len(),
    ensures
        s.remove(i).no_duplicates(),
        forall|v: usize| s.remove(i).contains(v) <==> (s.contains(v) && v != s[i]),
{
    let r = s.remove(i);
    assert(r.len() == s.len() - 1);
    assert forall|x: int| 0 <= x < r.len() implies #[trigger] r[x] == (if x < i {
        s[x]
    } else {
        s[x + 1]
    }) by {}
    assert forall|v: usize| #[trigger] r.contains(v) implies s.contains(v) && v != s[i] by {
        let h = choose|h: int| 0 <= h < r.len() && r[h] == v;
        if h < i {
            assert(s[h] == v);
        } else {
            assert(s[h + 1] == v);
        }
    }
    assert forall|v: usize| s.contains(v) && v != s[i] implies #[trigger] r.contains(v) by {
        let h = choose|h: int| 0 <= h < s.len() && s[h] == v;
        if h < i {
            assert(r[h] == v);
        } else {
            assert(h > i);
            assert(r[h - 1] == v);
        }
    }
}

/// Counts the integers below `m` satisfying `f`.
pub open spec fn count_upto(f: spec_fn(int) -> bool, m: int) -> int
    decreases m,
{
    if m <= 0 {
        0
    } else {
        count_upto(f, m - 1) + (if f(m - 1) {
            1int
        } else {
            0int
        })
    }
}

proof fn lemma_count_nonneg(f: spec_fn(int) -> bool, m: int)
    ensures
        count_upto(f, m) >= 0,
    decreases m,
{
    if m > 0 {
        lemma_count_nonneg(f, m - 1);
    }
}

/// A pointwise-stronger predicate, strictly weaker at one witness, has a
/// strictly smaller count.
proof fn lemma_count_lt(f: spec_fn(int) -> bool, g: spec_fn(int) -> bool, m: int, w: int)
    requires
        forall|x: int| 0 <= x < m && #[trigger] f(x) ==> g(x),
        0 <= w < m,
        g(w),
        !f(w),
    ensures
        count_upto(f, m) < count_upto(g, m),
    decreases m,
{
    if w == m - 1 {
        lemma_count_le(f, g, m - 1);
    } else {
        lemma_count_lt(f, g, m - 1, w);
    }
}

proof fn lemma_count_le(f: spec_fn(int) -> bool, g: spec_fn(int) -> bool, m: int)
    requires
        forall|x: int| 0 <= x < m && #[trigger] f(x) ==> g(x),
    ensures
        count_upto(f, m) <= count_upto(g, m),
    decreases m,
{
    if m > 0 {
        lemma_count_le(f, g, m - 1);
    }
}

/// The unplaced activities with a rank strictly below that of `v`.
pub open spec fn smaller_unplaced(rank: Seq<int>, placed: Seq<usize>, n: nat, v: usize) -> spec_fn(
    int,
) -> bool {
    |w: int| 0 <= w < n && !placed.contains(w as usize) && rank[w] < rank[v as int]
}

/// Among the unplaced activities there is one of minimal rank.
proof fn lemma_exists_min_unplaced(rank: Seq<int>, placed: Seq<usize>, n: nat, v: usize)
    requires
        rank.len() == n,
        v < n,
        !placed.contains(v),
    ensures
        exists|m: usize|
            m < n && !placed.contains(m) && (forall|w: usize|
                w < n && !placed.contains(w) ==> rank[m as int] <= rank[w as int]),
    decreases count_upto(smaller_unplaced(rank, placed, n, v), n as int),
{
    if exists|w: usize| w < n && !placed.contains(w) && rank[w as int] < rank[v as int] {
        let w = choose|w: usize| w < n && !placed.contains(w) && rank[w as int] < rank[v as int];
        let fv = smaller_unplaced(rank, placed, n, v);
        let fw = smaller_unplaced(rank, placed, n, w);
        assert forall|x: int| 0 <= x < n && #[trigger] fw(x) implies fv(x) by {}
        lemma_count_nonneg(fw, n as int);
        lemma_count_lt(fw, fv, n as int, w as int);
        lemma_exists_min_unplaced(rank, placed, n, w);
    } else {
        assert(v < n && !placed.contains(v) && (forall|w: usize|
            w < n && !placed.contains(w) ==> rank[v as int] <= rank[w as int]));
    }
}

/// Restores precedence feasibility of an arbitrary permutation by a
/// Kahn-style elimination: among the activities whose predecessors are all
/// placed, the one whose position in the input permutation is earliest is
/// appended next.  The result is always a precedence-feasible permutation;
/// each output position takes, among the activities then eligible, the one
/// earliest in the input; and an input that is already feasible is
/// returned unchanged.
#[verifier::loop_isolation(false)]
#[verifier::rlimit(100)]
pub fn repair_topological_sort(problem: &Problem, chrom: &mut Vec<usize>)
    requires
        problem.wf(),
        acyclic(problem.prec()),
        is_permutation(old(chrom)@, problem.n as nat),
    ensures
        is_permutation(final(chrom)@, problem.n as nat),
        precedence_feasible(final(chrom)@, problem.prec()),
        precedence_feasible(old(chrom)@, problem.prec()) ==> final(chrom)@ == old(chrom)@,
        forall|i: int, w: usize|
            0 <= i < final(chrom)@.len() && w < problem.n && !final(chrom)@.take(i).contains(w)
                && #[trigger] unresolved(problem.prec(), w as int, final(chrom)@.take(i)) == 0
                ==> old(chrom)@.index_of(final(chrom)@[i]) <= old(chrom)@.index_of(w),
{
    let ghost input = chrom@;
    let ghost prec0 = problem.prec();
    let ghost rank = choose|rank: Seq<int>|
        rank.len() == prec0.len() && (forall|j2: int, q: int|
            0 <= j2 < prec0.len() && 0 <= q < prec0[j2]@.len() ==> rank[#[trigger] prec0[j2]@[q]
                as int] < rank[j2]);
    let n = problem.n;
    proof {
        assert forall|j2: int, q: int|
            0 <= j2 < n && 0 <= q < prec0[j2]@.len() implies (#[trigger] prec0[j2]@[q]) as int
            != j2 by {
            if prec0[j2]@[q] as int == j2 {
                assert(rank[j2] < rank[j2]);
            }
        }
    }
    // successor lists and unresolved-predecessor counts
    let mut adj: Vec<Vec<usize>> = Vec::new();
    let mut x0: usize = 0;
    while x0 < n
        invariant
            x0 <= n,
            adj@.len() == x0,
            forall|pz: int| 0 <= pz < x0 ==> (#[trigger] adj@[pz])@.len() == 0,
        decreases n - x0,
    {
        adj.push(Vec::new());
        x0 = x0 + 1;
    }
    let mut in_degree = crate::schedule::zero_vec(n);
    let mut j: usize = 0;
    while j < n
        invariant
            j <= n,
            adj@.len() == n,
            in_degree@.len() == n,
            forall|s: int| 0 <= s < j ==> #[trigger] in_degree@[s] as int == prec0[s]@.len(),
            forall|s: int| j <= s < n ==> #[trigger] in_degree@[s] == 0,
            forall|pz: int| 0 <= pz < n ==> (#[trigger] adj@[pz])@.no_duplicates(),
            forall|pz: int, s: usize|
                0 <= pz < n ==> ((#[trigger] adj@[pz]@.contains(s)) <==> ((s as int) < j && s < n
                    && prec0[s as int]@.contains(pz as usize))),
        decreases n - j,
    {
        let nq = problem.precedences[j].len();
        let mut q: usize = 0;
        while q < nq
            invariant
                q <= nq,
                adj@.len() == n,
                in_degree@.len() == n,
                forall|s: int| 0 <= s < j ==> #[trigger] in_degree@[s] as int == prec0[s]@.len(),
                in_degree@[j as int] as int == q,
                forall|s: int| j < s < n ==> #[trigger] in_degree@[s] == 0,
                forall|pz: int| 0 <= pz < n ==> (#[trigger] adj@[pz])@.no_duplicates(),
                forall|pz: int, s: usize|
                    0 <= pz < n ==> ((#[trigger] adj@[pz]@.contains(s)) <==> (((s as int) < j && s
                        < n && prec0[s as int]@.contains(pz as usize)) || (s as int == j && prec0[
                    j as int]@.take(q as int).contains(pz as usize)))),
            decreases nq - q,
        {
            let pd = problem.precedences[j][q];
            let ghost adj_pre = adj@;
            let ghost row_pre = adj@[pd as int]@;
            let row = &mut adj[pd];
            row.push(j);
            let d = in_degree[j];
            in_degree[j] = d + 1;
            proof {
                lemma_push_contains(row_pre, j);
                assert(!row_pre.contains(j)) by {
                    assert(!prec0[j as int]@.take(q as int).contains(pd)) by {
                        if prec0[j as int]@.take(q as int).contains(pd) {
                            let h = choose|h: int|
                                0 <= h < q && #[trigger] prec0[j as int]@.take(q as int)[h] == pd;
                            assert(prec0[j as int]@[h] == prec0[j as int]@[q as int]);
                        }
                    }
                }
                lemma_push_no_dup(row_pre, j);
                assert(prec0[j as int]@.take(q as int + 1) =~= prec0[j as int]@.take(
                    q as int,
                ).push(pd));
                lemma_push_contains(prec0[j as int]@.take(q as int), pd);
                assert(prec0[j as int]@.take(q as int + 1).contains(pd));
                assert forall|pz: int, s: usize|
                    0 <= pz < n implies ((#[trigger] adj@[pz]@.contains(s)) <==> (((s as int) < j
                        && s < n && prec0[s as int]@.contains(pz as usize)) || (s as int == j
                        && prec0[j as int]@.take(q as int + 1).contains(pz as usize)))) by {
                    if pz != pd as int {
                        assert(adj@[pz] == adj_pre[pz]);
                        assert(prec0[j as int]@.take(q as int + 1).contains(pz as usize) == prec0[
                        j as int]@.take(q as int).contains(pz as usize));
                    } else {
                        assert(adj@[pz]@ == row_pre.push(j));
                    }
                }
            }
            q = q + 1;
        }
        proof {
            assert(prec0[j as int]@.take(nq as int) =~= prec0[j as int]@);
        }
        j = j + 1;
    }
    // activities with no unresolved predecessor
    let mut ready: Vec<usize> = Vec::new();
    let mut v: usize = 0;
    while v < n
        invariant
            v <= n,
            ready@.no_duplicates(),
            forall|h: int| 0 <= h < ready@.len() ==> (#[trigger] ready@[h]) < v,
            forall|s: usize| s < v ==> (#[trigger] ready@.contains(s) <==> in_degree@[s as int] == 0),
            forall|s: usize| v <= s ==> !(#[trigger] ready@.contains(s)),
        decreases n - v,
    {
        proof {
            lemma_push_contains(ready@, v);
            if ready@.contains(v) {
                let h = choose|h: int| 0 <= h < ready@.len() && #[trigger] ready@[h] == v;
            }
            lemma_push_no_dup(ready@, v);
        }
        if in_degree[v] == 0 {
            ready.push(v);
        }
        v = v + 1;
    }
    // position of each activity in the input permutation
    let mut chrom_pos = crate::schedule::zero_vec(n);
    let mut idx: usize = 0;
    while idx < n
        invariant
            idx <= n,
            chrom_pos@.len() == n,
            forall|h: int| 0 <= h < idx ==> #[trigger] chrom_pos@[input[h] as int] as int == h,
        decreases n - idx,
    {
        let cv = chrom[idx];
        chrom_pos[cv] = idx;
        proof {
            assert forall|h: int|
                0 <= h < idx + 1 implies #[trigger] chrom_pos@[input[h] as int] as int == h by {
                if h < idx {
                    assert(input[h] != input[idx as int]);
                }
            }
        }
        idx = idx + 1;
    }
    proof {
        assert forall|w: usize| w < n implies input[#[trigger] chrom_pos@[w as int] as int]
            == w by {
            crate::problem::lemma_perm_contains(input, n as nat, w);
            let h = choose|h: int| 0 <= h < input.len() && #[trigger] input[h] == w;
            assert(chrom_pos@[input[h] as int] as int == h);
        }
        assert forall|w: usize| w < n implies chrom_pos@[w as int] as int == #[trigger] input
            .index_of(w) by {
            crate::problem::lemma_perm_contains(input, n as nat, w);
            let hx = input.index_of(w);
            assert(0 <= hx < input.len() && input[hx] == w);
            assert(input[chrom_pos@[w as int] as int] == w);
            if hx != chrom_pos@[w as int] as int {
                assert(input[hx] == input[chrom_pos@[w as int] as int]);
            }
        }
        assert forall|s: usize| s < n implies (unresolved(prec0, s as int, Seq::<usize>::empty())
            == prec0[s as int]@.len()) by {
            lemma_unresolved_empty(prec0, s as int, prec0[s as int]@.len() as int);
        }
    }
    // Kahn elimination
    let mut repaired: Vec<usize> = Vec::new();
    proof {
        assert(repaired@ =~= input.take(0));
    }
    while ready.len() > 0
        invariant
            repaired@.no_duplicates(),
            forall|h: int| 0 <= h < repaired@.len() ==> (#[trigger] repaired@[h]) < n,
            repaired@.len() <= n,
            ready@.no_duplicates(),
            forall|h: int| 0 <= h < ready@.len() ==> (#[trigger] ready@[h]) < n,
            forall|w: usize| #[trigger] ready@.contains(w) ==> !repaired@.contains(w),
            forall|s: int| 0 <= s < n ==> #[trigger] in_degree@[s] as int == unresolved(
                prec0,
                s,
                repaired@,
            ),
            forall|s: usize|
                s < n ==> (#[trigger] ready@.contains(s) <==> (!repaired@.contains(s) && unresolved(
                    prec0,
                    s as int,
                    repaired@,
                ) == 0)),
            precedence_feasible(repaired@, prec0),
            in_degree@.len() == n,
            precedence_feasible(input, prec0) ==> repaired@ == input.take(repaired@.len() as int),
            forall|i0: int, w: usize|
                0 <= i0 < repaired@.len() && w < n && !repaired@.take(i0).contains(w)
                    && #[trigger] unresolved(prec0, w as int, repaired@.take(i0)) == 0
                    ==> input.index_of(repaired@[i0]) <= input.index_of(w),
        decreases n - repaired@.len(),
    {
        // the ready activity earliest in the input permutation
        let mut best: usize = 0;
        let mut bi: usize = 1;
        while bi < ready.len()
            invariant
                best < ready@.len(),
                bi <= ready@.len(),
                forall|h: int|
                    0 <= h < bi ==> chrom_pos@[ready@[best as int] as int] <= chrom_pos@[(
                    #[trigger] ready@[h]) as int],
            decreases ready@.len() - bi,
        {
            let rb = ready[bi];
            let rbest = ready[best];
            if chrom_pos[rb] < chrom_pos[rbest] {
                best = bi;
            }
            bi = bi + 1;
        }
        let ghost ready_pre = ready@;
        let ghost placed_old = repaired@;
        let u = ready.remove(best);
        repaired.push(u);
        proof {
            lemma_remove_props(ready_pre, best as int);
            assert(ready_pre.contains(u)) by {
                assert(ready_pre[best as int] == u);
            }
            assert(u < n);
            assert(!placed_old.contains(u));
            lemma_push_contains(placed_old, u);
            lemma_push_no_dup(placed_old, u);
            assert forall|h: int|
                0 <= h < repaired@.len() implies (#[trigger] repaired@[h]) < n by {
                if h < placed_old.len() {
                    assert(repaired@[h] == placed_old[h]);
                }
            }
            lemma_distinct_below_len(repaired@, n as nat);
            lemma_unresolved_zero(prec0, u as int, placed_old, prec0[u as int]@.len() as int);
            // each output position takes the eligible activity earliest in
            // the input
            assert forall|i0: int, w: usize|
                0 <= i0 < repaired@.len() && w < n && !repaired@.take(i0).contains(w)
                    && #[trigger] unresolved(prec0, w as int, repaired@.take(i0)) == 0
                    implies input.index_of(repaired@[i0]) <= input.index_of(w) by {
                if i0 < placed_old.len() {
                    assert(repaired@.take(i0) =~= placed_old.take(i0));
                    assert(repaired@[i0] == placed_old[i0]);
                } else {
                    assert(repaired@.take(i0) =~= placed_old);
                    assert(repaired@[i0] == u);
                    assert(ready_pre.contains(w));
                    let hw = choose|hw: int|
                        0 <= hw < ready_pre.len() && #[trigger] ready_pre[hw] == w;
                    assert(chrom_pos@[u as int] <= chrom_pos@[w as int]);
                }
            }
            // the new element's predecessors are all placed earlier
            assert forall|i2: int, q: int|
                0 <= i2 < repaired@.len() && 0 <= repaired@[i2] < prec0.len() && 0 <= q < prec0[
                repaired@[i2] as int]@.len() implies #[trigger] placed_before(
                repaired@,
                prec0,
                i2,
                q,
            ) by {
                let pd = prec0[repaired@[i2] as int]@[q];
                if i2 < placed_old.len() {
                    assert(placed_old[i2] == repaired@[i2]);
                    assert(placed_before(placed_old, prec0, i2, q));
                    let h = choose|h: int|
                        0 <= h < i2 && placed_old[h] == prec0[placed_old[i2] as int]@[q];
                    assert(repaired@[h] == pd);
                } else {
                    assert(repaired@[i2] == u);
                    assert(placed_old.contains(pd));
                    let h = choose|h: int|
                        0 <= h < placed_old.len() && #[trigger] placed_old[h] == pd;
                    assert(repaired@[h] == pd);
                }
            }
            // an input that is already feasible is reproduced element by
            // element: the tie-break picks exactly the next input entry
            if precedence_feasible(input, prec0) {
                let k = placed_old.len() as int;
                assert(placed_old == input.take(k));
                assert(k < n) by {
                    lemma_distinct_below_len(placed_old.push(u), n as nat);
                }
                let nxt = input[k];
                assert(nxt < n);
                assert(!placed_old.contains(nxt)) by {
                    crate::schedule::lemma_not_in_take(input, k);
                }
                assert(unresolved(prec0, nxt as int, placed_old) == 0) by {
                    assert forall|q: int|
                        0 <= q < prec0[nxt as int]@.len() implies placed_old.contains(
                        #[trigger] prec0[nxt as int]@[q],
                    ) by {
                        assert(input[k] == nxt);
                        assert(placed_before(input, prec0, k, q));
                        let h = choose|h: int|
                            0 <= h < k && input[h] == prec0[input[k] as int]@[q];
                        assert(input.take(k)[h] == prec0[nxt as int]@[q]);
                    }
                    lemma_unresolved_all_placed(
                        prec0,
                        nxt as int,
                        placed_old,
                        prec0[nxt as int]@.len() as int,
                    );
                }
                assert(ready_pre.contains(nxt));
                let hn = choose|h: int| 0 <= h < ready_pre.len() && #[trigger] ready_pre[h] == nxt;
                assert(chrom_pos@[u as int] <= chrom_pos@[nxt as int]);
                assert(chrom_pos@[nxt as int] as int == k);
                let hu = chrom_pos@[u as int] as int;
                assert(input[hu] == u);
                assert(hu >= k) by {
                    if hu < k {
                        assert(input.take(k)[hu] == u);
                        assert(placed_old.contains(u));
                    }
                }
                assert(u == nxt);
                assert(repaired@ =~= input.take(k + 1));
            }
        }
        // resolve the removed activity's outgoing edges
        let ghost placed_new = repaired@;
        proof {
            assert(adj@[u as int]@.take(0) =~= Seq::<usize>::empty());
            assert(precedence_feasible(repaired@, prec0));
            assert(ready@ == ready_pre.remove(best as int));
            assert(placed_new == placed_old.push(u));
            assert forall|w: usize| #[trigger] ready@.contains(w) implies !placed_new.contains(
                w,
            ) by {
                assert(ready_pre.contains(w) && w != u);
                assert(!placed_old.contains(w));
            }
            assert forall|s: usize|
                s < n implies (#[trigger] ready@.contains(s) <==> (!placed_new.contains(s) && (
                !placed_old.contains(s) && unresolved(prec0, s as int, placed_old) == 0 && s
                    != u))) by {
                if ready@.contains(s) {
                    assert(ready_pre.contains(s) && s != u);
                    assert(!placed_old.contains(s) && unresolved(prec0, s as int, placed_old)
                        == 0);
                }
                if !placed_new.contains(s) && !placed_old.contains(s) && unresolved(
                    prec0,
                    s as int,
                    placed_old,
                ) == 0 && s != u {
                    assert(ready_pre.contains(s));
                }
            }
        }
        let adeg = adj[u].len();
        let mut e: usize = 0;
        while e < adeg
            invariant
                e <= adeg,
                adeg == adj@[u as int]@.len(),
                in_degree@.len() == n,
                ready@.no_duplicates(),
                forall|h: int| 0 <= h < ready@.len() ==> (#[trigger] ready@[h]) < n,
                forall|w: usize| #[trigger] ready@.contains(w) ==> !placed_new.contains(w),
                forall|s: usize|
                    s < n && adj@[u as int]@.take(e as int).contains(s) ==> #[trigger] in_degree@[
                    s as int] as int == unresolved(prec0, s as int, placed_new),
                forall|s: usize|
                    s < n && !adj@[u as int]@.take(e as int).contains(s) ==> #[trigger] in_degree@[
                    s as int] as int == unresolved(prec0, s as int, placed_old),
                forall|s: usize|
                    s < n ==> (#[trigger] ready@.contains(s) <==> (!placed_new.contains(s) && (
                    if adj@[u as int]@.take(e as int).contains(s) {
                        unresolved(prec0, s as int, placed_new) == 0
                    } else {
                        !placed_old.contains(s) && unresolved(prec0, s as int, placed_old) == 0 && s
                            != u
                    }))),
            decreases adeg - e,
        {
            let s = adj[u][e];
            proof {
                assert(adj@[u as int]@.contains(s)) by {
                    assert(adj@[u as int]@[e as int] == s);
                }
                assert(s < n && prec0[s as int]@.contains(u));
                crate::schedule::lemma_not_in_take(adj@[u as int]@, e as int);
                assert(!adj@[u as int]@.take(e as int).contains(s));
                let q0 = choose|q0: int|
                    0 <= q0 < prec0[s as int]@.len() && #[trigger] prec0[s as int]@[q0] == u;
                lemma_unresolved_pos(prec0, s as int, placed_old, prec0[s as int]@.len() as int, q0);
                assert(!placed_new.contains(s)) by {
                    if placed_new.contains(s) {
                        if s == u {
                            assert(rank[u as int] < rank[u as int]);
                        } else {
                            assert(placed_old.contains(s));
                            let hs = choose|hs: int|
                                0 <= hs < placed_old.len() && #[trigger] placed_old[hs] == s;
                            assert(placed_before(placed_old, prec0, hs, q0));
                            let h = choose|h: int|
                                0 <= h < hs && placed_old[h] == prec0[placed_old[hs] as int]@[q0];
                            assert(placed_old.contains(u));
                        }
                    }
                }
                assert(prec0[s as int]@.take(prec0[s as int]@.len() as int) =~= prec0[s as int]@);
                lemma_unresolved_push(
                    prec0,
                    s as int,
                    placed_old,
                    u,
                    prec0[s as int]@.len() as int,
                );
                assert(adj@[u as int]@.take(e as int + 1) =~= adj@[u as int]@.take(e as int).push(
                    s,
                ));
                lemma_push_contains(adj@[u as int]@.take(e as int), s);
            }
            let d = in_degree[s];
            in_degree[s] = d - 1;
            if in_degree[s] == 0 {
                proof {
                    assert(!ready@.contains(s));
                    lemma_push_contains(ready@, s);
                    lemma_push_no_dup(ready@, s);
                }
                ready.push(s);
            }
            e = e + 1;
        }
        proof {
            assert(adj@[u as int]@.take(adeg as int) =~= adj@[u as int]@);
            assert forall|s: usize|
                s < n && !adj@[u as int]@.contains(s) implies unresolved(prec0, s as int, placed_new)
                == unresolved(prec0, s as int, placed_old) by {
                assert(!prec0[s as int]@.contains(u));
                assert(prec0[s as int]@.take(prec0[s as int]@.len() as int) =~= prec0[s as int]@);
                lemma_unresolved_push(
                    prec0,
                    s as int,
                    placed_old,
                    u,
                    prec0[s as int]@.len() as int,
                );
            }
            assert forall|s: usize|
                s < n implies (#[trigger] ready@.contains(s) <==> (!placed_new.contains(s)
                    && unresolved(prec0, s as int, placed_new) == 0)) by {
                if !adj@[u as int]@.contains(s) && s != u && !placed_old.contains(s) {
                    assert(unresolved(prec0, s as int, placed_new) == unresolved(
                        prec0,
                        s as int,
                        placed_old,
                    ));
                }
                if s == u {
                    assert(placed_new.contains(u));
                }
            }
        }
    }
    // the ready set drains only when everything is placed
    proof {
        if repaired@.len() < n {
            assert(exists|w: usize| w < n && !repaired@.contains(w)) by {
                if !(exists|w: usize| w < n && !repaired@.contains(w)) {
                    assert forall|w: usize| w < n implies repaired@.contains(w) by {}
                    lemma_distinct_cover_is_perm(repaired@, n as nat);
                }
            }
            let v0 = choose|w: usize| w < n && !repaired@.contains(w);
            lemma_exists_min_unplaced(rank, repaired@, n as nat, v0);
            let m = choose|m: usize|
                m < n && !repaired@.contains(m) && (forall|w: usize|
                    w < n && !repaired@.contains(w) ==> rank[m as int] <= rank[w as int]);
            assert forall|q: int|
                0 <= q < prec0[m as int]@.len() implies repaired@.contains(
                #[trigger] prec0[m as int]@[q],
            ) by {
                let pd = prec0[m as int]@[q];
                assert(rank[pd as int] < rank[m as int]);
                if !repaired@.contains(pd) {
                    assert(rank[m as int] <= rank[pd as int]);
                }
            }
            lemma_unresolved_all_placed(prec0, m as int, repaired@, prec0[m as int]@.len() as int);
            assert(ready@.contains(m));
            assert(false);
        }
        if precedence_feasible(input, prec0) {
            assert(input.take(n as int) =~= input);
        }
    }
    *chrom = repaired;
}

/// A freshly randomized precedence-feasible permutation: the identity
/// permutation is shuffled and then repaired.
pub(crate) fn random_topological_sort(problem: &Problem) -> (c: Vec<usize>)
    requires
        problem.wf(),
        acyclic(problem.prec()),
    ensures
        is_permutation(c@, problem.n as nat),
        precedence_feasible(c@, problem.prec()),
{
    let n = problem.n;
    let mut c: Vec<usize> = Vec::new();
    let mut i: usize = 0;
    while i < n
        invariant
            i <= n,
            c@.len() == i,
            forall|x: int| 0 <= x < i ==> #[trigger] c@[x] as int == x,
        decreases n - i,
    {
        c.push(i);
        i = i + 1;
    }
    proof {
        assert(is_permutation(c@, problem.n as nat)) by {
            assert forall|i1: int, i2: int| 0 <= i1 < i2 < c@.len() implies c@[i1] != c@[i2] by {}
        }
    }
    let ghost before = c@;
    crate::rng::shuffle(&mut c);
    proof {
        lemma_multiset_perm(before, c@, problem.n as nat);
    }
    repair_topological_sort(problem, &mut c);
    c
}

} // verus!
