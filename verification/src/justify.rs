//! Double justification: a local-search pass that compacts a feasible
//! schedule.  The activities are sorted by decreasing forward finish time,
//! scheduled against the reversed predecessor relation (a simulation from
//! the completion side), and sorted again by decreasing backward finish
//! time.  The result is a pure function of the problem and the chromosome;
//! callers must repair it and re-evaluate its fitness before accepting it.

use vstd::prelude::*;

use crate::operators::{copy_order, lemma_filter_push, lemma_perms_same_multiset, lemma_swap_perm};
use crate::problem::{is_permutation, lemma_push_contains, Problem};
use crate::schedule::{custom_ssgs, ints_of, ssgs_fins, ssgs_ok};

verus! {

/// The index of the entry with the largest key among positions `[lo, hi)`
/// of `items`, the earliest position winning ties.
pub open spec fn argmax_key(items: Seq<usize>, key: Seq<int>, lo: int, hi: int) -> int
    decreases hi - lo,
{
    if hi <= lo + 1 {
        lo
    } else {
        let prev = argmax_key(items, key, lo, hi - 1);
        if key[items[hi - 1] as int] > key[items[prev] as int] {
            hi - 1
        } else {
            prev
        }
    }
}

/// The chosen index always lies within the searched range.
proof fn lemma_argmax_key_range(items: Seq<usize>, key: Seq<int>, lo: int, hi: int)
    requires
        lo < hi,
    ensures
        lo <= argmax_key(items, key, lo, hi) < hi,
    decreases hi - lo,
{
    if hi > lo + 1 {
        lemma_argmax_key_range(items, key, lo, hi - 1);
    }
}

/// Selection sort by decreasing key from position `i` on: the remaining
/// entry with the largest key, the earliest position winning ties, is
/// swapped into each position in turn.
pub open spec fn spec_sel_sort(items: Seq<usize>, key: Seq<int>, i: int) -> Seq<usize>
    decreases items.len() - i,
        via spec_sel_sort_decreases
{
    if i < 0 || i + 1 >= items.len() {
        items
    } else {
        let m = argmax_key(items, key, i, items.len() as int);
        spec_sel_sort(items.update(i, items[m]).update(m, items[i]), key, i + 1)
    }
}

#[via_fn]
proof fn spec_sel_sort_decreases(items: Seq<usize>, key: Seq<int>, i: int) {
    if !(i < 0 || i + 1 >= items.len()) {
        lemma_argmax_key_range(items, key, i, items.len() as int);
    }
}

/// Sorts a permutation of `{0..n-1}` in place by decreasing key, where
/// `key[j]` is the key of activity `j`: the result is exactly the
/// specification-level selection sort of the input.
#[verifier::loop_isolation(false)]
pub(crate) fn sort_by_key_desc(items: &mut Vec<usize>, key: &Vec<usize>)
    requires
        is_permutation(old(items)@, key@.len() as nat),
    ensures
        is_permutation(final(items)@, key@.len() as nat),
        final(items)@ == spec_sel_sort(old(items)@, ints_of(key@), 0),
        forall|a: int, b: int|
            0 <= a < b < final(items)@.len() ==> key@[(#[trigger] final(items)@[a]) as int]
                >= key@[(#[trigger] final(items)@[b]) as int],
{
    let ghost n = key@.len() as nat;
    let ghost orig = items@;
    let ghost kseq = ints_of(key@);
    let len = items.len();
    let mut i: usize = 0;
    while i < len
        invariant
            i <= len,
            items@.len() == len,
            is_permutation(items@, n),
            spec_sel_sort(orig, kseq, 0) == spec_sel_sort(items@, kseq, i as int),
            forall|a: int, b: int|
                0 <= a < b < i ==> key@[(#[trigger] items@[a]) as int] >= key@[(
                #[trigger] items@[b]) as int],
            forall|a: int, b: int|
                0 <= a < i && i <= b < len ==> key@[(#[trigger] items@[a]) as int] >= key@[(
                #[trigger] items@[b]) as int],
        decreases len - i,
    {
        let mut m: usize = i;
        let mut t: usize = i + 1;
        while t < len
            invariant
                i <= m < len,
                i < t <= len,
                m as int == argmax_key(items@, kseq, i as int, t as int),
                forall|h: int|
                    i <= h < t ==> key@[(#[trigger] items@[h]) as int] <= key@[items@[m as int] as int],
            decreases len - t,
        {
            let it = items[t];
            let im = items[m];
            proof {
                assert(kseq[it as int] == key@[it as int] as int);
                assert(kseq[im as int] == key@[im as int] as int);
            }
            if key[it] > key[im] {
                m = t;
            }
            t = t + 1;
        }
        let ghost pre = items@;
        let a = items[i];
        let b = items[m];
        items[i] = b;
        items[m] = a;
        proof {
            lemma_swap_perm(pre, i as int, m as int, n);
            assert(items@ == pre.update(i as int, pre[m as int]).update(m as int, pre[i as int]));
            if i as int + 1 < len {
                assert(m as int == argmax_key(pre, kseq, i as int, len as int));
                assert(spec_sel_sort(pre, kseq, i as int) == spec_sel_sort(
                    items@,
                    kseq,
                    i as int + 1,
                ));
            } else {
                assert(m == i);
                assert(items@ =~= pre);
                assert(spec_sel_sort(pre, kseq, i as int) == pre);
                assert(spec_sel_sort(items@, kseq, i as int + 1) == items@);
            }
        }
        i = i + 1;
    }
    proof {
        assert(spec_sel_sort(items@, kseq, len as int) == items@);
    }
}

/// The identity order on the first `n` activities.
pub open spec fn idseq(n: nat) -> Seq<usize> {
    Seq::new(n, |i: int| i as usize)
}

/// Whether an activity has `j` among its direct predecessors — that is,
/// whether it is a direct successor of `j`.
pub open spec fn succ_pred(prec: Seq<Vec<usize>>, j: usize) -> spec_fn(usize) -> bool {
    |i: usize| (i as int) < prec.len() && prec[i as int]@.contains(j)
}

/// `rev` is the reversed predecessor relation of `prec`: for each activity
/// it lists exactly the direct successors, in increasing activity order.
pub open spec fn is_reversed(prec: Seq<Vec<usize>>, rev: Seq<Vec<usize>>, n: nat) -> bool {
    &&& rev.len() == n
    &&& forall|j: usize| j < n ==> (#[trigger] rev[j as int])@ == idseq(n).filter(succ_pred(prec, j))
}

/// The right-justified order of a chromosome: sorted by decreasing finish
/// time under the forward schedule.
pub open spec fn right_justified(p: Problem, chrom: Seq<usize>) -> Seq<usize> {
    spec_sel_sort(chrom, ssgs_fins(p, p.prec(), chrom), 0)
}

/// What double justification returns for a schedulable chromosome, given
/// the reversed predecessor relation: the right-justified order re-sorted
/// by decreasing finish time under that relation, or the right-justified
/// order itself when the backward pass overruns the horizon.
pub open spec fn justified_result(p: Problem, chrom: Seq<usize>, rev: Seq<Vec<usize>>) -> Seq<
    usize,
> {
    let rj = right_justified(p, chrom);
    if ssgs_ok(p, rev, rj) {
        spec_sel_sort(rj, ssgs_fins(p, rev, rj), 0)
    } else {
        rj
    }
}

/// The specification-level selection sort of a permutation is a
/// permutation.
proof fn lemma_spec_sel_sort_perm(items: Seq<usize>, key: Seq<int>, i: int, n: nat)
    requires
        is_permutation(items, n),
    ensures
        is_permutation(spec_sel_sort(items, key, i), n),
    decreases items.len() - i,
{
    if !(i < 0 || i + 1 >= items.len()) {
        lemma_argmax_key_range(items, key, i, items.len() as int);
        let m = argmax_key(items, key, i, items.len() as int);
        lemma_swap_perm(items, i, m, n);
        lemma_spec_sel_sort_perm(items.update(i, items[m]).update(m, items[i]), key, i + 1, n);
    }
}

/// Double justification is a pure function of the problem and the
/// chromosome: the reversed relation is fixed by `is_reversed` up to its
/// entry lists, and the schedule builder reads a relation only through
/// those lists, so any two reversed relations of the same instance
/// determine the same result.
pub proof fn lemma_justification_deterministic(
    p: Problem,
    chrom: Seq<usize>,
    rev1: Seq<Vec<usize>>,
    rev2: Seq<Vec<usize>>,
)
    requires
        p.wf(),
        is_permutation(chrom, p.n as nat),
        is_reversed(p.prec(), rev1, p.n as nat),
        is_reversed(p.prec(), rev2, p.n as nat),
    ensures
        justified_result(p, chrom, rev1) == justified_result(p, chrom, rev2),
{
    let rj = right_justified(p, chrom);
    lemma_spec_sel_sort_perm(chrom, ssgs_fins(p, p.prec(), chrom), 0, p.n as nat);
    assert(is_permutation(rj, p.n as nat));
    assert forall|j: int| 0 <= j < p.n implies (#[trigger] rev1[j])@ == rev2[j]@ by {
        let ju = j as usize;
        assert(rev1[ju as int]@ == idseq(p.n as nat).filter(succ_pred(p.prec(), ju)));
        assert(rev2[ju as int]@ == idseq(p.n as nat).filter(succ_pred(p.prec(), ju)));
    }
    crate::schedule::lemma_ssgs_state_view(p, rev1, rev2, rj, rj.len() as int);
}

/// Double justification: schedule forward, right-justify by decreasing
/// forward finish time, schedule against the reversed predecessor
/// relation, and left-justify by decreasing backward finish time.  The
/// result is exactly determined by the problem and the chromosome (the
/// reversed relation is fixed by `is_reversed`, and the schedule builder
/// reads only its entry lists); it is not guaranteed to improve the
/// makespan, and callers must repair it and re-evaluate its fitness before
/// accepting it.
#[verifier::loop_isolation(false)]
#[verifier::rlimit(100)]
pub fn double_justification(problem: &Problem, chrom: &Vec<usize>) -> (r: Vec<usize>)
    requires
        problem.wf(),
        problem.bounds_ok(),
        is_permutation(chrom@, problem.n as nat),
    ensures
        is_permutation(r@, problem.n as nat),
        r@.to_multiset() == chrom@.to_multiset(),
        !ssgs_ok(*problem, problem.prec(), chrom@) ==> r@ == chrom@,
        ssgs_ok(*problem, problem.prec(), chrom@) ==> exists|rev: Seq<Vec<usize>>|
            #![auto]
            is_reversed(problem.prec(), rev, problem.n as nat) && r@ == justified_result(
                *problem,
                chrom@,
                rev,
            ),
{
    let ghost prec0 = problem.prec();
    let n = problem.n;
    let fwd = custom_ssgs(problem, chrom, &problem.precedences);
    match fwd {
        Result::Err(_) => {
            let r = copy_order(chrom);
            proof {
                lemma_perms_same_multiset(chrom@, r@, problem.n as nat);
            }
            r
        },
        Result::Ok(sm) => {
            let start_fwd = sm.0;
            let ghost ffwd = ssgs_fins(*problem, prec0, chrom@);
            let mut key1: Vec<usize> = Vec::new();
            let mut j: usize = 0;
            while j < n
                invariant
                    j <= n,
                    key1@.len() == j,
                    start_fwd@.len() == n,
                    forall|h: int| 0 <= h < j ==> #[trigger] key1@[h] as int == ffwd[h],
                decreases n - j,
            {
                proof {
                    assert(ints_of(start_fwd@)[j as int] == start_fwd@[j as int] as int);
                    assert(ffwd[j as int] <= problem.total_duration());
                    assert(ffwd[j as int] == start_fwd@[j as int] + problem.durations@[j as int]);
                }
                key1.push(start_fwd[j] + problem.durations[j]);
                j = j + 1;
            }
            proof {
                assert(ints_of(key1@) == ffwd) by {
                    assert(ints_of(key1@) =~= ffwd);
                }
            }
            let mut rj = copy_order(chrom);
            sort_by_key_desc(&mut rj, &key1);
            proof {
                assert(rj@ == right_justified(*problem, chrom@));
            }
            // the reversed predecessor relation: each activity's direct
            // successors, in increasing activity order
            let mut rev: Vec<Vec<usize>> = Vec::new();
            let mut x: usize = 0;
            while x < n
                invariant
                    x <= n,
                    rev@.len() == x,
                    forall|pz: int| 0 <= pz < x ==> (#[trigger] rev@[pz])@.len() == 0,
                decreases n - x,
            {
                rev.push(Vec::new());
                x = x + 1;
            }
            proof {
                reveal(Seq::filter);
                assert(idseq(0) =~= Seq::<usize>::empty());
                assert forall|j2: usize| j2 < n implies (#[trigger] rev@[j2 as int])@ == idseq(
                    0,
                ).filter(succ_pred(prec0, j2)) by {
                    assert(rev@[j2 as int]@ =~= idseq(0).filter(succ_pred(prec0, j2)));
                }
            }
            let mut i2: usize = 0;
            while i2 < n
                invariant
                    i2 <= n,
                    rev@.len() == n,
                    forall|pz: int, h: int|
                        0 <= pz < n && 0 <= h < rev@[pz]@.len() ==> (#[trigger] rev@[pz]@[h]) < n,
                    forall|j2: usize|
                        j2 < n ==> (#[trigger] rev@[j2 as int])@ == idseq(i2 as nat).filter(
                            succ_pred(prec0, j2),
                        ),
                decreases n - i2,
            {
                let nq = problem.precedences[i2].len();
                let mut q: usize = 0;
                while q < nq
                    invariant
                        q <= nq,
                        i2 < n,
                        rev@.len() == n,
                        forall|pz: int, h: int|
                            0 <= pz < n && 0 <= h < rev@[pz]@.len() ==> (#[trigger] rev@[pz]@[h])
                                < n,
                        forall|j2: usize|
                            j2 < n ==> (#[trigger] rev@[j2 as int])@ == idseq(i2 as nat).filter(
                                succ_pred(prec0, j2),
                            ) + (if prec0[i2 as int]@.take(q as int).contains(j2) {
                                seq![i2]
                            } else {
                                Seq::<usize>::empty()
                            }),
                    decreases nq - q,
                {
                    let j2 = problem.precedences[i2][q];
                    let ghost rev_pre = rev@;
                    proof {
                        assert(!prec0[i2 as int]@.take(q as int).contains(j2)) by {
                            if prec0[i2 as int]@.take(q as int).contains(j2) {
                                let h = choose|h: int|
                                    0 <= h < q && #[trigger] prec0[i2 as int]@.take(q as int)[h]
                                        == j2;
                                assert(prec0[i2 as int]@[h] == prec0[i2 as int]@[q as int]);
                            }
                        }
                        assert(prec0[i2 as int]@.take(q as int + 1) =~= prec0[i2 as int]@.take(
                            q as int,
                        ).push(j2));
                        lemma_push_contains(prec0[i2 as int]@.take(q as int), j2);
                    }
                    let row = &mut rev[j2];
                    row.push(i2);
                    proof {
                        assert forall|jz: usize|
                            jz < n implies (#[trigger] rev@[jz as int])@ == idseq(i2 as nat).filter(
                            succ_pred(prec0, jz),
                        ) + (if prec0[i2 as int]@.take(q as int + 1).contains(jz) {
                            seq![i2]
                        } else {
                            Seq::<usize>::empty()
                        }) by {
                            if jz == j2 {
                                assert(rev@[jz as int]@ == rev_pre[jz as int]@.push(i2));
                                assert(rev_pre[jz as int]@ == idseq(i2 as nat).filter(
                                    succ_pred(prec0, jz),
                                ) + Seq::<usize>::empty());
                                assert(rev@[jz as int]@ =~= idseq(i2 as nat).filter(
                                    succ_pred(prec0, jz),
                                ) + seq![i2]);
                            } else {
                                assert(rev@[jz as int] == rev_pre[jz as int]);
                                assert(prec0[i2 as int]@.take(q as int + 1).contains(jz) == prec0[
                                i2 as int]@.take(q as int).contains(jz));
                            }
                        }
                    }
                    q = q + 1;
                }
                proof {
                    assert(prec0[i2 as int]@.take(nq as int) =~= prec0[i2 as int]@);
                    assert(idseq(i2 as nat + 1) =~= idseq(i2 as nat).push(i2));
                    assert forall|j2: usize|
                        j2 < n implies (#[trigger] rev@[j2 as int])@ == idseq(i2 as nat + 1).filter(
                        succ_pred(prec0, j2),
                    ) by {
                        lemma_filter_push(idseq(i2 as nat), i2, succ_pred(prec0, j2));
                        if succ_pred(prec0, j2)(i2) {
                            assert(rev@[j2 as int]@ =~= idseq(i2 as nat).filter(
                                succ_pred(prec0, j2),
                            ).push(i2));
                        } else {
                            assert(rev@[j2 as int]@ =~= idseq(i2 as nat).filter(
                                succ_pred(prec0, j2),
                            ));
                        }
                    }
                }
                i2 = i2 + 1;
            }
            proof {
                assert(is_reversed(prec0, rev@, problem.n as nat));
            }
            let bwd = custom_ssgs(problem, &rj, &rev);
            match bwd {
                Result::Err(_) => {
                    proof {
                        lemma_perms_same_multiset(chrom@, rj@, problem.n as nat);
                        assert(rj@ == justified_result(*problem, chrom@, rev@));
                    }
                    rj
                },
                Result::Ok(sm2) => {
                    let start_bwd = sm2.0;
                    let ghost fbwd = ssgs_fins(*problem, rev@, rj@);
                    let mut key2: Vec<usize> = Vec::new();
                    let mut j: usize = 0;
                    while j < n
                        invariant
                            j <= n,
                            key2@.len() == j,
                            start_bwd@.len() == n,
                            forall|h: int| 0 <= h < j ==> #[trigger] key2@[h] as int == fbwd[h],
                        decreases n - j,
                    {
                        proof {
                            assert(ints_of(start_bwd@)[j as int] == start_bwd@[j as int] as int);
                            assert(fbwd[j as int] <= problem.total_duration());
                            assert(fbwd[j as int] == start_bwd@[j as int] + problem.durations@[
                            j as int]);
                        }
                        key2.push(start_bwd[j] + problem.durations[j]);
                        j = j + 1;
                    }
                    proof {
                        assert(ints_of(key2@) == fbwd) by {
                            assert(ints_of(key2@) =~= fbwd);
                        }
                    }
                    let mut lj = copy_order(&rj);
                    sort_by_key_desc(&mut lj, &key2);
                    proof {
                        lemma_perms_same_multiset(chrom@, lj@, problem.n as nat);
                        assert(lj@ == justified_result(*problem, chrom@, rev@));
                    }
                    lj
                },
            }
        },
    }
}

} // verus!
