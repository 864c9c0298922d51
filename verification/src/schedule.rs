//! The serial schedule generation scheme (SSGS): a deterministic
//! feasibility simulator that turns an activity order into start times and
//! a makespan.  Each activity, taken in list order, is started at the
//! earliest instant that respects its predecessors' finish times and, over
//! its whole processing window, every resource capacity.
//!
//! The search horizon is the sum of all durations — an upper bound on any
//! feasible makespan — and an activity that cannot be placed within it is
//! reported as a horizon overrun instead of being searched for forever.

use vstd::prelude::*;

use crate::problem::{
    is_permutation, lemma_perm_contains, placed_before, precedence_feasible, sum_prefix,
    valid_prec, Problem,
};

verus! {

/// Why the schedule builder gave no schedule.
#[derive(Clone, Copy, Debug, PartialEq, Eq, Structural)]
pub enum ScheduleError {
    /// Some activity could not be placed within the sum-of-durations
    /// horizon; with a well-formed instance this means a single activity's
    /// demand exceeds a capacity on its own.
    HorizonExceeded,
}

/// A sequence of `usize` values as mathematical integers.
pub open spec fn ints_of(s: Seq<usize>) -> Seq<int> {
    s.map_values(|x: usize| x as int)
}

/// The earliest precedence-respecting start of `j`: the largest finish time
/// among the first `q` predecessors of `j` (zero when there are none).
pub open spec fn prec_time_upto(prec: Seq<Vec<usize>>, fins: Seq<int>, j: int, q: int) -> int
    decreases q,
{
    if q <= 0 {
        0
    } else {
        let prev = prec_time_upto(prec, fins, j, q - 1);
        let f = fins[prec[j]@[q - 1] as int];
        if f > prev {
            f
        } else {
            prev
        }
    }
}

/// The earliest precedence-respecting start of `j`: the largest finish time
/// among all predecessors of `j`.
pub open spec fn prec_time(prec: Seq<Vec<usize>>, fins: Seq<int>, j: int) -> int {
    prec_time_upto(prec, fins, j, prec[j]@.len() as int)
}

/// Total demand on resource `k` at instant `tau` from the already-scheduled
/// activities `sched`, each occupying `[starts[j], starts[j] + durations[j])`.
pub open spec fn usage_of(p: Problem, sched: Seq<usize>, starts: Seq<int>, tau: int, k: int) -> int
    decreases sched.len(),
{
    if sched.len() == 0 {
        0
    } else {
        let j = sched.last() as int;
        let here: int = if starts[j] <= tau < starts[j] + p.durations@[j] {
            p.resources@[j]@[k] as int
        } else {
            0
        };
        usage_of(p, sched.drop_last(), starts, tau, k) + here
    }
}

/// Every instant of the window `[t, t + durations[j])` has room for `j`'s
/// demand on every resource, given the usage of the already-scheduled set.
pub open spec fn window_ok(p: Problem, sched: Seq<usize>, starts: Seq<int>, j: int, t: int) -> bool {
    forall|tau: int, k: int|
        t <= tau < t + p.durations@[j] && 0 <= k < p.capacities@.len()
            ==> #[trigger] usage_of(p, sched, starts, tau, k) + p.resources@[j]@[k]
                <= p.capacities@[k]
}

/// The earliest instant `>= t` at which `j`'s whole window fits within the
/// horizon and within every capacity; `None` when no such instant exists
/// before the horizon.
pub open spec fn find_start(p: Problem, sched: Seq<usize>, starts: Seq<int>, j: int, t: int) -> Option<int>
    decreases p.total_duration() + 1 - t,
{
    if t < 0 || t + p.durations@[j] > p.total_duration() {
        None
    } else if window_ok(p, sched, starts, j, t) {
        Some(t)
    } else {
        find_start(p, sched, starts, j, t + 1)
    }
}

/// The schedule builder's state after placing the first `k` activities of
/// `order`: the start and finish arrays (zero for activities not placed
/// yet), or `None` once some activity has failed to fit in the horizon.
pub open spec fn ssgs_state(p: Problem, prec: Seq<Vec<usize>>, order: Seq<usize>, k: int) -> Option<
    (Seq<int>, Seq<int>),
>
    decreases k,
{
    if k <= 0 {
        Some((Seq::new(p.n as nat, |x: int| 0), Seq::new(p.n as nat, |x: int| 0)))
    } else {
        match ssgs_state(p, prec, order, k - 1) {
            Option::None => Option::None,
            Option::Some(st) => {
                let starts = st.0;
                let fins = st.1;
                let j = order[k - 1] as int;
                let mst = prec_time(prec, fins, j);
                if p.durations@[j] == 0 {
                    Some((starts.update(j, mst), fins.update(j, mst)))
                } else {
                    match find_start(p, order.take(k - 1), starts, j, mst) {
                        Option::None => Option::None,
                        Option::Some(t) => Some(
                            (starts.update(j, t), fins.update(j, t + p.durations@[j])),
                        ),
                    }
                }
            },
        }
    }
}

/// The builder succeeds on `order`.
pub open spec fn ssgs_ok(p: Problem, prec: Seq<Vec<usize>>, order: Seq<usize>) -> bool {
    ssgs_state(p, prec, order, order.len() as int) is Some
}

/// The start times the builder assigns to `order`.
pub open spec fn ssgs_starts(p: Problem, prec: Seq<Vec<usize>>, order: Seq<usize>) -> Seq<int> {
    (ssgs_state(p, prec, order, order.len() as int)->0).0
}

/// The finish times the builder assigns to `order`.
pub open spec fn ssgs_fins(p: Problem, prec: Seq<Vec<usize>>, order: Seq<usize>) -> Seq<int> {
    (ssgs_state(p, prec, order, order.len() as int)->0).1
}

/// The largest of the first `m` finish times (zero when `m` is zero).
pub open spec fn max_fin(fins: Seq<int>, m: int) -> int
    decreases m,
{
    if m <= 0 {
        0
    } else {
        let prev = max_fin(fins, m - 1);
        if fins[m - 1] > prev {
            fins[m - 1]
        } else {
            prev
        }
    }
}

/// The makespan the builder computes for `order`: its largest finish time.
pub open spec fn ssgs_makespan(p: Problem, prec: Seq<Vec<usize>>, order: Seq<usize>) -> int {
    max_fin(ssgs_fins(p, prec, order), p.n as int)
}

/// The index of the largest of the first `m` finish times, the smallest
/// index winning ties (zero when `m` is at most one).
pub open spec fn argmax_fin(fins: Seq<int>, m: int) -> int
    decreases m,
{
    if m <= 1 {
        0
    } else {
        let prev = argmax_fin(fins, m - 1);
        if fins[m - 1] > fins[prev] {
            m - 1
        } else {
            prev
        }
    }
}

/// The bottleneck activity of an order: the one finishing latest in the
/// schedule the builder assigns to it, the smallest activity index winning
/// ties.
pub open spec fn bottleneck_of(p: Problem, order: Seq<usize>) -> usize {
    argmax_fin(ssgs_fins(p, p.prec(), order), p.n as int) as usize
}

/// The precedence time of `j` reads only `j`'s own predecessor list:
/// relations with the same list agree on it.
pub(crate) proof fn lemma_prec_time_upto_view(
    prec1: Seq<Vec<usize>>,
    prec2: Seq<Vec<usize>>,
    fins: Seq<int>,
    j: int,
    q: int,
)
    requires
        0 <= j < prec1.len(),
        prec1.len() == prec2.len(),
        prec1[j]@ == prec2[j]@,
    ensures
        prec_time_upto(prec1, fins, j, q) == prec_time_upto(prec2, fins, j, q),
    decreases q,
{
    if q > 0 {
        lemma_prec_time_upto_view(prec1, prec2, fins, j, q - 1);
    }
}

/// The schedule builder reads a predecessor relation only through its
/// entry lists: relations with equal lists yield equal schedules.
pub(crate) proof fn lemma_ssgs_state_view(
    p: Problem,
    prec1: Seq<Vec<usize>>,
    prec2: Seq<Vec<usize>>,
    order: Seq<usize>,
    k: int,
)
    requires
        prec1.len() == p.n,
        prec2.len() == p.n,
        forall|j: int| 0 <= j < p.n ==> (#[trigger] prec1[j])@ == prec2[j]@,
        forall|i: int| 0 <= i < order.len() ==> (#[trigger] order[i]) < p.n,
        k <= order.len(),
    ensures
        ssgs_state(p, prec1, order, k) == ssgs_state(p, prec2, order, k),
    decreases k,
{
    if k > 0 {
        lemma_ssgs_state_view(p, prec1, prec2, order, k - 1);
        if ssgs_state(p, prec1, order, k - 1) is Some {
            let st = ssgs_state(p, prec1, order, k - 1)->0;
            let j = order[k - 1] as int;
            assert(prec1[j]@ == prec2[j]@);
            lemma_prec_time_upto_view(prec1, prec2, st.1, j, prec1[j]@.len() as int);
        }
    }
}

/// The sum of the first `k` durations is non-negative and grows with `k`.
pub proof fn lemma_sum_prefix_mono(s: Seq<usize>, k1: int, k2: int)
    requires
        k1 <= k2,
    ensures
        sum_prefix(s, k1) <= sum_prefix(s, k2),
        0 <= sum_prefix(s, k2) - sum_prefix(s, k1),
    decreases k2 - k1,
{
    if k1 < k2 {
        lemma_sum_prefix_mono(s, k1, k2 - 1);
    }
}

/// Each single duration is bounded by the sum of all durations.
pub proof fn lemma_entry_le_sum(s: Seq<usize>, j: int)
    requires
        0 <= j < s.len(),
    ensures
        s[j] as int <= sum_prefix(s, s.len() as int),
{
    lemma_sum_prefix_mono(s, 0, j);
    lemma_sum_prefix_mono(s, j + 1, s.len() as int);
}

/// The total duration of a set of already-scheduled activities.
pub open spec fn sum_over(sched: Seq<usize>, dur: Seq<usize>) -> int
    decreases sched.len(),
{
    if sched.len() == 0 {
        0
    } else {
        sum_over(sched.drop_last(), dur) + dur[sched.last() as int]
    }
}

/// Every single activity's demand fits within each resource's capacity on
/// its own: the condition under which the schedule builder can always
/// place every activity within the horizon.
pub open spec fn demands_fit(p: Problem) -> bool {
    forall|j: int, k: int|
        0 <= j < p.n && 0 <= k < p.capacities@.len() ==> #[trigger] p.resources@[j]@[k]
            <= p.capacities@[k]
}

/// Removing an activity subtracts exactly its duration from the set's
/// total duration.
proof fn lemma_sum_over_remove(sched: Seq<usize>, dur: Seq<usize>, i: int)
    requires
        0 <= i < sched.len(),
    ensures
        sum_over(sched.remove(i), dur) == sum_over(sched, dur) - dur[sched[i] as int],
    decreases sched.len(),
{
    if i == sched.len() - 1 {
        assert(sched.remove(i) =~= sched.drop_last());
    } else {
        assert(sched.remove(i).drop_last() =~= sched.drop_last().remove(i));
        assert(sched.remove(i).last() == sched.last());
        lemma_sum_over_remove(sched.drop_last(), dur, i);
    }
}

/// A set of in-range activities has a non-negative total duration.
proof fn lemma_sum_over_nonneg(sched: Seq<usize>, dur: Seq<usize>)
    requires
        forall|i: int| 0 <= i < sched.len() ==> ((#[trigger] sched[i]) as int) < dur.len(),
    ensures
        sum_over(sched, dur) >= 0,
    decreases sched.len(),
{
    if sched.len() > 0 {
        lemma_sum_over_nonneg(sched.drop_last(), dur);
        assert(sched.last() == sched[sched.len() - 1]);
    }
}

/// The total duration of distinct activities below `m` is bounded by the
/// sum of the first `m` durations.
proof fn lemma_sum_distinct_le(sched: Seq<usize>, dur: Seq<usize>, m: int)
    requires
        sched.no_duplicates(),
        0 <= m <= dur.len(),
        m <= usize::MAX,
        forall|i: int| 0 <= i < sched.len() ==> ((#[trigger] sched[i]) as int) < m,
    ensures
        sum_over(sched, dur) <= sum_prefix(dur, m),
    decreases m,
{
    if m > 0 {
        assert(sum_prefix(dur, m) == sum_prefix(dur, m - 1) + dur[m - 1]);
    }
    if m == 0 {
        if sched.len() > 0 {
            assert((sched[0] as int) < 0);
        }
    } else {
        if sched.contains(((m - 1) as usize)) {
            let i = choose|i: int| 0 <= i < sched.len() && #[trigger] sched[i] == ((m - 1) as usize);
            let rest = sched.remove(i);
            lemma_sum_over_remove(sched, dur, i);
            assert forall|x: int| 0 <= x < rest.len() implies #[trigger] rest[x] == (if x < i {
                sched[x]
            } else {
                sched[x + 1]
            }) by {}
            assert(rest.no_duplicates()) by {
                assert forall|x: int, y: int| 0 <= x < y < rest.len() implies rest[x] != rest[y] by {}
            }
            assert forall|x: int| 0 <= x < rest.len() implies ((#[trigger] rest[x]) as int) < m
                - 1 by {
                if x < i {
                    assert(rest[x] == sched[x]);
                } else {
                    assert(rest[x] == sched[x + 1]);
                }
            }
            lemma_sum_distinct_le(rest, dur, m - 1);
            assert(((m - 1) as usize) as int == m - 1);
            assert(dur[sched[i] as int] == dur[m - 1]);
        } else {
            assert forall|i: int|
                0 <= i < sched.len() implies ((#[trigger] sched[i]) as int) < m - 1 by {
                assert(sched.contains(sched[i]));
            }
            lemma_sum_distinct_le(sched, dur, m - 1);
        }
    }
}

/// Past every scheduled activity's finish, the usage table is empty.
proof fn lemma_usage_zero_late(
    p: Problem,
    sched: Seq<usize>,
    starts: Seq<int>,
    bound: int,
    tau: int,
    k: int,
)
    requires
        forall|i: int|
            0 <= i < sched.len() ==> starts[(#[trigger] sched[i]) as int] + p.durations@[sched[i]
                as int] <= bound,
        tau >= bound,
    ensures
        usage_of(p, sched, starts, tau, k) == 0,
    decreases sched.len(),
{
    if sched.len() > 0 {
        lemma_usage_zero_late(p, sched.drop_last(), starts, bound, tau, k);
        assert(sched.last() == sched[sched.len() - 1]);
    }
}

/// A known feasible instant guarantees the search succeeds, at or before
/// that instant.
proof fn lemma_find_start_witness(
    p: Problem,
    sched: Seq<usize>,
    starts: Seq<int>,
    j: int,
    t: int,
    t0: int,
)
    requires
        0 <= t <= t0,
        0 <= p.durations@[j],
        t0 + p.durations@[j] <= p.total_duration(),
        window_ok(p, sched, starts, j, t0),
    ensures
        find_start(p, sched, starts, j, t) is Some,
        find_start(p, sched, starts, j, t)->0 <= t0,
    decreases t0 - t,
{
    if !window_ok(p, sched, starts, j, t) {
        assert(t < t0);
        lemma_find_start_witness(p, sched, starts, j, t + 1, t0);
    }
}

/// With every single demand within its capacity, the builder places every
/// activity of any permutation within the horizon, each finishing no later
/// than the total duration of the activities placed so far.
pub proof fn lemma_ssgs_total(p: Problem, prec: Seq<Vec<usize>>, order: Seq<usize>, k: int)
    requires
        p.wf(),
        valid_prec(prec, p.n as nat),
        is_permutation(order, p.n as nat),
        demands_fit(p),
        0 <= k <= order.len(),
    ensures
        ssgs_state(p, prec, order, k) is Some,
        forall|x: int|
            0 <= x < p.n ==> (ssgs_state(p, prec, order, k)->0).1[x] <= sum_over(
                order.take(k),
                p.durations@,
            ),
    decreases k,
{
    if k <= 0 {
        assert(order.take(k) =~= Seq::<usize>::empty());
    } else {
        lemma_ssgs_total(p, prec, order, k - 1);
        lemma_state_props(p, prec, order, k - 1);
        let st0 = ssgs_state(p, prec, order, k - 1)->0;
        let starts = st0.0;
        let fins = st0.1;
        let ju = order[k - 1];
        let j = ju as int;
        let dur = p.durations@[j] as int;
        let skm = sum_over(order.take(k - 1), p.durations@);
        let skk = sum_over(order.take(k), p.durations@);
        assert(order.take(k) =~= order.take(k - 1).push(ju));
        assert(skk == skm + dur) by {
            assert(order.take(k - 1).push(ju).drop_last() =~= order.take(k - 1));
            assert(order.take(k - 1).push(ju).last() == ju);
        }
        assert forall|i: int|
            0 <= i < order.take(k - 1).len() implies ((#[trigger] order.take(k - 1)[i]) as int)
            < p.n by {
            assert(order.take(k - 1)[i] == order[i]);
        }
        lemma_sum_over_nonneg(order.take(k - 1), p.durations@);
        assert forall|x: int| 0 <= x < fins.len() implies #[trigger] fins[x] <= skm by {}
        let nq = prec[j]@.len() as int;
        lemma_prec_time_ge(prec, fins, j, nq);
        lemma_prec_time_le(prec, fins, j, nq, skm);
        let mst = prec_time(prec, fins, j);
        assert forall|i: int|
            0 <= i < order.take(k).len() implies ((#[trigger] order.take(k)[i]) as int) < p.n by {
            assert(order.take(k)[i] == order[i]);
        }
        assert(order.take(k).no_duplicates()) by {
            assert forall|x: int, y: int|
                0 <= x < y < order.take(k).len() implies order.take(k)[x] != order.take(k)[y] by {
                assert(order.take(k)[x] == order[x] && order.take(k)[y] == order[y]);
            }
        }
        lemma_sum_distinct_le(order.take(k), p.durations@, p.n as int);
        lemma_sum_prefix_mono(p.durations@, p.n as int, p.durations@.len() as int);
        if dur == 0 {
            assert(ssgs_state(p, prec, order, k) is Some);
            assert forall|x: int|
                0 <= x < p.n implies (ssgs_state(p, prec, order, k)->0).1[x] <= skk by {
                assert(fins[x] <= skm);
            }
        } else {
            assert(window_ok(p, order.take(k - 1), starts, j, skm)) by {
                assert forall|tau: int, kk: int|
                    skm <= tau < skm + p.durations@[j] && 0 <= kk < p.capacities@.len()
                        implies #[trigger] usage_of(p, order.take(k - 1), starts, tau, kk)
                    + p.resources@[j]@[kk] <= p.capacities@[kk] by {
                    assert forall|i: int|
                        0 <= i < order.take(k - 1).len() implies starts[(#[trigger] order.take(
                        k - 1,
                    )[i]) as int] + p.durations@[order.take(k - 1)[i] as int] <= skm by {
                        let x = order.take(k - 1)[i];
                        assert(order.take(k - 1).contains(x));
                        assert(fins[x as int] == starts[x as int] + p.durations@[x as int]);
                        assert(fins[x as int] <= skm);
                    }
                    lemma_usage_zero_late(p, order.take(k - 1), starts, skm, tau, kk);
                }
            }
            lemma_find_start_witness(p, order.take(k - 1), starts, j, mst, skm);
            let t = find_start(p, order.take(k - 1), starts, j, mst)->0;
            assert(ssgs_state(p, prec, order, k) is Some);
            assert forall|x: int|
                0 <= x < p.n implies (ssgs_state(p, prec, order, k)->0).1[x] <= skk by {
                if x == j {
                    assert((ssgs_state(p, prec, order, k)->0).1[x] == t + dur);
                } else {
                    assert(fins[x] <= skm);
                }
            }
        }
    }
}

/// Usage of a scheduled set is unchanged by updating the start of an
/// activity outside that set.
proof fn lemma_usage_frame(
    p: Problem,
    sched: Seq<usize>,
    starts: Seq<int>,
    j: int,
    v: int,
    tau: int,
    k: int,
)
    requires
        0 <= j < starts.len(),
        forall|i: int|
            0 <= i < sched.len() ==> (#[trigger] sched[i]) as int != j && (sched[i] as int)
                < starts.len(),
    ensures
        usage_of(p, sched, starts.update(j, v), tau, k) == usage_of(p, sched, starts, tau, k),
    decreases sched.len(),
{
    if sched.len() > 0 {
        lemma_usage_frame(p, sched.drop_last(), starts, j, v, tau, k);
        assert(sched.last() == sched[sched.len() - 1]);
    }
}

/// Usage of a scheduled set grows by exactly the new activity's demand over
/// its window when that activity is appended.
proof fn lemma_usage_push(p: Problem, sched: Seq<usize>, starts: Seq<int>, j: usize, tau: int, k: int)
    ensures
        usage_of(p, sched.push(j), starts, tau, k) == usage_of(p, sched, starts, tau, k) + (
        if starts[j as int] <= tau < starts[j as int] + p.durations@[j as int] {
            p.resources@[j as int]@[k] as int
        } else {
            0
        }),
{
    assert(sched.push(j).drop_last() =~= sched);
    assert(sched.push(j).last() == j);
}

/// What a successful search means: the found instant is at or after the
/// requested one, the whole window lies within the horizon, and the window
/// fits within every capacity.
proof fn lemma_find_start_some(p: Problem, sched: Seq<usize>, starts: Seq<int>, j: int, t: int)
    requires
        find_start(p, sched, starts, j, t) is Some,
    ensures
        ({
            let ts = find_start(p, sched, starts, j, t)->0;
            &&& 0 <= t <= ts
            &&& ts + p.durations@[j] <= p.total_duration()
            &&& window_ok(p, sched, starts, j, ts)
        }),
    decreases p.total_duration() + 1 - t,
{
    if !(t < 0 || t + p.durations@[j] > p.total_duration()) {
        if !window_ok(p, sched, starts, j, t) {
            lemma_find_start_some(p, sched, starts, j, t + 1);
        }
    }
}

/// The precedence time over the first `q` predecessors is non-negative and
/// at or above each of their finish times.
proof fn lemma_prec_time_ge(prec: Seq<Vec<usize>>, fins: Seq<int>, j: int, q: int)
    ensures
        prec_time_upto(prec, fins, j, q) >= 0,
        forall|q0: int|
            0 <= q0 < q ==> fins[#[trigger] prec[j]@[q0] as int] <= prec_time_upto(
                prec,
                fins,
                j,
                q,
            ),
    decreases q,
{
    if q > 0 {
        lemma_prec_time_ge(prec, fins, j, q - 1);
    }
}

/// The precedence time never exceeds a common bound on the finish times.
proof fn lemma_prec_time_le(prec: Seq<Vec<usize>>, fins: Seq<int>, j: int, q: int, hb: int)
    requires
        hb >= 0,
        forall|x: int| 0 <= x < fins.len() ==> #[trigger] fins[x] <= hb,
        forall|q0: int|
            0 <= q0 < q ==> 0 <= (#[trigger] prec[j]@[q0]) as int && (prec[j]@[q0] as int)
                < fins.len(),
    ensures
        prec_time_upto(prec, fins, j, q) <= hb,
    decreases q,
{
    if q > 0 {
        lemma_prec_time_le(prec, fins, j, q - 1, hb);
    }
}

/// Once the builder has failed, it stays failed.
proof fn lemma_state_none_stays(p: Problem, prec: Seq<Vec<usize>>, order: Seq<usize>, k1: int, k2: int)
    requires
        0 <= k1 <= k2,
        ssgs_state(p, prec, order, k1) is None,
    ensures
        ssgs_state(p, prec, order, k2) is None,
    decreases k2 - k1,
{
    if k2 > k1 {
        lemma_state_none_stays(p, prec, order, k1, k2 - 1);
    }
}

/// The invariants of the builder's state after `k` placements: arrays sized
/// to the instance; starts and finishes within the horizon; a placed
/// activity finishes exactly its duration after it starts while an unplaced
/// one carries zeros; resource usage within every capacity at every
/// instant; and every already-placed predecessor finishing no later than
/// its successor starts.
pub open spec fn state_props(
    p: Problem,
    prec: Seq<Vec<usize>>,
    order: Seq<usize>,
    k: int,
    starts: Seq<int>,
    fins: Seq<int>,
) -> bool {
    &&& starts.len() == p.n
    &&& fins.len() == p.n
    &&& forall|x: int|
        0 <= x < p.n ==> 0 <= #[trigger] starts[x] && starts[x] <= fins[x] && fins[x]
            <= p.total_duration()
    &&& forall|x: int|
        0 <= x < p.n && order.take(k).contains(x as usize) ==> #[trigger] fins[x] == starts[x]
            + p.durations@[x]
    &&& forall|x: int|
        0 <= x < p.n && !order.take(k).contains(x as usize) ==> #[trigger] starts[x] == 0
            && fins[x] == 0
    &&& forall|tau: int, kk: int|
        0 <= kk < p.capacities@.len() ==> #[trigger] usage_of(p, order.take(k), starts, tau, kk)
            <= p.capacities@[kk]
    &&& forall|i0: int, q: int|
        0 <= i0 < k && 0 <= q < prec[order[i0] as int]@.len() && #[trigger] order.take(i0).contains(
            prec[order[i0] as int]@[q],
        ) ==> fins[prec[order[i0] as int]@[q] as int] <= starts[order[i0] as int]
}

/// The builder's state invariants hold after every successful placement.
#[verifier::rlimit(60)]
pub proof fn lemma_state_props(p: Problem, prec: Seq<Vec<usize>>, order: Seq<usize>, k: int)
    requires
        p.wf(),
        valid_prec(prec, p.n as nat),
        is_permutation(order, p.n as nat),
        0 <= k <= order.len(),
        ssgs_state(p, prec, order, k) is Some,
    ensures
        state_props(
            p,
            prec,
            order,
            k,
            (ssgs_state(p, prec, order, k)->0).0,
            (ssgs_state(p, prec, order, k)->0).1,
        ),
    decreases k,
{
    lemma_sum_prefix_mono(p.durations@, 0, p.durations@.len() as int);
    if k <= 0 {
        assert(order.take(k) =~= Seq::<usize>::empty());
    } else {
        if ssgs_state(p, prec, order, k - 1) is None {
            lemma_state_none_stays(p, prec, order, k - 1, k);
            assert(false);
        }
        lemma_state_props(p, prec, order, k - 1);
        let st0 = ssgs_state(p, prec, order, k - 1)->0;
        let starts = st0.0;
        let fins = st0.1;
        let ju = order[k - 1];
        let j = ju as int;
        let dur = p.durations@[j] as int;
        let mst = prec_time(prec, fins, j);
        let hor = p.total_duration();
        let nq = prec[j]@.len() as int;
        lemma_prec_time_ge(prec, fins, j, nq);
        assert forall|x: int| 0 <= x < fins.len() implies #[trigger] fins[x] <= hor by {
            assert(starts[x] >= 0);
        }
        lemma_prec_time_le(prec, fins, j, nq, hor);
        assert(!order.take(k - 1).contains(ju)) by {
            if order.take(k - 1).contains(ju) {
                let h = choose|h: int| 0 <= h < k - 1 && #[trigger] order.take(k - 1)[h] == ju;
                assert(order[h] == order[k - 1]);
            }
        }
        assert(order.take(k) =~= order.take(k - 1).push(ju));
        let st = ssgs_state(p, prec, order, k)->0;
        let t: int = if dur == 0 {
            mst
        } else {
            find_start(p, order.take(k - 1), starts, j, mst)->0
        };
        if dur != 0 {
            lemma_find_start_some(p, order.take(k - 1), starts, j, mst);
        }
        let nstarts = starts.update(j, t);
        let nfins = fins.update(j, t + dur);
        assert(st.0 == nstarts && st.1 == nfins);
        // the new activity's window fits; every other instant is covered by
        // the induction hypothesis
        assert forall|tau: int, kk: int| 0 <= kk < p.capacities@.len() implies #[trigger] usage_of(
            p,
            order.take(k),
            nstarts,
            tau,
            kk,
        ) <= p.capacities@[kk] by {
            assert forall|i: int| 0 <= i < order.take(k - 1).len() implies (#[trigger] order.take(
                k - 1,
            )[i]) as int != j && (order.take(k - 1)[i] as int) < starts.len() by {
                if order.take(k - 1)[i] as int == j {
                    assert(order.take(k - 1).contains(ju));
                }
                assert(order.take(k - 1)[i] == order[i]);
            }
            lemma_usage_frame(p, order.take(k - 1), starts, j, t, tau, kk);
            lemma_usage_push(p, order.take(k - 1), nstarts, ju, tau, kk);
            assert(usage_of(p, order.take(k - 1), nstarts, tau, kk) == usage_of(
                p,
                order.take(k - 1),
                starts,
                tau,
                kk,
            ));
            if t <= tau < t + dur {
                assert(usage_of(p, order.take(k - 1), starts, tau, kk) + p.resources@[j]@[kk]
                    <= p.capacities@[kk]);
            }
        }
        // membership bookkeeping: the new activity is now placed, everything
        // else keeps its status and its values
        assert(order.take(k).contains(ju)) by {
            assert(order.take(k)[k - 1] == ju);
        }
        assert forall|x: usize| x != ju && #[trigger] order.take(k - 1).contains(x) implies order
            .take(k).contains(x) by {
            let h = choose|h: int| 0 <= h < k - 1 && #[trigger] order.take(k - 1)[h] == x;
            assert(order.take(k)[h] == x);
        }
        assert forall|x: usize| x != ju && #[trigger] order.take(k).contains(x) implies order.take(
            k - 1,
        ).contains(x) by {
            let h = choose|h: int| 0 <= h < k && #[trigger] order.take(k)[h] == x;
            assert(h < k - 1);
            assert(order.take(k - 1)[h] == x);
        }
        // the newly placed activity starts no earlier than each placed
        // predecessor finishes
        assert forall|i0: int, q: int|
            0 <= i0 < k && 0 <= q < prec[order[i0] as int]@.len() && #[trigger] order.take(
                i0,
            ).contains(prec[order[i0] as int]@[q]) implies nfins[prec[order[i0] as int]@[q] as int]
            <= nstarts[order[i0] as int] by {
            let pd = prec[order[i0] as int]@[q] as int;
            let h = choose|h: int| 0 <= h < i0 && #[trigger] order.take(i0)[h] == prec[order[i0] as int]@[q];
            assert(order[h] == prec[order[i0] as int]@[q]);
            assert(order.take(k - 1).contains(prec[order[i0] as int]@[q])) by {
                assert(order.take(k - 1)[h] == prec[order[i0] as int]@[q]);
            }
            assert(pd != j);
            if i0 < k - 1 {
                assert(order[i0] != ju);
                assert(nstarts[order[i0] as int] == starts[order[i0] as int]);
            } else {
                assert(fins[pd] <= mst);
                assert(mst <= t);
            }
        }
        assert(starts.len() == p.n && fins.len() == p.n);
        assert(nstarts.len() == p.n && nfins.len() == p.n);
        assert(forall|x: int|
            0 <= x < p.n ==> 0 <= #[trigger] nstarts[x] && nstarts[x] <= nfins[x] && nfins[x]
                <= p.total_duration());
        assert(forall|x: int|
            0 <= x < p.n && order.take(k).contains(x as usize) ==> #[trigger] nfins[x] == nstarts[x]
                + p.durations@[x]);
        assert(forall|x: int|
            0 <= x < p.n && !order.take(k).contains(x as usize) ==> #[trigger] nstarts[x] == 0
                && nfins[x] == 0);
        assert(state_props(p, prec, order, k, nstarts, nfins));
    }
}

/// An activity never appears among the activities placed before its own
/// position in an order without duplicates.
pub(crate) proof fn lemma_not_in_take(order: Seq<usize>, i: int)
    requires
        order.no_duplicates(),
        0 <= i < order.len(),
    ensures
        !order.take(i).contains(order[i]),
{
    if order.take(i).contains(order[i]) {
        let h = choose|h: int| 0 <= h < i && #[trigger] order.take(i)[h] == order[i];
        assert(order[h] == order[i]);
        assert(false);
    }
}

/// Viewing an updated machine-word sequence as integers commutes with the
/// update.
proof fn lemma_ints_update(s: Seq<usize>, j: int, v: usize)
    requires
        0 <= j < s.len(),
    ensures
        ints_of(s.update(j, v)) == ints_of(s).update(j, v as int),
{
    assert(ints_of(s.update(j, v)) =~= ints_of(s).update(j, v as int));
}

/// The largest finish time is bounded by any common bound on the entries
/// and is never negative.
pub proof fn lemma_max_fin_le(fins: Seq<int>, m: int, hb: int)
    requires
        hb >= 0,
        forall|x: int| 0 <= x < m ==> #[trigger] fins[x] <= hb,
    ensures
        0 <= max_fin(fins, m) <= hb,
    decreases m,
{
    if m > 0 {
        lemma_max_fin_le(fins, m - 1, hb);
    }
}

/// A vector of `len` zeros.
pub(crate) fn zero_vec(len: usize) -> (v: Vec<usize>)
    ensures
        v@.len() == len,
        forall|i: int| 0 <= i < len ==> v@[i] == 0,
{
    let mut v: Vec<usize> = Vec::new();
    let mut i: usize = 0;
    while i < len
        invariant
            i <= len,
            v@.len() == i,
            forall|x: int| 0 <= x < i ==> v@[x] == 0,
        decreases len - i,
    {
        v.push(0);
        i = i + 1;
    }
    v
}

/// The sum of all durations, the schedule search horizon.
#[verifier::loop_isolation(false)]
fn compute_horizon(problem: &Problem) -> (h: usize)
    requires
        problem.wf(),
        problem.bounds_ok(),
    ensures
        h as int == problem.total_duration(),
{
    let n = problem.durations.len();
    let mut hsum: usize = 0;
    let mut d: usize = 0;
    while d < n
        invariant
            d <= n,
            hsum as int == sum_prefix(problem.durations@, d as int),
        decreases n - d,
    {
        proof {
            lemma_sum_prefix_mono(problem.durations@, d as int + 1, n as int);
            lemma_sum_prefix_mono(problem.durations@, 0, d as int + 1);
        }
        hsum = hsum + problem.durations[d];
        d = d + 1;
    }
    hsum
}

/// The serial schedule generation scheme over an explicit predecessor
/// relation (the instance's own, or its reverse for the backward
/// justification pass).  Places each activity of `order` in turn at the
/// earliest precedence- and resource-feasible start; reports a horizon
/// overrun if an activity cannot be placed within the sum of all durations.
///
/// On success the returned start times and makespan are exactly the ones
/// the mathematical builder assigns — the result is a pure function of the
/// inputs — the usage of every resource stays within its capacity at every
/// instant, and whenever the order is precedence-feasible every activity
/// starts no earlier than each of its predecessors finishes.
#[verifier::loop_isolation(false)]
#[verifier::rlimit(100)]
pub(crate) fn custom_ssgs(
    problem: &Problem,
    order: &Vec<usize>,
    precedences: &Vec<Vec<usize>>,
) -> (r: Result<(Vec<usize>, usize), ScheduleError>)
    requires
        problem.wf(),
        problem.bounds_ok(),
        valid_prec(precedences@, problem.n as nat),
        is_permutation(order@, problem.n as nat),
    ensures
        (r is Ok) == ssgs_ok(*problem, precedences@, order@),
        demands_fit(*problem) ==> r is Ok,
        r is Ok ==> (r->Ok_0).0@.len() == problem.n && ints_of((r->Ok_0).0@) == ssgs_starts(
            *problem,
            precedences@,
            order@,
        ),
        r is Ok ==> (r->Ok_0).1 as int == ssgs_makespan(*problem, precedences@, order@),
        r is Ok ==> (r->Ok_0).1 as int <= problem.total_duration(),
        r is Ok ==> ssgs_starts(*problem, precedences@, order@).len() == problem.n && ssgs_fins(
            *problem,
            precedences@,
            order@,
        ).len() == problem.n,
        r is Ok ==> forall|x: int|
            0 <= x < problem.n ==> #[trigger] ssgs_fins(*problem, precedences@, order@)[x]
                == ssgs_starts(*problem, precedences@, order@)[x] + problem.durations@[x]
                && 0 <= ssgs_starts(*problem, precedences@, order@)[x] && ssgs_fins(
                *problem,
                precedences@,
                order@,
            )[x] <= problem.total_duration(),
        r is Ok ==> forall|tau: int, kk: int|
            0 <= kk < problem.capacities@.len() ==> #[trigger] usage_of(
                *problem,
                order@,
                ssgs_starts(*problem, precedences@, order@),
                tau,
                kk,
            ) <= problem.capacities@[kk],
        r is Ok && precedence_feasible(order@, precedences@) ==> forall|j: int, q: int|
            0 <= j < problem.n && 0 <= q < precedences@[j]@.len() ==> ssgs_starts(
                *problem,
                precedences@,
                order@,
            )[#[trigger] precedences@[j]@[q] as int] + problem.durations@[precedences@[j]@[q] as int]
                <= ssgs_starts(*problem, precedences@, order@)[j],
{
    let ghost p = *problem;
    let ghost prec0 = precedences@;
    let ghost ord = order@;
    let n = problem.n;
    let horizon = compute_horizon(problem);
    let num_res = problem.capacities.len();
    let table_len = horizon * num_res;
    let mut usage = zero_vec(table_len);
    let mut start = zero_vec(n);
    let mut finish = zero_vec(n);
    proof {
        assert(ints_of(start@) =~= Seq::new(p.n as nat, |x: int| 0));
        assert(ints_of(finish@) =~= Seq::new(p.n as nat, |x: int| 0));
        assert(ord.take(0) =~= Seq::<usize>::empty());
        assert(ssgs_state(p, prec0, ord, 0) == Some((ints_of(start@), ints_of(finish@))));
        assert forall|a: int, b: int|
            0 <= a < horizon && 0 <= b < num_res implies #[trigger] usage@[a * (num_res as int)
            + b] as int == usage_of(p, ord.take(0), ints_of(start@), a, b) by {
            assert(0 <= a * (num_res as int) + b && a * (num_res as int) + b < (horizon as int) * (
            num_res as int)) by (nonlinear_arith)
                requires
                    0 <= a,
                    a < horizon as int,
                    0 <= b,
                    b < num_res as int,
            ;
        }
    }
    let mut i: usize = 0;
    while i < n
        invariant
            i <= n,
            start@.len() == n,
            finish@.len() == n,
            usage@.len() == table_len,
            ssgs_state(p, prec0, ord, i as int) == Some((ints_of(start@), ints_of(finish@))),
            forall|a: int, b: int|
                0 <= a < horizon && 0 <= b < num_res ==> #[trigger] usage@[a * (num_res as int) + b]
                    as int == usage_of(p, ord.take(i as int), ints_of(start@), a, b),
        decreases n - i,
    {
        proof {
            lemma_state_props(p, prec0, ord, i as int);
            assert(state_props(p, prec0, ord, i as int, ints_of(start@), ints_of(finish@)));
            lemma_not_in_take(ord, i as int);
            assert(ord.take(i as int + 1) =~= ord.take(i as int).push(ord[i as int]));
        }
        let ghost starts0 = ints_of(start@);
        let ghost fins0 = ints_of(finish@);
        let j = order[i];
        let dur = problem.durations[j];
        proof {
            lemma_entry_le_sum(p.durations@, j as int);
        }
        let np = precedences[j].len();
        let mut mst: usize = 0;
        let mut q: usize = 0;
        while q < np
            invariant
                q <= np,
                mst as int == prec_time_upto(prec0, fins0, j as int, q as int),
                mst <= horizon,
            decreases np - q,
        {
            let pd = precedences[j][q];
            let f = finish[pd];
            proof {
                assert(ints_of(finish@)[pd as int] == finish@[pd as int]);
                assert(starts0[pd as int] >= 0);
                assert(fins0[pd as int] <= p.total_duration());
            }
            if f > mst {
                mst = f;
            }
            q = q + 1;
        }
        assert(mst as int == prec_time(prec0, fins0, j as int));
        proof {
            assert forall|h: int|
                0 <= h < ord.take(i as int).len() implies (#[trigger] ord.take(i as int)[h]) as int
                != j as int && (ord.take(i as int)[h] as int) < starts0.len() by {
                if ord.take(i as int)[h] == j {
                    assert(ord.take(i as int).contains(ord[i as int]));
                }
                assert(ord.take(i as int)[h] == ord[h]);
            }
        }
        if dur == 0 {
            start[j] = mst;
            finish[j] = mst;
            proof {
                assert(ints_of(start@) == starts0.update(j as int, mst as int)) by {
                    assert(ints_of(start@) =~= starts0.update(j as int, mst as int));
                }
                assert(ints_of(finish@) == fins0.update(j as int, mst as int)) by {
                    assert(ints_of(finish@) =~= fins0.update(j as int, mst as int));
                }
                assert(ssgs_state(p, prec0, ord, i as int + 1) == Some(
                    (ints_of(start@), ints_of(finish@)),
                ));
                assert forall|a: int, b: int| 0 <= a < horizon && 0 <= b < num_res implies #[trigger] usage@[a * (num_res as int) + b] as int == usage_of(p, ord.take(i as int + 1), ints_of(start@), a, b) by {
                    assert(0 <= a * (num_res as int) + b && a * (num_res as int) + b < (
                    horizon as int) * (num_res as int)) by (nonlinear_arith)
                        requires
                            0 <= a,
                            a < horizon as int,
                            0 <= b,
                            b < num_res as int,
                    ;
                    assert forall|h: int|
                        0 <= h < ord.take(i as int).len() implies (#[trigger] ord.take(
                        i as int,
                    )[h]) as int != j as int && (ord.take(i as int)[h] as int) < starts0.len() by {
                        if ord.take(i as int)[h] == j {
                            assert(ord.take(i as int).contains(ord[i as int]));
                        }
                        assert(ord.take(i as int)[h] == ord[h]);
                    }
                    lemma_usage_frame(
                        p,
                        ord.take(i as int),
                        starts0,
                        j as int,
                        mst as int,
                        a,
                        b,
                    );
                    lemma_usage_push(p, ord.take(i as int), ints_of(start@), j, a, b);
                }
            }
        } else {
            let ghost usage0 = usage@;
            let ghost startv0 = start@;
            let ghost finishv0 = finish@;
            let mut t = mst;
            let mut done = false;
            while !done
                invariant
                    mst <= t,
                    t <= horizon,
                    start@.len() == n,
                    finish@.len() == n,
                    usage@.len() == table_len,
                    !done ==> usage@ == usage0 && start@ == startv0 && finish@ == finishv0,
                    !done ==> find_start(p, ord.take(i as int), starts0, j as int, mst as int)
                        == find_start(p, ord.take(i as int), starts0, j as int, t as int),
                    done ==> t + dur <= horizon && find_start(
                        p,
                        ord.take(i as int),
                        starts0,
                        j as int,
                        mst as int,
                    ) == Some(t as int) && start@ == startv0.update(j as int, t) && finish@
                        == finishv0.update(j as int, ((t + dur) as usize)) && forall|a: int, b: int|
                        0 <= a < horizon && 0 <= b < num_res ==> #[trigger] usage@[a * (
                        num_res as int) + b] as int == usage_of(p, ord.take(i as int), starts0, a, b)
                            + (if t <= a < t + dur {
                            p.resources@[j as int]@[b] as int
                        } else {
                            0
                        }),
                decreases (if done {
                    0int
                } else {
                    horizon as int + 1 - t as int
                }),
            {
                if t + dur > horizon {
                    proof {
                        assert(find_start(p, ord.take(i as int), starts0, j as int, t as int)
                            is None);
                        assert(ssgs_state(p, prec0, ord, i as int + 1) is None);
                        lemma_state_none_stays(p, prec0, ord, i as int + 1, n as int);
                        if demands_fit(p) {
                            lemma_ssgs_total(p, prec0, ord, n as int);
                        }
                    }
                    return Err(ScheduleError::HorizonExceeded);
                }
                let mut ok = true;
                let mut tau = t;
                while tau < t + dur && ok
                    invariant
                        t <= tau <= t + dur,
                        t + dur <= horizon,
                        ok ==> forall|a: int, b: int|
                            t <= a < tau && 0 <= b < num_res ==> #[trigger] usage_of(
                                p,
                                ord.take(i as int),
                                starts0,
                                a,
                                b,
                            ) + p.resources@[j as int]@[b] <= p.capacities@[b],
                        !ok ==> !window_ok(p, ord.take(i as int), starts0, j as int, t as int),
                    decreases t + dur - tau + (if ok { 1int } else { 0int }),
                {
                    let mut b: usize = 0;
                    while b < num_res && ok
                        invariant
                            b <= num_res,
                            t <= tau < t + dur,
                            t + dur <= horizon,
                            ok ==> forall|a2: int, b2: int|
                                t <= a2 < tau && 0 <= b2 < num_res ==> #[trigger] usage_of(
                                    p,
                                    ord.take(i as int),
                                    starts0,
                                    a2,
                                    b2,
                                ) + p.resources@[j as int]@[b2] <= p.capacities@[b2],
                            ok ==> forall|b2: int|
                                0 <= b2 < b ==> #[trigger] usage_of(
                                    p,
                                    ord.take(i as int),
                                    starts0,
                                    tau as int,
                                    b2,
                                ) + p.resources@[j as int]@[b2] <= p.capacities@[b2],
                            !ok ==> !window_ok(p, ord.take(i as int), starts0, j as int, t as int),
                        decreases num_res - b,
                    {
                        proof {
                            assert((tau as int) * (num_res as int) + (b as int) < (horizon as int)
                                * (num_res as int)) by (nonlinear_arith)
                                requires
                                    0 <= tau as int,
                                    (tau as int) < horizon as int,
                                    0 <= b as int,
                                    (b as int) < num_res as int,
                            ;
                        }
                        let u = usage[tau * num_res + b];
                        proof {
                            assert(u as int == usage_of(
                                p,
                                ord.take(i as int),
                                starts0,
                                tau as int,
                                b as int,
                            ));
                        }
                        if problem.resources[j][b] > problem.capacities[b] - u {
                            proof {
                                assert(!window_ok(
                                    p,
                                    ord.take(i as int),
                                    starts0,
                                    j as int,
                                    t as int,
                                )) by {
                                    if window_ok(p, ord.take(i as int), starts0, j as int, t as int) {
                                        assert(usage_of(
                                            p,
                                            ord.take(i as int),
                                            starts0,
                                            tau as int,
                                            b as int,
                                        ) + p.resources@[j as int]@[b as int]
                                            <= p.capacities@[b as int]);
                                    }
                                }
                            }
                            ok = false;
                        }
                        b = b + 1;
                    }
                    if ok {
                        tau = tau + 1;
                    }
                }
                if ok {
                    proof {
                        assert(window_ok(p, ord.take(i as int), starts0, j as int, t as int));
                        assert(find_start(p, ord.take(i as int), starts0, j as int, t as int)
                            == Some(t as int));
                    }
                    let mut tau2 = t;
                    while tau2 < t + dur
                        invariant
                            t <= tau2 <= t + dur,
                            t + dur <= horizon,
                            usage@.len() == table_len,
                            forall|a: int, b: int|
                                0 <= a < horizon && 0 <= b < num_res ==> #[trigger] usage@[a * (
                                num_res as int) + b] as int == usage_of(
                                    p,
                                    ord.take(i as int),
                                    starts0,
                                    a,
                                    b,
                                ) + (if t <= a < tau2 {
                                    p.resources@[j as int]@[b] as int
                                } else {
                                    0
                                }),
                        decreases t + dur - tau2,
                    {
                        let mut b: usize = 0;
                        while b < num_res
                            invariant
                                b <= num_res,
                                t <= tau2 < t + dur,
                                t + dur <= horizon,
                                usage@.len() == table_len,
                                forall|a: int, b2: int|
                                    0 <= a < horizon && 0 <= b2 < num_res ==> #[trigger] usage@[a
                                        * (num_res as int) + b2] as int == usage_of(
                                        p,
                                        ord.take(i as int),
                                        starts0,
                                        a,
                                        b2,
                                    ) + (if (t <= a < tau2) || (a == tau2 && b2 < b) {
                                        p.resources@[j as int]@[b2] as int
                                    } else {
                                        0
                                    }),
                            decreases num_res - b,
                        {
                            proof {
                                assert((tau2 as int) * (num_res as int) + (b as int) < (
                                horizon as int) * (num_res as int)) by (nonlinear_arith)
                                    requires
                                        0 <= tau2 as int,
                                        (tau2 as int) < horizon as int,
                                        0 <= b as int,
                                        (b as int) < num_res as int,
                                ;
                                assert(usage_of(
                                    p,
                                    ord.take(i as int),
                                    starts0,
                                    tau2 as int,
                                    b as int,
                                ) + p.resources@[j as int]@[b as int] <= p.capacities@[b as int]);
                            }
                            let idx2 = tau2 * num_res + b;
                            let u = usage[idx2];
                            let ghost usage_pre = usage@;
                            usage[idx2] = u + problem.resources[j][b];
                            proof {
                                assert forall|a: int, b2: int|
                                    0 <= a < horizon && 0 <= b2 < num_res && !(a == tau2 as int
                                        && b2 == b as int) implies #[trigger] usage@[a * (
                                num_res as int) + b2] == usage_pre[a * (num_res as int) + b2] by {
                                    assert(0 <= a * (num_res as int) + b2 && a * (num_res as int)
                                        + b2 < (horizon as int) * (num_res as int))
                                        by (nonlinear_arith)
                                        requires
                                            0 <= a,
                                            a < horizon as int,
                                            0 <= b2,
                                            b2 < num_res as int,
                                    ;
                                    assert(a * (num_res as int) + b2 != (tau2 as int) * (
                                    num_res as int) + (b as int)) by (nonlinear_arith)
                                        requires
                                            0 <= b2,
                                            b2 < num_res as int,
                                            0 <= (b as int),
                                            (b as int) < num_res as int,
                                            !(a == tau2 as int && b2 == b as int),
                                    ;
                                }
                            }
                            b = b + 1;
                        }
                        tau2 = tau2 + 1;
                    }
                    proof {
                        lemma_ints_update(start@, j as int, t);
                        lemma_ints_update(finish@, j as int, ((t + dur) as usize));
                    }
                    start[j] = t;
                    finish[j] = t + dur;
                    done = true;
                } else {
                    proof {
                        assert(find_start(p, ord.take(i as int), starts0, j as int, t as int)
                            == find_start(
                            p,
                            ord.take(i as int),
                            starts0,
                            j as int,
                            t as int + 1,
                        ));
                    }
                    t = t + 1;
                }
            }
            proof {
                lemma_ints_update(startv0, j as int, t);
                lemma_ints_update(finishv0, j as int, ((t + dur) as usize));
                assert(ints_of(start@) == starts0.update(j as int, t as int));
                assert(ints_of(finish@) == fins0.update(j as int, t as int + dur as int));
                assert(ssgs_state(p, prec0, ord, i as int + 1) == Some(
                    (ints_of(start@), ints_of(finish@)),
                ));
                assert forall|a: int, b: int| 0 <= a < horizon && 0 <= b < num_res implies #[trigger] usage@[a * (num_res as int) + b] as int == usage_of(p, ord.take(i as int + 1), ints_of(start@), a, b) by {
                    assert(0 <= a * (num_res as int) + b && a * (num_res as int) + b < (
                    horizon as int) * (num_res as int)) by (nonlinear_arith)
                        requires
                            0 <= a,
                            a < horizon as int,
                            0 <= b,
                            b < num_res as int,
                    ;
                    lemma_usage_frame(p, ord.take(i as int), starts0, j as int, t as int, a, b);
                    lemma_usage_push(p, ord.take(i as int), ints_of(start@), j, a, b);
                }
            }
        }
        i = i + 1;
    }
    proof {
        assert(ord.take(n as int) =~= ord);
        lemma_state_props(p, prec0, ord, n as int);
        assert forall|x: int| 0 <= x < p.n implies #[trigger] ord.contains(x as usize) by {
            lemma_perm_contains(ord, p.n as nat, x as usize);
        }
        let fstarts = ints_of(start@);
        let ffins = ints_of(finish@);
        assert(ssgs_starts(p, prec0, ord) == fstarts);
        assert(ssgs_fins(p, prec0, ord) == ffins);
        assert forall|x: int|
            0 <= x < p.n implies #[trigger] ffins[x] == fstarts[x] + p.durations@[x] && 0
            <= fstarts[x] && ffins[x] <= p.total_duration() by {
            assert(ord.take(n as int).contains(x as usize));
            assert(fstarts[x] >= 0);
        }
        lemma_max_fin_le(ffins, p.n as int, p.total_duration());
        if precedence_feasible(ord, prec0) {
            assert forall|j2: int, q: int|
                0 <= j2 < p.n && 0 <= q < prec0[j2]@.len() implies fstarts[#[trigger] prec0[j2]@[q]
                as int] + p.durations@[prec0[j2]@[q] as int] <= fstarts[j2] by {
                assert(ord.contains(j2 as usize));
                let i0 = choose|i0: int| 0 <= i0 < ord.len() && #[trigger] ord[i0] == j2 as usize;
                let pdq = prec0[j2]@[q];
                assert(0 <= ord[i0] < prec0.len());
                assert(placed_before(ord, prec0, i0, q));
                let h = choose|h: int|
                    0 <= h < i0 && #[trigger] ord[h] == prec0[ord[i0] as int]@[q];
                assert(ord.take(i0).contains(pdq)) by {
                    assert(ord.take(i0)[h] == ord[h]);
                }
                assert(ffins[pdq as int] <= fstarts[ord[i0] as int]);
                assert(ffins[pdq as int] == fstarts[pdq as int] + p.durations@[pdq as int]);
            }
        }
    }
    let mut mk: usize = 0;
    let mut x: usize = 0;
    while x < n
        invariant
            x <= n,
            mk as int == max_fin(ints_of(finish@), x as int),
        decreases n - x,
    {
        let f = finish[x];
        if f > mk {
            mk = f;
        }
        x = x + 1;
    }
    Ok((start, mk))
}

/// Builds the schedule of `order` under the instance's own (forward)
/// predecessor relation: start times and makespan, or a horizon overrun.
///
/// The result is a pure function of the problem and the order; on success
/// every resource stays within its capacity at every instant, and for a
/// precedence-feasible order every activity starts no earlier than each of
/// its predecessors finishes.
pub fn serial_schedule(problem: &Problem, order: &Vec<usize>) -> (r: Result<
    (Vec<usize>, usize),
    ScheduleError,
>)
    requires
        problem.wf(),
        problem.bounds_ok(),
        is_permutation(order@, problem.n as nat),
    ensures
        (r is Ok) == ssgs_ok(*problem, problem.prec(), order@),
        demands_fit(*problem) ==> r is Ok,
        r is Ok ==> (r->Ok_0).0@.len() == problem.n && ints_of((r->Ok_0).0@) == ssgs_starts(
            *problem,
            problem.prec(),
            order@,
        ),
        r is Ok ==> (r->Ok_0).1 as int == ssgs_makespan(*problem, problem.prec(), order@),
        r is Ok ==> (r->Ok_0).1 as int <= problem.total_duration(),
        r is Ok ==> ssgs_starts(*problem, problem.prec(), order@).len() == problem.n && ssgs_fins(
            *problem,
            problem.prec(),
            order@,
        ).len() == problem.n,
        r is Ok ==> forall|x: int|
            0 <= x < problem.n ==> #[trigger] ssgs_fins(*problem, problem.prec(), order@)[x]
                == ssgs_starts(*problem, problem.prec(), order@)[x] + problem.durations@[x] && 0
                <= ssgs_starts(*problem, problem.prec(), order@)[x] && ssgs_fins(
                *problem,
                problem.prec(),
                order@,
            )[x] <= problem.total_duration(),
        r is Ok ==> forall|tau: int, kk: int|
            0 <= kk < problem.capacities@.len() ==> #[trigger] usage_of(
                *problem,
                order@,
                ssgs_starts(*problem, problem.prec(), order@),
                tau,
                kk,
            ) <= problem.capacities@[kk],
        r is Ok && precedence_feasible(order@, problem.prec()) ==> forall|j: int, q: int|
            0 <= j < problem.n && 0 <= q < problem.prec()[j]@.len() ==> ssgs_starts(
                *problem,
                problem.prec(),
                order@,
            )[#[trigger] problem.prec()[j]@[q] as int] + problem.durations@[problem.prec()[j]@[q]
                as int] <= ssgs_starts(*problem, problem.prec(), order@)[j],
{
    custom_ssgs(problem, order, &problem.precedences)
}

/// The fitness of a chromosome: its makespan under the schedule builder,
/// or the worst possible value when the builder reports a horizon overrun.
pub open spec fn spec_fitness(p: Problem, order: Seq<usize>) -> int {
    if ssgs_ok(p, p.prec(), order) {
        ssgs_makespan(p, p.prec(), order)
    } else {
        usize::MAX as int
    }
}

/// The makespan of a chromosome, the genetic algorithm's minimization
/// objective; a horizon overrun counts as the worst possible fitness.
pub fn fitness(problem: &Problem, chrom: &Vec<usize>) -> (f: usize)
    requires
        problem.wf(),
        problem.bounds_ok(),
        is_permutation(chrom@, problem.n as nat),
    ensures
        f as int == spec_fitness(*problem, chrom@),
        (f < usize::MAX) == ssgs_ok(*problem, problem.prec(), chrom@),
        demands_fit(*problem) ==> f < usize::MAX,
{
    proof {
        lemma_sum_prefix_mono(problem.durations@, 0, problem.durations@.len() as int);
    }
    match serial_schedule(problem, chrom) {
        Ok(sm) => sm.1,
        Err(_) => usize::MAX,
    }
}

/// The finish time of each activity given its start time.
pub open spec fn finish_times(p: Problem, start: Seq<usize>) -> Seq<int> {
    Seq::new(p.n as nat, |x: int| start[x] + p.durations@[x])
}

/// Whether an activity is critical in the schedule the builder assigns to
/// `order`: its finish time equals the makespan.
pub open spec fn critical_pred(p: Problem, order: Seq<usize>) -> spec_fn(usize) -> bool {
    |g: usize|
        g < p.n && ssgs_fins(p, p.prec(), order)[g as int] == ssgs_makespan(p, p.prec(), order)
}

/// The complement of a predicate on activities.
pub open spec fn not_pred(f: spec_fn(usize) -> bool) -> spec_fn(usize) -> bool {
    |g: usize| !f(g)
}

/// The critical activities of a schedule: those whose finish time equals
/// the largest finish time (the makespan).
#[verifier::loop_isolation(false)]
pub fn critical_activities(problem: &Problem, start: &Vec<usize>) -> (crit: std::collections::HashSet<
    usize,
>)
    requires
        problem.wf(),
        start@.len() == problem.n,
        forall|x: int| 0 <= x < problem.n ==> #[trigger] start@[x] + problem.durations@[x] < usize::MAX,
    ensures
        forall|x: usize|
            #[trigger] crit@.contains(x) <==> x < problem.n && finish_times(*problem, start@)[
            x as int] == max_fin(finish_times(*problem, start@), problem.n as int),
{
    broadcast use vstd::std_specs::hash::group_hash_axioms;

    let ghost fseq = finish_times(*problem, start@);
    let n = problem.n;
    let mut finish: Vec<usize> = Vec::new();
    let mut cmax: usize = 0;
    let mut i: usize = 0;
    while i < n
        invariant
            i <= n,
            n == problem.n,
            finish@.len() == i,
            forall|x: int| 0 <= x < i ==> #[trigger] finish@[x] as int == fseq[x],
            cmax as int == max_fin(fseq, i as int),
        decreases n - i,
    {
        let f = start[i] + problem.durations[i];
        finish.push(f);
        if f > cmax {
            cmax = f;
        }
        i = i + 1;
    }
    let mut crit: std::collections::HashSet<usize> = std::collections::HashSet::new();
    let mut x: usize = 0;
    while x < n
        invariant
            x <= n,
            n == problem.n,
            finish@.len() == n,
            forall|y: int| 0 <= y < n ==> #[trigger] finish@[y] as int == fseq[y],
            cmax as int == max_fin(fseq, n as int),
            forall|y: usize|
                #[trigger] crit@.contains(y) <==> y < x && fseq[y as int] == max_fin(
                    fseq,
                    n as int,
                ),
        decreases n - x,
    {
        if finish[x] == cmax {
            crit.insert(x);
        }
        x = x + 1;
    }
    crit
}

} // verus!
