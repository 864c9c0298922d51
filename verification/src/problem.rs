//! The problem description and the specification-level vocabulary shared by
//! every component: well-formedness of an instance, acyclicity of the
//! precedence relation, and what it means for an activity order to be a
//! permutation or precedence-feasible.

use vstd::prelude::*;

verus! {

/// An RCPSP instance: `n` activities indexed `0..n-1`, each with a duration
/// and one demand per renewable resource; `precedences[j]` lists the direct
/// predecessors of `j`; `capacities[k]` is the fixed capacity of resource `k`.
#[derive(Clone)]
pub struct Problem {
    pub n: usize,
    pub durations: Vec<usize>,
    pub capacities: Vec<usize>,
    pub precedences: Vec<Vec<usize>>,
    pub resources: Vec<Vec<usize>>,
}

/// The predecessor lists have one entry per activity and every listed
/// predecessor is a valid activity index.
pub open spec fn valid_prec(prec: Seq<Vec<usize>>, n: nat) -> bool {
    &&& prec.len() == n
    &&& forall|j: int, q: int|
        0 <= j < n && 0 <= q < prec[j]@.len() ==> (#[trigger] prec[j]@[q]) < n
}

/// A precedence relation is acyclic when some ranking of the activities
/// places every predecessor strictly below its successor.
pub open spec fn acyclic(prec: Seq<Vec<usize>>) -> bool {
    exists|rank: Seq<int>|
        rank.len() == prec.len() && forall|j: int, q: int|
            0 <= j < prec.len() && 0 <= q < prec[j]@.len() ==> rank[#[trigger] prec[j]@[q] as int]
                < rank[j]
}

impl Problem {
    /// Dimensional consistency: every per-activity array has `n` entries,
    /// every demand vector has one entry per capacity entry, and every
    /// predecessor index is in range.
    pub open spec fn wf(self) -> bool {
        &&& self.durations@.len() == self.n
        &&& self.precedences@.len() == self.n
        &&& self.resources@.len() == self.n
        &&& forall|j: int|
            0 <= j < self.n ==> (#[trigger] self.resources@[j])@.len() == self.capacities@.len()
        &&& forall|j: int|
            0 <= j < self.n ==> (#[trigger] self.precedences@[j])@.no_duplicates()
        &&& valid_prec(self.prec(), self.n as nat)
    }

    /// The predecessor relation as a sequence of predecessor lists.
    pub open spec fn prec(self) -> Seq<Vec<usize>> {
        self.precedences@
    }

    /// The sum of all durations: a safe scheduling horizon, since running
    /// every activity back to back never takes longer.
    pub open spec fn total_duration(self) -> int {
        sum_prefix(self.durations@, self.durations@.len() as int)
    }

    /// The machine-size bounds under which the schedule builder's usage
    /// table and time arithmetic cannot overflow.
    pub open spec fn bounds_ok(self) -> bool {
        &&& self.total_duration() * self.capacities@.len() < usize::MAX
        &&& 2 * self.total_duration() < usize::MAX
    }
}

/// Sum of the first `k` entries of `s`.
pub open spec fn sum_prefix(s: Seq<usize>, k: int) -> int
    decreases k,
{
    if k <= 0 {
        0
    } else {
        sum_prefix(s, k - 1) + s[k - 1]
    }
}

/// An order is a permutation of the `n` activities: it has length `n`, every
/// entry is a valid index, and no entry repeats.
pub open spec fn is_permutation(s: Seq<usize>, n: nat) -> bool {
    &&& s.len() == n
    &&& forall|i: int| 0 <= i < n ==> (#[trigger] s[i]) < n
    &&& s.no_duplicates()
}

/// The predecessor at position `q` of the activity at position `i` of the
/// order appears somewhere before position `i`.
pub open spec fn placed_before(s: Seq<usize>, prec: Seq<Vec<usize>>, i: int, q: int) -> bool {
    exists|h: int| 0 <= h < i && s[h] == prec[s[i] as int]@[q]
}

/// Every predecessor of an activity appears earlier in the order than the
/// activity itself: the invariant the repair operator maintains across the
/// whole evolutionary pipeline.
pub open spec fn precedence_feasible(s: Seq<usize>, prec: Seq<Vec<usize>>) -> bool {
    forall|i: int, q: int|
        0 <= i < s.len() && 0 <= s[i] < prec.len() && 0 <= q < prec[s[i] as int]@.len()
            ==> #[trigger] placed_before(s, prec, i, q)
}

/// A sequence of distinct values drawn from `{0..n-1}` has at most `n`
/// entries.
pub proof fn lemma_distinct_below_len(s: Seq<usize>, n: nat)
    requires
        s.no_duplicates(),
        forall|i: int| 0 <= i < s.len() ==> (#[trigger] s[i]) < n,
    ensures
        s.len() <= n,
{
    broadcast use vstd::set::group_set_axioms;

    let f = |x: usize| x as int;
    assert(vstd::relations::injective(f));
    s.lemma_no_duplicates_injective(f);
    let ints = s.map_values(f);
    ints.unique_seq_to_set();
    let rng = vstd::set_lib::set_int_range(0, n as int);
    vstd::set_lib::lemma_int_range(0, n as int);
    assert forall|y: int| ints.to_set().contains(y) implies rng.contains(y) by {
        let i = choose|i: int| 0 <= i < ints.len() && ints[i] == y;
        assert(s[i] < n);
    }
    vstd::set_lib::lemma_len_subset(ints.to_set(), rng);
}

/// Every value below `n` occurs in a permutation of `{0..n-1}`.
pub proof fn lemma_perm_contains(s: Seq<usize>, n: nat, v: usize)
    requires
        is_permutation(s, n),
        v < n,
    ensures
        s.contains(v),
{
    broadcast use vstd::set::group_set_axioms;

    if !s.contains(v) {
        let f = |x: usize| x as int;
        assert(vstd::relations::injective(f));
        s.lemma_no_duplicates_injective(f);
        let ints = s.map_values(f);
        ints.unique_seq_to_set();
        let rng = vstd::set_lib::set_int_range(0, n as int).remove(v as int);
        vstd::set_lib::lemma_int_range(0, n as int);
        assert forall|y: int| ints.to_set().contains(y) implies rng.contains(y) by {
            let i = choose|i: int| 0 <= i < ints.len() && ints[i] == y;
            assert(s[i] < n);
            assert(s.contains(s[i]));
        }
        vstd::set_lib::lemma_len_subset(ints.to_set(), rng);
        assert(false);
    }
}

/// A sequence of distinct values drawn from `{0..n-1}` that contains every
/// such value is a permutation of `{0..n-1}`.
pub proof fn lemma_distinct_cover_is_perm(s: Seq<usize>, n: nat)
    requires
        n <= usize::MAX,
        s.no_duplicates(),
        forall|i: int| 0 <= i < s.len() ==> (#[trigger] s[i]) < n,
        forall|v: usize| v < n ==> s.contains(v),
    ensures
        is_permutation(s, n),
{
    broadcast use vstd::set::group_set_axioms;

    lemma_distinct_below_len(s, n);
    let f = |x: usize| x as int;
    assert(vstd::relations::injective(f));
    s.lemma_no_duplicates_injective(f);
    let ints = s.map_values(f);
    ints.unique_seq_to_set();
    let rng = vstd::set_lib::set_int_range(0, n as int);
    vstd::set_lib::lemma_int_range(0, n as int);
    assert forall|y: int| rng.contains(y) implies ints.to_set().contains(y) by {
        assert(0 <= y < n);
        assert(s.contains(y as usize));
        let i = choose|i: int| 0 <= i < s.len() && s[i] == y as usize;
        assert(0 <= i < s.len() && s[i] == y as usize);
        assert(ints[i] == f(s[i]));
        assert(f(s[i]) == (y as usize) as int);
        assert((y as usize) as int == y);
        assert(ints.contains(y));
    }
    vstd::set_lib::lemma_len_subset(rng, ints.to_set());
}

/// Appending an element adds exactly that value to what a sequence
/// contains.
pub proof fn lemma_push_contains(s: Seq<usize>, u: usize)
    ensures
        forall|v: usize| #[trigger] s.push(u).contains(v) <==> (s.contains(v) || v == u),
{
    assert(s.push(u)[s.len() as int] == u);
    assert forall|v: usize| #[trigger] s.push(u).contains(v) && v != u implies s.contains(v) by {
        let h = choose|h: int| 0 <= h < s.push(u).len() && #[trigger] s.push(u)[h] == v;
        assert(h < s.len());
        assert(s[h] == v);
    }
    assert forall|v: usize| s.contains(v) implies #[trigger] s.push(u).contains(v) by {
        let h = choose|h: int| 0 <= h < s.len() && #[trigger] s[h] == v;
        assert(s.push(u)[h] == v);
    }
}

/// Appending a fresh element keeps a sequence duplicate-free.
pub proof fn lemma_push_no_dup(s: Seq<usize>, u: usize)
    requires
        s.no_duplicates(),
        !s.contains(u),
    ensures
        s.push(u).no_duplicates(),
{
    assert forall|i: int, j: int|
        0 <= i < j < s.push(u).len() implies s.push(u)[i] != s.push(u)[j] by {
        if j == s.len() {
            assert(s.contains(s[i]));
        }
    }
}

/// Two sequences with the same multiset of entries are permutations of
/// `{0..n-1}` together.
pub proof fn lemma_multiset_perm(a: Seq<usize>, b: Seq<usize>, n: nat)
    requires
        a.to_multiset() == b.to_multiset(),
        is_permutation(a, n),
    ensures
        is_permutation(b, n),
{
    broadcast use vstd::seq_lib::group_to_multiset_ensures;

    a.lemma_multiset_has_no_duplicates();
    b.lemma_multiset_has_no_duplicates_conv();
    assert(b.len() == b.to_multiset().len());
    assert(a.len() == a.to_multiset().len());
    assert forall|i: int| 0 <= i < b.len() implies (#[trigger] b[i]) < n by {
        assert(b.contains(b[i]));
        assert(b.to_multiset().count(b[i]) > 0);
        assert(a.contains(b[i]));
        let h = choose|h: int| 0 <= h < a.len() && #[trigger] a[h] == b[i];
    }
}

} // verus!
