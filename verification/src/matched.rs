//! The record of one search result and the order in which results are sorted.
//!
//! A [`MatchedItem`] refers to its candidate by position, and carries a
//! [`Rank`] and, where one was computed, the part of the text that matched.
//! Results are compared by rank alone, component by component from the first:
//! the position and the matched part are payload and never take part in a
//! comparison.

use std::cmp::Ordering;
use vstd::prelude::*;
use vstd::std_specs::cmp::{PartialEqSpec, PartialOrdSpec};

verus! {

/// Sort key of a result: score, index, start and end, the first the most
/// significant.
pub type Rank = [i64; 4];

/// The part of a candidate's text that a query matched.
#[derive(PartialEq, Eq, Clone)]
pub enum MatchedRange {
    /// One span, given by its two bounds.
    Range(usize, usize),
    /// Single positions, in the order in which they were matched.
    Chars(Vec<usize>),
}

/// One search result.
#[derive(Clone)]
pub struct MatchedItem {
    /// Position of the candidate in the list of all candidates.
    pub index: usize,
    /// What the result is ordered by.
    pub rank: Rank,
    /// What matched, if that was worked out.
    pub matched_range: Option<MatchedRange>,
}

/// Two ranks that agree in every component.
pub open spec fn rank_equal(a: Rank, b: Rank) -> bool {
    a[0] == b[0] && a[1] == b[1] && a[2] == b[2] && a[3] == b[3]
}

/// `a` comes before `b`: at the first component in which they differ, `a`
/// is the smaller.
pub open spec fn rank_less(a: Rank, b: Rank) -> bool {
    ||| a[0] < b[0]
    ||| a[0] == b[0] && a[1] < b[1]
    ||| a[0] == b[0] && a[1] == b[1] && a[2] < b[2]
    ||| a[0] == b[0] && a[1] == b[1] && a[2] == b[2] && a[3] < b[3]
}

/// How `a` stands to `b` in the order of ranks.
pub open spec fn rank_order(a: Rank, b: Rank) -> Ordering {
    if rank_less(a, b) {
        Ordering::Less
    } else if rank_less(b, a) {
        Ordering::Greater
    } else {
        Ordering::Equal
    }
}

/// Compares two ranks component by component.
pub fn compare_ranks(a: &Rank, b: &Rank) -> (order: Ordering)
    ensures
        order == rank_order(*a, *b),
        order == Ordering::Equal <==> rank_equal(*a, *b),
{
    let mut i: usize = 0;
    while i < 4
        invariant
            i <= 4,
            forall|j: int| 0 <= j < i ==> a[j] == b[j],
        decreases 4 - i,
    {
        if a[i] < b[i] {
            return Ordering::Less;
        }
        if a[i] > b[i] {
            return Ordering::Greater;
        }
        i += 1;
    }
    Ordering::Equal
}

impl MatchedItem {
    /// A result for the candidate at `index`, not yet scored: its rank is
    /// zero in every component and it has no matched part.
    pub fn new(index: usize) -> (item: MatchedItem)
        ensures
            item == (MatchedItem { index: index, rank: [0, 0, 0, 0], matched_range: None }),
    {
        MatchedItem { index: index, rank: [0, 0, 0, 0], matched_range: None }
    }

    /// Replaces the matched part, whatever it was, with `range`.
    pub fn set_matched_range(&mut self, range: MatchedRange)
        ensures
            *final(self) == (MatchedItem { matched_range: Some(range), ..*old(self) }),
    {
        self.matched_range = Some(range);
    }

    /// Replaces the rank, whatever it was, with `rank`.
    pub fn set_rank(&mut self, rank: Rank)
        ensures
            *final(self) == (MatchedItem { rank: rank, ..*old(self) }),
    {
        self.rank = rank;
    }

    /// How this result stands to `other` in sorting order.
    pub fn cmp(&self, other: &MatchedItem) -> (order: Ordering)
        ensures
            order == rank_order(self.rank, other.rank),
    {
        compare_ranks(&self.rank, &other.rank)
    }
}

impl PartialEq for MatchedItem {
    fn eq(&self, other: &MatchedItem) -> (same: bool) {
        matches!(compare_ranks(&self.rank, &other.rank), Ordering::Equal)
    }
}

impl vstd::std_specs::cmp::PartialEqSpecImpl for MatchedItem {
    open spec fn obeys_eq_spec() -> bool {
        true
    }

    open spec fn eq_spec(&self, other: &MatchedItem) -> bool {
        rank_equal(self.rank, other.rank)
    }
}

impl Eq for MatchedItem {}

impl PartialOrd for MatchedItem {
    fn partial_cmp(&self, other: &MatchedItem) -> (order: Option<Ordering>) {
        Some(compare_ranks(&self.rank, &other.rank))
    }
}

impl vstd::std_specs::cmp::PartialOrdSpecImpl for MatchedItem {
    open spec fn obeys_partial_cmp_spec() -> bool {
        true
    }

    open spec fn partial_cmp_spec(&self, other: &MatchedItem) -> Option<Ordering> {
        Some(rank_order(self.rank, other.rank))
    }
}

/// `a` comes before `b` or equals it.
pub open spec fn rank_le(a: Rank, b: Rank) -> bool {
    !rank_less(b, a)
}

/// The components of a rank as a sequence of integers.
pub open spec fn rank_key(r: Rank) -> Seq<int> {
    Seq::new(4, |i: int| r[i] as int)
}

/// `a` and `b` agree in their first `k` components and `a` is the smaller
/// in the next.
pub open spec fn less_at(a: Seq<int>, b: Seq<int>, k: int) -> bool {
    &&& 0 <= k < a.len()
    &&& k < b.len()
    &&& forall|j: int| 0 <= j < k ==> a[j] == b[j]
    &&& a[k] < b[k]
}

/// The lexicographic order on integer sequences.
pub open spec fn lex_less(a: Seq<int>, b: Seq<int>) -> bool {
    exists|k: int| less_at(a, b, k)
}

/// The ranks of a sequence of results, in the same order.
pub open spec fn ranks_of(s: Seq<MatchedItem>) -> Seq<Rank> {
    Seq::new(s.len(), |i: int| s[i].rank)
}

/// No result of `s` comes before one that stands earlier in `s`.
pub open spec fn sorted_by_rank(s: Seq<MatchedItem>) -> bool {
    forall|i: int, j: int| 0 <= i < j < s.len() ==> rank_le(s[i].rank, s[j].rank)
}

/// Ranks that agree in every component are the same rank.
pub proof fn lemma_rank_equal_is_identity(a: Rank, b: Rank)
    ensures
        rank_equal(a, b) <==> a == b,
{
    broadcast use vstd::array::group_array_axioms;

    if rank_equal(a, b) {
        assert(a =~= b);
    }
}

/// The order of ranks is the lexicographic order of their components.
pub proof fn lemma_rank_less_is_lexicographic(a: Rank, b: Rank)
    ensures
        rank_less(a, b) <==> lex_less(rank_key(a), rank_key(b)),
{
    let ka = rank_key(a);
    let kb = rank_key(b);
    if rank_less(a, b) {
        if a[0] < b[0] {
            assert(less_at(ka, kb, 0));
        } else if a[1] < b[1] {
            assert(less_at(ka, kb, 1));
        } else if a[2] < b[2] {
            assert(less_at(ka, kb, 2));
        } else {
            assert(less_at(ka, kb, 3));
        }
    }
    if lex_less(ka, kb) {
        let k = choose|k: int| less_at(ka, kb, k);
        assert(k > 0 ==> ka[0] == kb[0]);
        assert(k > 1 ==> ka[1] == kb[1]);
        assert(k > 2 ==> ka[2] == kb[2]);
    }
}

/// No rank comes before itself.
pub proof fn lemma_rank_less_irreflexive(a: Rank)
    ensures
        !rank_less(a, a),
{
}

/// If `a` comes before `b` and `b` before `c`, then `a` comes before `c`.
pub proof fn lemma_rank_less_transitive(a: Rank, b: Rank, c: Rank)
    requires
        rank_less(a, b),
        rank_less(b, c),
    ensures
        rank_less(a, c),
{
}

/// Of two ranks exactly one holds: the first comes before the second, they
/// are equal, or the second comes before the first.
pub proof fn lemma_rank_trichotomy(a: Rank, b: Rank)
    ensures
        rank_less(a, b) || rank_equal(a, b) || rank_less(b, a),
        !(rank_less(a, b) && rank_equal(a, b)),
        !(rank_less(a, b) && rank_less(b, a)),
        !(rank_equal(a, b) && rank_less(b, a)),
{
}

/// Equality of ranks is reflexive, symmetric and transitive, and equal ranks
/// stand alike to every third rank.
pub proof fn lemma_rank_equal_equivalence(a: Rank, b: Rank, c: Rank)
    ensures
        rank_equal(a, a),
        rank_equal(a, b) ==> rank_equal(b, a),
        rank_equal(a, b) && rank_equal(b, c) ==> rank_equal(a, c),
        rank_equal(a, b) ==> rank_order(a, c) == rank_order(b, c),
        rank_equal(a, b) ==> rank_order(c, a) == rank_order(c, b),
{
}

/// Comparing the other way round gives the opposite answer.
pub proof fn lemma_rank_order_reverse(a: Rank, b: Rank)
    ensures
        rank_order(a, b) == Ordering::Less <==> rank_order(b, a) == Ordering::Greater,
        rank_order(a, b) == Ordering::Equal <==> rank_order(b, a) == Ordering::Equal,
        rank_order(a, b) == Ordering::Greater <==> rank_order(b, a) == Ordering::Less,
{
}

/// "Before or equal" is a total order on ranks.
pub proof fn lemma_rank_le_total_ordering()
    ensures
        vstd::relations::total_ordering(|a: Rank, b: Rank| rank_le(a, b)),
{
    let leq = |a: Rank, b: Rank| rank_le(a, b);
    assert forall|x: Rank, y: Rank| #[trigger] leq(x, y) && #[trigger] leq(y, x) implies x
        == y by {
        lemma_rank_equal_is_identity(x, y);
    }
}

/// Results are compared by rank alone: two results are equal, and neither
/// comes before the other, exactly when their ranks are the same, whatever
/// their positions and matched parts.
pub proof fn lemma_payload_is_ignored(a: MatchedItem, b: MatchedItem)
    ensures
        a.eq_spec(&b) <==> a.rank == b.rank,
        a.partial_cmp_spec(&b) == Some(Ordering::Equal) <==> a.rank == b.rank,
{
    lemma_rank_equal_is_identity(a.rank, b.rank);
}

/// In a sorted sequence a result may be replaced by any result of the same
/// rank, and the sequence stays sorted.
pub proof fn lemma_sorted_exchange(s: Seq<MatchedItem>, i: int, x: MatchedItem)
    requires
        sorted_by_rank(s),
        0 <= i < s.len(),
        rank_equal(x.rank, s[i].rank),
    ensures
        sorted_by_rank(s.update(i, x)),
{
    let u = s.update(i, x);
    assert forall|a: int, b: int| 0 <= a < b < u.len() implies rank_le(u[a].rank, u[b].rank) by {
        assert(rank_le(s[a].rank, s[b].rank));
    }
}

/// However a collection of results is sorted, the ranks come out in the same
/// sequence: two sorted sequences that hold the same ranks, each as often as
/// the other, have equal ranks at every position.
pub proof fn lemma_sorted_ranks_unique(s: Seq<MatchedItem>, t: Seq<MatchedItem>)
    requires
        sorted_by_rank(s),
        sorted_by_rank(t),
        ranks_of(s).to_multiset() == ranks_of(t).to_multiset(),
    ensures
        ranks_of(s) == ranks_of(t),
{
    let leq = |a: Rank, b: Rank| rank_le(a, b);
    lemma_rank_le_total_ordering();
    assert(vstd::relations::sorted_by(ranks_of(s), leq));
    assert(vstd::relations::sorted_by(ranks_of(t), leq));
    vstd::seq_lib::lemma_sorted_unique(ranks_of(s), ranks_of(t), leq);
}

/// Sequences that hold the same results, each as often as the other, hold
/// the same ranks, each as often as the other.
proof fn lemma_same_results_same_ranks(s: Seq<MatchedItem>, t: Seq<MatchedItem>)
    requires
        s.to_multiset() == t.to_multiset(),
    ensures
        ranks_of(s).to_multiset() == ranks_of(t).to_multiset(),
    decreases s.len(),
{
    broadcast use vstd::seq_lib::group_to_multiset_ensures;

    s.to_multiset_ensures();
    t.to_multiset_ensures();
    ranks_of(s).to_multiset_ensures();
    ranks_of(t).to_multiset_ensures();
    assert(s.len() == t.len());
    if s.len() == 0 {
        assert(ranks_of(s) =~= ranks_of(t));
    } else {
        let last = s.len() - 1;
        let x = s[last];
        assert(s.contains(x));
        assert(t.to_multiset().count(x) > 0);
        assert(t.contains(x));
        let j = choose|j: int| 0 <= j < t.len() && t[j] == x;
        let s1 = s.remove(last);
        let t1 = t.remove(j);
        assert(s1.to_multiset() =~= t1.to_multiset());
        lemma_same_results_same_ranks(s1, t1);
        let rs = ranks_of(s);
        let rt = ranks_of(t);
        assert(ranks_of(s1) =~= rs.remove(last));
        assert(ranks_of(t1) =~= rt.remove(j));
        assert(rs.contains(rs[last]));
        assert(rt.contains(rt[j]));
        assert(rs.to_multiset() =~= rs.remove(last).to_multiset().insert(x.rank));
        assert(rt.to_multiset() =~= rt.remove(j).to_multiset().insert(x.rank));
    }
}

/// Sorting is well defined up to the order of results of equal rank: two
/// sorted arrangements of the same results are equally long and hold, at
/// every position, results that are equal.
pub proof fn lemma_sorted_arrangements_agree(s: Seq<MatchedItem>, t: Seq<MatchedItem>)
    requires
        sorted_by_rank(s),
        sorted_by_rank(t),
        s.to_multiset() == t.to_multiset(),
    ensures
        s.len() == t.len(),
        forall|i: int| 0 <= i < s.len() ==> (#[trigger] s[i]).eq_spec(&t[i]),
{
    lemma_same_results_same_ranks(s, t);
    lemma_sorted_ranks_unique(s, t);
    assert(ranks_of(s).len() == ranks_of(t).len());
    assert forall|i: int| 0 <= i < s.len() implies (#[trigger] s[i]).eq_spec(&t[i]) by {
        assert(ranks_of(s)[i] == ranks_of(t)[i]);
        lemma_rank_equal_is_identity(s[i].rank, t[i].rank);
    }
}

} // verus!
