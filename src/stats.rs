//! Counters of the work a traversal did, and how they add up.
use vstd::prelude::*;

verus! {

/// Counters of the work of a traversal. A counter that a strategy does not
/// keep is `None`.
#[derive(Clone, Copy, Debug, PartialEq, Eq, Structural)]
pub struct Statistics {
    /// Selectors rejected by the ancestor filter alone.
    pub fast_rejects: Option<u64>,
    /// Selectors tested in full that did not match.
    pub slow_rejects: Option<u64>,
    /// Candidates that the selector map returned.
    pub selector_map_hits: Option<u64>,
    /// Elements that took their result from another element.
    pub sharing_instances: Option<u64>,
}

/// Saturating sum of two counters; `None` on either side gives `None`.
pub open spec fn add_counter(a: Option<u64>, b: Option<u64>) -> Option<u64> {
    match (a, b) {
        (Some(x), Some(y)) => Some(
            if x + y > u64::MAX {
                u64::MAX
            } else {
                (x + y) as u64
            },
        ),
        _ => None,
    }
}

/// The pointwise sum of two aggregates.
pub open spec fn combine_spec(a: Statistics, b: Statistics) -> Statistics {
    Statistics {
        fast_rejects: add_counter(a.fast_rejects, b.fast_rejects),
        slow_rejects: add_counter(a.slow_rejects, b.slow_rejects),
        selector_map_hits: add_counter(a.selector_map_hits, b.selector_map_hits),
        sharing_instances: add_counter(a.sharing_instances, b.sharing_instances),
    }
}

/// Both aggregates keep the same counters.
pub open spec fn same_presence(a: Statistics, b: Statistics) -> bool {
    &&& a.fast_rejects is Some == b.fast_rejects is Some
    &&& a.slow_rejects is Some == b.slow_rejects is Some
    &&& a.selector_map_hits is Some == b.selector_map_hits is Some
    &&& a.sharing_instances is Some == b.sharing_instances is Some
}

/// Every kept counter is zero.
pub open spec fn is_zero(a: Statistics) -> bool {
    &&& a.fast_rejects is Some ==> a.fast_rejects == Some(0u64)
    &&& a.slow_rejects is Some ==> a.slow_rejects == Some(0u64)
    &&& a.selector_map_hits is Some ==> a.selector_map_hits == Some(0u64)
    &&& a.sharing_instances is Some ==> a.sharing_instances == Some(0u64)
}

/// The aggregate of a sequence of contributions, starting from `zero`.
pub open spec fn sum_stats(zero: Statistics, s: Seq<Statistics>) -> Statistics
    decreases s.len(),
{
    if s.len() == 0 {
        zero
    } else {
        combine_spec(sum_stats(zero, s.drop_last()), s.last())
    }
}

fn add_counter_exec(a: Option<u64>, b: Option<u64>) -> (r: Option<u64>)
    ensures
        r == add_counter(a, b),
{
    match (a, b) {
        (Some(x), Some(y)) => Some(x.saturating_add(y)),
        _ => None,
    }
}

impl Statistics {
    /// An aggregate with the given counters kept, all at zero.
    pub fn zero(fast: bool, slow: bool, map_hits: bool, sharing: bool) -> (r: Statistics)
        ensures
            is_zero(r),
            r.fast_rejects is Some == fast,
            r.slow_rejects is Some == slow,
            r.selector_map_hits is Some == map_hits,
            r.sharing_instances is Some == sharing,
    {
        Statistics {
            fast_rejects: if fast {
                Some(0)
            } else {
                None
            },
            slow_rejects: if slow {
                Some(0)
            } else {
                None
            },
            selector_map_hits: if map_hits {
                Some(0)
            } else {
                None
            },
            sharing_instances: if sharing {
                Some(0)
            } else {
                None
            },
        }
    }

    /// The pointwise sum of two aggregates.
    pub fn combine(&self, other: &Statistics) -> (r: Statistics)
        ensures
            r == combine_spec(*self, *other),
    {
        Statistics {
            fast_rejects: add_counter_exec(self.fast_rejects, other.fast_rejects),
            slow_rejects: add_counter_exec(self.slow_rejects, other.slow_rejects),
            selector_map_hits: add_counter_exec(self.selector_map_hits, other.selector_map_hits),
            sharing_instances: add_counter_exec(self.sharing_instances, other.sharing_instances),
        }
    }
}

/// Combining aggregates does not depend on their order.
pub proof fn lemma_combine_commutative(a: Statistics, b: Statistics)
    ensures
        combine_spec(a, b) == combine_spec(b, a),
{
}

/// Combining aggregates does not depend on their grouping.
pub proof fn lemma_combine_associative(a: Statistics, b: Statistics, c: Statistics)
    ensures
        combine_spec(combine_spec(a, b), c) == combine_spec(a, combine_spec(b, c)),
{
}

/// A zero aggregate that keeps the same counters as `a` leaves `a` unchanged.
pub proof fn lemma_combine_zero(z: Statistics, a: Statistics)
    requires
        is_zero(z),
        same_presence(z, a),
    ensures
        combine_spec(z, a) == a,
        combine_spec(a, z) == a,
{
}

/// Statistics additivity: the aggregate over two consecutive runs of
/// contributions is the pointwise sum of the aggregates over each.
pub proof fn lemma_sum_concat(zero: Statistics, a: Seq<Statistics>, b: Seq<Statistics>)
    requires
        is_zero(zero),
    ensures
        sum_stats(zero, a + b) == combine_spec(sum_stats(zero, a), sum_stats(zero, b)),
    decreases b.len(),
{
    if b.len() == 0 {
        assert(a + b =~= a);
        lemma_sum_presence(zero, a);
    } else {
        assert((a + b).drop_last() =~= a + b.drop_last());
        lemma_sum_concat(zero, a, b.drop_last());
        lemma_combine_associative(sum_stats(zero, a), sum_stats(zero, b.drop_last()), b.last());
    }
}

/// The aggregate's selector-map hits depend only on the contributions' hits.
pub proof fn lemma_sum_map_hits(zero: Statistics, a: Seq<Statistics>, b: Seq<Statistics>)
    requires
        a.len() == b.len(),
        forall|k: int| 0 <= k < a.len() ==> (#[trigger] a[k]).selector_map_hits == b[k].selector_map_hits,
    ensures
        sum_stats(zero, a).selector_map_hits == sum_stats(zero, b).selector_map_hits,
    decreases a.len(),
{
    if a.len() > 0 {
        assert forall|k: int| 0 <= k < a.drop_last().len() implies (#[trigger] a.drop_last()[k]).selector_map_hits
            == b.drop_last()[k].selector_map_hits by {
            assert(a.drop_last()[k] == a[k]);
            assert(b.drop_last()[k] == b[k]);
        }
        lemma_sum_map_hits(zero, a.drop_last(), b.drop_last());
        assert(a.last() == a[a.len() - 1]);
    }
}

/// The aggregate's sharing instances depend only on the contributions' ones.
pub proof fn lemma_sum_sharing(zero: Statistics, a: Seq<Statistics>, b: Seq<Statistics>)
    requires
        a.len() == b.len(),
        forall|k: int| 0 <= k < a.len() ==> (#[trigger] a[k]).sharing_instances == b[k].sharing_instances,
    ensures
        sum_stats(zero, a).sharing_instances == sum_stats(zero, b).sharing_instances,
    decreases a.len(),
{
    if a.len() > 0 {
        assert forall|k: int| 0 <= k < a.drop_last().len() implies (#[trigger] a.drop_last()[k]).sharing_instances
            == b.drop_last()[k].sharing_instances by {
            assert(a.drop_last()[k] == a[k]);
            assert(b.drop_last()[k] == b[k]);
        }
        lemma_sum_sharing(zero, a.drop_last(), b.drop_last());
        assert(a.last() == a[a.len() - 1]);
    }
}

/// An aggregate keeps no counter that its starting value does not keep, so
/// adding that zero again changes nothing.
pub proof fn lemma_sum_presence(zero: Statistics, a: Seq<Statistics>)
    requires
        is_zero(zero),
    ensures
        zero.fast_rejects is None ==> sum_stats(zero, a).fast_rejects is None,
        zero.slow_rejects is None ==> sum_stats(zero, a).slow_rejects is None,
        zero.selector_map_hits is None ==> sum_stats(zero, a).selector_map_hits is None,
        zero.sharing_instances is None ==> sum_stats(zero, a).sharing_instances is None,
        combine_spec(sum_stats(zero, a), zero) == sum_stats(zero, a),
    decreases a.len(),
{
    if a.len() > 0 {
        lemma_sum_presence(zero, a.drop_last());
    }
}

} // verus!
