use crate::time_window::{duration_as_nanos, duration_from_millis, random_below};
use std::time::Duration;
use vstd::prelude::*;
use vstd::set_lib::{lemma_len_subset, lemma_set_intersect_union_lens};

verus! {

/// The number of votes, or acknowledgements, that a cluster of `cluster_size`
/// nodes needs: more than half of them.
pub open spec fn majority_of(cluster_size: nat) -> nat {
    cluster_size / 2 + 1
}

/// The majority of a cluster of `cluster_size` nodes.
pub fn majority(cluster_size: usize) -> (m: usize)
    ensures
        m == majority_of(cluster_size as nat),
{
    cluster_size / 2 + 1
}

/// The delay of a message within a cluster of the same process: a random whole
/// number of milliseconds, below one second.
pub fn message_delay() -> (d: Duration)
    ensures
        duration_as_nanos(d) < 1_000_000_000,
        duration_as_nanos(d) % 1_000_000 == 0,
{
    let millis = random_below(1000);
    duration_from_millis(millis)
}

/// Any two majorities of the same cluster share a node: two leaders cannot be
/// elected with disjoint votes, and an entry acknowledged by a majority is
/// held by a node of every later majority.
pub proof fn lemma_majorities_intersect<T>(cluster: Set<T>, a: Set<T>, b: Set<T>)
    requires
        cluster.finite(),
        a.subset_of(cluster),
        b.subset_of(cluster),
        a.len() >= majority_of(cluster.len()),
        b.len() >= majority_of(cluster.len()),
    ensures
        exists|n: T| a.contains(n) && b.contains(n),
{
    lemma_len_subset(a, cluster);
    lemma_len_subset(b, cluster);
    lemma_len_subset(a + b, cluster);
    lemma_set_intersect_union_lens(a, b);
    assert(a.intersect(b).len() > 0);
    let n = a.intersect(b).choose();
    assert(a.intersect(b).contains(n));
}

} // verus!
