//! Criteria deciding whether a cluster should be partitioned further.

use vstd::prelude::*;

use crate::cluster::Cluster;

verus! {

/// A rule deciding whether a cluster may be partitioned further.
pub trait PartitionCriterion {
    /// What the rule holds of a cluster.
    spec fn check_spec(&self, c: Cluster) -> bool;

    /// Whether the rule lets the cluster be partitioned.
    fn check(&self, c: &Cluster) -> (r: bool)
        ensures
            r == self.check_spec(*c),
    ;
}

/// One partition rule, carried as data.
#[derive(Clone, Copy, Debug)]
pub enum Criterion {
    /// Partition only clusters above the given depth limit.
    MaxDepth(usize),
    /// Partition only clusters holding more than the given number of
    /// instances.
    MinCardinality(usize),
}

/// What one rule holds of a cluster.
pub open spec fn criterion_spec(cr: Criterion, c: Cluster) -> bool {
    match cr {
        Criterion::MaxDepth(d) => c.depth < d,
        Criterion::MinCardinality(m) => c.cardinality > m,
    }
}

impl PartitionCriterion for Criterion {
    open spec fn check_spec(&self, c: Cluster) -> bool {
        criterion_spec(*self, c)
    }

    fn check(&self, c: &Cluster) -> (r: bool) {
        match self {
            Criterion::MaxDepth(d) => c.depth < *d,
            Criterion::MinCardinality(m) => c.cardinality > *m,
        }
    }
}

/// The combined partition policy: a singleton cluster is never partitioned
/// further, and the collected rules are combined either all together or
/// any-of.
#[derive(Debug)]
pub struct PartitionCriteria {
    /// The collected rules.
    pub criteria: Vec<Criterion>,
    /// Whether every rule must agree; otherwise one suffices.
    pub check_all: bool,
}

impl PartitionCriteria {
    /// What the whole policy holds of a cluster: it is no singleton, and
    /// the rules agree as configured.
    pub open spec fn check_spec(self, c: Cluster) -> bool {
        &&& c.radius != 0
        &&& if self.check_all {
            forall|i: int|
                0 <= i < self.criteria@.len() ==> criterion_spec(#[trigger] self.criteria@[i], c)
        } else {
            exists|i: int|
                0 <= i < self.criteria@.len() && criterion_spec(#[trigger] self.criteria@[i], c)
        }
    }

    /// An empty policy: all-of an empty rule collection, or any-of it.
    pub fn new(check_all: bool) -> (r: PartitionCriteria)
        ensures
            r.criteria@.len() == 0,
            r.check_all == check_all,
    {
        PartitionCriteria { criteria: Vec::new(), check_all }
    }

    /// Adds a depth-limit rule.
    pub fn with_max_depth(self, threshold: usize) -> (r: PartitionCriteria)
        ensures
            r.criteria@ == self.criteria@.push(Criterion::MaxDepth(threshold)),
            r.check_all == self.check_all,
    {
        let mut criteria = self.criteria;
        criteria.push(Criterion::MaxDepth(threshold));
        PartitionCriteria { criteria, check_all: self.check_all }
    }

    /// Adds a cardinality-floor rule.
    pub fn with_min_cardinality(self, threshold: usize) -> (r: PartitionCriteria)
        ensures
            r.criteria@ == self.criteria@.push(Criterion::MinCardinality(threshold)),
            r.check_all == self.check_all,
    {
        let mut criteria = self.criteria;
        criteria.push(Criterion::MinCardinality(threshold));
        PartitionCriteria { criteria, check_all: self.check_all }
    }

    /// Adds a caller-chosen rule.
    pub fn with_custom(self, c: Criterion) -> (r: PartitionCriteria)
        ensures
            r.criteria@ == self.criteria@.push(c),
            r.check_all == self.check_all,
    {
        let mut criteria = self.criteria;
        criteria.push(c);
        PartitionCriteria { criteria, check_all: self.check_all }
    }

    /// Whether the policy lets the cluster be partitioned.
    pub fn check(&self, cluster: &Cluster) -> (r: bool)
        ensures
            r == self.check_spec(*cluster),
    {
        if cluster.radius == 0 {
            return false;
        }
        if self.check_all {
            let mut i: usize = 0;
            while i < self.criteria.len()
                invariant
                    self.check_all,
                    cluster.radius != 0,
                    i <= self.criteria@.len(),
                    forall|t: int|
                        0 <= t < i ==> criterion_spec(#[trigger] self.criteria@[t], *cluster),
                decreases self.criteria@.len() - i,
            {
                if !self.criteria[i].check(cluster) {
                    return false;
                }
                i += 1;
            }
            true
        } else {
            let mut i: usize = 0;
            while i < self.criteria.len()
                invariant
                    !self.check_all,
                    cluster.radius != 0,
                    i <= self.criteria@.len(),
                    forall|t: int|
                        0 <= t < i ==> !criterion_spec(#[trigger] self.criteria@[t], *cluster),
                decreases self.criteria@.len() - i,
            {
                if self.criteria[i].check(cluster) {
                    return true;
                }
                i += 1;
            }
            false
        }
    }
}

} // verus!
