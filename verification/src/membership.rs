//! Cluster membership: voting members, non-voting learners, and quorums.

use crate::types::NodeId;
use std::collections::HashSet;
use vstd::prelude::*;
use vstd::set_lib::{lemma_len_subset, lemma_set_empty_equivalency_len,
    lemma_set_intersect_union_lens};

verus! {

broadcast use vstd::std_specs::hash::group_hash_axioms;

/// The smallest number of members that forms a majority of `members`.
pub open spec fn majority_of(members: nat) -> nat {
    members / 2 + 1
}

/// The quorum is the least majority: it is more than half of the members,
/// and one fewer is not.
pub proof fn lemma_majority_is_least(members: nat)
    ensures
        majority_of(members) * 2 > members,
        (majority_of(members) - 1) * 2 <= members,
{
}

/// The voting members and the learners of a cluster.
#[derive(Debug)]
pub struct ClusterConfig {
    pub nodes: HashSet<NodeId>,
    pub learners: HashSet<NodeId>,
}

impl ClusterConfig {
    /// No node is both a voting member and a learner, and both sets are
    /// finite.
    pub open spec fn well_formed(&self) -> bool {
        &&& self.nodes@.finite()
        &&& self.learners@.finite()
        &&& self.nodes@.disjoint(self.learners@)
    }
}

impl Default for ClusterConfig {
    fn default() -> (r: Self)
        ensures
            r.nodes@ == Set::<NodeId>::empty(),
            r.learners@ == Set::<NodeId>::empty(),
            r.well_formed(),
    {
        ClusterConfig::new()
    }
}

impl ClusterConfig {
    /// A cluster with no member and no learner.
    pub fn new() -> (r: Self)
        ensures
            r.nodes@ == Set::<NodeId>::empty(),
            r.learners@ == Set::<NodeId>::empty(),
            r.well_formed(),
    {
        ClusterConfig { nodes: HashSet::new(), learners: HashSet::new() }
    }

    /// A cluster whose voting members are `nodes`.
    pub fn with_nodes(nodes: Vec<NodeId>) -> (r: Self)
        ensures
            r.nodes@ == nodes@.to_set(),
            r.learners@ == Set::<NodeId>::empty(),
            r.well_formed(),
    {
        let mut config = ClusterConfig::new();
        let mut i: usize = 0;
        while i < nodes.len()
            invariant
                i <= nodes@.len(),
                config.nodes@ == nodes@.take(i as int).to_set(),
                config.learners@ == Set::<NodeId>::empty(),
            decreases nodes@.len() - i,
        {
            config.nodes.insert(nodes[i]);
            proof {
                assert(nodes@.take(i as int + 1) =~= nodes@.take(i as int).push(nodes@[i as int]));
                assert(nodes@.take(i as int + 1).to_set() =~= nodes@.take(i as int).to_set().insert(
                    nodes@[i as int],
                )) by {
                    broadcast use vstd::seq_lib::group_seq_properties;
                }
            }
            i = i + 1;
        }
        assert(nodes@.take(i as int) =~= nodes@);
        proof {
            broadcast use vstd::seq_lib::group_seq_properties;
        }
        config
    }

    /// Makes `node_id` a voting member (no longer a learner).
    pub fn add_node(&mut self, node_id: NodeId)
        ensures
            final(self).nodes@ == old(self).nodes@.insert(node_id),
            final(self).learners@ == old(self).learners@.remove(node_id),
            old(self).well_formed() ==> final(self).well_formed(),
    {
        self.nodes.insert(node_id);
        self.learners.remove(&node_id);
    }

    /// Removes `node_id` from the members and from the learners.
    pub fn remove_node(&mut self, node_id: NodeId)
        ensures
            final(self).nodes@ == old(self).nodes@.remove(node_id),
            final(self).learners@ == old(self).learners@.remove(node_id),
            old(self).well_formed() ==> final(self).well_formed(),
    {
        self.nodes.remove(&node_id);
        self.learners.remove(&node_id);
    }

    /// Makes `node_id` a learner, unless it is already a voting member.
    pub fn add_learner(&mut self, node_id: NodeId)
        ensures
            final(self).nodes@ == old(self).nodes@,
            final(self).learners@ == if old(self).nodes@.contains(node_id) {
                old(self).learners@
            } else {
                old(self).learners@.insert(node_id)
            },
            old(self).well_formed() ==> final(self).well_formed(),
    {
        if !self.nodes.contains(&node_id) {
            self.learners.insert(node_id);
        }
    }

    /// Turns the learner `node_id` into a voting member. Returns whether
    /// `node_id` was a learner; otherwise nothing changes.
    pub fn promote_learner(&mut self, node_id: NodeId) -> (r: bool)
        ensures
            r == old(self).learners@.contains(node_id),
            r ==> final(self).nodes@ == old(self).nodes@.insert(node_id) && final(self).learners@
                == old(self).learners@.remove(node_id),
            !r ==> final(self).nodes@ == old(self).nodes@ && final(self).learners@ == old(
                self,
            ).learners@,
            old(self).well_formed() ==> final(self).well_formed(),
    {
        if self.learners.remove(&node_id) {
            self.nodes.insert(node_id);
            true
        } else {
            false
        }
    }

    /// Whether `node_id` is a voting member.
    pub fn contains(&self, node_id: NodeId) -> (r: bool)
        ensures
            r == self.nodes@.contains(node_id),
    {
        self.nodes.contains(&node_id)
    }

    /// The number of votes that makes a majority of the voting members.
    pub fn quorum_size(&self) -> (r: usize)
        ensures
            r == majority_of(self.nodes@.len()),
    {
        (self.nodes.len() / 2) + 1
    }

    /// Whether `count` votes make a majority of the voting members.
    pub fn is_majority(&self, count: usize) -> (r: bool)
        ensures
            r == (count >= majority_of(self.nodes@.len())),
    {
        count >= self.quorum_size()
    }
}

/// Any two majorities of the same finite set of members share a member:
/// two sets of voters, each at least `majority_of` the members, intersect.
pub proof fn lemma_majorities_intersect(members: Set<NodeId>, a: Set<NodeId>, b: Set<NodeId>)
    requires
        members.finite(),
        a.subset_of(members),
        b.subset_of(members),
        a.len() >= majority_of(members.len()),
        b.len() >= majority_of(members.len()),
    ensures
        exists|x: NodeId| a.contains(x) && b.contains(x),
{
    lemma_len_subset(a, members);
    lemma_len_subset(b, members);
    lemma_len_subset(a + b, members);
    lemma_set_intersect_union_lens(a, b);
    let both = a.intersect(b);
    lemma_len_subset(both, members);
    lemma_set_empty_equivalency_len(both);
    let x = choose|x: NodeId| both.contains(x);
    assert(a.contains(x) && b.contains(x));
}

/// A change to the membership of a cluster.
#[derive(Debug, Clone, Copy, PartialEq, Eq, Structural)]
pub enum MembershipChange {
    AddNode(NodeId),
    RemoveNode(NodeId),
    AddLearner(NodeId),
    PromoteLearner(NodeId),
}

} // verus!
