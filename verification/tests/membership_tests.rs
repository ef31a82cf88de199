use raft_kv::membership::{ClusterConfig, MembershipChange};

#[test]
fn with_nodes_and_quorum() {
    let c = ClusterConfig::with_nodes(vec![1, 2, 3, 3]);
    assert_eq!(c.nodes.len(), 3);
    assert!(c.learners.is_empty());
    assert!(c.contains(2));
    assert!(!c.contains(4));
    assert_eq!(c.quorum_size(), 2);
    assert!(c.is_majority(2));
    assert!(!c.is_majority(1));
    let empty = ClusterConfig::new();
    assert_eq!(empty.quorum_size(), 1);
    let four = ClusterConfig::with_nodes(vec![1, 2, 3, 4]);
    assert_eq!(four.quorum_size(), 3);
}

#[test]
fn learners_and_members_stay_apart() {
    let mut c = ClusterConfig::default();
    c.add_node(1);
    c.add_learner(1);
    assert!(!c.learners.contains(&1));
    c.add_learner(2);
    assert!(c.learners.contains(&2));
    c.add_node(2);
    assert!(c.nodes.contains(&2) && !c.learners.contains(&2));
    c.add_learner(3);
    assert!(c.promote_learner(3));
    assert!(c.nodes.contains(&3) && !c.learners.contains(&3));
    assert!(!c.promote_learner(3));
    c.add_learner(4);
    c.remove_node(4);
    c.remove_node(1);
    assert!(!c.learners.contains(&4) && !c.nodes.contains(&1));
    assert_eq!(c.nodes.len(), 2);
}

#[test]
fn membership_change_values() {
    let c = MembershipChange::AddLearner(5);
    assert_eq!(c, MembershipChange::AddLearner(5));
    assert_ne!(c, MembershipChange::AddNode(5));
}

#[test]
fn any_two_majorities_share_a_member() {
    let members: Vec<u64> = vec![1, 2, 3, 4, 5];
    let c = ClusterConfig::with_nodes(members.clone());
    let subsets: Vec<Vec<u64>> = (0u32..32)
        .map(|mask| members.iter().enumerate().filter(|(i, _)| mask & (1 << i) != 0).map(|(_, m)| *m).collect())
        .collect();
    for a in &subsets {
        for b in &subsets {
            if c.is_majority(a.len()) && c.is_majority(b.len()) {
                assert!(a.iter().any(|x| b.contains(x)));
            }
        }
    }
}
