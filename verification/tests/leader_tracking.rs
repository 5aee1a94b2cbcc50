use quorum::leader_tracking::LeaderTracker;
use quorum::state::NodeId;
use std::collections::HashMap;

fn sample_nodes() -> HashMap<NodeId, String> {
    HashMap::from([
        (1, "127.0.0.1:8001".to_string()),
        (2, "127.0.0.1:8002".to_string()),
        (3, "127.0.0.1:8003".to_string()),
    ])
}

#[test]
fn starts_with_no_guess() {
    let tracker = LeaderTracker::new(sample_nodes());
    assert!(tracker.best_guess().is_none());
}

#[test]
fn records_and_returns_confirmed_leader() {
    let mut tracker = LeaderTracker::new(sample_nodes());
    tracker.record_confirmed_leader(2);
    assert_eq!(tracker.best_guess(), Some((2, "127.0.0.1:8002".to_string())));
}

#[test]
fn recognized_hint_becomes_new_guess() {
    let mut tracker = LeaderTracker::new(sample_nodes());
    tracker.record_not_leader(Some(3));
    assert_eq!(tracker.best_guess(), Some((3, "127.0.0.1:8003".to_string())));
}

#[test]
fn unrecognized_hint_clears_guess_instead_of_trusting_it() {
    let mut tracker = LeaderTracker::new(sample_nodes());
    tracker.record_confirmed_leader(1);
    tracker.record_not_leader(Some(99));
    assert!(tracker.best_guess().is_none());
}

#[test]
fn fallback_order_excludes_the_given_node() {
    let tracker = LeaderTracker::new(sample_nodes());
    let fallback = tracker.fallback_order(Some(1));
    let ids: Vec<NodeId> = fallback.iter().map(|(id, _)| *id).collect();
    assert_eq!(ids, vec![2, 3]);
}

#[test]
fn without_an_exclusion_every_node_is_listed_in_order() {
    let mut nodes = HashMap::new();
    for id in [40, 7, 1000, 3, 12] {
        nodes.insert(id, format!("node{id}"));
    }
    let tracker = LeaderTracker::new(nodes);
    assert_eq!(tracker.node_count(), 5);
    let order = tracker.fallback_order(None);
    let ids: Vec<NodeId> = order.iter().map(|(id, _)| *id).collect();
    assert_eq!(ids, vec![3, 7, 12, 40, 1000]);
    assert_eq!(order[3].1, "node40");
}

#[test]
fn an_absent_hint_clears_the_guess() {
    let mut tracker = LeaderTracker::new(sample_nodes());
    tracker.record_confirmed_leader(1);
    tracker.record_not_leader(None);
    assert!(tracker.best_guess().is_none());
}

#[test]
fn a_confirmed_stranger_is_no_guess() {
    let mut tracker = LeaderTracker::new(sample_nodes());
    tracker.record_confirmed_leader(77);
    assert!(tracker.best_guess().is_none());
}
