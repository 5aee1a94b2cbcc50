use quorum::clock::Duration;
use quorum::election::{
    handle_request_vote, start_election, ElectionTimeoutConfig, VoteTally,
};
use quorum::log::Log;
use quorum::messages::RequestVoteRequest;
use quorum::state::{overdue, PersistentState, Role, VolatileState};

fn fresh_state() -> (PersistentState, VolatileState, Log) {
    (PersistentState::default(), VolatileState::new(), Log::new())
}

#[test]
fn grants_vote_for_higher_term_with_up_to_date_log() {
    let (mut persistent, mut volatile, log) = fresh_state();
    let req = RequestVoteRequest { term: 1, candidate_id: 2, last_log_index: 0, last_log_term: 0 };
    let resp = handle_request_vote(&mut persistent, &mut volatile, &log, &req);
    assert!(resp.vote_granted);
    assert_eq!(persistent.voted_for, Some(2));
}

#[test]
fn rejects_vote_for_stale_term() {
    let (mut persistent, mut volatile, log) = fresh_state();
    persistent.current_term = 5;
    let req = RequestVoteRequest { term: 3, candidate_id: 2, last_log_index: 0, last_log_term: 0 };
    let resp = handle_request_vote(&mut persistent, &mut volatile, &log, &req);
    assert!(!resp.vote_granted);
    assert_eq!(resp.term, 5);
}

#[test]
fn rejects_second_vote_in_same_term() {
    let (mut persistent, mut volatile, log) = fresh_state();
    let req1 = RequestVoteRequest { term: 1, candidate_id: 2, last_log_index: 0, last_log_term: 0 };
    let req2 = RequestVoteRequest { term: 1, candidate_id: 3, last_log_index: 0, last_log_term: 0 };

    let resp1 = handle_request_vote(&mut persistent, &mut volatile, &log, &req1);
    let resp2 = handle_request_vote(&mut persistent, &mut volatile, &log, &req2);

    assert!(resp1.vote_granted);
    assert!(!resp2.vote_granted);
}

#[test]
fn rejects_vote_when_candidate_log_is_behind() {
    let (mut persistent, mut volatile, mut log) = fresh_state();
    log.append(1, b"existing entry".to_vec());

    let req = RequestVoteRequest { term: 2, candidate_id: 2, last_log_index: 0, last_log_term: 0 };
    let resp = handle_request_vote(&mut persistent, &mut volatile, &log, &req);
    assert!(!resp.vote_granted);
}

#[test]
fn vote_tally_reaches_majority_at_correct_threshold() {
    let mut tally = VoteTally::new(1, 5);
    assert!(!tally.has_majority());
    tally.record_vote(2);
    assert!(!tally.has_majority());
    tally.record_vote(3);
    assert!(tally.has_majority());
}

#[test]
fn a_repeated_vote_counts_once() {
    let mut tally = VoteTally::new(1, 4);
    tally.record_vote(2);
    tally.record_vote(2);
    tally.record_vote(1);
    assert!(!tally.has_majority());
    tally.record_vote(3);
    assert!(tally.has_majority());
}

#[test]
fn the_same_candidate_gets_the_vote_again() {
    let (mut persistent, mut volatile, log) = fresh_state();
    let req = RequestVoteRequest { term: 4, candidate_id: 9, last_log_index: 0, last_log_term: 0 };
    assert!(handle_request_vote(&mut persistent, &mut volatile, &log, &req).vote_granted);
    assert!(handle_request_vote(&mut persistent, &mut volatile, &log, &req).vote_granted);
    assert_eq!(persistent.current_term, 4);
}

#[test]
fn a_higher_term_is_adopted_even_without_a_vote() {
    let (mut persistent, mut volatile, mut log) = fresh_state();
    log.append(3, b"x".to_vec());
    persistent.current_term = 3;
    persistent.voted_for = Some(1);
    volatile.role = Role::Leader;
    let req = RequestVoteRequest { term: 7, candidate_id: 2, last_log_index: 9, last_log_term: 2 };
    let resp = handle_request_vote(&mut persistent, &mut volatile, &log, &req);
    assert!(!resp.vote_granted);
    assert_eq!(resp.term, 7);
    assert_eq!(persistent.current_term, 7);
    assert_eq!(persistent.voted_for, None);
    assert_eq!(volatile.role, Role::Follower);
}

#[test]
fn a_longer_log_of_the_same_term_is_up_to_date() {
    let (mut persistent, mut volatile, mut log) = fresh_state();
    log.append(2, b"x".to_vec());
    let short = RequestVoteRequest { term: 3, candidate_id: 2, last_log_index: 0, last_log_term: 2 };
    assert!(!handle_request_vote(&mut persistent, &mut volatile, &log, &short).vote_granted);
    let long = RequestVoteRequest { term: 3, candidate_id: 2, last_log_index: 1, last_log_term: 2 };
    assert!(handle_request_vote(&mut persistent, &mut volatile, &log, &long).vote_granted);
}

#[test]
fn starting_an_election_votes_for_oneself() {
    let (mut persistent, mut volatile, mut log) = fresh_state();
    log.append(4, b"x".to_vec());
    persistent.current_term = 6;
    let req = start_election(&mut persistent, &mut volatile, &log, 11);
    assert_eq!(persistent.current_term, 7);
    assert_eq!(persistent.voted_for, Some(11));
    assert_eq!(volatile.role, Role::Candidate);
    assert_eq!((req.term, req.candidate_id), (7, 11));
    assert_eq!((req.last_log_index, req.last_log_term), (1, 4));
}

#[test]
fn random_timeouts_stay_within_bounds_and_vary() {
    let config = ElectionTimeoutConfig::default();
    assert_eq!(config.min, Duration::from_millis(150));
    assert_eq!(config.max, Duration::from_millis(300));
    let mut seen: Vec<u128> = Vec::new();
    for _ in 0..200 {
        let timeout = config.random_timeout();
        assert_eq!(timeout.nanos % 1_000_000, 0);
        assert!((150..=300).contains(&timeout.as_millis()));
        if !seen.contains(&timeout.nanos) {
            seen.push(timeout.nanos);
        }
    }
    assert!(seen.len() > 1);
}

#[test]
fn a_range_of_one_value_gives_that_value() {
    let config = ElectionTimeoutConfig {
        min: Duration::from_millis(42),
        max: Duration::from_millis(42),
    };
    assert_eq!(config.random_timeout(), Duration::from_millis(42));
}

#[test]
fn silence_is_overdue_only_past_the_timeout() {
    let timeout = Duration::from_millis(150);
    assert!(!overdue(Duration::from_millis(150), timeout));
    assert!(overdue(Duration { nanos: timeout.nanos + 1 }, timeout));
    let volatile = VolatileState::new();
    assert!(!volatile.election_timed_out(Duration::from_millis(60_000)));
    let start = std::time::Instant::now();
    while start.elapsed() < std::time::Duration::from_millis(5) {}
    assert!(volatile.election_timed_out(Duration::from_millis(1)));
}
