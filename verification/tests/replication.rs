use quorum::log::{Log, LogEntry};
use quorum::messages::{AppendEntriesRequest, AppendEntriesResponse};
use quorum::replication::{
    advance_commit_index, build_append_entries, handle_append_entries,
    handle_append_entries_response,
};
use quorum::state::{LeaderState, PersistentState, Role, VolatileState};

fn fresh_state() -> (PersistentState, VolatileState, Log) {
    (PersistentState::default(), VolatileState::new(), Log::new())
}

fn entry(term: u64, index: u64, command: &[u8]) -> LogEntry {
    LogEntry { term, index, command: command.to_vec() }
}

#[test]
fn accepts_heartbeat_on_empty_log() {
    let (mut persistent, mut volatile, mut log) = fresh_state();
    persistent.current_term = 1;
    let req = AppendEntriesRequest {
        term: 1,
        leader_id: 1,
        prev_log_index: 0,
        prev_log_term: 0,
        entries: vec![],
        leader_commit: 0,
    };
    let resp = handle_append_entries(&mut persistent, &mut volatile, &mut log, &req);
    assert!(resp.success);
}

#[test]
fn rejects_stale_leader_term() {
    let (mut persistent, mut volatile, mut log) = fresh_state();
    persistent.current_term = 5;
    let req = AppendEntriesRequest {
        term: 3,
        leader_id: 1,
        prev_log_index: 0,
        prev_log_term: 0,
        entries: vec![],
        leader_commit: 0,
    };
    let resp = handle_append_entries(&mut persistent, &mut volatile, &mut log, &req);
    assert!(!resp.success);
    assert_eq!(resp.term, 5);
}

#[test]
fn rejects_and_reports_conflict_on_log_mismatch() {
    let (mut persistent, mut volatile, mut log) = fresh_state();
    persistent.current_term = 1;
    let req = AppendEntriesRequest {
        term: 1,
        leader_id: 1,
        prev_log_index: 5,
        prev_log_term: 1,
        entries: vec![],
        leader_commit: 0,
    };
    let resp = handle_append_entries(&mut persistent, &mut volatile, &mut log, &req);
    assert!(!resp.success);
    assert!(resp.conflict_index.is_some());
    assert_eq!(resp.conflict_index, Some(0));
}

#[test]
fn truncates_conflicting_entries_and_appends_new_ones() {
    let (mut persistent, mut volatile, mut log) = fresh_state();
    persistent.current_term = 2;
    log.append(1, b"stale-entry".to_vec());

    let new_entry = LogEntry { term: 2, index: 1, command: b"correct".to_vec() };
    let req = AppendEntriesRequest {
        term: 2,
        leader_id: 1,
        prev_log_index: 0,
        prev_log_term: 0,
        entries: vec![new_entry],
        leader_commit: 0,
    };
    let resp = handle_append_entries(&mut persistent, &mut volatile, &mut log, &req);
    assert!(resp.success);
    assert_eq!(log.get(1).unwrap().command, b"correct".to_vec());
}

#[test]
fn commit_index_only_advances_for_current_term_entries() {
    let mut log = Log::new();
    log.append(1, b"old-term-entry".to_vec());
    log.append(2, b"current-term-entry".to_vec());

    let mut leader_state = LeaderState::default();
    leader_state.match_index.insert(2, 1);
    leader_state.match_index.insert(3, 1);

    let result = advance_commit_index(&leader_state, &log, 2, 3, 1);
    assert_eq!(result, None);

    leader_state.match_index.insert(2, 2);
    leader_state.match_index.insert(3, 2);
    let result = advance_commit_index(&leader_state, &log, 2, 3, 2);
    assert_eq!(result, Some(2));
}

#[test]
fn replication_response_advances_next_and_match_index_on_success() {
    let mut leader_state = LeaderState::default();
    let response = AppendEntriesResponse { term: 1, success: true, conflict_index: None };
    handle_append_entries_response(&mut leader_state, 2, 0, 3, &response);
    assert_eq!(leader_state.match_index.get(&2), Some(&3));
    assert_eq!(leader_state.next_index.get(&2), Some(&4));
}

#[test]
fn replication_response_retreats_next_index_on_conflict() {
    let mut leader_state = LeaderState::default();
    let response = AppendEntriesResponse { term: 1, success: false, conflict_index: Some(2) };
    handle_append_entries_response(&mut leader_state, 2, 10, 1, &response);
    assert_eq!(leader_state.next_index.get(&2), Some(&3));
}

#[test]
fn a_rejection_without_a_hint_retreats_by_one() {
    let mut leader_state = LeaderState::default();
    let response = AppendEntriesResponse { term: 1, success: false, conflict_index: None };
    handle_append_entries_response(&mut leader_state, 2, 10, 1, &response);
    assert_eq!(leader_state.next_index.get(&2), Some(&10));
    handle_append_entries_response(&mut leader_state, 3, 0, 1, &response);
    assert_eq!(leader_state.next_index.get(&3), Some(&1));
    assert!(leader_state.match_index.is_empty());
}

#[test]
fn a_commit_needs_a_majority() {
    let mut log = Log::new();
    log.append(1, b"a".to_vec());
    log.append(1, b"b".to_vec());
    log.append(1, b"c".to_vec());
    let mut leader_state = LeaderState::default();
    for (id, matched) in [(2, 3), (3, 2), (4, 1), (5, 0)] {
        leader_state.match_index.insert(id, matched);
    }
    assert_eq!(advance_commit_index(&leader_state, &log, 1, 5, 3), Some(2));
    leader_state.match_index.insert(3, 1);
    assert_eq!(advance_commit_index(&leader_state, &log, 1, 5, 3), Some(1));
    leader_state.match_index.insert(4, 3);
    assert_eq!(advance_commit_index(&leader_state, &log, 1, 5, 3), Some(3));
}

#[test]
fn a_leader_alone_commits_its_own_entries() {
    let mut log = Log::new();
    assert_eq!(advance_commit_index(&LeaderState::default(), &log, 1, 1, 0), None);
    log.append(1, b"a".to_vec());
    assert_eq!(advance_commit_index(&LeaderState::default(), &log, 1, 1, 1), Some(1));
    assert_eq!(advance_commit_index(&LeaderState::default(), &log, 2, 1, 1), None);
}

#[test]
fn the_commit_index_follows_the_leader_up_to_the_last_entry() {
    let (mut persistent, mut volatile, mut log) = fresh_state();
    volatile.role = Role::Candidate;
    let req = AppendEntriesRequest {
        term: 3,
        leader_id: 8,
        prev_log_index: 0,
        prev_log_term: 0,
        entries: vec![entry(3, 1, b"a"), entry(3, 2, b"b")],
        leader_commit: 9,
    };
    let resp = handle_append_entries(&mut persistent, &mut volatile, &mut log, &req);
    assert!(resp.success);
    assert_eq!(resp.term, 3);
    assert_eq!(persistent.current_term, 3);
    assert_eq!(volatile.role, Role::Follower);
    assert_eq!(volatile.commit_index, 2);
    assert_eq!(log.last_index(), 2);
}

#[test]
fn a_follower_takes_the_leaders_log_step_by_step() {
    let leader = PersistentState { current_term: 2, voted_for: None };
    let mut leader_log = Log::new();
    leader_log.append(1, b"one".to_vec());
    leader_log.append(1, b"two".to_vec());
    leader_log.append(2, b"three".to_vec());
    let (mut persistent, mut volatile, mut log) = fresh_state();
    log.append(1, b"one".to_vec());

    let mut next = 4;
    let mut rejections = 0;
    loop {
        let req = build_append_entries(&leader, &leader_log, 1, next, 0);
        let resp = handle_append_entries(&mut persistent, &mut volatile, &mut log, &req);
        if resp.success {
            break;
        }
        let again = resp.conflict_index.unwrap() + 1;
        assert!(again < next);
        next = again;
        rejections += 1;
    }
    assert_eq!(rejections, 1);
    assert_eq!(next, 2);
    for index in 1..=3 {
        assert_eq!(log.get(index).unwrap().command, leader_log.get(index).unwrap().command);
        assert_eq!(log.term_at(index), leader_log.term_at(index));
    }
    assert!(log.get(4).is_none());
}

#[test]
fn a_request_carries_what_the_follower_lacks() {
    let leader = PersistentState { current_term: 5, voted_for: None };
    let mut log = Log::new();
    log.append(4, b"a".to_vec());
    log.append(5, b"b".to_vec());
    let req = build_append_entries(&leader, &log, 7, 2, 1);
    assert_eq!((req.term, req.leader_id, req.leader_commit), (5, 7, 1));
    assert_eq!((req.prev_log_index, req.prev_log_term), (1, 4));
    assert_eq!(req.entries.len(), 1);
    assert_eq!(req.entries[0].command, b"b".to_vec());
    let heartbeat = build_append_entries(&leader, &log, 7, 3, 1);
    assert!(heartbeat.entries.is_empty());
    let from_the_start = build_append_entries(&leader, &log, 7, 0, 1);
    assert_eq!((from_the_start.prev_log_index, from_the_start.prev_log_term), (0, 0));
    assert_eq!(from_the_start.entries.len(), 2);
}

#[test]
fn logs_count_from_one() {
    let mut log = Log::new();
    assert_eq!((log.last_index(), log.last_term()), (0, 0));
    assert!(log.get(0).is_none());
    assert_eq!(log.append(3, b"a".to_vec()), 1);
    assert_eq!(log.append(4, b"b".to_vec()), 2);
    assert_eq!((log.last_index(), log.last_term()), (2, 4));
    assert_eq!(log.term_at(1), Some(3));
    assert_eq!(log.term_at(3), None);
    assert!(log.matches(0, 99));
    assert!(log.matches(2, 4));
    assert!(!log.matches(2, 3));
    assert!(!log.matches(3, 4));
    assert_eq!(log.entries_after(1).len(), 1);
    log.truncate_and_append(2, vec![entry(9, 2, b"c"), entry(9, 3, b"d")]);
    assert_eq!(log.last_index(), 3);
    assert_eq!(log.term_at(2), Some(9));
    log.truncate_and_append(0, vec![]);
    assert_eq!(log.last_index(), 0);
}

#[test]
fn a_recovered_log_is_taken_as_it_is() {
    let log = Log::from_entries(vec![entry(1, 1, b"a"), entry(2, 2, b"b")]);
    assert_eq!((log.last_index(), log.last_term()), (2, 2));
    assert_eq!(log.get(1).unwrap().command, b"a".to_vec());
}

fn request(prev: (u64, u64), entries: Vec<LogEntry>, leader_commit: u64) -> AppendEntriesRequest {
    AppendEntriesRequest {
        term: 2,
        leader_id: 1,
        prev_log_index: prev.0,
        prev_log_term: prev.1,
        entries,
        leader_commit,
    }
}

#[test]
fn a_late_request_keeps_what_is_committed() {
    let (mut persistent, mut volatile, mut log) = fresh_state();
    let a = || entry(2, 1, b"a");
    let b = || entry(2, 2, b"b");
    let whole = request((0, 0), vec![a(), b()], 2);
    assert!(handle_append_entries(&mut persistent, &mut volatile, &mut log, &whole).success);
    assert_eq!((log.last_index(), volatile.commit_index), (2, 2));
    for late in [
        request((0, 0), vec![a()], 0),
        request((0, 0), vec![a()], 1),
        request((0, 0), vec![a(), b()], 2),
        request((1, 2), vec![b()], 1),
        request((0, 0), vec![], 0),
        request((1, 2), vec![], 9),
    ] {
        assert!(handle_append_entries(&mut persistent, &mut volatile, &mut log, &late).success);
        assert_eq!((log.last_index(), volatile.commit_index), (2, 2));
        assert_eq!(log.get(1).unwrap().command, b"a".to_vec());
        assert_eq!(log.get(2).unwrap().command, b"b".to_vec());
    }
}

#[test]
fn a_log_is_cut_at_the_first_entry_that_differs() {
    let (mut persistent, mut volatile, mut log) = fresh_state();
    for command in [b"a", b"b", b"c"] {
        log.append(1, command.to_vec());
    }
    let differs = request((0, 0), vec![entry(1, 1, b"a"), entry(2, 2, b"x")], 0);
    assert!(handle_append_entries(&mut persistent, &mut volatile, &mut log, &differs).success);
    assert_eq!(log.last_index(), 2);
    assert_eq!(log.get(1).unwrap().term, 1);
    assert_eq!(log.get(2).unwrap().command, b"x".to_vec());
    let longer = request((1, 1), vec![entry(2, 2, b"x"), entry(2, 3, b"y")], 3);
    assert!(handle_append_entries(&mut persistent, &mut volatile, &mut log, &longer).success);
    assert_eq!((log.last_index(), volatile.commit_index), (3, 3));
}
