use quorum::clock::Duration;
use quorum::cluster::{
    Action, ClientCommand, ClientCommandResult, ClientQuery, Cluster, Event, QueryResult, WalWrite,
};
use quorum::config::NodeConfig;
use quorum::kv_store::{Command, KvStore};
use quorum::log::{Log, LogEntry};
use quorum::messages::{
    AppendEntriesRequest, AppendEntriesResponse, RequestVoteRequest, RequestVoteResponse,
    RpcMessage,
};
use quorum::state::{NodeId, PersistentState, Role};
use quorum::wal::{replay, truncate_from, write_record};
use std::collections::{HashMap, VecDeque};
use std::time::Instant;

fn put(key: &str, value: &str) -> Command {
    Command::Put { key: key.to_string(), value: value.as_bytes().to_vec() }
}

fn build_node(id: NodeId, peers: &[NodeId], log: Log, kv_store: KvStore) -> Cluster<u32> {
    let config = NodeConfig {
        id,
        listen_addr: "127.0.0.1:0".to_string(),
        metrics_addr: "127.0.0.1:0".to_string(),
        peers: peers.iter().map(|&peer| (peer, String::new())).collect(),
        storage_dir: String::new(),
    };
    Cluster::new(config, log, kv_store, PersistentState::default(), peers.to_vec())
}

fn build_cluster() -> Cluster<u32> {
    build_node(1, &[], Log::new(), KvStore::new())
}

fn is_leader(cluster: &Cluster<u32>) -> bool {
    cluster.role() == Role::Leader
}

fn sends(actions: &[Action<u32>]) -> Vec<(NodeId, RpcMessage)> {
    let mut found = Vec::new();
    for action in actions {
        if let Action::Send { to, msg } = action {
            found.push((*to, msg.clone()));
        }
    }
    found
}

#[test]
fn single_node_cluster_becomes_leader_on_election() {
    let mut cluster = build_cluster();
    assert_eq!(cluster.role(), Role::Follower);
    cluster.begin_election(Instant::now(), &mut Vec::new());
    assert_eq!(cluster.role(), Role::Leader);
}

#[test]
fn client_command_rejected_when_not_leader() {
    let mut cluster = build_cluster();
    let mut actions = Vec::new();
    cluster.handle_client_command(
        ClientCommand { command: put("k", "v"), respond_to: 1 },
        &mut actions,
    );
    assert_eq!(actions.len(), 1);
    assert!(matches!(
        actions[0],
        Action::Respond {
            client: 1,
            result: ClientCommandResult::NotLeader { leader_hint: None }
        }
    ));
    assert_eq!(cluster.snapshot().log_len, 0);
}

#[test]
fn query_rejected_when_not_leader() {
    let cluster = build_cluster();
    let mut actions = Vec::new();
    cluster.handle_client_query(ClientQuery { key: "k".into(), respond_to: 2 }, &mut actions);
    assert!(matches!(
        actions[0],
        Action::Reply { client: 2, answer: QueryResult::NotLeader { .. } }
    ));
}

#[test]
fn leader_answers_query_from_applied_state() {
    let mut store = KvStore::new();
    store.apply(&Command::Put { key: "k".into(), value: b"v".to_vec() });
    let mut cluster = build_node(1, &[], Log::new(), store);
    cluster.begin_election(Instant::now(), &mut Vec::new());
    let mut actions = Vec::new();
    cluster.handle_client_query(ClientQuery { key: "k".into(), respond_to: 3 }, &mut actions);
    match &actions[0] {
        Action::Reply { client: 3, answer: QueryResult::Value(Some(v)) } => {
            assert_eq!(*v, b"v".to_vec());
        }
        other => panic!("got {other:?}"),
    }
}

#[test]
fn a_leader_appends_commands_after_its_noop() {
    let mut cluster = build_cluster();
    match &cluster.writes_ahead(&Event::ElectionDue)[..] {
        [WalWrite::Append(entry)] => {
            assert_eq!((entry.term, entry.index), (1, 1));
            assert!(matches!(Command::decode(&entry.command), Ok(Command::NoOp)));
        }
        other => panic!("got {other:?}"),
    }
    let actions = cluster.step(Event::ElectionDue, Instant::now(), true);
    assert!(matches!(actions[..], [Action::ResetElectionTimer]));
    let command = Event::Command(ClientCommand { command: put("k", "v"), respond_to: 9 });
    match &cluster.writes_ahead(&command)[..] {
        [WalWrite::Append(entry)] => {
            assert_eq!((entry.term, entry.index), (1, 2));
            match Command::decode(&entry.command) {
                Ok(Command::Put { key, value }) => {
                    assert_eq!((key, value), ("k".to_string(), b"v".to_vec()));
                }
                other => panic!("got {other:?}"),
            }
        }
        other => panic!("got {other:?}"),
    }
    let actions = cluster.step(command, Instant::now(), true);
    assert!(matches!(
        actions[..],
        [Action::Respond { client: 9, result: ClientCommandResult::Applied(None) }]
    ));
    let snapshot = cluster.snapshot();
    assert_eq!((snapshot.node_id, snapshot.role.as_str()), (1, "Leader"));
    assert_eq!((snapshot.current_term, snapshot.log_len), (1, 2));
    assert_eq!((snapshot.commit_index, snapshot.last_applied), (2, 2));
    assert_eq!(snapshot.leader_hint, Some(1));
}

#[test]
fn a_write_is_answered_with_what_it_displaced() {
    let mut cluster = build_cluster();
    cluster.step(Event::ElectionDue, Instant::now(), true);
    for (client, command) in
        [(1, put("k", "a")), (2, put("k", "b")), (3, Command::Delete { key: "k".into() })]
    {
        let event = Event::Command(ClientCommand { command, respond_to: client });
        let actions = cluster.step(event, Instant::now(), true);
        match actions.last() {
            Some(Action::Respond { client: c, result: ClientCommandResult::Applied(old) }) => {
                assert_eq!(*c, client);
                let expected: Option<Vec<u8>> = match client {
                    1 => None,
                    2 => Some(b"a".to_vec()),
                    _ => Some(b"b".to_vec()),
                };
                assert_eq!(*old, expected);
            }
            other => panic!("got {other:?}"),
        }
    }
}

#[test]
fn heartbeats_are_a_quarter_of_the_shortest_timeout() {
    let cluster = build_cluster();
    assert_eq!(cluster.heartbeat_interval(), Duration { nanos: 37_500_000 });
    for _ in 0..50 {
        let timeout = cluster.election_timeout();
        assert!((150..=300).contains(&timeout.as_millis()));
        assert!(cluster.heartbeat_interval().nanos < timeout.nanos);
    }
}

#[test]
fn a_follower_answers_and_remembers_the_leader() {
    let mut cluster = build_node(2, &[1, 3], Log::new(), KvStore::new());
    let request = AppendEntriesRequest {
        term: 4,
        leader_id: 1,
        prev_log_index: 0,
        prev_log_term: 0,
        entries: vec![LogEntry { term: 4, index: 1, command: put("k", "v").encode().unwrap() }],
        leader_commit: 1,
    };
    let event = Event::Rpc { from: 1, msg: RpcMessage::AppendEntries(request) };
    match &cluster.writes_ahead(&event)[..] {
        [WalWrite::Append(entry)] => assert_eq!((entry.term, entry.index), (4, 1)),
        other => panic!("got {other:?}"),
    }
    let actions = cluster.step(event, Instant::now(), true);
    match &actions[..] {
        [
            Action::ResetElectionTimer,
            Action::Send { to: 1, msg: RpcMessage::AppendEntriesResponse(resp) },
        ] => {
            assert!(resp.success);
            assert_eq!(resp.term, 4);
        }
        other => panic!("got {other:?}"),
    }
    let snapshot = cluster.snapshot();
    assert_eq!(snapshot.role, "Follower");
    assert_eq!(snapshot.leader_hint, Some(1));
    assert_eq!((snapshot.commit_index, snapshot.last_applied), (1, 1));
    let command = Event::Command(ClientCommand { command: put("k", "w"), respond_to: 5 });
    let actions = cluster.step(command, Instant::now(), true);
    assert!(matches!(
        actions[..],
        [Action::Respond {
            client: 5,
            result: ClientCommandResult::NotLeader { leader_hint: Some(1) }
        }]
    ));
}

#[test]
fn conflicting_entries_are_truncated_on_disk_first() {
    let mut log = Log::new();
    log.append(1, b"old".to_vec());
    log.append(1, b"older".to_vec());
    let mut cluster = build_node(2, &[1], log, KvStore::new());
    let request = AppendEntriesRequest {
        term: 2,
        leader_id: 1,
        prev_log_index: 1,
        prev_log_term: 1,
        entries: vec![LogEntry { term: 2, index: 2, command: b"new".to_vec() }],
        leader_commit: 0,
    };
    let event = Event::Rpc { from: 1, msg: RpcMessage::AppendEntries(request) };
    match &cluster.writes_ahead(&event)[..] {
        [WalWrite::Truncate { from_index: 2 }, WalWrite::Append(new)] => {
            assert_eq!((new.term, new.index), (2, 2));
        }
        other => panic!("got {other:?}"),
    }
    let actions = cluster.step(event, Instant::now(), true);
    assert!(matches!(actions[..], [Action::ResetElectionTimer, Action::Send { .. }]));
}

#[test]
fn bytes_that_are_no_command_are_skipped() {
    let mut cluster = build_node(2, &[1], Log::new(), KvStore::new());
    let request = AppendEntriesRequest {
        term: 1,
        leader_id: 1,
        prev_log_index: 0,
        prev_log_term: 0,
        entries: vec![
            LogEntry { term: 1, index: 1, command: b"junk".to_vec() },
            LogEntry { term: 1, index: 2, command: put("k", "v").encode().unwrap() },
        ],
        leader_commit: 2,
    };
    let event = Event::Rpc { from: 1, msg: RpcMessage::AppendEntries(request) };
    cluster.step(event, Instant::now(), true);
    assert_eq!(cluster.snapshot().last_applied, 2);
}

#[test]
fn a_newer_term_ends_a_leadership() {
    let mut cluster = build_cluster();
    cluster.step(Event::ElectionDue, Instant::now(), true);
    assert!(is_leader(&cluster));
    let resp = AppendEntriesResponse { term: 9, success: false, conflict_index: None };
    let event = Event::Rpc { from: 2, msg: RpcMessage::AppendEntriesResponse(resp) };
    let actions = cluster.step(event, Instant::now(), true);
    assert!(matches!(actions[..], [Action::ResetElectionTimer]));
    assert_eq!(cluster.role(), Role::Follower);
    assert_eq!(cluster.snapshot().current_term, 9);
}

#[test]
fn a_candidate_needs_a_majority_of_votes() {
    let mut cluster = build_node(1, &[2, 3, 4, 5], Log::new(), KvStore::new());
    let actions = cluster.step(Event::ElectionDue, Instant::now(), true);
    let ballots = sends(&actions);
    assert_eq!(ballots.len(), 4);
    for (_, msg) in &ballots {
        match msg {
            RpcMessage::RequestVote(req) => {
                assert_eq!((req.term, req.candidate_id), (1, 1));
            }
            other => panic!("got {other:?}"),
        }
    }
    for (from, granted, leads) in
        [(2, true, false), (3, false, false), (2, true, false), (4, true, true)]
    {
        let resp = RequestVoteResponse { term: 1, vote_granted: granted };
        let event = Event::Rpc { from, msg: RpcMessage::RequestVoteResponse(resp) };
        cluster.step(event, Instant::now(), true);
        assert_eq!(is_leader(&cluster), leads);
    }
    let late = RequestVoteResponse { term: 1, vote_granted: true };
    let event = Event::Rpc { from: 5, msg: RpcMessage::RequestVoteResponse(late) };
    assert!(cluster.step(event, Instant::now(), true).is_empty());
}

#[test]
fn timers_and_greetings_do_nothing_in_the_wrong_role() {
    let mut cluster = build_cluster();
    assert!(cluster.step(Event::HeartbeatDue, Instant::now(), true).is_empty());
    cluster.step(Event::ElectionDue, Instant::now(), true);
    assert!(cluster.step(Event::ElectionDue, Instant::now(), true).is_empty());
    let hello = Event::Rpc { from: 2, msg: RpcMessage::Hello(2) };
    assert!(cluster.step(hello, Instant::now(), true).is_empty());
}

#[test]
fn a_stranger_gets_no_answer() {
    let mut cluster = build_node(1, &[2], Log::new(), KvStore::new());
    let req = RequestVoteRequest { term: 3, candidate_id: 9, last_log_index: 0, last_log_term: 0 };
    let event = Event::Rpc { from: 9, msg: RpcMessage::RequestVote(req) };
    let actions = cluster.step(event, Instant::now(), true);
    assert!(matches!(actions[..], [Action::ResetElectionTimer]));
    assert_eq!(cluster.snapshot().current_term, 3);
}

#[test]
fn events_that_would_overflow_are_not_admitted() {
    let far = LogEntry { term: 1, index: u64::MAX, command: vec![] };
    let cluster = build_node(1, &[], Log::from_entries(vec![far]), KvStore::new());
    assert!(!cluster.admits(&Event::ElectionDue));
    assert!(cluster.admits(&Event::HeartbeatDue));
    let mut ordinary = build_node(1, &[2], Log::new(), KvStore::new());
    assert!(ordinary.admits(&Event::ElectionDue));
    ordinary.step(Event::ElectionDue, Instant::now(), true);
    ordinary.step(vote(2, 1), Instant::now(), true);
    assert!(is_leader(&ordinary));
    let resp = AppendEntriesResponse { term: 1, success: false, conflict_index: Some(u64::MAX) };
    let wild = Event::Rpc { from: 2, msg: RpcMessage::AppendEntriesResponse(resp) };
    assert!(!ordinary.admits(&wild));
    assert!(ordinary.admits(&accepted(2, 1)));
}

fn vote(from: NodeId, term: u64) -> Event<u32> {
    let resp = RequestVoteResponse { term, vote_granted: true };
    Event::Rpc { from, msg: RpcMessage::RequestVoteResponse(resp) }
}

fn accepted(from: NodeId, term: u64) -> Event<u32> {
    let resp = AppendEntriesResponse { term, success: true, conflict_index: None };
    Event::Rpc { from, msg: RpcMessage::AppendEntriesResponse(resp) }
}

fn entry(term: u64, index: u64, command: &Command) -> LogEntry {
    LogEntry { term, index, command: command.encode().unwrap() }
}

fn append(term: u64, prev: (u64, u64), entries: Vec<LogEntry>, leader_commit: u64) -> Event<u32> {
    let request = AppendEntriesRequest {
        term,
        leader_id: 3,
        prev_log_index: prev.0,
        prev_log_term: prev.1,
        entries,
        leader_commit,
    };
    Event::Rpc { from: 3, msg: RpcMessage::AppendEntries(request) }
}

/// A leader of term 1 in a cluster of that many nodes, right after its
/// election.
fn new_leader(size: u32) -> Cluster<u32> {
    let peers: Vec<NodeId> = (2..=size).collect();
    let mut cluster = build_node(1, &peers, Log::new(), KvStore::new());
    cluster.step(Event::ElectionDue, Instant::now(), true);
    for &peer in &peers {
        cluster.step(vote(peer, 1), Instant::now(), true);
    }
    assert!(is_leader(&cluster));
    cluster
}

fn submit(cluster: &mut Cluster<u32>, client: u32) -> Vec<Action<u32>> {
    let command = ClientCommand { command: put("k", "v"), respond_to: client };
    cluster.step(Event::Command(command), Instant::now(), true)
}

#[test]
fn a_vote_of_an_older_election_counts_for_nothing() {
    let mut cluster = build_node(1, &[2, 3], Log::new(), KvStore::new());
    cluster.step(Event::ElectionDue, Instant::now(), true);
    cluster.step(Event::ElectionDue, Instant::now(), true);
    assert_eq!(cluster.snapshot().current_term, 2);
    assert!(cluster.step(vote(2, 1), Instant::now(), true).is_empty());
    assert_eq!(cluster.role(), Role::Candidate);
    cluster.step(vote(3, 2), Instant::now(), true);
    assert_eq!(cluster.role(), Role::Leader);
}

#[test]
fn an_answer_counts_for_the_request_it_answers() {
    let mut leader = new_leader(3);
    submit(&mut leader, 7);
    assert!(leader.step(accepted(2, 1), Instant::now(), true).is_empty());
    assert_eq!(leader.snapshot().commit_index, 1);
    let updates = sends(&leader.step(Event::HeartbeatDue, Instant::now(), true));
    match &updates[..] {
        [(2, RpcMessage::AppendEntries(to_2)), (3, RpcMessage::AppendEntries(to_3))] => {
            assert_eq!((to_2.prev_log_index, to_2.entries.len()), (1, 1));
            assert_eq!((to_3.prev_log_index, to_3.entries.len()), (0, 2));
        }
        other => panic!("got {other:?}"),
    }
    let actions = leader.step(accepted(2, 1), Instant::now(), true);
    assert!(matches!(
        actions[..],
        [Action::Respond { client: 7, result: ClientCommandResult::Applied(None) }]
    ));
    assert_eq!(leader.snapshot().commit_index, 2);
}

#[test]
fn late_answers_do_not_commit_a_write_that_nobody_has() {
    let mut leader = new_leader(5);
    submit(&mut leader, 7);
    for follower in [2, 3] {
        assert!(leader.step(accepted(follower, 1), Instant::now(), true).is_empty());
    }
    assert_eq!(leader.snapshot().commit_index, 1);
    // The write reached nobody, so the next leader does not have it.
    let noop = entry(1, 1, &Command::NoOp);
    let takeover = append(2, (0, 0), vec![noop, entry(2, 2, &Command::NoOp)], 2);
    let actions = leader.step(takeover, Instant::now(), true);
    let answers: Vec<&Action<u32>> =
        actions.iter().filter(|action| matches!(action, Action::Respond { .. })).collect();
    assert!(matches!(
        answers[..],
        [Action::Respond {
            client: 7,
            result: ClientCommandResult::NotLeader { leader_hint: Some(3) }
        }]
    ));
}

#[test]
fn an_answer_to_no_request_counts_for_nothing() {
    let mut leader = new_leader(3);
    leader.step(accepted(2, 1), Instant::now(), true);
    assert_eq!(leader.snapshot().commit_index, 1);
    submit(&mut leader, 7);
    let mut repeated = new_leader(3);
    repeated.step(accepted(2, 1), Instant::now(), true);
    repeated.step(accepted(2, 1), Instant::now(), true);
    repeated.step(accepted(9, 1), Instant::now(), true);
    assert_eq!(repeated.snapshot().commit_index, 1);
}

#[test]
fn an_answer_of_an_older_term_counts_for_nothing() {
    let mut leader = new_leader(3);
    let newer = AppendEntriesResponse { term: 4, success: false, conflict_index: None };
    let event = Event::Rpc { from: 3, msg: RpcMessage::AppendEntriesResponse(newer) };
    leader.step(event, Instant::now(), true);
    leader.step(Event::ElectionDue, Instant::now(), true);
    leader.step(vote(2, 5), Instant::now(), true);
    assert!(is_leader(&leader));
    assert!(leader.step(accepted(2, 1), Instant::now(), true).is_empty());
    assert_eq!(leader.snapshot().commit_index, 0);
    leader.step(accepted(2, 5), Instant::now(), true);
    assert_eq!(leader.snapshot().commit_index, 2);
}

#[test]
fn a_repeated_or_late_request_writes_nothing() {
    let mut follower = build_node(1, &[2, 3], Log::new(), KvStore::new());
    let a = entry(1, 1, &put("a", "1"));
    let b = entry(1, 2, &put("b", "2"));
    follower.step(append(1, (0, 0), vec![a.clone(), b.clone()], 2), Instant::now(), true);
    assert_eq!((follower.snapshot().log_len, follower.snapshot().last_applied), (2, 2));
    for late in [
        append(1, (0, 0), vec![a.clone()], 0),
        append(1, (0, 0), vec![a.clone(), b.clone()], 2),
        append(1, (1, 1), vec![b.clone()], 1),
    ] {
        assert!(follower.writes_ahead(&late).is_empty());
        let actions = follower.step(late, Instant::now(), true);
        assert!(matches!(actions[..], [Action::ResetElectionTimer, Action::Send { to: 3, .. }]));
        let snapshot = follower.snapshot();
        assert_eq!((snapshot.log_len, snapshot.commit_index), (2, 2));
    }
    // Only what is new, or differs, goes to disk.
    let c = entry(2, 3, &put("c", "3"));
    let longer = append(2, (0, 0), vec![a.clone(), b, c], 2);
    match &follower.writes_ahead(&longer)[..] {
        [WalWrite::Append(new)] => assert_eq!(new.index, 3),
        other => panic!("got {other:?}"),
    }
    follower.step(longer, Instant::now(), true);
    let different = append(3, (2, 1), vec![entry(3, 3, &put("x", "4"))], 3);
    match &follower.writes_ahead(&different)[..] {
        [WalWrite::Truncate { from_index: 3 }, WalWrite::Append(new)] => assert_eq!(new.term, 3),
        other => panic!("got {other:?}"),
    }
}

#[test]
fn a_replaced_command_is_not_reported_as_applied() {
    let mut leader = new_leader(3);
    submit(&mut leader, 7);
    let noop = entry(1, 1, &Command::NoOp);
    let other = entry(3, 2, &put("k", "other"));
    let actions = leader.step(append(3, (0, 0), vec![noop, other], 2), Instant::now(), true);
    match actions.last() {
        Some(Action::Respond { client: 7, result }) => assert!(matches!(
            result,
            ClientCommandResult::NotLeader { leader_hint: Some(3) }
        )),
        other => panic!("got {other:?}"),
    }
    assert_eq!(leader.snapshot().last_applied, 2);
}

#[test]
fn a_command_that_survives_its_leaders_term_is_reported_as_applied() {
    let mut leader = new_leader(3);
    submit(&mut leader, 7);
    let noop = entry(1, 1, &Command::NoOp);
    let own = entry(1, 2, &put("k", "v"));
    let next = entry(3, 3, &Command::NoOp);
    let actions = leader.step(append(3, (0, 0), vec![noop, own, next], 3), Instant::now(), true);
    assert!(matches!(
        actions.last(),
        Some(Action::Respond { client: 7, result: ClientCommandResult::Applied(None) })
    ));
}

fn indices(writes: &[WalWrite]) -> Vec<u64> {
    let mut found = Vec::new();
    for write in writes {
        if let WalWrite::Append(entry) = write {
            found.push(entry.index);
        }
    }
    found
}

fn next_update(leader: &mut Cluster<u32>, follower: NodeId) -> AppendEntriesRequest {
    for (to, msg) in sends(&leader.step(Event::HeartbeatDue, Instant::now(), true)) {
        if let (true, RpcMessage::AppendEntries(req)) = (to == follower, msg) {
            return req;
        }
    }
    panic!("no update for node {follower}")
}

#[test]
fn a_rejection_backs_the_next_request_up() {
    let log = Log::from_entries((1..=6).map(|i| entry(0, i, &put("k", "v"))).collect());
    let mut leader = build_node(1, &[2, 3], log, KvStore::new());
    leader.step(Event::ElectionDue, Instant::now(), true);
    leader.step(vote(2, 1), Instant::now(), true);
    leader.step(accepted(2, 1), Instant::now(), true);
    assert_eq!(next_update(&mut leader, 2).prev_log_index, 7);
    leader.step(accepted(2, 1), Instant::now(), true);
    // No request is open any more, and the follower still asks for older entries.
    let rejected = |index| {
        let resp = AppendEntriesResponse { term: 1, success: false, conflict_index: Some(index) };
        Event::Rpc { from: 2, msg: RpcMessage::AppendEntriesResponse(resp) }
    };
    assert!(leader.admits(&rejected(4)));
    assert!(leader.step(rejected(4), Instant::now(), true).is_empty());
    let update = next_update(&mut leader, 2);
    assert_eq!((update.prev_log_index, update.entries.len()), (4, 3));
    // With a request open, its position is what the answer is held against.
    leader.step(rejected(2), Instant::now(), true);
    assert_eq!(next_update(&mut leader, 2).prev_log_index, 2);
    assert!(is_leader(&leader));
}

#[test]
fn nothing_is_acknowledged_that_could_not_be_written() {
    let mut follower = build_node(1, &[2, 3], Log::new(), KvStore::new());
    let noop = entry(1, 1, &Command::NoOp);
    let first = append(1, (0, 0), vec![noop.clone()], 0);
    assert_eq!(indices(&follower.writes_ahead(&first)), vec![1]);
    let actions = follower.step(first, Instant::now(), false);
    assert!(matches!(actions[..], [Action::ResetElectionTimer]));
    assert_eq!(follower.snapshot().log_len, 1);

    // A request that brings nothing new is no excuse either.
    let again = append(1, (0, 0), vec![noop.clone()], 0);
    let actions = follower.step(again, Instant::now(), false);
    assert!(matches!(actions[..], [Action::ResetElectionTimer]));

    // What is missing on disk is written before anything else.
    let more = append(1, (1, 1), vec![entry(1, 2, &put("k", "v"))], 0);
    let writes = follower.writes_ahead(&more);
    assert!(matches!(writes[0], WalWrite::Truncate { from_index: 1 }));
    assert_eq!(indices(&writes), vec![1, 2]);
    let actions = follower.step(more, Instant::now(), true);
    match sends(&actions)[..] {
        [(3, RpcMessage::AppendEntriesResponse(ref resp))] => assert!(resp.success),
        ref other => panic!("got {other:?}"),
    }
    assert!(follower.writes_ahead(&append(1, (2, 1), vec![], 0)).is_empty());
}

#[test]
fn what_was_saved_before_a_failure_is_still_acknowledged() {
    let mut follower = build_node(1, &[2, 3], Log::new(), KvStore::new());
    let old = entry(1, 1, &put("k", "v"));
    follower.step(append(1, (0, 0), vec![old.clone()], 0), Instant::now(), true);
    follower.step(append(1, (1, 1), vec![entry(1, 2, &Command::NoOp)], 0), Instant::now(), false);
    let actions = follower.step(append(1, (0, 0), vec![old], 0), Instant::now(), false);
    match sends(&actions)[..] {
        [(3, RpcMessage::AppendEntriesResponse(ref resp))] => assert!(resp.success),
        ref other => panic!("got {other:?}"),
    }
    let writes = follower.writes_ahead(&Event::HeartbeatDue);
    assert!(matches!(writes[0], WalWrite::Truncate { from_index: 2 }));
    assert_eq!(indices(&writes), vec![2]);
}

#[test]
fn a_node_whose_writes_fail_goes_on() {
    let mut node = build_node(1, &[2, 3], Log::new(), KvStore::new());
    node.step(append(1, (0, 0), vec![entry(1, 1, &Command::NoOp)], 0), Instant::now(), false);
    let ballot =
        RequestVoteRequest { term: 9, candidate_id: 2, last_log_index: 9, last_log_term: 9 };
    let event = Event::Rpc { from: 2, msg: RpcMessage::RequestVote(ballot) };
    match sends(&node.step(event, Instant::now(), false))[..] {
        [(2, RpcMessage::RequestVoteResponse(ref resp))] => {
            assert_eq!((resp.term, resp.vote_granted), (9, true));
        }
        ref other => panic!("got {other:?}"),
    }
    match sends(&node.step(append(9, (5, 9), vec![], 0), Instant::now(), false))[..] {
        [(3, RpcMessage::AppendEntriesResponse(ref resp))] => assert!(!resp.success),
        ref other => panic!("got {other:?}"),
    }
    assert_eq!(sends(&node.step(Event::ElectionDue, Instant::now(), false)).len(), 2);
    assert_eq!(node.role(), Role::Candidate);
    node.step(vote(2, 10), Instant::now(), false);
    assert!(is_leader(&node));
    assert_eq!(sends(&node.step(Event::HeartbeatDue, Instant::now(), false)).len(), 2);
}

#[test]
fn a_leader_does_not_count_what_it_could_not_write() {
    let mut alone = build_cluster();
    alone.step(Event::ElectionDue, Instant::now(), true);
    assert_eq!(alone.snapshot().commit_index, 1);
    let command = ClientCommand { command: put("k", "v"), respond_to: 7 };
    assert!(alone.step(Event::Command(command), Instant::now(), false).is_empty());
    assert_eq!((alone.snapshot().log_len, alone.snapshot().commit_index), (2, 1));
    assert!(alone.step(Event::HeartbeatDue, Instant::now(), false).is_empty());
    assert_eq!(alone.snapshot().commit_index, 1);
    assert_eq!(indices(&alone.writes_ahead(&Event::HeartbeatDue)), vec![2]);
    let actions = alone.step(Event::HeartbeatDue, Instant::now(), true);
    assert!(matches!(
        actions[..],
        [Action::Respond { client: 7, result: ClientCommandResult::Applied(None) }]
    ));
    assert_eq!(alone.snapshot().commit_index, 2);
}

#[test]
fn followers_can_commit_what_their_leader_could_not_write() {
    let mut leader = new_leader(3);
    leader.step(accepted(2, 1), Instant::now(), true);
    leader.step(accepted(3, 1), Instant::now(), true);
    let command = ClientCommand { command: put("k", "v"), respond_to: 7 };
    assert_eq!(sends(&leader.step(Event::Command(command), Instant::now(), false)).len(), 2);
    assert!(leader.step(accepted(2, 1), Instant::now(), false).is_empty());
    assert_eq!(leader.snapshot().commit_index, 1);
    let actions = leader.step(accepted(3, 1), Instant::now(), false);
    assert!(matches!(
        actions[..],
        [Action::Respond { client: 7, result: ClientCommandResult::Applied(None) }]
    ));
    assert_eq!(leader.snapshot().commit_index, 2);
}

/// Nodes that are wired together, with messages delivered in the order they
/// were sent. Each has its write-ahead log in memory.
struct Network {
    nodes: HashMap<NodeId, Cluster<u32>>,
    disks: HashMap<NodeId, Vec<u8>>,
    in_flight: VecDeque<(NodeId, NodeId, RpcMessage)>,
    results: Vec<(u32, ClientCommandResult)>,
    answers: Vec<(u32, QueryResult)>,
    /// After how many writes the next event finds the disk full.
    room: Option<usize>,
}

impl Network {
    fn new(ids: &[NodeId]) -> Self {
        let mut nodes = HashMap::new();
        let mut disks = HashMap::new();
        for &id in ids {
            let peers: Vec<NodeId> = ids.iter().copied().filter(|&peer| peer != id).collect();
            nodes.insert(id, build_node(id, &peers, Log::new(), KvStore::new()));
            disks.insert(id, Vec::new());
        }
        Network {
            nodes,
            disks,
            in_flight: VecDeque::new(),
            results: vec![],
            answers: vec![],
            room: None,
        }
    }

    fn feed(&mut self, id: NodeId, event: Event<u32>) {
        let Some(node) = self.nodes.get_mut(&id) else { return };
        assert!(node.admits(&event));
        let writes = node.writes_ahead(&event);
        let done = self.room.take().unwrap_or(writes.len()).min(writes.len());
        let disk = self.disks.get_mut(&id).unwrap();
        for write in &writes[..done] {
            match write {
                WalWrite::Append(entry) => write_record(disk, entry).unwrap(),
                WalWrite::Truncate { from_index } => {
                    *disk = truncate_from(disk, *from_index).unwrap();
                }
            }
        }
        let actions = node.step(event, Instant::now(), done == writes.len());
        for action in actions {
            match action {
                Action::Send { to, msg } => self.in_flight.push_back((id, to, msg)),
                Action::ResetElectionTimer => {}
                Action::Respond { client, result } => self.results.push((client, result)),
                Action::Reply { client, answer } => self.answers.push((client, answer)),
            }
        }
    }

    fn deliver_all(&mut self) {
        while let Some((from, to, msg)) = self.in_flight.pop_front() {
            self.feed(to, Event::Rpc { from, msg });
        }
    }

    fn heartbeat(&mut self, id: NodeId) {
        self.feed(id, Event::HeartbeatDue);
        self.deliver_all();
    }

    fn leaders(&self) -> Vec<NodeId> {
        self.nodes.iter().filter(|(_, node)| is_leader(node)).map(|(&id, _)| id).collect()
    }

    fn check_disks(&self) {
        for (id, node) in &self.nodes {
            let entries = replay(&self.disks[id]).unwrap();
            assert_eq!(entries.len() as u64, node.snapshot().log_len);
            for (i, entry) in entries.iter().enumerate() {
                assert_eq!(entry.index, i as u64 + 1);
            }
        }
    }
}

#[test]
fn three_node_cluster_elects_exactly_one_leader() {
    let mut network = Network::new(&[1, 2, 3]);
    network.feed(2, Event::ElectionDue);
    network.deliver_all();
    assert_eq!(network.leaders(), vec![2]);
    network.heartbeat(2);
    for node in network.nodes.values() {
        let snapshot = node.snapshot();
        assert_eq!(snapshot.leader_hint, Some(2));
        assert_eq!((snapshot.commit_index, snapshot.last_applied), (1, 1));
    }
    network.check_disks();
}

#[test]
fn two_candidates_of_one_term_do_not_both_win() {
    let mut network = Network::new(&[1, 2, 3, 4, 5]);
    network.feed(1, Event::ElectionDue);
    network.feed(2, Event::ElectionDue);
    network.deliver_all();
    assert_eq!(network.leaders().len(), 1);
}

#[test]
fn cluster_survives_leader_crash_with_zero_data_loss() {
    let mut network = Network::new(&[1, 2, 3, 4, 5]);
    network.feed(1, Event::ElectionDue);
    network.deliver_all();
    assert_eq!(network.leaders(), vec![1]);

    let write = ClientCommand { command: put("critical-key", "must-survive"), respond_to: 7 };
    network.feed(1, Event::Command(write));
    assert!(network.results.is_empty());
    network.deliver_all();
    assert!(matches!(network.results[..], [(7, ClientCommandResult::Applied(_))]));

    network.nodes.remove(&1);
    network.feed(4, Event::ElectionDue);
    network.deliver_all();
    assert_eq!(network.leaders(), vec![4]);

    let query = ClientQuery { key: "critical-key".to_string(), respond_to: 8 };
    network.feed(4, Event::Query(query));
    match &network.answers[..] {
        [(8, QueryResult::Value(Some(bytes)))] => assert_eq!(*bytes, b"must-survive".to_vec()),
        other => panic!("expected the committed write to survive the leader crash, got {other:?}"),
    }
    network.check_disks();
}

#[test]
fn an_entry_stranded_by_a_crash_is_committed_by_the_next_leader() {
    let mut network = Network::new(&[1, 2, 3]);
    network.feed(1, Event::ElectionDue);
    network.deliver_all();
    let write = ClientCommand { command: put("k", "v"), respond_to: 7 };
    network.feed(1, Event::Command(write));
    let (from, to, msg) = network.in_flight.pop_front().unwrap();
    network.feed(to, Event::Rpc { from, msg });
    network.in_flight.clear();
    network.nodes.remove(&1);
    assert!(network.results.is_empty());

    network.feed(to, Event::ElectionDue);
    network.deliver_all();
    assert_eq!(network.leaders(), vec![to]);
    network.heartbeat(to);
    network.feed(to, Event::Query(ClientQuery { key: "k".to_string(), respond_to: 8 }));
    assert!(matches!(&network.answers[..], [(8, QueryResult::Value(Some(v)))] if *v == b"v"));
}

#[test]
fn a_node_that_was_cut_off_catches_up() {
    let mut network = Network::new(&[1, 2, 3]);
    network.feed(1, Event::ElectionDue);
    network.deliver_all();
    let lost = network.nodes.remove(&3).unwrap();
    for i in 0..4 {
        let write = ClientCommand { command: put("k", &format!("v{i}")), respond_to: i };
        network.feed(1, Event::Command(write));
        network.deliver_all();
    }
    assert_eq!(network.results.len(), 4);
    network.nodes.insert(3, lost);
    network.heartbeat(1);
    network.heartbeat(1);
    for node in network.nodes.values() {
        let snapshot = node.snapshot();
        assert_eq!((snapshot.log_len, snapshot.last_applied), (5, 5));
    }
    network.check_disks();
}

#[test]
fn a_candidate_without_the_latest_entries_loses() {
    let mut network = Network::new(&[1, 2, 3]);
    network.feed(1, Event::ElectionDue);
    network.deliver_all();
    let behind = network.nodes.remove(&3).unwrap();
    network.feed(1, Event::Command(ClientCommand { command: put("k", "v"), respond_to: 1 }));
    network.deliver_all();
    network.nodes.insert(3, behind);
    network.feed(3, Event::ElectionDue);
    network.deliver_all();
    assert!(network.leaders().is_empty());
    network.feed(2, Event::ElectionDue);
    network.deliver_all();
    assert_eq!(network.leaders(), vec![2]);
    network.check_disks();
}

#[test]
fn a_stale_leader_is_told_the_newer_term() {
    let mut cluster = build_node(2, &[1, 3], Log::new(), KvStore::new());
    let vote = RequestVoteRequest { term: 6, candidate_id: 3, last_log_index: 0, last_log_term: 0 };
    cluster.step(Event::Rpc { from: 3, msg: RpcMessage::RequestVote(vote) }, Instant::now(), true);
    let before = format!("{:?}", cluster.snapshot());
    let request = AppendEntriesRequest {
        term: 5,
        leader_id: 1,
        prev_log_index: 0,
        prev_log_term: 0,
        entries: vec![LogEntry { term: 5, index: 1, command: vec![] }],
        leader_commit: 1,
    };
    let event = Event::Rpc { from: 1, msg: RpcMessage::AppendEntries(request) };
    let actions = cluster.step(event, Instant::now(), true);
    match sends(&actions)[..] {
        [(1, RpcMessage::AppendEntriesResponse(ref resp))] => {
            assert!(!resp.success);
            assert_eq!(resp.term, 6);
        }
        ref other => panic!("got {other:?}"),
    }
    assert_eq!(format!("{:?}", cluster.snapshot()), before);
}

#[test]
fn reading_changes_nothing() {
    let mut cluster = build_cluster();
    cluster.step(Event::ElectionDue, Instant::now(), true);
    let before = format!("{:?}", cluster.snapshot());
    let query = ClientQuery { key: "k".to_string(), respond_to: 1 };
    let actions = cluster.step(Event::Query(query), Instant::now(), true);
    assert!(matches!(
        actions[..],
        [Action::Reply { client: 1, answer: QueryResult::Value(None) }]
    ));
    assert_eq!(format!("{:?}", cluster.snapshot()), before);
}

#[test]
fn every_node_can_serve_what_the_others_applied() {
    let mut network = Network::new(&[1, 2, 3]);
    network.feed(1, Event::ElectionDue);
    network.deliver_all();
    for (i, command) in
        [put("a", "1"), put("b", "2"), put("a", "3"), Command::Delete { key: "b".into() }]
            .into_iter()
            .enumerate()
    {
        let write = ClientCommand { command, respond_to: i as u32 };
        network.feed(1, Event::Command(write));
        network.deliver_all();
    }
    network.heartbeat(1);
    for leader in [2, 3, 1] {
        network.feed(leader, Event::ElectionDue);
        network.deliver_all();
        network.heartbeat(leader);
        assert_eq!(network.leaders(), vec![leader]);
        network.answers.clear();
        for (client, key) in [(10, "a"), (11, "b")] {
            let query = ClientQuery { key: key.to_string(), respond_to: client };
            network.feed(leader, Event::Query(query));
        }
        match &network.answers[..] {
            [(10, QueryResult::Value(Some(a))), (11, QueryResult::Value(None))] => {
                assert_eq!(*a, b"3".to_vec());
            }
            other => panic!("got {other:?}"),
        }
    }
    let logs: Vec<Vec<(u64, u64, Vec<u8>)>> = [1, 2, 3]
        .iter()
        .map(|id| {
            replay(&network.disks[id])
                .unwrap()
                .into_iter()
                .map(|entry| (entry.term, entry.index, entry.command))
                .collect()
        })
        .collect();
    assert_eq!(logs[0], logs[1]);
    assert_eq!(logs[0], logs[2]);
    network.check_disks();
}

#[test]
fn a_snapshot_and_the_entries_after_it_give_the_whole() {
    let mut log = Log::new();
    for command in [put("a", "1"), Command::NoOp, put("b", "2"), Command::Delete { key: "a".into() }]
    {
        log.append(1, command.encode().unwrap());
    }
    let run = |store: &mut KvStore, entries: &[LogEntry]| {
        for entry in entries {
            store.apply(&Command::decode(&entry.command).unwrap());
        }
    };
    let all = log.entries_after(0);
    let mut whole = KvStore::new();
    run(&mut whole, &all);
    for included in 0..=4u64 {
        let mut store = KvStore::new();
        run(&mut store, &all[..included as usize]);
        run(&mut store, &log.entries_after(included));
        assert_eq!(store.len(), whole.len());
        assert_eq!(store.get("a"), whole.get("a"));
        assert_eq!(store.get("b"), whole.get("b"));
    }
    assert_eq!(whole.get("b"), Some(&b"2".to_vec()));
}

#[test]
fn results_can_be_copied() {
    let result = ClientCommandResult::Applied(Some(vec![1, 2]));
    assert!(matches!(result.clone(), ClientCommandResult::Applied(Some(v)) if v == vec![1, 2]));
    let answer = QueryResult::NotLeader { leader_hint: Some(3) };
    assert!(matches!(answer.clone(), QueryResult::NotLeader { leader_hint: Some(3) }));
}

/// A plain source of numbers that look random.
struct Dice(u64);

impl Dice {
    fn roll(&mut self, sides: u64) -> u64 {
        self.0 = self.0.wrapping_mul(6364136223846793005).wrapping_add(1442695040888963407);
        (self.0 >> 33) % sides
    }
}

impl Network {
    /// Delivers or loses the oldest message of some link.
    fn deliver_some(&mut self, dice: &mut Dice) {
        if self.in_flight.is_empty() {
            return;
        }
        let any = dice.roll(self.in_flight.len() as u64) as usize;
        let link = (self.in_flight[any].0, self.in_flight[any].1);
        let oldest = self.in_flight.iter().position(|m| (m.0, m.1) == link).unwrap();
        let (from, to, msg) = self.in_flight.remove(oldest).unwrap();
        if dice.roll(10) > 0 {
            self.feed(to, Event::Rpc { from, msg });
        }
    }
}

#[test]
fn delays_losses_and_full_disks_lose_no_acknowledged_write() {
    let mut acknowledged = 0;
    for seed in 0..12 {
        let mut dice = Dice(seed);
        let mut network = Network::new(&[1, 2, 3, 4, 5]);
        let mut leader_of: HashMap<u64, NodeId> = HashMap::new();
        let mut submitted: u32 = 0;
        for _ in 0..3000 {
            network.room = if dice.roll(20) == 0 { Some(dice.roll(3) as usize) } else { None };
            match dice.roll(100) {
                0 => network.feed(1 + dice.roll(5) as u32, Event::ElectionDue),
                1..=4 => {
                    let id = 1 + dice.roll(5) as u32;
                    let command = put(&format!("key{submitted}"), "v");
                    let write = ClientCommand { command, respond_to: submitted };
                    network.feed(id, Event::Command(write));
                    submitted += 1;
                }
                5..=12 => network.feed(1 + dice.roll(5) as u32, Event::HeartbeatDue),
                _ => network.deliver_some(&mut dice),
            }
            for (&id, node) in &network.nodes {
                if is_leader(node) {
                    let term = node.snapshot().current_term;
                    assert_eq!(*leader_of.entry(term).or_insert(id), id);
                }
            }
        }
        network.in_flight.clear();
        network.room = None;
        for id in 1..=5 {
            network.feed(id, Event::Rpc { from: id, msg: RpcMessage::Hello(id) });
        }
        network.check_disks();
        let logs: HashMap<NodeId, Vec<Vec<u8>>> = network
            .disks
            .iter()
            .map(|(&id, disk)| {
                (id, replay(disk).unwrap().into_iter().map(|entry| entry.command).collect())
            })
            .collect();
        for (a, node) in &network.nodes {
            for (b, other) in &network.nodes {
                let both =
                    node.snapshot().commit_index.min(other.snapshot().commit_index) as usize;
                assert_eq!(logs[a][..both], logs[b][..both]);
            }
        }
        // Whoever is elected now has every write that was acknowledged.
        let mut round = 0;
        while network.leaders().len() != 1 || round < 5 {
            network.feed(1 + round % 5, Event::ElectionDue);
            network.deliver_all();
            round += 1;
            assert!(round < 50);
        }
        let leader = network.leaders()[0];
        network.heartbeat(leader);
        network.answers.clear();
        for (client, result) in std::mem::take(&mut network.results) {
            if let ClientCommandResult::Applied(_) = result {
                acknowledged += 1;
                let query = ClientQuery { key: format!("key{client}"), respond_to: client };
                network.feed(leader, Event::Query(query));
                match network.answers.pop() {
                    Some((_, QueryResult::Value(Some(value)))) => assert_eq!(value, b"v".to_vec()),
                    other => panic!("key{client} is lost: {other:?}"),
                }
            }
        }
    }
    assert!(acknowledged > 100, "only {acknowledged} writes were acknowledged");
}
