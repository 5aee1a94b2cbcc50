use quorum::chaos::{
    heal_node, health_url, kill_node, node_registry, partition_node, status, status_line, NodeInfo,
    Probe,
};
use quorum::cluster::{ClientCommandResult, QueryResult};
use quorum::errors::AppError;
use quorum::kv_store::Command;
use quorum::messages::{RequestVoteResponse, RpcMessage};
use quorum::metrics_api::{
    delete_command, get_response, put_command, write_response, PutBody, WriteResponse,
};
use quorum::network::{caller, greeting};
use quorum::text::{decimal_of, parse_number, split, split_once};

#[test]
fn numbers_are_written_and_read() {
    for n in [0u32, 1, 9, 10, 99, 100, 8001, u32::MAX] {
        assert_eq!(decimal_of(n as u64), n.to_string());
        assert_eq!(parse_number(&decimal_of(n as u64)), Some(n));
    }
    assert_eq!(decimal_of(u64::MAX), u64::MAX.to_string());
    for text in ["7", "+7", "007", "", "+", "-7", "7a", "4294967295", "4294967296"] {
        assert_eq!(parse_number(text), text.parse::<u32>().ok());
    }
}

#[test]
fn texts_are_split() {
    for text in ["", "a", "a,b", ",a,,b,", "ä,ö"] {
        let expected: Vec<String> = text.split(',').map(str::to_string).collect();
        assert_eq!(split(text, ','), expected);
    }
    assert_eq!(split_once("a=b=c", '='), Some(("a".to_string(), "b=c".to_string())));
    assert_eq!(split_once("=", '='), Some((String::new(), String::new())));
    assert_eq!(split_once("abc", '='), None);
}

#[test]
fn a_value_is_answered_as_text() {
    let answer = get_response(QueryResult::Value(Some("grüße".as_bytes().to_vec())));
    assert!(answer.is_leader);
    assert_eq!(answer.value, Some("grüße".to_string()));
    assert_eq!(answer.leader_hint, None);
    let nothing = get_response(QueryResult::Value(None));
    assert!(nothing.is_leader);
    assert_eq!(nothing.value, None);
}

#[test]
fn bytes_that_are_no_text_are_shown_with_replacements() {
    let bytes = vec![b'a', 0xff, b'b'];
    let answer = get_response(QueryResult::Value(Some(bytes.clone())));
    assert_eq!(answer.value, Some(String::from_utf8_lossy(&bytes).to_string()));
    assert_eq!(answer.value, Some("a\u{fffd}b".to_string()));
}

#[test]
fn a_follower_points_to_the_leader() {
    let answer = get_response(QueryResult::NotLeader { leader_hint: Some(5) });
    assert!(!answer.is_leader);
    assert_eq!(answer.value, None);
    assert_eq!(answer.leader_hint, Some(5));
    assert_eq!(
        write_response(&ClientCommandResult::NotLeader { leader_hint: None }),
        WriteResponse { is_leader: false, applied: false, leader_hint: None }
    );
    assert_eq!(
        write_response(&ClientCommandResult::Applied(Some(vec![1]))),
        WriteResponse { is_leader: true, applied: true, leader_hint: None }
    );
}

#[test]
fn requests_become_commands() {
    match put_command("k".to_string(), PutBody { value: "é".to_string() }) {
        Command::Put { key, value } => {
            assert_eq!(key, "k");
            assert_eq!(value, vec![0xc3, 0xa9]);
        }
        other => panic!("got {other:?}"),
    }
    match delete_command("k".to_string()) {
        Command::Delete { key } => assert_eq!(key, "k"),
        other => panic!("got {other:?}"),
    }
}

#[test]
fn api_errors_have_a_status_and_a_message() {
    assert_eq!(AppError::ChannelClosed.status(), 503);
    assert_eq!(
        AppError::ChannelClosed.message(),
        "request channel closed - node is shutting down"
    );
    let invalid = AppError::InvalidKey("a b".to_string());
    assert_eq!(invalid.status(), 400);
    assert_eq!(invalid.message(), "invalid key: a b");
}

#[test]
fn a_connection_starts_with_a_greeting() {
    assert_eq!(caller(&greeting(4)), Some(4));
    let other = RpcMessage::RequestVoteResponse(RequestVoteResponse { term: 1, vote_granted: true });
    assert_eq!(caller(&other), None);
}

#[test]
fn the_registry_knows_three_nodes() {
    let nodes = node_registry();
    assert_eq!(nodes.len(), 3);
    assert_eq!(nodes.get(&1), Some(&NodeInfo { metrics_port: 8001, raft_port: 7001 }));
    assert_eq!(nodes.get(&2), Some(&NodeInfo { metrics_port: 8002, raft_port: 7002 }));
    assert_eq!(nodes.get(&3), Some(&NodeInfo { metrics_port: 8003, raft_port: 7003 }));
}

#[test]
fn killing_runs_taskkill() {
    let plan = kill_node(1234);
    assert_eq!(plan.program, "taskkill");
    assert_eq!(plan.args, vec!["/F", "/PID", "1234"]);
    assert_eq!(plan.not_started, "failed to invoke taskkill");
    assert_eq!(plan.hint, " - is PID 1234 actually running?");
    assert_eq!(
        plan.done,
        "Killed process 1234. Watch the dashboard/logs for the remaining nodes to elect a new leader."
    );
}

#[test]
fn partitioning_blocks_both_directions_and_healing_unblocks_them() {
    let both = partition_node(2).unwrap();
    assert_eq!(both.len(), 2);
    for (cut, direction) in both.iter().zip(["dir=in", "dir=out"]) {
        assert_eq!(cut.program, "netsh");
        assert_eq!(
            cut.args,
            vec![
                "advfirewall",
                "firewall",
                "add",
                "rule",
                "name=quorum-partition-node2",
                direction,
                "action=block",
                "protocol=TCP",
                "localport=7002"
            ]
        );
        assert_eq!(
            cut.done,
            "Partitioned node 2 (blocked inbound and outbound TCP :7002). \
             It can no longer send/receive Raft RPCs."
        );
    }
    let heal = heal_node(2);
    assert_eq!(
        heal.args,
        vec!["advfirewall", "firewall", "delete", "rule", "name=quorum-partition-node2"]
    );
    assert_eq!(heal.hint, " - was node 2 actually partitioned?");
    assert_eq!(
        heal.done,
        "Healed node 2. It should reconnect and catch up on the next heartbeat."
    );
    assert_eq!(partition_node(4).unwrap_err(), "unknown node id 4 - expected 1, 2, or 3");
}

#[test]
fn the_status_names_every_node() {
    assert_eq!(health_url(8001), "http://127.0.0.1:8001/health");
    assert_eq!(
        status(),
        vec![
            (1, "http://127.0.0.1:8001/health".to_string()),
            (2, "http://127.0.0.1:8002/health".to_string()),
            (3, "http://127.0.0.1:8003/health".to_string()),
        ]
    );
    let healthy = Probe::Healthy {
        role: "\"Leader\"".to_string(),
        current_term: "3".to_string(),
        commit_index: "7".to_string(),
        last_applied: "6".to_string(),
        log_len: "8".to_string(),
    };
    assert_eq!(
        status_line(1, &healthy),
        "node 1: role=\"Leader\" term=3 commit_index=7 last_applied=6 log_len=8"
    );
    assert_eq!(
        status_line(2, &Probe::InvalidJson),
        "node 2: reachable but returned invalid JSON"
    );
    assert_eq!(status_line(3, &Probe::Unreachable), "node 3: UNREACHABLE");
}
