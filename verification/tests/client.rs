use quorum::client::{url_for, ClientError, QuorumClient};
use quorum::metrics_api::{GetResponse, WriteResponse};
use quorum::state::NodeId;
use std::collections::HashMap;

fn sample_client() -> QuorumClient {
    QuorumClient::new(HashMap::from([
        (1, "127.0.0.1:8001".to_string()),
        (2, "127.0.0.1:8002".to_string()),
        (3, "127.0.0.1:8003".to_string()),
    ]))
}

fn ids(client: &QuorumClient) -> Vec<NodeId> {
    client.candidate_order().iter().map(|(id, _)| *id).collect()
}

fn follower(hint: Option<NodeId>) -> Option<GetResponse> {
    Some(GetResponse { is_leader: false, value: None, leader_hint: hint })
}

#[test]
fn urls_name_the_node_and_the_key() {
    assert_eq!(url_for("127.0.0.1:8001", "foo"), "http://127.0.0.1:8001/kv/foo");
}

#[test]
fn a_search_goes_on_until_the_leader_answers() {
    let mut client = sample_client();
    assert_eq!(ids(&client), vec![1, 2, 3]);
    let mut search = client.search();
    assert_eq!(search.next().unwrap(), (1, "127.0.0.1:8001".to_string()));
    assert!(client.take_get_reply(&mut search, None).is_none());
    assert_eq!(search.next().unwrap().0, 2);
    assert!(client.take_get_reply(&mut search, follower(Some(3))).is_none());
    assert_eq!(search.next().unwrap().0, 3);
    let leader = Some(GetResponse {
        is_leader: true,
        value: Some("bar".to_string()),
        leader_hint: None,
    });
    assert_eq!(client.take_get_reply(&mut search, leader), Some(Some("bar".to_string())));
    assert_eq!(ids(&client), vec![3, 1, 2]);
}

#[test]
fn a_search_gives_up_after_the_whole_cluster() {
    let mut client = sample_client();
    let mut search = client.search();
    let mut asked = 0;
    while let Ok(_) = search.next() {
        let reply = WriteResponse { is_leader: false, applied: false, leader_hint: Some(99) };
        assert!(!client.take_write_reply(&mut search, Some(reply)));
        asked += 1;
    }
    assert_eq!(asked, 3);
    assert_eq!(search.next().unwrap_err(), ClientError::NoLeaderReachable);
    assert_eq!(
        ClientError::NoLeaderReachable.message(),
        "no reachable node responded as leader after trying the whole cluster"
    );
    assert_eq!(ids(&client), vec![1, 2, 3]);
}

#[test]
fn a_hint_is_asked_first_the_next_time() {
    let mut client = sample_client();
    let mut search = client.search();
    assert!(client.take_get_reply(&mut search, follower(Some(2))).is_none());
    assert_eq!(ids(&client), vec![2, 1, 3]);
    assert!(client.take_get_reply(&mut search, follower(None)).is_none());
    assert_eq!(ids(&client), vec![1, 2, 3]);
}

#[test]
fn a_write_is_done_when_the_leader_took_it() {
    let mut client = sample_client();
    let mut search = client.search();
    assert!(!client.take_write_reply(&mut search, None));
    let reply = WriteResponse { is_leader: true, applied: true, leader_hint: None };
    assert!(client.take_write_reply(&mut search, Some(reply)));
    assert_eq!(ids(&client), vec![2, 1, 3]);
}

#[test]
fn a_named_leader_is_asked_next() {
    let mut client = sample_client();
    let mut search = client.search();
    assert_eq!(search.next().unwrap().0, 1);
    assert!(client.take_get_reply(&mut search, follower(Some(3))).is_none());
    assert_eq!(search.next().unwrap(), (3, "127.0.0.1:8003".to_string()));
    let leader = Some(GetResponse { is_leader: true, value: None, leader_hint: None });
    assert_eq!(client.take_get_reply(&mut search, leader), Some(None));
    assert_eq!(ids(&client), vec![3, 1, 2]);
}

#[test]
fn a_detour_skips_nobody() {
    let mut client = QuorumClient::new((1..=5).map(|id| (id, format!("node{id}"))).collect());
    let mut search = client.search();
    let mut asked = Vec::new();
    for hint in [Some(4), Some(1), Some(4), Some(5), None] {
        asked.push(search.next().unwrap().0);
        let reply = WriteResponse { is_leader: false, applied: false, leader_hint: hint };
        assert!(!client.take_write_reply(&mut search, Some(reply)));
    }
    assert_eq!(asked, vec![1, 4, 2, 3, 5]);
    assert_eq!(search.next().unwrap_err(), ClientError::NoLeaderReachable);
}
