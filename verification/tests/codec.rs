use quorum::codec::{
    decode_message, frame_length, read_frame, write_frame, CodecError, MAX_FRAME_BYTES,
};
use quorum::log::LogEntry;
use quorum::messages::{
    AppendEntriesRequest, AppendEntriesResponse, RequestVoteRequest, RequestVoteResponse,
    RpcMessage,
};

#[test]
fn round_trips_a_message_through_the_codec() {
    let msg = RpcMessage::RequestVote(RequestVoteRequest {
        term: 7,
        candidate_id: 3,
        last_log_index: 42,
        last_log_term: 6,
    });

    let mut buf = Vec::new();
    write_frame(&mut buf, &msg).unwrap();

    let (decoded, rest) = read_frame(&buf).unwrap().unwrap();
    assert!(rest.is_empty());

    match decoded {
        RpcMessage::RequestVote(req) => {
            assert_eq!(req.term, 7);
            assert_eq!(req.candidate_id, 3);
            assert_eq!(req.last_log_index, 42);
        }
        _ => panic!("decoded wrong variant"),
    }
}

#[test]
fn read_frame_returns_none_on_clean_eof() {
    let empty: Vec<u8> = Vec::new();
    let result = read_frame(&empty).unwrap();
    assert!(result.is_none());
}

#[test]
fn rejects_frame_claiming_size_over_the_limit() {
    let mut buf = Vec::new();
    buf.extend_from_slice(&(MAX_FRAME_BYTES + 1).to_le_bytes());
    let result = read_frame(&buf);
    assert!(matches!(result, Err(CodecError::FrameTooLarge(_))));
}

#[test]
fn the_limit_is_sixty_four_mebibytes() {
    assert_eq!(MAX_FRAME_BYTES, 64 * 1024 * 1024);
    assert!(matches!(frame_length(&MAX_FRAME_BYTES.to_le_bytes()), Ok(Some(67_108_864))));
    assert!(matches!(frame_length(&[]), Ok(None)));
    assert!(matches!(frame_length(&[1, 0]), Err(CodecError::UnexpectedEof)));
}

fn samples() -> Vec<(RpcMessage, Vec<u8>)> {
    let entries = vec![
        LogEntry { term: 1, index: 1, command: vec![] },
        LogEntry { term: 2, index: 2, command: vec![1, 2, 3] },
    ];
    let wire_entries: Vec<(u64, u64, Vec<u8>)> = vec![(1, 1, vec![]), (2, 2, vec![1, 2, 3])];
    let accepted: Option<u64> = None;
    vec![
        (RpcMessage::Hello(9), bincode::serialize(&(0u32, 9u32)).unwrap()),
        (
            RpcMessage::RequestVote(RequestVoteRequest {
                term: 1,
                candidate_id: 2,
                last_log_index: 3,
                last_log_term: 4,
            }),
            bincode::serialize(&(1u32, 1u64, 2u32, 3u64, 4u64)).unwrap(),
        ),
        (
            RpcMessage::RequestVoteResponse(RequestVoteResponse { term: 5, vote_granted: true }),
            bincode::serialize(&(2u32, 5u64, true)).unwrap(),
        ),
        (
            RpcMessage::AppendEntries(AppendEntriesRequest {
                term: 6,
                leader_id: 7,
                prev_log_index: 8,
                prev_log_term: 9,
                entries,
                leader_commit: 10,
            }),
            bincode::serialize(&(3u32, 6u64, 7u32, 8u64, 9u64, wire_entries, 10u64)).unwrap(),
        ),
        (
            RpcMessage::AppendEntriesResponse(AppendEntriesResponse {
                term: 11,
                success: false,
                conflict_index: Some(12),
            }),
            bincode::serialize(&(4u32, 11u64, false, Some(12u64))).unwrap(),
        ),
        (
            RpcMessage::AppendEntriesResponse(AppendEntriesResponse {
                term: 11,
                success: true,
                conflict_index: None,
            }),
            bincode::serialize(&(4u32, 11u64, true, accepted)).unwrap(),
        ),
    ]
}

#[test]
fn every_message_has_its_bytes() {
    for (msg, payload) in samples() {
        let mut buf = Vec::new();
        write_frame(&mut buf, &msg).unwrap();
        assert_eq!(buf[..4], (payload.len() as u32).to_le_bytes());
        assert_eq!(buf[4..], payload[..]);
        let decoded = decode_message(&payload).unwrap();
        assert_eq!(format!("{decoded:?}"), format!("{msg:?}"));
    }
}

#[test]
fn frames_follow_each_other() {
    let mut stream = Vec::new();
    for (msg, _) in samples() {
        write_frame(&mut stream, &msg).unwrap();
    }
    let mut rest: &[u8] = &stream;
    for (msg, _) in samples() {
        let (decoded, next) = read_frame(rest).unwrap().unwrap();
        assert_eq!(format!("{decoded:?}"), format!("{msg:?}"));
        rest = next;
    }
    assert!(read_frame(rest).unwrap().is_none());
}

#[test]
fn a_cut_frame_is_an_error() {
    let mut buf = Vec::new();
    write_frame(&mut buf, &RpcMessage::Hello(1)).unwrap();
    for cut in 1..buf.len() {
        assert!(matches!(read_frame(&buf[..cut]), Err(CodecError::UnexpectedEof)));
    }
}

#[test]
fn a_payload_that_is_no_message_is_an_error() {
    match read_frame(&[4, 0, 0, 0, 5, 0, 0, 0]) {
        Err(CodecError::Bincode(unknown)) => assert_eq!(
            unknown.to_string(),
            "invalid value: integer `5`, expected variant index 0 <= i < 5"
        ),
        other => panic!("got {other:?}"),
    }
    assert!(matches!(read_frame(&[1, 0, 0, 0, 0]), Err(CodecError::Bincode(_))));
    let bad_flag = [2u8, 0, 0, 0, 1, 0, 0, 0, 0, 0, 0, 0, 2];
    assert!(matches!(decode_message(&bad_flag), Err(CodecError::Bincode(_))));
}
