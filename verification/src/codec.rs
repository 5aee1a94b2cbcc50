//! Messages as bytes, and frames on a stream.
use vstd::prelude::*;
use vstd::slice::slice_subrange;

use crate::log::{self, Entry, LogEntry};
use crate::messages::{
    Append, AppendEntriesRequest, AppendEntriesResponse, Message, RequestVoteRequest,
    RequestVoteResponse, RpcMessage,
};
use crate::wire::{
    self, no_such_variant, put_blob, put_flag, put_optional, put_u32, put_u64, take_blob, take_flag,
    take_optional, take_u32, take_u64,
};

verus! {

/// Why a frame could not be written or read.
#[derive(Debug)]
pub enum CodecError {
    /// The stream ended in the middle of a frame.
    UnexpectedEof,
    Bincode(bincode::Error),
    /// The frame claims to be longer than [`MAX_FRAME_BYTES`].
    FrameTooLarge(u32),
}

/// Hard ceiling on the size of one frame: 64 MiB. A corrupt length prefix
/// becomes a clean error instead of a huge allocation.
pub const MAX_FRAME_BYTES: u32 = 67_108_864;

/// The bytes of a log entry.
pub open spec fn entry_bytes(e: Entry) -> Seq<u8> {
    wire::u64_bytes(e.term) + wire::u64_bytes(e.index) + wire::blob_bytes(e.command)
}

pub open spec fn parse_entry(s: Seq<u8>) -> Option<(Entry, Seq<u8>)> {
    match wire::parse_u64(s) {
        Some((term, s)) => match wire::parse_u64(s) {
            Some((index, s)) => match wire::parse_blob(s) {
                Some((command, s)) => Some((Entry { term, index, command }, s)),
                None => None,
            },
            None => None,
        },
        None => None,
    }
}

/// Appends the bytes of an entry.
pub(crate) fn put_entry(out: &mut Vec<u8>, entry: &LogEntry) -> (r: Result<(), bincode::Error>)
    ensures
        r is Ok,
        final(out)@ == old(out)@ + entry_bytes(entry@),
        wire::blob_fits(entry@.command),
{
    put_u64(out, entry.term)?;
    put_u64(out, entry.index)?;
    put_blob(out, entry.command.as_slice())?;
    assert(out@ =~= old(out)@ + entry_bytes(entry@));
    Ok(())
}

/// Reads an entry and returns it with the bytes that follow.
pub(crate) fn take_entry(s: &[u8]) -> (r: Result<(LogEntry, &[u8]), bincode::Error>)
    ensures
        match r {
            Ok((entry, rest)) => parse_entry(s@) == Some((entry@, rest@)),
            Err(_) => parse_entry(s@) is None,
        },
{
    let (term, s) = take_u64(s)?;
    let (index, s) = take_u64(s)?;
    let (command, s) = take_blob(s)?;
    Ok((LogEntry { term, index, command }, s))
}

/// A log entry is read back from its bytes.
pub proof fn entry_round_trips(e: Entry, rest: Seq<u8>)
    requires
        wire::blob_fits(e.command),
    ensures
        parse_entry(entry_bytes(e) + rest) == Some((e, rest)),
{
    let s3 = wire::blob_bytes(e.command) + rest;
    let s2 = wire::u64_bytes(e.index) + s3;
    wire::u64_round_trips(e.term, s2);
    wire::u64_round_trips(e.index, s3);
    wire::blob_round_trips(e.command, rest);
    assert(entry_bytes(e) + rest =~= wire::u64_bytes(e.term) + s2);
}

/// The bytes of each entry.
pub open spec fn entry_parts(entries: Seq<Entry>) -> Seq<Seq<u8>> {
    Seq::new(entries.len(), |i: int| entry_bytes(entries[i]))
}

/// The bytes of a list of entries.
pub open spec fn entries_bytes(entries: Seq<Entry>) -> Seq<u8> {
    wire::u64_bytes(entries.len() as u64) + wire::joined(entry_parts(entries))
}

/// `n` entries from the beginning of `s`.
pub open spec fn parse_some_entries(s: Seq<u8>, n: nat) -> Option<(Seq<Entry>, Seq<u8>)>
    decreases n,
{
    if n == 0 {
        Some((Seq::empty(), s))
    } else {
        match parse_entry(s) {
            Some((first, rest)) => match parse_some_entries(rest, (n - 1) as nat) {
                Some((others, rest)) => Some((seq![first] + others, rest)),
                None => None,
            },
            None => None,
        }
    }
}

pub open spec fn parse_entries(s: Seq<u8>) -> Option<(Seq<Entry>, Seq<u8>)> {
    match wire::parse_u64(s) {
        Some((n, rest)) => parse_some_entries(rest, n as nat),
        None => None,
    }
}

/// The commands of a list of entries, and the list itself, are short enough
/// for their lengths to fit.
pub open spec fn entries_fit(entries: Seq<Entry>) -> bool {
    &&& entries.len() <= u64::MAX
    &&& forall|i: int| 0 <= i < entries.len() ==> wire::blob_fits((#[trigger] entries[i]).command)
}

proof fn lemma_some_entries_round_trip(entries: Seq<Entry>, rest: Seq<u8>)
    requires
        entries_fit(entries),
    ensures
        parse_some_entries(wire::joined(entry_parts(entries)) + rest, entries.len()) == Some(
            (entries, rest),
        ),
    decreases entries.len(),
{
    let parts = entry_parts(entries);
    if entries.len() == 0 {
        assert(wire::joined(parts) + rest =~= rest);
        assert(entries =~= Seq::<Entry>::empty());
    } else {
        let others = entries.drop_first();
        let tail = wire::joined(entry_parts(others)) + rest;
        assert(parts.drop_first() =~= entry_parts(others));
        assert(wire::joined(parts) + rest =~= entry_bytes(entries[0]) + tail);
        entry_round_trips(entries[0], tail);
        lemma_some_entries_round_trip(others, rest);
        assert(seq![entries[0]] + others =~= entries);
    }
}

/// A list of entries is read back from its bytes.
pub proof fn entries_round_trip(entries: Seq<Entry>, rest: Seq<u8>)
    requires
        entries_fit(entries),
    ensures
        parse_entries(entries_bytes(entries) + rest) == Some((entries, rest)),
{
    let tail = wire::joined(entry_parts(entries)) + rest;
    wire::u64_round_trips(entries.len() as u64, tail);
    lemma_some_entries_round_trip(entries, rest);
    assert(entries_bytes(entries) + rest =~= wire::u64_bytes(entries.len() as u64) + tail);
}

fn put_entries(out: &mut Vec<u8>, entries: &Vec<LogEntry>) -> (r: Result<(), bincode::Error>)
    ensures
        r is Ok,
        final(out)@ == old(out)@ + entries_bytes(log::contents(entries@)),
        entries_fit(log::contents(entries@)),
{
    let ghost all = log::contents(entries@);
    put_u64(out, entries.len() as u64)?;
    let ghost head = out@;
    assert(head + wire::joined(entry_parts(all.take(0))) =~= head);
    for i in 0..entries.len()
        invariant
            all == log::contents(entries@),
            out@ == head + wire::joined(entry_parts(all.take(i as int))),
            forall|j: int| 0 <= j < i ==> wire::blob_fits((#[trigger] all[j]).command),
    {
        put_entry(out, &entries[i])?;
        proof {
            let before = entry_parts(all.take(i as int));
            assert(entry_parts(all.take(i + 1)) =~= before.push(entry_bytes(all[i as int])));
            wire::lemma_joined_push(before, entry_bytes(all[i as int]));
            assert(out@ =~= head + wire::joined(entry_parts(all.take(i + 1))));
        }
    }
    proof {
        assert(all.take(all.len() as int) =~= all);
        assert(out@ =~= old(out)@ + entries_bytes(all));
    }
    Ok(())
}

/// What is left to read after `done` entries were read.
spec fn resumed(
    done: Seq<Entry>,
    left: Option<(Seq<Entry>, Seq<u8>)>,
) -> Option<(Seq<Entry>, Seq<u8>)> {
    match left {
        Some((others, rest)) => Some((done + others, rest)),
        None => None,
    }
}

fn take_entries(s: &[u8]) -> (r: Result<(Vec<LogEntry>, &[u8]), bincode::Error>)
    ensures
        match r {
            Ok((entries, rest)) => parse_entries(s@) == Some((log::contents(entries@), rest@)),
            Err(_) => parse_entries(s@) is None,
        },
{
    let ghost whole = parse_entries(s@);
    let (n, body) = take_u64(s)?;
    let mut entries: Vec<LogEntry> = Vec::new();
    let mut rest = body;
    let mut left: u64 = n;
    proof {
        let none = log::contents(entries@);
        match parse_some_entries(rest@, left as nat) {
            Some((others, _)) => {
                assert(none + others =~= others);
            },
            None => {},
        }
    }
    while left > 0
        invariant
            whole == parse_entries(s@),
            whole == resumed(log::contents(entries@), parse_some_entries(rest@, left as nat)),
        decreases left,
    {
        let ghost before = log::contents(entries@);
        let (entry, next) = take_entry(rest)?;
        entries.push(entry);
        proof {
            let after = log::contents(entries@);
            assert(after =~= before.push(entry@));
            match parse_some_entries(next@, (left - 1) as nat) {
                Some((others, _)) => {
                    assert(before + (seq![entry@] + others) =~= after + others);
                },
                None => {},
            }
        }
        rest = next;
        left = left - 1;
    }
    assert(log::contents(entries@) + Seq::<Entry>::empty() =~= log::contents(entries@));
    Ok((entries, rest))
}

/// The bytes of a message.
pub open spec fn message_bytes(m: Message) -> Seq<u8> {
    match m {
        Message::Hello(id) => wire::u32_bytes(0) + wire::u32_bytes(id),
        Message::RequestVote(req) => wire::u32_bytes(1) + vote_request_bytes(req),
        Message::RequestVoteResponse(resp) => wire::u32_bytes(2) + vote_response_bytes(resp),
        Message::AppendEntries(req) => wire::u32_bytes(3) + append_bytes(req),
        Message::AppendEntriesResponse(resp) => wire::u32_bytes(4) + append_response_bytes(resp),
    }
}

pub open spec fn vote_request_bytes(req: RequestVoteRequest) -> Seq<u8> {
    wire::u64_bytes(req.term) + (wire::u32_bytes(req.candidate_id) + (wire::u64_bytes(
        req.last_log_index,
    ) + wire::u64_bytes(req.last_log_term)))
}

pub open spec fn vote_response_bytes(resp: RequestVoteResponse) -> Seq<u8> {
    wire::u64_bytes(resp.term) + wire::flag_bytes(resp.vote_granted)
}

pub open spec fn append_bytes(req: Append) -> Seq<u8> {
    wire::u64_bytes(req.term) + (wire::u32_bytes(req.leader_id) + (wire::u64_bytes(
        req.prev_log_index,
    ) + (wire::u64_bytes(req.prev_log_term) + (entries_bytes(req.entries) + wire::u64_bytes(
        req.leader_commit,
    )))))
}

pub open spec fn append_response_bytes(resp: AppendEntriesResponse) -> Seq<u8> {
    wire::u64_bytes(resp.term) + (wire::flag_bytes(resp.success) + wire::optional_bytes(
        resp.conflict_index,
    ))
}

pub open spec fn parse_vote_request(s: Seq<u8>) -> Option<RequestVoteRequest> {
    match wire::parse_u64(s) {
        Some((term, s)) => match wire::parse_u32(s) {
            Some((candidate_id, s)) => match wire::parse_u64(s) {
                Some((last_log_index, s)) => match wire::parse_u64(s) {
                    Some((last_log_term, _)) => Some(
                        RequestVoteRequest { term, candidate_id, last_log_index, last_log_term },
                    ),
                    None => None,
                },
                None => None,
            },
            None => None,
        },
        None => None,
    }
}

pub open spec fn parse_vote_response(s: Seq<u8>) -> Option<RequestVoteResponse> {
    match wire::parse_u64(s) {
        Some((term, s)) => match wire::parse_flag(s) {
            Some((vote_granted, _)) => Some(RequestVoteResponse { term, vote_granted }),
            None => None,
        },
        None => None,
    }
}

pub open spec fn parse_append(s: Seq<u8>) -> Option<Append> {
    match wire::parse_u64(s) {
        Some((term, s)) => match wire::parse_u32(s) {
            Some((leader_id, s)) => match wire::parse_u64(s) {
                Some((prev_log_index, s)) => match wire::parse_u64(s) {
                    Some((prev_log_term, s)) => match parse_entries(s) {
                        Some((entries, s)) => match wire::parse_u64(s) {
                            Some((leader_commit, _)) => Some(
                                Append {
                                    term,
                                    leader_id,
                                    prev_log_index,
                                    prev_log_term,
                                    entries,
                                    leader_commit,
                                },
                            ),
                            None => None,
                        },
                        None => None,
                    },
                    None => None,
                },
                None => None,
            },
            None => None,
        },
        None => None,
    }
}

pub open spec fn parse_append_response(s: Seq<u8>) -> Option<AppendEntriesResponse> {
    match wire::parse_u64(s) {
        Some((term, s)) => match wire::parse_flag(s) {
            Some((success, s)) => match wire::parse_optional(s) {
                Some((conflict_index, _)) => Some(
                    AppendEntriesResponse { term, success, conflict_index },
                ),
                None => None,
            },
            None => None,
        },
        None => None,
    }
}

/// The message at the beginning of `s`.
pub open spec fn parse_message(s: Seq<u8>) -> Option<Message> {
    match wire::parse_u32(s) {
        Some((0, s)) => match wire::parse_u32(s) {
            Some((id, _)) => Some(Message::Hello(id)),
            None => None,
        },
        Some((1, s)) => match parse_vote_request(s) {
            Some(req) => Some(Message::RequestVote(req)),
            None => None,
        },
        Some((2, s)) => match parse_vote_response(s) {
            Some(resp) => Some(Message::RequestVoteResponse(resp)),
            None => None,
        },
        Some((3, s)) => match parse_append(s) {
            Some(req) => Some(Message::AppendEntries(req)),
            None => None,
        },
        Some((4, s)) => match parse_append_response(s) {
            Some(resp) => Some(Message::AppendEntriesResponse(resp)),
            None => None,
        },
        _ => None,
    }
}

/// The lists in a message are short enough for their lengths to fit.
pub open spec fn message_fits(m: Message) -> bool {
    match m {
        Message::AppendEntries(req) => entries_fit(req.entries),
        _ => true,
    }
}

fn put_vote_request(out: &mut Vec<u8>, req: &RequestVoteRequest) -> (r: Result<(), bincode::Error>)
    ensures
        r is Ok,
        final(out)@ == old(out)@ + vote_request_bytes(*req),
{
    put_u64(out, req.term)?;
    put_u32(out, req.candidate_id)?;
    put_u64(out, req.last_log_index)?;
    put_u64(out, req.last_log_term)?;
    assert(out@ =~= old(out)@ + vote_request_bytes(*req));
    Ok(())
}

fn put_vote_response(out: &mut Vec<u8>, resp: &RequestVoteResponse) -> (r: Result<
    (),
    bincode::Error,
>)
    ensures
        r is Ok,
        final(out)@ == old(out)@ + vote_response_bytes(*resp),
{
    put_u64(out, resp.term)?;
    put_flag(out, resp.vote_granted)?;
    assert(out@ =~= old(out)@ + vote_response_bytes(*resp));
    Ok(())
}

fn put_append(out: &mut Vec<u8>, req: &AppendEntriesRequest) -> (r: Result<(), bincode::Error>)
    ensures
        r is Ok,
        final(out)@ == old(out)@ + append_bytes(req@),
        entries_fit(req@.entries),
{
    put_u64(out, req.term)?;
    put_u32(out, req.leader_id)?;
    put_u64(out, req.prev_log_index)?;
    put_u64(out, req.prev_log_term)?;
    put_entries(out, &req.entries)?;
    put_u64(out, req.leader_commit)?;
    assert(out@ =~= old(out)@ + append_bytes(req@));
    Ok(())
}

fn put_append_response(out: &mut Vec<u8>, resp: &AppendEntriesResponse) -> (r: Result<
    (),
    bincode::Error,
>)
    ensures
        r is Ok,
        final(out)@ == old(out)@ + append_response_bytes(*resp),
{
    put_u64(out, resp.term)?;
    put_flag(out, resp.success)?;
    put_optional(out, resp.conflict_index)?;
    assert(out@ =~= old(out)@ + append_response_bytes(*resp));
    Ok(())
}

fn put_message(out: &mut Vec<u8>, msg: &RpcMessage) -> (r: Result<(), bincode::Error>)
    ensures
        r is Ok,
        final(out)@ == old(out)@ + message_bytes(msg@),
        message_fits(msg@),
{
    match msg {
        RpcMessage::Hello(id) => {
            put_u32(out, 0)?;
            put_u32(out, *id)?;
        },
        RpcMessage::RequestVote(req) => {
            put_u32(out, 1)?;
            put_vote_request(out, req)?;
        },
        RpcMessage::RequestVoteResponse(resp) => {
            put_u32(out, 2)?;
            put_vote_response(out, resp)?;
        },
        RpcMessage::AppendEntries(req) => {
            put_u32(out, 3)?;
            put_append(out, req)?;
        },
        RpcMessage::AppendEntriesResponse(resp) => {
            put_u32(out, 4)?;
            put_append_response(out, resp)?;
        },
    }
    assert(out@ =~= old(out)@ + message_bytes(msg@));
    Ok(())
}

fn take_vote_request(s: &[u8]) -> (r: Result<RequestVoteRequest, bincode::Error>)
    ensures
        match r {
            Ok(req) => parse_vote_request(s@) == Some(req),
            Err(_) => parse_vote_request(s@) is None,
        },
{
    let (term, s) = take_u64(s)?;
    let (candidate_id, s) = take_u32(s)?;
    let (last_log_index, s) = take_u64(s)?;
    let (last_log_term, _) = take_u64(s)?;
    Ok(RequestVoteRequest { term, candidate_id, last_log_index, last_log_term })
}

fn take_vote_response(s: &[u8]) -> (r: Result<RequestVoteResponse, bincode::Error>)
    ensures
        match r {
            Ok(resp) => parse_vote_response(s@) == Some(resp),
            Err(_) => parse_vote_response(s@) is None,
        },
{
    let (term, s) = take_u64(s)?;
    let (vote_granted, _) = take_flag(s)?;
    Ok(RequestVoteResponse { term, vote_granted })
}

fn take_append(s: &[u8]) -> (r: Result<AppendEntriesRequest, bincode::Error>)
    ensures
        match r {
            Ok(req) => parse_append(s@) == Some(req@),
            Err(_) => parse_append(s@) is None,
        },
{
    let (term, s) = take_u64(s)?;
    let (leader_id, s) = take_u32(s)?;
    let (prev_log_index, s) = take_u64(s)?;
    let (prev_log_term, s) = take_u64(s)?;
    let (entries, s) = take_entries(s)?;
    let (leader_commit, _) = take_u64(s)?;
    Ok(
        AppendEntriesRequest {
            term,
            leader_id,
            prev_log_index,
            prev_log_term,
            entries,
            leader_commit,
        },
    )
}

fn take_append_response(s: &[u8]) -> (r: Result<AppendEntriesResponse, bincode::Error>)
    ensures
        match r {
            Ok(resp) => parse_append_response(s@) == Some(resp),
            Err(_) => parse_append_response(s@) is None,
        },
{
    let (term, s) = take_u64(s)?;
    let (success, s) = take_flag(s)?;
    let (conflict_index, _) = take_optional(s)?;
    Ok(AppendEntriesResponse { term, success, conflict_index })
}

/// Turns the payload of a frame into a message.
pub fn decode_message(s: &[u8]) -> (r: Result<RpcMessage, CodecError>)
    ensures
        match r {
            Ok(msg) => parse_message(s@) == Some(msg@),
            Err(CodecError::Bincode(_)) => parse_message(s@) is None,
            Err(_) => false,
        },
{
    let (tag, body) = match take_u32(s) {
        Ok(pair) => pair,
        Err(e) => return Err(CodecError::Bincode(e)),
    };
    let decoded = if tag == 0 {
        match take_u32(body) {
            Ok((id, _)) => Ok(RpcMessage::Hello(id)),
            Err(e) => Err(e),
        }
    } else if tag == 1 {
        match take_vote_request(body) {
            Ok(req) => Ok(RpcMessage::RequestVote(req)),
            Err(e) => Err(e),
        }
    } else if tag == 2 {
        match take_vote_response(body) {
            Ok(resp) => Ok(RpcMessage::RequestVoteResponse(resp)),
            Err(e) => Err(e),
        }
    } else if tag == 3 {
        match take_append(body) {
            Ok(req) => Ok(RpcMessage::AppendEntries(req)),
            Err(e) => Err(e),
        }
    } else if tag == 4 {
        match take_append_response(body) {
            Ok(resp) => Ok(RpcMessage::AppendEntriesResponse(resp)),
            Err(e) => Err(e),
        }
    } else {
        Err(no_such_variant(tag, "variant index 0 <= i < 5"))
    };
    match decoded {
        Ok(msg) => Ok(msg),
        Err(e) => Err(CodecError::Bincode(e)),
    }
}

proof fn lemma_vote_request_round_trips(req: RequestVoteRequest, rest: Seq<u8>)
    ensures
        parse_vote_request(vote_request_bytes(req) + rest) == Some(req),
{
    let s4 = wire::u64_bytes(req.last_log_term) + rest;
    let s3 = wire::u64_bytes(req.last_log_index) + s4;
    let s2 = wire::u32_bytes(req.candidate_id) + s3;
    wire::u64_round_trips(req.term, s2);
    wire::u32_round_trips(req.candidate_id, s3);
    wire::u64_round_trips(req.last_log_index, s4);
    wire::u64_round_trips(req.last_log_term, rest);
    assert(vote_request_bytes(req) + rest =~= wire::u64_bytes(req.term) + s2);
}

proof fn lemma_vote_response_round_trips(resp: RequestVoteResponse, rest: Seq<u8>)
    ensures
        parse_vote_response(vote_response_bytes(resp) + rest) == Some(resp),
{
    let s2 = wire::flag_bytes(resp.vote_granted) + rest;
    wire::u64_round_trips(resp.term, s2);
    wire::flag_round_trips(resp.vote_granted, rest);
    assert(vote_response_bytes(resp) + rest =~= wire::u64_bytes(resp.term) + s2);
}

proof fn lemma_append_round_trips(req: Append, rest: Seq<u8>)
    requires
        entries_fit(req.entries),
    ensures
        parse_append(append_bytes(req) + rest) == Some(req),
{
    let s6 = wire::u64_bytes(req.leader_commit) + rest;
    let s5 = entries_bytes(req.entries) + s6;
    let s4 = wire::u64_bytes(req.prev_log_term) + s5;
    let s3 = wire::u64_bytes(req.prev_log_index) + s4;
    let s2 = wire::u32_bytes(req.leader_id) + s3;
    wire::u64_round_trips(req.term, s2);
    wire::u32_round_trips(req.leader_id, s3);
    wire::u64_round_trips(req.prev_log_index, s4);
    wire::u64_round_trips(req.prev_log_term, s5);
    entries_round_trip(req.entries, s6);
    wire::u64_round_trips(req.leader_commit, rest);
    assert(append_bytes(req) + rest =~= wire::u64_bytes(req.term) + s2);
}

proof fn lemma_append_response_round_trips(resp: AppendEntriesResponse, rest: Seq<u8>)
    ensures
        parse_append_response(append_response_bytes(resp) + rest) == Some(resp),
{
    let s3 = wire::optional_bytes(resp.conflict_index) + rest;
    let s2 = wire::flag_bytes(resp.success) + s3;
    wire::u64_round_trips(resp.term, s2);
    wire::flag_round_trips(resp.success, s3);
    wire::optional_round_trips(resp.conflict_index, rest);
    assert(append_response_bytes(resp) + rest =~= wire::u64_bytes(resp.term) + s2);
}

/// The bytes of a message after its tag.
spec fn body_bytes(m: Message) -> Seq<u8> {
    match m {
        Message::Hello(id) => wire::u32_bytes(id),
        Message::RequestVote(req) => vote_request_bytes(req),
        Message::RequestVoteResponse(resp) => vote_response_bytes(resp),
        Message::AppendEntries(req) => append_bytes(req),
        Message::AppendEntriesResponse(resp) => append_response_bytes(resp),
    }
}

/// A message is read back from its bytes, whatever follows them.
pub proof fn message_round_trips(m: Message, rest: Seq<u8>)
    requires
        message_fits(m),
    ensures
        parse_message(message_bytes(m) + rest) == Some(m),
{
    let tag: u32 = match m {
        Message::Hello(_) => 0,
        Message::RequestVote(_) => 1,
        Message::RequestVoteResponse(_) => 2,
        Message::AppendEntries(_) => 3,
        Message::AppendEntriesResponse(_) => 4,
    };
    let body = body_bytes(m);
    assert(message_bytes(m) + rest =~= wire::u32_bytes(tag) + (body + rest));
    wire::u32_round_trips(tag, body + rest);
    match m {
        Message::Hello(id) => wire::u32_round_trips(id, rest),
        Message::RequestVote(req) => lemma_vote_request_round_trips(req, rest),
        Message::RequestVoteResponse(resp) => lemma_vote_response_round_trips(resp, rest),
        Message::AppendEntries(req) => lemma_append_round_trips(req, rest),
        Message::AppendEntriesResponse(resp) => lemma_append_response_round_trips(resp, rest),
    }
}

/// A frame: the length of the payload in four little-endian bytes, then the
/// payload.
pub open spec fn framed(payload: Seq<u8>) -> Seq<u8> {
    wire::u32_bytes(payload.len() as u32) + payload
}

/// Puts a length in front of a payload.
pub(crate) fn put_framed(out: &mut Vec<u8>, payload: &Vec<u8>)
    ensures
        final(out)@ == old(out)@ + framed(payload@),
{
    let mut header = vstd::bytes::u32_to_le_bytes(payload.len() as u32);
    out.append(&mut header);
    out.extend_from_slice(payload.as_slice());
    assert(out@ =~= old(out)@ + framed(payload@));
}

/// Appends one message to a stream, as a frame.
pub fn write_frame(writer: &mut Vec<u8>, msg: &RpcMessage) -> (r: Result<(), CodecError>)
    ensures
        r is Ok,
        final(writer)@ == old(writer)@ + framed(message_bytes(msg@)),
        message_fits(msg@),
{
    let mut payload: Vec<u8> = Vec::new();
    match put_message(&mut payload, msg) {
        Ok(_) => {
            assert(payload@ =~= message_bytes(msg@));
            put_framed(writer, &payload);
            Ok(())
        },
        Err(e) => Err(CodecError::Bincode(e)),
    }
}

/// Judges the first bytes of a frame, as many of the four as the stream had:
/// the length of the payload, `None` if the stream ended before the frame
/// began.
pub fn frame_length(header: &[u8]) -> (r: Result<Option<usize>, CodecError>)
    requires
        header@.len() <= 4,
    ensures
        match wire::parse_u32(header@) {
            Some((len, _)) => if len > MAX_FRAME_BYTES {
                r matches Err(CodecError::FrameTooLarge(n)) && n == len
            } else {
                r matches Ok(Some(n)) && n == len
            },
            None => if header@.len() == 0 {
                r matches Ok(None)
            } else {
                r matches Err(CodecError::UnexpectedEof)
            },
        },
{
    if header.len() == 0 {
        return Ok(None);
    }
    if header.len() < 4 {
        return Err(CodecError::UnexpectedEof);
    }
    assert(header@.take(4) =~= header@);
    let len = vstd::bytes::u32_from_le_bytes(header);
    if len > MAX_FRAME_BYTES {
        Err(CodecError::FrameTooLarge(len))
    } else {
        Ok(Some(len as usize))
    }
}

/// What reading one frame from the rest of a stream gives: nothing if the
/// stream is at its end, else a message and what follows it, or the reason
/// why there is none.
pub enum Reading {
    Closed,
    Got(Message, Seq<u8>),
    CutOff,
    TooLarge(u32),
    NoMessage,
}

pub open spec fn reading(s: Seq<u8>) -> Reading {
    match wire::parse_u32(s) {
        None => if s.len() == 0 {
            Reading::Closed
        } else {
            Reading::CutOff
        },
        Some((len, rest)) => if len > MAX_FRAME_BYTES {
            Reading::TooLarge(len)
        } else if len > rest.len() {
            Reading::CutOff
        } else {
            match parse_message(rest.take(len as int)) {
                Some(m) => Reading::Got(m, rest.skip(len as int)),
                None => Reading::NoMessage,
            }
        },
    }
}

/// Reads exactly one message from the rest of a stream and returns it with
/// what follows. A stream that ends between frames is no error.
pub fn read_frame(reader: &[u8]) -> (r: Result<Option<(RpcMessage, &[u8])>, CodecError>)
    ensures
        match r {
            Ok(None) => reading(reader@) is Closed,
            Ok(Some((msg, rest))) => reading(reader@) == Reading::Got(msg@, rest@),
            Err(CodecError::UnexpectedEof) => reading(reader@) is CutOff,
            Err(CodecError::FrameTooLarge(len)) => reading(reader@) == Reading::TooLarge(len),
            Err(_) => reading(reader@) is NoMessage,
        },
{
    let total = reader.len();
    let header_len: usize = if total < 4 {
        total
    } else {
        4
    };
    let header = slice_subrange(reader, 0, header_len);
    assert(header@ =~= reader@.take(header_len as int));
    assert(total >= 4 ==> header@.take(4) =~= reader@.take(4));
    match frame_length(header)? {
        None => Ok(None),
        Some(len) => {
            if len > total - 4 {
                return Err(CodecError::UnexpectedEof);
            }
            let payload = slice_subrange(reader, 4, 4 + len);
            let rest = slice_subrange(reader, 4 + len, total);
            assert(payload@ =~= reader@.skip(4).take(len as int));
            assert(rest@ =~= reader@.skip(4).skip(len as int));
            let msg = decode_message(payload)?;
            Ok(Some((msg, rest)))
        },
    }
}

/// A message that was written is what the next read gives back, with the rest
/// of the stream left as it was. A frame over the ceiling is refused.
pub proof fn frames_round_trip(m: Message, rest: Seq<u8>)
    requires
        message_fits(m),
        message_bytes(m).len() <= u32::MAX,
    ensures
        message_bytes(m).len() <= MAX_FRAME_BYTES ==> reading(framed(message_bytes(m)) + rest)
            == Reading::Got(m, rest),
        message_bytes(m).len() > MAX_FRAME_BYTES ==> reading(framed(message_bytes(m)) + rest)
            == Reading::TooLarge(message_bytes(m).len() as u32),
{
    let payload = message_bytes(m);
    let len = payload.len() as u32;
    wire::u32_round_trips(len, payload + rest);
    assert(framed(payload) + rest =~= wire::u32_bytes(len) + (payload + rest));
    assert((payload + rest).take(len as int) =~= payload);
    assert((payload + rest).skip(len as int) =~= rest);
    message_round_trips(m, Seq::empty());
    assert(payload + Seq::<u8>::empty() =~= payload);
}

/// A frame whose end is missing is never mistaken for a shorter message or
/// for the end of the stream.
pub proof fn cut_frames_are_noticed(m: Message, got: int)
    requires
        0 < got < framed(message_bytes(m)).len(),
        message_bytes(m).len() <= MAX_FRAME_BYTES,
    ensures
        reading(framed(message_bytes(m)).take(got)) is CutOff,
{
    let payload = message_bytes(m);
    let len = payload.len() as u32;
    let s = framed(payload).take(got);
    vstd::bytes::lemma_auto_spec_u32_to_from_le_bytes();
    if got >= 4 {
        assert(s.take(4) =~= wire::u32_bytes(len));
    }
}

/// Bytes are read as an entry, or as a list of entries, only if they begin with
/// the bytes of exactly that.
pub proof fn only_entries_are_decoded(s: Seq<u8>)
    ensures
        parse_entry(s) matches Some((e, rest)) ==> s == entry_bytes(e) + rest,
        parse_entries(s) matches Some((entries, rest)) ==> s == entries_bytes(entries) + rest,
{
    lemma_entry_was_written(s);
    if let Some((entries, rest)) = parse_entries(s) {
        wire::what_is_read_was_written(s);
        let (n, body) = wire::parse_u64(s)->0;
        lemma_entries_were_written(body, n as nat);
        assert(s =~= entries_bytes(entries) + rest);
    }
}

proof fn lemma_entry_was_written(s: Seq<u8>)
    ensures
        parse_entry(s) matches Some((e, rest)) ==> s == entry_bytes(e) + rest,
{
    if let Some((e, rest)) = parse_entry(s) {
        wire::what_is_read_was_written(s);
        let (_, s1) = wire::parse_u64(s)->0;
        wire::what_is_read_was_written(s1);
        let (_, s2) = wire::parse_u64(s1)->0;
        wire::what_is_read_was_written(s2);
        assert(s =~= entry_bytes(e) + rest);
    }
}

proof fn lemma_entries_were_written(s: Seq<u8>, n: nat)
    ensures
        parse_some_entries(s, n) matches Some((entries, rest)) ==> {
            &&& entries.len() == n
            &&& s == wire::joined(entry_parts(entries)) + rest
        },
    decreases n,
{
    if let Some((entries, rest)) = parse_some_entries(s, n) {
        if n == 0 {
            assert(wire::joined(entry_parts(entries)) + rest =~= rest);
        } else {
            lemma_entry_was_written(s);
            let (first, body) = parse_entry(s)->0;
            lemma_entries_were_written(body, (n - 1) as nat);
            let (others, _) = parse_some_entries(body, (n - 1) as nat)->0;
            assert(entries =~= seq![first] + others);
            assert(entry_parts(entries).drop_first() =~= entry_parts(others));
            assert(s =~= wire::joined(entry_parts(entries)) + rest);
        }
    }
}

/// Bytes are read as a message only if they begin with the bytes of exactly
/// that message: nothing else passes for one.
pub proof fn only_messages_are_decoded(s: Seq<u8>)
    ensures
        parse_message(s) matches Some(m) ==> s.len() >= message_bytes(m).len() && s.take(
            message_bytes(m).len() as int,
        ) == message_bytes(m),
{
    if let Some(m) = parse_message(s) {
        let left = lemma_message_was_written(s, m);
        let bytes = message_bytes(m);
        assert((bytes + left).take(bytes.len() as int) =~= bytes);
    }
}

proof fn lemma_message_was_written(s: Seq<u8>, m: Message) -> (left: Seq<u8>)
    requires
        parse_message(s) == Some(m),
    ensures
        s == message_bytes(m) + left,
{
    wire::lemma_numbers_were_written(s);
    let (tag, body) = wire::parse_u32(s)->0;
    wire::lemma_numbers_were_written(body);
    let left = match m {
        Message::Hello(_) => (wire::parse_u32(body)->0).1,
        Message::RequestVote(req) => lemma_vote_request_was_written(body, req),
        Message::RequestVoteResponse(resp) => lemma_vote_response_was_written(body, resp),
        Message::AppendEntries(req) => lemma_append_was_written(body, req),
        Message::AppendEntriesResponse(resp) => lemma_append_response_was_written(body, resp),
    };
    wire::lemma_regroup(wire::u32_bytes(tag), body_bytes(m), left);
    left
}

proof fn lemma_vote_request_was_written(s: Seq<u8>, req: RequestVoteRequest) -> (left: Seq<u8>)
    requires
        parse_vote_request(s) == Some(req),
    ensures
        s == vote_request_bytes(req) + left,
{
    wire::what_is_read_was_written(s);
    let (_, s1) = wire::parse_u64(s)->0;
    wire::what_is_read_was_written(s1);
    let (_, s2) = wire::parse_u32(s1)->0;
    wire::what_is_read_was_written(s2);
    let (_, s3) = wire::parse_u64(s2)->0;
    wire::what_is_read_was_written(s3);
    let (_, left) = wire::parse_u64(s3)->0;
    assert(s =~= vote_request_bytes(req) + left);
    left
}

proof fn lemma_vote_response_was_written(s: Seq<u8>, resp: RequestVoteResponse) -> (left: Seq<u8>)
    requires
        parse_vote_response(s) == Some(resp),
    ensures
        s == vote_response_bytes(resp) + left,
{
    wire::what_is_read_was_written(s);
    let (_, s1) = wire::parse_u64(s)->0;
    wire::what_is_read_was_written(s1);
    let (_, left) = wire::parse_flag(s1)->0;
    assert(s =~= vote_response_bytes(resp) + left);
    left
}

proof fn lemma_append_was_written(s: Seq<u8>, req: Append) -> (left: Seq<u8>)
    requires
        parse_append(s) == Some(req),
    ensures
        s == append_bytes(req) + left,
{
    let b1 = wire::u64_bytes(req.term);
    let b2 = wire::u32_bytes(req.leader_id);
    let b3 = wire::u64_bytes(req.prev_log_index);
    let b4 = wire::u64_bytes(req.prev_log_term);
    let b5 = entries_bytes(req.entries);
    let b6 = wire::u64_bytes(req.leader_commit);
    wire::lemma_numbers_were_written(s);
    let (_, s1) = wire::parse_u64(s)->0;
    wire::lemma_numbers_were_written(s1);
    let (_, s2) = wire::parse_u32(s1)->0;
    wire::lemma_numbers_were_written(s2);
    let (_, s3) = wire::parse_u64(s2)->0;
    wire::lemma_numbers_were_written(s3);
    let (_, s4) = wire::parse_u64(s3)->0;
    only_entries_are_decoded(s4);
    let (_, s5) = parse_entries(s4)->0;
    wire::lemma_numbers_were_written(s5);
    let (_, left) = wire::parse_u64(s5)->0;
    wire::lemma_regroup(b5, b6, left);
    wire::lemma_regroup(b4, b5 + b6, left);
    wire::lemma_regroup(b3, b4 + (b5 + b6), left);
    wire::lemma_regroup(b2, b3 + (b4 + (b5 + b6)), left);
    wire::lemma_regroup(b1, b2 + (b3 + (b4 + (b5 + b6))), left);
    left
}

proof fn lemma_append_response_was_written(
    s: Seq<u8>,
    resp: AppendEntriesResponse,
) -> (left: Seq<u8>)
    requires
        parse_append_response(s) == Some(resp),
    ensures
        s == append_response_bytes(resp) + left,
{
    wire::what_is_read_was_written(s);
    let (_, s1) = wire::parse_u64(s)->0;
    wire::what_is_read_was_written(s1);
    let (_, s2) = wire::parse_flag(s1)->0;
    wire::what_is_read_was_written(s2);
    let (_, left) = wire::parse_optional(s2)->0;
    assert(s =~= append_response_bytes(resp) + left);
    left
}

/// A message starts with a tag of four bytes that says what kind it is. Behind
/// it every message but a greeting has its term.
pub proof fn messages_start_with_their_tag(
    id: u32,
    ask: RequestVoteRequest,
    vote: RequestVoteResponse,
    req: Append,
    resp: AppendEntriesResponse,
)
    ensures
        message_bytes(Message::Hello(id)).take(4) == wire::u32_bytes(0),
        message_bytes(Message::Hello(id)).skip(4) == wire::u32_bytes(id),
        message_bytes(Message::RequestVote(ask)).take(4) == wire::u32_bytes(1),
        message_bytes(Message::RequestVote(ask)).subrange(4, 12) == wire::u64_bytes(ask.term),
        message_bytes(Message::RequestVote(ask)).len() == 32,
        message_bytes(Message::RequestVoteResponse(vote)).take(4) == wire::u32_bytes(2),
        message_bytes(Message::RequestVoteResponse(vote)).subrange(4, 12) == wire::u64_bytes(
            vote.term,
        ),
        message_bytes(Message::RequestVoteResponse(vote)).len() == 13,
        message_bytes(Message::AppendEntries(req)).take(4) == wire::u32_bytes(3),
        message_bytes(Message::AppendEntries(req)).subrange(4, 12) == wire::u64_bytes(req.term),
        message_bytes(Message::AppendEntriesResponse(resp)).take(4) == wire::u32_bytes(4),
        message_bytes(Message::AppendEntriesResponse(resp)).subrange(4, 12) == wire::u64_bytes(
            resp.term,
        ),
{
    vstd::bytes::lemma_auto_spec_u32_to_from_le_bytes();
    vstd::bytes::lemma_auto_spec_u64_to_from_le_bytes();
    let hello = message_bytes(Message::Hello(id));
    assert(hello.take(4) =~= wire::u32_bytes(0));
    assert(hello.skip(4) =~= wire::u32_bytes(id));
    let asked = message_bytes(Message::RequestVote(ask));
    assert(asked.take(4) =~= wire::u32_bytes(1));
    assert(asked.subrange(4, 12) =~= wire::u64_bytes(ask.term));
    let voted = message_bytes(Message::RequestVoteResponse(vote));
    assert(voted.take(4) =~= wire::u32_bytes(2));
    assert(voted.subrange(4, 12) =~= wire::u64_bytes(vote.term));
    let update = message_bytes(Message::AppendEntries(req));
    assert(update.take(4) =~= wire::u32_bytes(3));
    assert(update.subrange(4, 12) =~= wire::u64_bytes(req.term));
    let answer = message_bytes(Message::AppendEntriesResponse(resp));
    assert(answer.take(4) =~= wire::u32_bytes(4));
    assert(answer.subrange(4, 12) =~= wire::u64_bytes(resp.term));
}

/// The fields of a request stand one after the other: whom it is from and where
/// it starts, then its entries, then what is committed. Those of a vote request
/// end with the candidate's last index and last term.
pub proof fn fields_keep_their_places(ask: RequestVoteRequest, req: Append, e: Entry)
    ensures
        ({
            let asked = message_bytes(Message::RequestVote(ask));
            &&& asked.subrange(12, 16) == wire::u32_bytes(ask.candidate_id)
            &&& asked.subrange(16, 24) == wire::u64_bytes(ask.last_log_index)
            &&& asked.subrange(24, 32) == wire::u64_bytes(ask.last_log_term)
        }),
        ({
            let update = message_bytes(Message::AppendEntries(req));
            let end = 32 + entries_bytes(req.entries).len() as int;
            &&& update.subrange(12, 16) == wire::u32_bytes(req.leader_id)
            &&& update.subrange(16, 24) == wire::u64_bytes(req.prev_log_index)
            &&& update.subrange(24, 32) == wire::u64_bytes(req.prev_log_term)
            &&& update.subrange(32, end) == entries_bytes(req.entries)
            &&& update.skip(end) == wire::u64_bytes(req.leader_commit)
        }),
        entry_bytes(e).take(8) == wire::u64_bytes(e.term),
        entry_bytes(e).subrange(8, 16) == wire::u64_bytes(e.index),
        entry_bytes(e).skip(16) == wire::blob_bytes(e.command),
{
    vstd::bytes::lemma_auto_spec_u32_to_from_le_bytes();
    vstd::bytes::lemma_auto_spec_u64_to_from_le_bytes();
    let asked = message_bytes(Message::RequestVote(ask));
    assert(asked.subrange(12, 16) =~= wire::u32_bytes(ask.candidate_id));
    assert(asked.subrange(16, 24) =~= wire::u64_bytes(ask.last_log_index));
    assert(asked.subrange(24, 32) =~= wire::u64_bytes(ask.last_log_term));
    let update = message_bytes(Message::AppendEntries(req));
    let end = 32 + entries_bytes(req.entries).len() as int;
    assert(update.subrange(12, 16) =~= wire::u32_bytes(req.leader_id));
    assert(update.subrange(16, 24) =~= wire::u64_bytes(req.prev_log_index));
    assert(update.subrange(24, 32) =~= wire::u64_bytes(req.prev_log_term));
    assert(update.subrange(32, end) =~= entries_bytes(req.entries));
    assert(update.skip(end) =~= wire::u64_bytes(req.leader_commit));
    assert(entry_bytes(e).take(8) =~= wire::u64_bytes(e.term));
    assert(entry_bytes(e).subrange(8, 16) =~= wire::u64_bytes(e.index));
    assert(entry_bytes(e).skip(16) =~= wire::blob_bytes(e.command));
}

/// A frame is its payload with the length in four bytes in front.
pub proof fn frames_add_four_bytes(payload: Seq<u8>)
    ensures
        framed(payload).len() == payload.len() + 4,
        framed(payload).skip(4) == payload,
        payload.len() <= u32::MAX ==> framed(payload).take(4) == wire::u32_bytes(
            payload.len() as u32,
        ),
{
    vstd::bytes::lemma_auto_spec_u32_to_from_le_bytes();
    assert(framed(payload).skip(4) =~= payload);
    assert(framed(payload).take(4) =~= wire::u32_bytes(payload.len() as u32));
}

/// The length in front decides what is read: a frame over 64 MiB is refused
/// whatever follows, one that is not there in full is cut off, and else exactly
/// that many bytes are taken for a message, and all that follow are left.
pub proof fn lengths_decide_what_is_read(len: u32, rest: Seq<u8>)
    ensures
        ({
            let read = reading(wire::u32_bytes(len) + rest);
            &&& len > 64 * 1024 * 1024 ==> read == Reading::TooLarge(len)
            &&& len <= 64 * 1024 * 1024 && len > rest.len() ==> read is CutOff
            &&& len <= 64 * 1024 * 1024 && len <= rest.len() ==> match parse_message(
                rest.take(len as int),
            ) {
                Some(m) => read == Reading::Got(m, rest.skip(len as int)),
                None => read is NoMessage,
            }
        }),
{
    wire::u32_round_trips(len, rest);
}

/// A stream that ends between frames is closed, and one that ends within the
/// length of a frame is cut off.
pub proof fn streams_end_between_frames(s: Seq<u8>)
    requires
        s.len() < 4,
    ensures
        s.len() == 0 ==> reading(s) is Closed,
        s.len() > 0 ==> reading(s) is CutOff,
{
}

} // verus!
