//! The messages nodes exchange.
use vstd::prelude::*;

use crate::log::{self, copy_entries, Entry, LogEntry};
use crate::state::{NodeId, Term};

verus! {

/// Sent by a candidate to every other node when it starts an election.
#[derive(Debug, Clone, Copy)]
pub struct RequestVoteRequest {
    pub term: Term,
    pub candidate_id: NodeId,
    /// Lets the voter check that the candidate's log is at least as
    /// up-to-date as its own.
    pub last_log_index: u64,
    pub last_log_term: Term,
}

#[derive(Debug, Clone, Copy)]
pub struct RequestVoteResponse {
    pub term: Term,
    pub vote_granted: bool,
}

/// Sent by the leader to replicate entries, and as a heartbeat when `entries`
/// is empty.
#[derive(Debug)]
pub struct AppendEntriesRequest {
    pub term: Term,
    pub leader_id: NodeId,
    /// Index and term of the entry immediately before `entries`.
    pub prev_log_index: u64,
    pub prev_log_term: Term,
    pub entries: Vec<LogEntry>,
    pub leader_commit: u64,
}

/// The content of an [`AppendEntriesRequest`].
pub struct Append {
    pub term: Term,
    pub leader_id: NodeId,
    pub prev_log_index: u64,
    pub prev_log_term: Term,
    pub entries: Seq<Entry>,
    pub leader_commit: u64,
}

impl View for AppendEntriesRequest {
    type V = Append;

    open spec fn view(&self) -> Append {
        Append {
            term: self.term,
            leader_id: self.leader_id,
            prev_log_index: self.prev_log_index,
            prev_log_term: self.prev_log_term,
            entries: log::contents(self.entries@),
            leader_commit: self.leader_commit,
        }
    }
}

impl Clone for AppendEntriesRequest {
    fn clone(&self) -> (r: Self)
        ensures
            r@ == self@,
    {
        AppendEntriesRequest {
            term: self.term,
            leader_id: self.leader_id,
            prev_log_index: self.prev_log_index,
            prev_log_term: self.prev_log_term,
            entries: copy_entries(&self.entries),
            leader_commit: self.leader_commit,
        }
    }
}

#[derive(Debug, Clone, Copy)]
pub struct AppendEntriesResponse {
    pub term: Term,
    pub success: bool,
    /// On rejection, how far back the leader should jump.
    pub conflict_index: Option<u64>,
}

/// Everything that travels between nodes.
#[derive(Debug)]
pub enum RpcMessage {
    /// The first frame on a new connection: who is calling.
    Hello(NodeId),
    RequestVote(RequestVoteRequest),
    RequestVoteResponse(RequestVoteResponse),
    AppendEntries(AppendEntriesRequest),
    AppendEntriesResponse(AppendEntriesResponse),
}

/// The content of an [`RpcMessage`].
pub enum Message {
    Hello(NodeId),
    RequestVote(RequestVoteRequest),
    RequestVoteResponse(RequestVoteResponse),
    AppendEntries(Append),
    AppendEntriesResponse(AppendEntriesResponse),
}

impl View for RpcMessage {
    type V = Message;

    open spec fn view(&self) -> Message {
        match self {
            RpcMessage::Hello(id) => Message::Hello(*id),
            RpcMessage::RequestVote(req) => Message::RequestVote(*req),
            RpcMessage::RequestVoteResponse(resp) => Message::RequestVoteResponse(*resp),
            RpcMessage::AppendEntries(req) => Message::AppendEntries(req@),
            RpcMessage::AppendEntriesResponse(resp) => Message::AppendEntriesResponse(*resp),
        }
    }
}

impl Clone for RpcMessage {
    fn clone(&self) -> (r: Self)
        ensures
            r@ == self@,
    {
        match self {
            RpcMessage::Hello(id) => RpcMessage::Hello(*id),
            RpcMessage::RequestVote(req) => RpcMessage::RequestVote(*req),
            RpcMessage::RequestVoteResponse(resp) => RpcMessage::RequestVoteResponse(*resp),
            RpcMessage::AppendEntries(req) => RpcMessage::AppendEntries(req.clone()),
            RpcMessage::AppendEntriesResponse(resp) => RpcMessage::AppendEntriesResponse(*resp),
        }
    }
}

/// A request stands for all that it says.
pub proof fn requests_stand_for_all_they_say(req: AppendEntriesRequest)
    ensures
        req@.term == req.term,
        req@.leader_id == req.leader_id,
        req@.prev_log_index == req.prev_log_index,
        req@.prev_log_term == req.prev_log_term,
        req@.entries == log::contents(req.entries@),
        req@.leader_commit == req.leader_commit,
{
}

/// A message stands for what it carries, and for its kind.
pub proof fn messages_stand_for_what_they_carry(
    id: NodeId,
    ask: RequestVoteRequest,
    vote: RequestVoteResponse,
    req: AppendEntriesRequest,
    resp: AppendEntriesResponse,
)
    ensures
        RpcMessage::Hello(id)@ == Message::Hello(id),
        RpcMessage::RequestVote(ask)@ == Message::RequestVote(ask),
        RpcMessage::RequestVoteResponse(vote)@ == Message::RequestVoteResponse(vote),
        RpcMessage::AppendEntries(req)@ == Message::AppendEntries(req@),
        RpcMessage::AppendEntriesResponse(resp)@ == Message::AppendEntriesResponse(resp),
{
}

} // verus!
