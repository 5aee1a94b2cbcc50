//! One node's part in the cluster, as a state machine: events go in, actions
//! for the outside world come out.
use std::collections::{HashMap, VecDeque};
use std::time::Instant;
use vstd::prelude::*;

use crate::clock::Duration;
use crate::config::NodeConfig;
use crate::election::{
    self, handle_request_vote_at, start_election_at, ElectionTimeoutConfig, Tally, VoteTally,
};
use crate::kv_store::{self, Command, KvStore, Op};
use crate::log::{self, Entry, Log, LogEntry};
use crate::messages::{
    Append, AppendEntriesRequest, AppendEntriesResponse, Message, RequestVoteRequest,
    RequestVoteResponse, RpcMessage,
};
use crate::replication::{
    self, advance_commit_index, build_append_entries, count_in_place, handle_append_entries_at,
    handle_append_entries_response,
};
use crate::state::{LeaderState, NodeId, PersistentState, Role, Term, VolatileState};

verus! {

/// A write submitted by a client. `respond_to` is where the answer goes, once
/// the command is committed and applied.
#[derive(Debug)]
pub struct ClientCommand<R> {
    pub command: Command,
    pub respond_to: R,
}

#[derive(Debug)]
pub enum ClientCommandResult {
    Applied(Option<Vec<u8>>),
    NotLeader { leader_hint: Option<NodeId> },
}

/// A read submitted by a client. It changes nothing, so it is answered from
/// the leader's applied state and never enters the log.
#[derive(Debug)]
pub struct ClientQuery<R> {
    pub key: String,
    pub respond_to: R,
}

#[derive(Debug)]
pub enum QueryResult {
    Value(Option<Vec<u8>>),
    NotLeader { leader_hint: Option<NodeId> },
}

/// The content of a [`ClientCommandResult`].
pub enum Outcome {
    Applied(Option<Seq<u8>>),
    NotLeader { leader_hint: Option<NodeId> },
}

/// The content of a [`QueryResult`].
pub enum Answer {
    Value(Option<Seq<u8>>),
    NotLeader { leader_hint: Option<NodeId> },
}

impl View for ClientCommandResult {
    type V = Outcome;

    open spec fn view(&self) -> Outcome {
        match self {
            ClientCommandResult::Applied(value) => Outcome::Applied(kv_store::blob(*value)),
            ClientCommandResult::NotLeader { leader_hint } => Outcome::NotLeader {
                leader_hint: *leader_hint,
            },
        }
    }
}

impl View for QueryResult {
    type V = Answer;

    open spec fn view(&self) -> Answer {
        match self {
            QueryResult::Value(value) => Answer::Value(kv_store::blob(*value)),
            QueryResult::NotLeader { leader_hint } => Answer::NotLeader {
                leader_hint: *leader_hint,
            },
        }
    }
}

impl Clone for ClientCommandResult {
    fn clone(&self) -> (r: Self)
        ensures
            r@ == self@,
    {
        match self {
            ClientCommandResult::Applied(value) => ClientCommandResult::Applied(copy_value(value)),
            ClientCommandResult::NotLeader { leader_hint } => ClientCommandResult::NotLeader {
                leader_hint: *leader_hint,
            },
        }
    }
}

impl Clone for QueryResult {
    fn clone(&self) -> (r: Self)
        ensures
            r@ == self@,
    {
        match self {
            QueryResult::Value(value) => QueryResult::Value(copy_value(value)),
            QueryResult::NotLeader { leader_hint } => QueryResult::NotLeader {
                leader_hint: *leader_hint,
            },
        }
    }
}

fn copy_value(value: &Option<Vec<u8>>) -> (r: Option<Vec<u8>>)
    ensures
        kv_store::blob(r) == kv_store::blob(*value),
{
    match value {
        Some(bytes) => {
            let copy = bytes.clone();
            assert(copy@ =~= bytes@);
            Some(copy)
        },
        None => None,
    }
}

/// Read-only view of a node, for the dashboard.
#[derive(Debug)]
pub struct ClusterSnapshot {
    pub node_id: NodeId,
    pub role: String,
    pub current_term: Term,
    pub commit_index: u64,
    pub last_applied: u64,
    pub log_len: u64,
    pub leader_hint: Option<NodeId>,
}

impl Clone for ClusterSnapshot {
    fn clone(&self) -> (r: Self)
        ensures
            r == *self,
    {
        ClusterSnapshot {
            node_id: self.node_id,
            role: self.role.clone(),
            current_term: self.current_term,
            commit_index: self.commit_index,
            last_applied: self.last_applied,
            log_len: self.log_len,
            leader_hint: self.leader_hint,
        }
    }
}

/// What a role is called.
pub open spec fn role_name(role: Role) -> Seq<char> {
    match role {
        Role::Follower => "Follower"@,
        Role::Candidate => "Candidate"@,
        Role::Leader => "Leader"@,
    }
}

fn name_of(role: Role) -> (r: String)
    ensures
        r@ == role_name(role),
{
    match role {
        Role::Follower => "Follower".to_owned(),
        Role::Candidate => "Candidate".to_owned(),
        Role::Leader => "Leader".to_owned(),
    }
}

/// What the outside world has to do, in the order given.
#[derive(Debug)]
pub enum Action<R> {
    Send { to: NodeId, msg: RpcMessage },
    /// Draw a new election timeout and wait for it from now on.
    ResetElectionTimer,
    /// Tell a client what became of its command.
    Respond { client: R, result: ClientCommandResult },
    /// Tell a client what it asked for.
    Reply { client: R, answer: QueryResult },
}

/// The content of an [`Action`].
pub enum Act<R> {
    Send { to: NodeId, msg: Message },
    ResetElectionTimer,
    Respond { client: R, result: Outcome },
    Reply { client: R, answer: Answer },
}

impl<R> View for Action<R> {
    type V = Act<R>;

    open spec fn view(&self) -> Act<R> {
        match self {
            Action::Send { to, msg } => Act::Send { to: *to, msg: msg@ },
            Action::ResetElectionTimer => Act::ResetElectionTimer,
            Action::Respond { client, result } => Act::Respond { client: *client, result: result@ },
            Action::Reply { client, answer } => Act::Reply { client: *client, answer: answer@ },
        }
    }
}

/// The contents of a list of actions.
pub open spec fn acts<R>(actions: Seq<Action<R>>) -> Seq<Act<R>> {
    Seq::new(actions.len(), |i: int| actions[i]@)
}

/// A change to the write-ahead log.
#[derive(Debug)]
pub enum WalWrite {
    /// Discard everything from `from_index` on.
    Truncate { from_index: u64 },
    /// Append an entry and flush it to disk.
    Append(LogEntry),
}

/// The content of a [`WalWrite`].
pub enum Stroke {
    Truncate { from_index: u64 },
    Append(Entry),
}

impl View for WalWrite {
    type V = Stroke;

    open spec fn view(&self) -> Stroke {
        match self {
            WalWrite::Truncate { from_index } => Stroke::Truncate { from_index: *from_index },
            WalWrite::Append(entry) => Stroke::Append(entry@),
        }
    }
}

/// The contents of a list of writes.
pub open spec fn strokes(writes: Seq<WalWrite>) -> Seq<Stroke> {
    Seq::new(writes.len(), |i: int| writes[i]@)
}

/// Entries are appended one after the other.
pub open spec fn appended(entries: Seq<Entry>) -> Seq<Stroke> {
    Seq::new(entries.len(), |i: int| Stroke::Append(entries[i]))
}

/// Everything a node's behaviour depends on.
#[verifier::reject_recursive_types(R)]
pub struct Node<R> {
    pub id: NodeId,
    pub cluster_size: usize,
    /// The peers this node can send to.
    pub peers: Seq<NodeId>,
    pub persistent: PersistentState,
    pub volatile: VolatileState,
    pub next_index: Map<NodeId, u64>,
    pub match_index: Map<NodeId, u64>,
    pub tally: Option<Tally>,
    pub log: Seq<Entry>,
    pub store: Map<Seq<char>, Seq<u8>>,
    pub known_leader: Option<NodeId>,
    /// The requests that were sent to a follower in this leader's term and
    /// are not answered yet, oldest first: the position before the entries of
    /// each, and how many entries it had.
    pub unanswered: Map<NodeId, Seq<(u64, u64)>>,
    /// The clients that wait for the entry at an index to be applied, each
    /// with the term in which its entry was appended there.
    pub pending: Map<u64, (Term, R)>,
    /// The write-ahead log could not be written when it was last tried.
    pub faulty: bool,
    /// How many entries at the beginning of the log are on disk: all of them,
    /// unless a write has failed.
    pub saved: nat,
    pub timeouts: ElectionTimeoutConfig,
}

/// A node and what it does.
pub type Step<R> = (Node<R>, Seq<Act<R>>);

/// A message to `to`, if there is a way to send it.
pub open spec fn sent<R>(n: Node<R>, to: NodeId, msg: Message) -> Seq<Act<R>> {
    if n.peers.contains(to) {
        seq![Act::Send { to, msg }]
    } else {
        Seq::empty()
    }
}

/// Every node but a leader waits for an election timeout.
pub open spec fn timer<R>(n: Node<R>) -> Seq<Act<R>> {
    if n.volatile.role != Role::Leader {
        seq![Act::ResetElectionTimer]
    } else {
        Seq::empty()
    }
}

/// The next index of a follower, 1 if nothing is known of it.
pub open spec fn next_for<R>(n: Node<R>, peer: NodeId) -> u64 {
    if n.next_index.contains_key(peer) {
        n.next_index[peer]
    } else {
        1
    }
}

/// The request that brings one peer up to date.
pub open spec fn request_to<R>(n: Node<R>, peer: NodeId) -> Append {
    replication::request_for(
        n.persistent,
        n.log,
        n.id,
        next_for(n, peer),
        n.volatile.commit_index,
    )
}

/// What a leader sends to one peer.
pub open spec fn update_for<R>(n: Node<R>, peer: NodeId) -> Act<R> {
    Act::Send { to: peer, msg: Message::AppendEntries(request_to(n, peer)) }
}

/// The requests a follower has not answered yet.
pub open spec fn waiting<R>(n: Node<R>, peer: NodeId) -> Seq<(u64, u64)> {
    if n.unanswered.contains_key(peer) {
        n.unanswered[peer]
    } else {
        Seq::empty()
    }
}

/// What a leader remembers of a request.
pub open spec fn span(req: Append) -> (u64, u64) {
    (req.prev_log_index, req.entries.len() as u64)
}

/// The unanswered requests once `peers` have been sent one more each.
pub open spec fn awaited<R>(n: Node<R>, peers: Seq<NodeId>) -> Map<NodeId, Seq<(u64, u64)>> {
    n.unanswered.union_prefer_right(
        peers.to_set().mk_map(|id: NodeId| waiting(n, id).push(span(request_to(n, id)))),
    )
}

/// The leader once it has sent an update to every peer.
pub open spec fn told<R>(n: Node<R>) -> Node<R> {
    Node { unanswered: awaited(n, n.peers), ..n }
}

/// What a leader sends to all peers.
pub open spec fn updates<R>(n: Node<R>) -> Seq<Act<R>> {
    Seq::new(n.peers.len(), |i: int| update_for(n, n.peers[i]))
}

/// How much of its own log a leader counts: what it has on disk.
pub open spec fn own_match<R>(n: Node<R>) -> u64 {
    if n.faulty && n.saved < log::last_index(n.log) {
        n.saved as u64
    } else {
        log::last_index(n.log)
    }
}

/// The node with its commit index moved as far as its own log and what it
/// knows of its followers allow.
pub open spec fn advanced<R>(n: Node<R>) -> Node<R> {
    match replication::commit_point(
        n.match_index,
        n.log,
        n.persistent.current_term,
        n.cluster_size,
        own_match(n),
    ) {
        Some(commit_index) => Node { volatile: VolatileState { commit_index, ..n.volatile }, ..n },
        None => n,
    }
}

/// The entry a leader of `term` appends for a command.
pub open spec fn entry_in<R>(n: Node<R>, term: Term, op: Op) -> Entry {
    Entry {
        term,
        index: (log::last_index(n.log) + 1) as u64,
        command: kv_store::command_bytes(op),
    }
}

/// The entry a leader appends for a command.
pub open spec fn own_entry<R>(n: Node<R>, op: Op) -> Entry {
    entry_in(n, n.persistent.current_term, op)
}

/// The node with one more entry in its log.
pub open spec fn grown<R>(n: Node<R>, entry: Entry) -> Node<R> {
    Node {
        log: n.log.push(entry),
        saved: if n.faulty {
            n.saved
        } else {
            n.log.len() + 1
        },
        ..n
    }
}

/// A leader appends a command to its own log, replicates it and commits what
/// it can.
pub open spec fn proposed<R>(n: Node<R>, op: Op) -> Step<R> {
    let longer = grown(n, own_entry(n, op));
    (advanced(told(longer)), updates(longer))
}

/// The same value for every peer.
pub open spec fn for_all_peers(peers: Seq<NodeId>, value: u64) -> Map<NodeId, u64> {
    peers.to_set().mk_map(|id: NodeId| value)
}

/// A node takes office: nothing is known of its followers yet, and its first
/// deed is a no-op in its own term.
pub open spec fn crowned<R>(n: Node<R>) -> Step<R> {
    let leader = Node {
        volatile: VolatileState { role: Role::Leader, ..n.volatile },
        known_leader: Some(n.id),
        tally: None,
        next_index: for_all_peers(n.peers, (log::last_index(n.log) + 1) as u64),
        match_index: for_all_peers(n.peers, 0),
        unanswered: Map::empty(),
        ..n
    };
    proposed(leader, Op::NoOp)
}

/// A node that learns of a newer term follows it.
pub open spec fn stepped_down<R>(n: Node<R>, new_term: Term) -> Step<R> {
    (
        Node {
            persistent: PersistentState { current_term: new_term, voted_for: None },
            volatile: VolatileState { role: Role::Follower, ..n.volatile },
            tally: None,
            ..n
        },
        seq![Act::ResetElectionTimer],
    )
}

/// The node as a candidate in the next term.
pub open spec fn candidate<R>(n: Node<R>, now: Instant) -> Node<R> {
    Node {
        persistent: election::candidacy(n.persistent, n.id),
        volatile: election::campaigning(n.volatile, now),
        known_leader: None,
        tally: Some(Tally { voters: Set::empty().insert(n.id), cluster_size: n.cluster_size }),
        ..n
    }
}

/// The vote requests a candidate broadcasts.
pub open spec fn ballots<R>(n: Node<R>) -> Seq<Act<R>> {
    Seq::new(
        n.peers.len(),
        |i: int|
            Act::Send {
                to: n.peers[i],
                msg: Message::RequestVote(election::ballot(n.persistent, n.log, n.id)),
            },
    )
}

/// A node starts an election. Alone in its cluster it wins at once.
pub open spec fn campaign<R>(n: Node<R>, now: Instant) -> Step<R> {
    let standing = candidate(n, now);
    let calls = seq![Act::ResetElectionTimer] + ballots(n);
    if standing.tally->0.won() {
        let (leader, deeds) = crowned(standing);
        (leader, calls + deeds)
    } else {
        (standing, calls)
    }
}

/// A vote request arrives.
pub open spec fn asked_for_vote<R>(
    n: Node<R>,
    from: NodeId,
    req: RequestVoteRequest,
    now: Instant,
) -> Step<R> {
    let after = Node {
        persistent: election::after_vote(n.persistent, n.log, req),
        volatile: election::after_vote_at(n.persistent, n.volatile, n.log, req, now),
        ..n
    };
    let reply = Message::RequestVoteResponse(election::vote_reply(n.persistent, n.log, req));
    (after, timer(after) + sent(n, from, reply))
}

/// The tally of a candidate with one more vote.
pub open spec fn counted<R>(n: Node<R>, from: NodeId) -> Option<Tally> {
    match n.tally {
        Some(tally) => Some(Tally { voters: tally.voters.insert(from), ..tally }),
        None => None,
    }
}

/// The vote of `from` makes this candidate the leader. Only a vote given in
/// the candidate's own term counts.
pub open spec fn wins<R>(n: Node<R>, from: NodeId, resp: RequestVoteResponse) -> bool {
    &&& resp.term == n.persistent.current_term
    &&& n.volatile.role == Role::Candidate
    &&& resp.vote_granted
    &&& counted(n, from) matches Some(tally) && tally.won()
}

/// An answer to a vote request arrives. One that belongs to an older election
/// counts for nothing.
pub open spec fn got_vote<R>(n: Node<R>, from: NodeId, resp: RequestVoteResponse) -> Step<R> {
    if resp.term > n.persistent.current_term {
        stepped_down(n, resp.term)
    } else if resp.term < n.persistent.current_term || n.volatile.role != Role::Candidate
        || !resp.vote_granted {
        (n, Seq::empty())
    } else {
        let after = Node { tally: counted(n, from), ..n };
        if wins(n, from, resp) {
            crowned(after)
        } else {
            (after, Seq::empty())
        }
    }
}

/// What a follower does to its write-ahead log when it takes entries: what it
/// has already stays, from the first entry that differs on everything is
/// discarded, and what is new is appended.
pub open spec fn recorded(log: Seq<Entry>, req: Append) -> Seq<Stroke> {
    let shared = replication::in_place(log, req.prev_log_index as int, req.entries);
    let new = req.entries.skip(shared as int);
    let cut: Seq<Stroke> = if new.len() > 0 && req.prev_log_index + shared < log.len() {
        seq![Stroke::Truncate { from_index: (req.prev_log_index + shared + 1) as u64 }]
    } else {
        Seq::empty()
    };
    cut + appended(new)
}

/// How much of its log a follower has on disk once it has taken a request.
pub open spec fn saved_after<R>(n: Node<R>, req: Append) -> nat {
    let after = replication::log_after_append(n.persistent, n.log, req);
    let shared = replication::in_place(n.log, req.prev_log_index as int, req.entries);
    if after == n.log {
        n.saved
    } else if !n.faulty {
        after.len()
    } else if n.saved < req.prev_log_index + shared {
        n.saved
    } else {
        (req.prev_log_index + shared) as nat
    }
}

/// A follower acknowledges a request only if all of it is on disk.
pub open spec fn withheld<R>(n: Node<R>, req: Append) -> bool {
    &&& n.faulty
    &&& replication::accepts(n.persistent, n.log, req)
    &&& saved_after(n, req) < req.prev_log_index + req.entries.len()
}

/// A leader's request arrives.
pub open spec fn asked_to_append<R>(
    n: Node<R>,
    from: NodeId,
    req: Append,
    now: Instant,
) -> Step<R> {
    let reply = replication::append_reply(n.persistent, n.log, req);
    let after = Node {
        persistent: replication::after_append(n.persistent, req),
        volatile: replication::after_append_at(n.persistent, n.volatile, n.log, req, now),
        log: replication::log_after_append(n.persistent, n.log, req),
        known_leader: if reply.success {
            Some(req.leader_id)
        } else {
            n.known_leader
        },
        tally: if req.term > n.persistent.current_term {
            None
        } else {
            n.tally
        },
        saved: saved_after(n, req),
        ..n
    };
    let answer = if withheld(n, req) {
        Seq::empty()
    } else {
        sent(n, from, Message::AppendEntriesResponse(reply))
    };
    (after, timer(after) + answer)
}

/// The position before the entries a follower is to be sent next.
pub open spec fn sent_prev<R>(n: Node<R>, from: NodeId) -> u64 {
    if next_for(n, from) == 0 {
        0
    } else {
        (next_for(n, from) - 1) as u64
    }
}

/// An answer of the leader's own term. Whoever refuses a request because it
/// comes from an older term names no position to go back to.
pub open spec fn is_answer(resp: AppendEntriesResponse) -> bool {
    resp.success || resp.conflict_index is Some
}

/// What a leader learns from a follower's answer to a request with `count`
/// entries behind position `prev`. A follower that accepted it holds those
/// entries, whatever the leader has appended since.
pub open spec fn learned<R>(
    n: Node<R>,
    from: NodeId,
    prev: u64,
    count: u64,
    resp: AppendEntriesResponse,
) -> Node<R> {
    if resp.success {
        Node {
            match_index: n.match_index.insert(from, (prev + count) as u64),
            next_index: n.next_index.insert(from, (prev + count + 1) as u64),
            ..n
        }
    } else {
        Node {
            next_index: n.next_index.insert(from, (replication::retreat(prev, resp) + 1) as u64),
            ..n
        }
    }
}

/// An answer to a leader's request arrives. Links keep the order of what they
/// carry, so it belongs to the oldest request not answered yet, or to a later
/// one if something was lost. One that belongs to an older term counts for
/// nothing, and neither does an acceptance that belongs to no request.
pub open spec fn got_append_reply<R>(
    n: Node<R>,
    from: NodeId,
    resp: AppendEntriesResponse,
) -> Step<R> {
    if resp.term > n.persistent.current_term {
        stepped_down(n, resp.term)
    } else if resp.term < n.persistent.current_term || n.volatile.role != Role::Leader {
        (n, Seq::empty())
    } else if !resp.success && (!is_answer(resp) || waiting(n, from).len() == 0) {
        (advanced(learned(n, from, sent_prev(n, from), 0, resp)), Seq::empty())
    } else if waiting(n, from).len() == 0 {
        (n, Seq::empty())
    } else {
        let (prev, count) = waiting(n, from)[0];
        let after = Node {
            unanswered: n.unanswered.insert(from, waiting(n, from).drop_first()),
            ..n
        };
        (advanced(learned(after, from, prev, count, resp)), Seq::empty())
    }
}

/// A message arrives.
pub open spec fn received<R>(n: Node<R>, from: NodeId, msg: Message, now: Instant) -> Step<R> {
    match msg {
        Message::Hello(_) => (n, Seq::empty()),
        Message::RequestVote(req) => asked_for_vote(n, from, req, now),
        Message::RequestVoteResponse(resp) => got_vote(n, from, resp),
        Message::AppendEntries(req) => asked_to_append(n, from, req, now),
        Message::AppendEntriesResponse(resp) => got_append_reply(n, from, resp),
    }
}

/// No counter overflows when this message is handled.
pub open spec fn receivable<R>(n: Node<R>, from: NodeId, msg: Message) -> bool {
    match msg {
        Message::RequestVoteResponse(resp) => wins(n, from, resp) ==> log::last_index(n.log)
            < u64::MAX,
        Message::AppendEntriesResponse(resp) => {
            resp.term == n.persistent.current_term && n.volatile.role == Role::Leader ==> {
                &&& resp.success && waiting(n, from).len() > 0 ==> {
                    let (prev, count) = waiting(n, from)[0];
                    prev + count < u64::MAX
                }
                &&& !resp.success ==> (resp.conflict_index matches Some(index) ==> index < u64::MAX)
            }
        },
        _ => true,
    }
}

/// No counter overflows when an election starts.
pub open spec fn electable<R>(n: Node<R>) -> bool {
    &&& n.persistent.current_term < u64::MAX
    &&& n.cluster_size <= 1 ==> log::last_index(n.log) < u64::MAX
}

/// The client waits for the entry that is appended for its command.
pub open spec fn awaiting<R>(n: Node<R>, op: Op, client: R) -> Node<R> {
    let entry = own_entry(n, op);
    Node { pending: n.pending.insert(entry.index, (entry.term, client)), ..n }
}

/// A client submits a command.
pub open spec fn commanded<R>(n: Node<R>, op: Op, client: R) -> Step<R> {
    if n.volatile.role != Role::Leader {
        (
            n,
            seq![
                Act::Respond {
                    client,
                    result: Outcome::NotLeader { leader_hint: n.known_leader },
                },
            ],
        )
    } else {
        proposed(awaiting(n, op, client), op)
    }
}

/// A client asks for a value.
pub open spec fn queried<R>(n: Node<R>, key: Seq<char>, client: R) -> Act<R> {
    Act::Reply {
        client,
        answer: if n.volatile.role != Role::Leader {
            Answer::NotLeader { leader_hint: n.known_leader }
        } else {
            Answer::Value(kv_store::lookup(n.store, key))
        },
    }
}

/// What a command in a log entry does to a store, and the value it displaces.
/// Bytes that are no command do nothing.
pub open spec fn effect(store: Map<Seq<char>, Seq<u8>>, command: Seq<u8>) -> (
    Map<Seq<char>, Seq<u8>>,
    Option<Seq<u8>>,
) {
    match kv_store::parse_command(command) {
        Some(op) => (kv_store::applied(store, op), kv_store::displaced(store, op)),
        None => (store, None),
    }
}

/// There is a committed entry that is not applied yet.
pub open spec fn unsettled<R>(n: Node<R>) -> bool {
    n.volatile.last_applied < n.volatile.commit_index && n.volatile.last_applied < n.log.len()
}

/// What a client is told when the entry at the index it waits for is applied.
/// If that entry is of another term than the client's, another leader has
/// replaced the client's own.
pub open spec fn verdict<R>(
    n: Node<R>,
    entry: Entry,
    term: Term,
    result: Option<Seq<u8>>,
) -> Outcome {
    if entry.term == term {
        Outcome::Applied(result)
    } else {
        Outcome::NotLeader { leader_hint: n.known_leader }
    }
}

/// The next committed entry is applied, and the client that waits for it is
/// answered.
pub open spec fn applied_one<R>(n: Node<R>) -> Step<R> {
    let index = (n.volatile.last_applied + 1) as u64;
    let entry = n.log[n.volatile.last_applied as int];
    let (store, result) = effect(n.store, entry.command);
    let after = Node {
        volatile: VolatileState { last_applied: index, ..n.volatile },
        store,
        pending: n.pending.remove(index),
        ..n
    };
    let answers: Seq<Act<R>> = if n.pending.contains_key(index) {
        let (term, client) = n.pending[index];
        seq![Act::Respond { client, result: verdict(n, entry, term, result) }]
    } else {
        Seq::empty()
    };
    (after, answers)
}

/// All committed entries are applied in order, as far as the log holds them.
pub open spec fn settled<R>(n: Node<R>) -> Step<R>
    decreases n.volatile.commit_index - n.volatile.last_applied,
{
    if unsettled(n) {
        let (after, answers) = applied_one(n);
        let (done, more) = settled(after);
        (done, answers + more)
    } else {
        (n, Seq::empty())
    }
}

/// Something a node has to react to.
#[derive(Debug)]
pub enum Event<R> {
    /// A message from another node arrived.
    Rpc { from: NodeId, msg: RpcMessage },
    Command(ClientCommand<R>),
    Query(ClientQuery<R>),
    /// The heartbeat interval has passed once more.
    HeartbeatDue,
    /// The election timer has run out.
    ElectionDue,
}

/// The content of an [`Event`].
pub enum Happening<R> {
    Rpc { from: NodeId, msg: Message },
    Command { op: Op, client: R },
    Query { key: Seq<char>, client: R },
    HeartbeatDue,
    ElectionDue,
}

impl<R> View for Event<R> {
    type V = Happening<R>;

    open spec fn view(&self) -> Happening<R> {
        match self {
            Event::Rpc { from, msg } => Happening::Rpc { from: *from, msg: msg@ },
            Event::Command(cmd) => Happening::Command { op: cmd.command@, client: cmd.respond_to },
            Event::Query(query) => Happening::Query { key: query.key@, client: query.respond_to },
            Event::HeartbeatDue => Happening::HeartbeatDue,
            Event::ElectionDue => Happening::ElectionDue,
        }
    }
}

/// What brings the write-ahead log of a node back in line with its log, after
/// a write has failed.
pub open spec fn repairs<R>(n: Node<R>) -> Seq<Stroke> {
    if n.faulty {
        let from_index = if n.saved < u64::MAX {
            (n.saved + 1) as u64
        } else {
            u64::MAX
        };
        seq![Stroke::Truncate { from_index }] + appended(n.log.skip(n.saved as int))
    } else {
        Seq::empty()
    }
}

/// What has to be written before the node deals with this event: the entries
/// that it will take from a leader, or append as one.
pub open spec fn needed<R>(n: Node<R>, event: Happening<R>) -> Seq<Stroke> {
    match event {
        Happening::Rpc { msg: Message::AppendEntries(req), .. } => if replication::accepts(
            n.persistent,
            n.log,
            req,
        ) {
            recorded(n.log, req)
        } else {
            Seq::empty()
        },
        Happening::Rpc { from, msg: Message::RequestVoteResponse(resp) } => if wins(n, from, resp) {
            appended(seq![own_entry(n, Op::NoOp)])
        } else {
            Seq::empty()
        },
        Happening::Command { op, .. } => if n.volatile.role == Role::Leader {
            appended(seq![own_entry(n, op)])
        } else {
            Seq::empty()
        },
        Happening::ElectionDue => if n.volatile.role != Role::Leader && n.cluster_size <= 1 {
            appended(seq![entry_in(n, (n.persistent.current_term + 1) as u64, Op::NoOp)])
        } else {
            Seq::empty()
        },
        _ => Seq::empty(),
    }
}

/// Everything that has to be written before the node deals with this event.
pub open spec fn ahead<R>(n: Node<R>, event: Happening<R>) -> Seq<Stroke> {
    repairs(n) + needed(n, event)
}

/// The node once it knows whether the writes went through. A leader that has
/// its log on disk again counts all of it.
pub open spec fn informed<R>(n: Node<R>, written: bool) -> Node<R> {
    if written {
        let m = Node { faulty: false, saved: n.log.len(), ..n };
        if n.faulty && n.volatile.role == Role::Leader {
            advanced(m)
        } else {
            m
        }
    } else {
        Node { faulty: true, ..n }
    }
}

/// The immediate reaction to an event. Only a leader sends heartbeats, and
/// only the others start elections.
pub open spec fn reacted<R>(n: Node<R>, event: Happening<R>, now: Instant) -> Step<R> {
    match event {
        Happening::Rpc { from, msg } => received(n, from, msg, now),
        Happening::Command { op, client } => commanded(n, op, client),
        Happening::Query { key, client } => (n, seq![queried(n, key, client)]),
        Happening::HeartbeatDue => if n.volatile.role == Role::Leader {
            (told(n), updates(n))
        } else {
            (n, Seq::empty())
        },
        Happening::ElectionDue => if n.volatile.role == Role::Leader {
            (n, Seq::empty())
        } else {
            campaign(n, now)
        },
    }
}

/// The whole reaction to an event: what became committed is applied at the
/// end.
pub open spec fn stepped<R>(n: Node<R>, event: Happening<R>, now: Instant) -> Step<R> {
    let (after, deeds) = reacted(n, event, now);
    let (done, answers) = settled(after);
    (done, deeds + answers)
}

/// No counter overflows in the reaction to this event.
pub open spec fn admissible<R>(n: Node<R>, event: Happening<R>) -> bool {
    match event {
        Happening::Rpc { from, msg } => receivable(n, from, msg),
        Happening::Command { .. } => n.volatile.role == Role::Leader ==> log::last_index(n.log)
            < u64::MAX,
        Happening::Query { .. } => true,
        Happening::HeartbeatDue => true,
        Happening::ElectionDue => n.volatile.role != Role::Leader ==> electable(n),
    }
}

/// A node of the cluster.
#[verifier::reject_recursive_types(R)]
pub struct Cluster<R> {
    config: NodeConfig,
    persistent: PersistentState,
    volatile: VolatileState,
    leader_state: LeaderState,
    vote_tally: Option<VoteTally>,
    log: Log,
    kv_store: KvStore,
    election_timeout: ElectionTimeoutConfig,
    known_leader: Option<NodeId>,
    peers: Vec<NodeId>,
    unanswered: HashMap<NodeId, VecDeque<(u64, u64)>>,
    pending_commands: HashMap<u64, (Term, R)>,
    faulty: bool,
    saved: u64,
}

/// The contents of the queues of a map.
spec fn queued(queues: Map<NodeId, VecDeque<(u64, u64)>>) -> Map<NodeId, Seq<(u64, u64)>> {
    queues.map_values(|queue: VecDeque<(u64, u64)>| queue@)
}

impl<R> View for Cluster<R> {
    type V = Node<R>;

    closed spec fn view(&self) -> Node<R> {
        Node {
            id: self.config.id,
            cluster_size: self.config.size(),
            peers: self.peers@,
            persistent: self.persistent,
            volatile: self.volatile,
            next_index: self.leader_state.next_index@,
            match_index: self.leader_state.match_index@,
            tally: match self.vote_tally {
                Some(tally) => Some(tally@),
                None => None,
            },
            log: self.log@,
            store: self.kv_store@,
            known_leader: self.known_leader,
            unanswered: queued(self.unanswered@),
            pending: self.pending_commands@,
            faulty: self.faulty,
            saved: self.saved as nat,
            timeouts: self.election_timeout,
        }
    }
}

/// A node that has just started.
pub open spec fn started<R>(
    config: NodeConfig,
    log: Seq<Entry>,
    store: Map<Seq<char>, Seq<u8>>,
    persistent: PersistentState,
    peers: Seq<NodeId>,
    timeouts: ElectionTimeoutConfig,
    now: Instant,
) -> Node<R> {
    Node {
        id: config.id,
        cluster_size: config.size(),
        peers,
        persistent,
        volatile: VolatileState {
            role: Role::Follower,
            commit_index: 0,
            last_applied: 0,
            last_heartbeat: now,
        },
        next_index: Map::empty(),
        match_index: Map::empty(),
        tally: None,
        log,
        store,
        known_leader: None,
        unanswered: Map::empty(),
        pending: Map::empty(),
        faulty: false,
        saved: log.len(),
        timeouts,
    }
}

/// How long a leader waits between two heartbeats, in nanoseconds.
pub open spec fn heartbeat_nanos(timeouts: ElectionTimeoutConfig) -> int {
    timeouts.min.nanos as int / 4
}

/// What the dashboard shows of a node.
pub struct Health {
    pub node_id: NodeId,
    pub role: Seq<char>,
    pub current_term: Term,
    pub commit_index: u64,
    pub last_applied: u64,
    pub log_len: u64,
    pub leader_hint: Option<NodeId>,
}

/// What the dashboard shows of a node in a given state.
pub open spec fn health<R>(n: Node<R>) -> Health {
    Health {
        node_id: n.id,
        role: role_name(n.volatile.role),
        current_term: n.persistent.current_term,
        commit_index: n.volatile.commit_index,
        last_applied: n.volatile.last_applied,
        log_len: log::last_index(n.log),
        leader_hint: n.known_leader,
    }
}

impl View for ClusterSnapshot {
    type V = Health;

    open spec fn view(&self) -> Health {
        Health {
            node_id: self.node_id,
            role: self.role@,
            current_term: self.current_term,
            commit_index: self.commit_index,
            last_applied: self.last_applied,
            log_len: self.log_len,
            leader_hint: self.leader_hint,
        }
    }
}

impl<R> Cluster<R> {
    pub closed spec fn inv(&self) -> bool {
        &&& self.config.countable()
        &&& self.kv_store.valid()
        &&& self.election_timeout.valid()
        &&& self.vote_tally matches Some(tally) ==> tally@.voters.finite()
        &&& self.peers@.no_duplicates()
        &&& self.saved <= self.log@.len()
        &&& !self.faulty ==> self.saved == self.log@.len()
    }

    /// A follower with the given store, and with the log that is on its disk.
    /// `peers` are the nodes it can send to, each named once.
    pub fn new(
        config: NodeConfig,
        log: Log,
        kv_store: KvStore,
        persistent: PersistentState,
        peers: Vec<NodeId>,
    ) -> (r: Self)
        requires
            config.countable(),
            kv_store.valid(),
            peers@.no_duplicates(),
        ensures
            r.inv(),
            r@.timeouts == election::usual_timeouts(),
            r@.timeouts.min.nanos == 150_000_000,
            r@.timeouts.max.nanos == 300_000_000,
            r@ == started::<R>(
                config,
                log@,
                kv_store@,
                persistent,
                peers@,
                r@.timeouts,
                r@.volatile.last_heartbeat,
            ),
    {
        let saved = log.size();
        let node = Cluster {
            config,
            persistent,
            volatile: VolatileState::new(),
            leader_state: LeaderState::default(),
            vote_tally: None,
            log,
            kv_store,
            election_timeout: ElectionTimeoutConfig::default(),
            known_leader: None,
            peers,
            unanswered: HashMap::new(),
            pending_commands: HashMap::new(),
            faulty: false,
            saved,
        };
        assert(node@.unanswered =~= Map::empty());
        node
    }

    /// How often a leader sends heartbeats: a quarter of the shortest election
    /// timeout, so that followers do not start needless elections.
    pub fn heartbeat_interval(&self) -> (r: Duration)
        ensures
            r.nanos == heartbeat_nanos(self@.timeouts),
            r.nanos == self@.timeouts.min.nanos as int / 4,
    {
        self.election_timeout.min.divided_by(4)
    }

    /// The send action, if there is a way to reach `peer_id`.
    fn send_to(&self, peer_id: NodeId, msg: RpcMessage, out: &mut Vec<Action<R>>)
        ensures
            acts(final(out)@) == acts(old(out)@) + sent(self@, peer_id, msg@),
    {
        if self.can_reach(peer_id) {
            push(out, Action::Send { to: peer_id, msg });
        }
        assert(acts(out@) =~= acts(old(out)@) + sent(self@, peer_id, msg@));
    }

    fn can_reach(&self, peer_id: NodeId) -> (r: bool)
        ensures
            r == self@.peers.contains(peer_id),
    {
        for i in 0..self.peers.len()
            invariant
                forall|j: int| 0 <= j < i ==> self.peers@[j] != peer_id,
        {
            if self.peers[i] == peer_id {
                assert(self.peers@[i as int] == peer_id);
                return true;
            }
        }
        false
    }

    fn reset_election_deadline_if_follower(&self, out: &mut Vec<Action<R>>)
        ensures
            acts(final(out)@) == acts(old(out)@) + timer(self@),
    {
        if self.volatile.role != Role::Leader {
            push(out, Action::ResetElectionTimer);
        }
        assert(acts(out@) =~= acts(old(out)@) + timer(self@));
    }

    fn step_down(&mut self, new_term: Term, out: &mut Vec<Action<R>>)
        requires
            old(self).inv(),
        ensures
            final(self).inv(),
            final(self)@ == stepped_down(old(self)@, new_term).0,
            acts(final(out)@) == acts(old(out)@) + stepped_down(old(self)@, new_term).1,
    {
        self.persistent.current_term = new_term;
        self.persistent.voted_for = None;
        self.volatile.role = Role::Follower;
        self.vote_tally = None;
        push(out, Action::ResetElectionTimer);
        assert(acts(out@) =~= acts(old(out)@) + stepped_down(old(self)@, new_term).1);
    }

    /// How much of its own log this leader counts.
    fn own_match(&self) -> (r: u64)
        ensures
            r == own_match(self@),
    {
        let last = self.log.last_index();
        if self.faulty && self.saved < last {
            self.saved
        } else {
            last
        }
    }

    /// Commits as much as is safe.
    fn advance_commit(&mut self)
        requires
            old(self).inv(),
        ensures
            final(self).inv(),
            final(self)@ == advanced(old(self)@),
    {
        if let Some(new_commit) = advance_commit_index(
            &self.leader_state,
            &self.log,
            self.persistent.current_term,
            self.config.cluster_size(),
            self.own_match(),
        ) {
            self.volatile.commit_index = new_commit;
        }
    }

    /// Remembers a request until it is answered.
    fn await_answer(&mut self, peer_id: NodeId, prev: u64, count: u64)
        requires
            old(self).inv(),
        ensures
            final(self).inv(),
            final(self)@ == (Node {
                unanswered: old(self)@.unanswered.insert(
                    peer_id,
                    waiting(old(self)@, peer_id).push((prev, count)),
                ),
                ..old(self)@
            }),
    {
        let mut queue: VecDeque<(u64, u64)> = match self.unanswered.remove(&peer_id) {
            Some(queue) => queue,
            None => VecDeque::new(),
        };
        assert(queue@ =~= waiting(old(self)@, peer_id));
        queue.push_back((prev, count));
        self.unanswered.insert(peer_id, queue);
        assert(self@.unanswered =~= old(self)@.unanswered.insert(
            peer_id,
            waiting(old(self)@, peer_id).push((prev, count)),
        ));
    }

    /// The oldest request a follower has not answered is answered now.
    fn take_answered(&mut self, peer_id: NodeId) -> (r: Option<(u64, u64)>)
        requires
            old(self).inv(),
        ensures
            final(self).inv(),
            match r {
                Some(oldest) => {
                    &&& waiting(old(self)@, peer_id).len() > 0
                    &&& oldest == waiting(old(self)@, peer_id)[0]
                    &&& final(self)@ == (Node {
                        unanswered: old(self)@.unanswered.insert(
                            peer_id,
                            waiting(old(self)@, peer_id).drop_first(),
                        ),
                        ..old(self)@
                    })
                },
                None => waiting(old(self)@, peer_id).len() == 0 && final(self)@ == old(self)@,
            },
    {
        let ghost n = self@;
        match self.unanswered.remove(&peer_id) {
            Some(mut queue) => {
                assert(queue@ == waiting(n, peer_id));
                let oldest = queue.pop_front();
                let ghost left = queue@;
                self.unanswered.insert(peer_id, queue);
                assert(self@.unanswered =~= n.unanswered.insert(peer_id, left));
                proof {
                    match oldest {
                        Some(_) => {
                            assert(left =~= waiting(n, peer_id).drop_first());
                        },
                        None => {
                            assert(self@.unanswered =~= n.unanswered);
                        },
                    }
                }
                oldest
            },
            None => {
                assert(self@.unanswered =~= n.unanswered);
                None
            },
        }
    }

    /// Sends every peer what it lacks, or a heartbeat if it lacks nothing.
    pub fn broadcast_append_entries(&mut self, out: &mut Vec<Action<R>>)
        requires
            old(self).inv(),
        ensures
            final(self).inv(),
            final(self)@ == told(old(self)@),
            acts(final(out)@) == acts(old(out)@) + updates(old(self)@),
    {
        let ghost before = acts(out@);
        let ghost n = self@;
        assert(updates(n).take(0) =~= Seq::<Act<R>>::empty());
        assert(acts(out@) =~= before + updates(n).take(0));
        assert(n.unanswered =~= awaited(n, n.peers.take(0)));
        let count = self.peers.len();
        for i in 0..count
            invariant
                count == n.peers.len(),
                n.peers.no_duplicates(),
                self.inv(),
                self@ == (Node { unanswered: awaited(n, n.peers.take(i as int)), ..n }),
                acts(out@) == before + updates(n).take(i as int),
        {
            let peer_id = self.peers[i];
            let next_index: u64 = match self.leader_state.next_index.get(&peer_id) {
                Some(next) => *next,
                None => 1,
            };
            let req = build_append_entries(
                &self.persistent,
                &self.log,
                self.config.id,
                next_index,
                self.volatile.commit_index,
            );
            let prev = req.prev_log_index;
            let entries = req.entries.len() as u64;
            proof {
                let seen = n.peers.take(i as int);
                assert(n.peers.take(i + 1) =~= seen.push(peer_id));
                assert(!seen.to_set().contains(peer_id));
                assert(waiting(self@, peer_id) == waiting(n, peer_id));
                assert((prev, entries) == span(request_to(n, peer_id)));
                lemma_awaited(n, seen, peer_id);
            }
            self.await_answer(peer_id, prev, entries);
            push(out, Action::Send { to: peer_id, msg: RpcMessage::AppendEntries(req) });
            proof {
                assert(updates(n).take(i + 1) =~= updates(n).take(i as int).push(
                    updates(n)[i as int],
                ));
                assert(acts(out@) =~= before + updates(n).take(i + 1));
            }
        }
        assert(updates(n).take(n.peers.len() as int) =~= updates(n));
        assert(n.peers.take(n.peers.len() as int) =~= n.peers);
    }

    /// Appends a command to this leader's own log and replicates it.
    fn propose(&mut self, command: &Command, out: &mut Vec<Action<R>>)
        requires
            old(self).inv(),
            log::last_index(old(self)@.log) < u64::MAX,
        ensures
            final(self).inv(),
            final(self)@ == proposed(old(self)@, command@).0,
            acts(final(out)@) == acts(old(out)@) + proposed(old(self)@, command@).1,
    {
        if let Ok(encoded) = command.encode() {
            let ghost n = self@;
            self.log.append(self.persistent.current_term, encoded);
            if !self.faulty {
                self.saved = self.log.size();
            }
            assert(self@ == grown(n, own_entry(n, command@)));
            self.broadcast_append_entries(out);
            // Nobody answers a leader that is alone, so what its own append
            // already commits is committed here.
            self.advance_commit();
        }
    }

    fn become_leader(&mut self, out: &mut Vec<Action<R>>)
        requires
            old(self).inv(),
            log::last_index(old(self)@.log) < u64::MAX,
        ensures
            final(self).inv(),
            final(self)@ == crowned(old(self)@).0,
            acts(final(out)@) == acts(old(out)@) + crowned(old(self)@).1,
    {
        self.volatile.role = Role::Leader;
        self.known_leader = Some(self.config.id);
        self.vote_tally = None;

        let next: u64 = self.log.last_index() + 1;
        self.leader_state = LeaderState::default();
        self.unanswered = HashMap::new();
        assert(self@.unanswered =~= Map::empty());
        assert(self.leader_state.next_index@ =~= for_all_peers(self.peers@.take(0), next));
        assert(self.leader_state.match_index@ =~= for_all_peers(self.peers@.take(0), 0));
        let ghost start = self@;
        let count = self.peers.len();
        for i in 0..count
            invariant
                count == start.peers.len(),
                self.inv(),
                self@ == (Node {
                    next_index: self@.next_index,
                    match_index: self@.match_index,
                    ..start
                }),
                self@.next_index == for_all_peers(self.peers@.take(i as int), next),
                self@.match_index == for_all_peers(self.peers@.take(i as int), 0),
        {
            let peer_id = self.peers[i];
            let ghost seen = self.peers@.take(i as int);
            proof {
                assert(self.peers@.take(i + 1) =~= seen.push(peer_id));
                lemma_for_all_peers(seen, peer_id, next);
                lemma_for_all_peers(seen, peer_id, 0);
            }
            self.leader_state.next_index.insert(peer_id, next);
            self.leader_state.match_index.insert(peer_id, 0);
        }
        assert(self.peers@.take(self.peers@.len() as int) =~= self.peers@);

        self.propose(&Command::NoOp, out);
    }

    /// Starts an election.
    pub fn begin_election(&mut self, now: Instant, out: &mut Vec<Action<R>>)
        requires
            old(self).inv(),
            electable(old(self)@),
        ensures
            final(self).inv(),
            final(self)@ == campaign(old(self)@, now).0,
            acts(final(out)@) == acts(old(out)@) + campaign(old(self)@, now).1,
    {
        let ghost before = acts(out@);
        let ghost n = self@;
        let req = start_election_at(
            &mut self.persistent,
            &mut self.volatile,
            &self.log,
            self.config.id,
            now,
        );
        self.known_leader = None;
        let tally = VoteTally::new(self.config.id, self.config.cluster_size());
        let won = tally.has_majority();
        self.vote_tally = Some(tally);
        push(out, Action::ResetElectionTimer);
        let ghost timed = acts(out@);
        assert(ballots(n).take(0) =~= Seq::<Act<R>>::empty());
        assert(acts(out@) =~= timed + ballots(n).take(0));
        for i in 0..self.peers.len()
            invariant
                self.peers@ == n.peers,
                req == election::ballot(n.persistent, n.log, n.id),
                acts(out@) == timed + ballots(n).take(i as int),
        {
            let peer_id = self.peers[i];
            push(out, Action::Send { to: peer_id, msg: RpcMessage::RequestVote(req) });
            proof {
                assert(ballots(n).take(i + 1) =~= ballots(n).take(i as int).push(
                    ballots(n)[i as int],
                ));
                assert(acts(out@) =~= timed + ballots(n).take(i + 1));
            }
        }
        let ghost calls = seq![Act::<R>::ResetElectionTimer] + ballots(n);
        assert(ballots(n).take(n.peers.len() as int) =~= ballots(n));
        assert(acts(out@) =~= before + calls);
        assert(self@ == candidate(n, now));
        if won {
            self.become_leader(out);
            assert(acts(out@) =~= before + campaign(n, now).1);
        }
    }

    fn handle_vote_request(
        &mut self,
        from: NodeId,
        req: RequestVoteRequest,
        now: Instant,
        out: &mut Vec<Action<R>>,
    )
        requires
            old(self).inv(),
        ensures
            final(self).inv(),
            final(self)@ == asked_for_vote(old(self)@, from, req, now).0,
            acts(final(out)@) == acts(old(out)@) + asked_for_vote(old(self)@, from, req, now).1,
    {
        let resp = handle_request_vote_at(
            &mut self.persistent,
            &mut self.volatile,
            &self.log,
            &req,
            now,
        );
        self.reset_election_deadline_if_follower(out);
        self.send_to(from, RpcMessage::RequestVoteResponse(resp), out);
        assert(acts(out@) =~= acts(old(out)@) + asked_for_vote(old(self)@, from, req, now).1);
    }

    fn handle_vote(
        &mut self,
        from: NodeId,
        resp: RequestVoteResponse,
        out: &mut Vec<Action<R>>,
    )
        requires
            old(self).inv(),
            wins(old(self)@, from, resp) ==> log::last_index(old(self)@.log) < u64::MAX,
        ensures
            final(self).inv(),
            final(self)@ == got_vote(old(self)@, from, resp).0,
            acts(final(out)@) == acts(old(out)@) + got_vote(old(self)@, from, resp).1,
    {
        proof {
            assert(acts(out@) + Seq::<Act<R>>::empty() =~= acts(out@));
        }
        if resp.term > self.persistent.current_term {
            self.step_down(resp.term, out);
            return;
        }
        // An answer that comes after its election is over counts for nothing.
        if resp.term < self.persistent.current_term || self.volatile.role != Role::Candidate
            || !resp.vote_granted {
            return;
        }
        let became_leader = match self.vote_tally.take() {
            Some(mut tally) => {
                tally.record_vote(from);
                let won = tally.has_majority();
                self.vote_tally = Some(tally);
                won
            },
            None => false,
        };
        if became_leader {
            self.become_leader(out);
        }
    }

    fn handle_append_request(
        &mut self,
        from: NodeId,
        req: AppendEntriesRequest,
        now: Instant,
        out: &mut Vec<Action<R>>,
    )
        requires
            old(self).inv(),
        ensures
            final(self).inv(),
            final(self)@ == asked_to_append(old(self)@, from, req@, now).0,
            acts(final(out)@) == acts(old(out)@) + asked_to_append(old(self)@, from, req@, now).1,
    {
        let ghost n = self@;
        let ghost before = acts(out@);
        let is_new_term = req.term > self.persistent.current_term;
        let shared = count_in_place(&self.log, &req);
        let resp = handle_append_entries_at(
            &mut self.persistent,
            &mut self.volatile,
            &mut self.log,
            &req,
            now,
        );
        let mut is_saved = true;
        if resp.success {
            self.known_leader = Some(req.leader_id);
            proof {
                replication::lemma_in_place(n.log, req@);
                assert(n.log.take(n.log.len() as int) =~= n.log);
            }
            let agreed = req.prev_log_index + shared as u64;
            if shared < req.entries.len() {
                if !self.faulty {
                    self.saved = self.log.size();
                } else if self.saved >= agreed {
                    self.saved = agreed;
                }
            }
            is_saved = !self.faulty || self.holds_on_disk(req.prev_log_index, req.entries.len());
        }
        if is_new_term {
            self.vote_tally = None;
        }
        assert(self@ == asked_to_append(n, from, req@, now).0);
        self.reset_election_deadline_if_follower(out);
        if is_saved {
            self.send_to(from, RpcMessage::AppendEntriesResponse(resp), out);
        }
        proof {
            assert(is_saved == !withheld(n, req@));
            assert(acts(out@) =~= before + asked_to_append(n, from, req@, now).1);
        }
    }

    /// Whether the log is on disk up to `more` entries behind `index`.
    fn holds_on_disk(&self, index: u64, more: usize) -> (r: bool)
        ensures
            r == (index + more <= self@.saved),
    {
        index <= self.saved && more as u64 <= self.saved - index
    }

    fn handle_append_reply(
        &mut self,
        from: NodeId,
        resp: AppendEntriesResponse,
        out: &mut Vec<Action<R>>,
    )
        requires
            old(self).inv(),
            receivable(old(self)@, from, Message::AppendEntriesResponse(resp)),
        ensures
            final(self).inv(),
            final(self)@ == got_append_reply(old(self)@, from, resp).0,
            acts(final(out)@) == acts(old(out)@) + got_append_reply(old(self)@, from, resp).1,
    {
        proof {
            assert(acts(out@) + Seq::<Act<R>>::empty() =~= acts(out@));
        }
        if resp.term > self.persistent.current_term {
            self.step_down(resp.term, out);
            return;
        }
        // An answer to a request of an older term counts for nothing.
        if resp.term < self.persistent.current_term || self.volatile.role != Role::Leader {
            return;
        }
        let answered = if resp.success || resp.conflict_index.is_some() {
            self.take_answered(from)
        } else {
            None
        };
        let (sent_prev_log_index, sent_entries_count): (u64, u64) = match answered {
            Some(oldest) => oldest,
            None => {
                if resp.success {
                    return;
                }
                let next_index: u64 = match self.leader_state.next_index.get(&from) {
                    Some(next) => *next,
                    None => 1,
                };
                (next_index.saturating_sub(1), 0)
            },
        };
        handle_append_entries_response(
            &mut self.leader_state,
            from,
            sent_prev_log_index,
            sent_entries_count,
            &resp,
        );
        self.advance_commit();
    }

    /// Reacts to a message from another node.
    pub fn handle_rpc(
        &mut self,
        from: NodeId,
        msg: RpcMessage,
        now: Instant,
        out: &mut Vec<Action<R>>,
    )
        requires
            old(self).inv(),
            receivable(old(self)@, from, msg@),
        ensures
            final(self).inv(),
            final(self)@ == received(old(self)@, from, msg@, now).0,
            acts(final(out)@) == acts(old(out)@) + received(old(self)@, from, msg@, now).1,
    {
        match msg {
            // Who is calling only matters when a connection opens.
            RpcMessage::Hello(_) => {
                assert(acts(out@) + Seq::<Act<R>>::empty() =~= acts(out@));
            },
            RpcMessage::RequestVote(req) => self.handle_vote_request(from, req, now, out),
            RpcMessage::RequestVoteResponse(resp) => self.handle_vote(from, resp, out),
            RpcMessage::AppendEntries(req) => self.handle_append_request(from, req, now, out),
            RpcMessage::AppendEntriesResponse(resp) => self.handle_append_reply(from, resp, out),
        }
    }

    /// Takes a write from a client. The answer comes when the command is
    /// committed and applied, or at once if this node is not the leader.
    pub fn handle_client_command(&mut self, cmd: ClientCommand<R>, out: &mut Vec<Action<R>>)
        requires
            old(self).inv(),
            admissible(
                old(self)@,
                Happening::Command { op: cmd.command@, client: cmd.respond_to },
            ),
        ensures
            final(self).inv(),
            final(self)@ == commanded(old(self)@, cmd.command@, cmd.respond_to).0,
            acts(final(out)@) == acts(old(out)@) + commanded(
                old(self)@,
                cmd.command@,
                cmd.respond_to,
            ).1,
    {
        let ClientCommand { command, respond_to } = cmd;
        if self.volatile.role != Role::Leader {
            let result = ClientCommandResult::NotLeader { leader_hint: self.known_leader };
            push(out, Action::Respond { client: respond_to, result });
            assert(acts(out@) =~= acts(old(out)@) + commanded(
                old(self)@,
                command@,
                respond_to,
            ).1);
            return;
        }
        self.pending_commands.insert(
            self.log.last_index() + 1,
            (self.persistent.current_term, respond_to),
        );
        self.propose(&command, out);
    }

    /// Answers a read from what this leader has applied; nothing is logged.
    /// Other nodes say who the leader is, as for writes.
    pub fn handle_client_query(&self, query: ClientQuery<R>, out: &mut Vec<Action<R>>)
        ensures
            acts(final(out)@) == acts(old(out)@).push(
                queried(self@, query.key@, query.respond_to),
            ),
    {
        let ClientQuery { key, respond_to } = query;
        let answer = if self.volatile.role != Role::Leader {
            QueryResult::NotLeader { leader_hint: self.known_leader }
        } else {
            match self.kv_store.get(key.as_str()) {
                Some(value) => {
                    let copy = value.clone();
                    assert(copy@ =~= value@);
                    QueryResult::Value(Some(copy))
                },
                None => QueryResult::Value(None),
            }
        };
        push(out, Action::Reply { client: respond_to, answer });
    }

    /// Applies every committed entry that is not applied yet, in order, and
    /// answers the clients that wait for them.
    pub fn apply_committed_entries(&mut self, out: &mut Vec<Action<R>>)
        requires
            old(self).inv(),
        ensures
            final(self).inv(),
            final(self)@ == settled(old(self)@).0,
            acts(final(out)@) == acts(old(out)@) + settled(old(self)@).1,
    {
        let ghost before = acts(out@);
        let ghost mut answers = Seq::<Act<R>>::empty();
        assert(acts(out@) =~= before + answers);
        assert(settled(old(self)@).1 =~= answers + settled(self@).1);
        while self.volatile.last_applied < self.volatile.commit_index && self.log.get(
            self.volatile.last_applied + 1,
        ).is_some()
            invariant
                self.inv(),
                settled(self@).0 == settled(old(self)@).0,
                settled(old(self)@).1 == answers + settled(self@).1,
                acts(out@) == before + answers,
            decreases self.volatile.commit_index - self.volatile.last_applied,
        {
            let ghost n = self@;
            let ghost (after, more) = applied_one(n);
            let ghost answered = acts(out@);
            self.apply_next(out);
            proof {
                assert(settled(n).1 == more + settled(after).1);
                assert(answers + (more + settled(after).1) =~= (answers + more) + settled(
                    after,
                ).1);
                assert(answered + more =~= before + (answers + more));
                answers = answers + more;
            }
        }
        assert(answers + Seq::<Act<R>>::empty() =~= answers);
    }

    /// Applies one committed entry.
    fn apply_next(&mut self, out: &mut Vec<Action<R>>)
        requires
            old(self).inv(),
            unsettled(old(self)@),
        ensures
            final(self).inv(),
            final(self)@ == applied_one(old(self)@).0,
            acts(final(out)@) == acts(old(out)@) + applied_one(old(self)@).1,
    {
        let next_index: u64 = self.volatile.last_applied + 1;
        let ghost n = self@;
        if let Some(entry) = self.log.get(next_index) {
            let result = match Command::decode(entry.command.as_slice()) {
                Ok(command) => self.kv_store.apply(&command),
                Err(_) => None,
            };
            self.volatile.last_applied = next_index;
            if let Some((term, client)) = self.pending_commands.remove(&next_index) {
                let result = if entry.term == term {
                    ClientCommandResult::Applied(result)
                } else {
                    ClientCommandResult::NotLeader { leader_hint: self.known_leader }
                };
                push(out, Action::Respond { client, result });
            }
            proof {
                assert(n.pending.remove(next_index) =~= self@.pending);
                assert(acts(out@) =~= acts(old(out)@) + applied_one(n).1);
            }
        }
    }

    /// What has to be written to disk before this node deals with an event. If
    /// it cannot be written, [`Cluster::step`] has to be told.
    pub fn writes_ahead(&self, event: &Event<R>) -> (r: Vec<WalWrite>)
        requires
            self.inv(),
            admissible(self@, event@),
        ensures
            strokes(r@) == ahead(self@, event@),
    {
        let mut writes: Vec<WalWrite> = Vec::new();
        assert(strokes(writes@) =~= Seq::<Stroke>::empty());
        if self.faulty {
            let from_index = self.saved.saturating_add(1);
            write(&mut writes, WalWrite::Truncate { from_index });
            assert(strokes(writes@) =~= seq![Stroke::Truncate { from_index }]);
            write_entries(&mut writes, &self.log.from_position(self.saved), 0);
            proof {
                let left = self.log@.skip(self.saved as int);
                assert(left.skip(0) =~= left);
            }
        }
        assert(strokes(writes@) =~= repairs(self@));
        match event {
            Event::Rpc { from, msg } => match msg {
                RpcMessage::AppendEntries(req) => self.record_entries(req, &mut writes),
                RpcMessage::RequestVoteResponse(resp) => if self.wins_with(*from, resp) {
                    self.write_own(self.persistent.current_term, &Command::NoOp, &mut writes);
                },
                _ => {},
            },
            Event::Command(cmd) => if self.volatile.role == Role::Leader {
                self.write_own(self.persistent.current_term, &cmd.command, &mut writes);
            },
            Event::ElectionDue => if self.volatile.role != Role::Leader
                && self.config.cluster_size() <= 1 {
                self.write_own(self.persistent.current_term + 1, &Command::NoOp, &mut writes);
            },
            _ => {},
        }
        assert(strokes(writes@) =~= ahead(self@, event@));
        writes
    }

    /// The entry that this node appends as a leader goes to disk.
    fn write_own(&self, term: Term, command: &Command, writes: &mut Vec<WalWrite>)
        requires
            log::last_index(self@.log) < u64::MAX,
        ensures
            strokes(final(writes)@) == strokes(old(writes)@) + appended(
                seq![entry_in(self@, term, command@)],
            ),
    {
        if let Ok(encoded) = command.encode() {
            let index: u64 = self.log.last_index() + 1;
            write(writes, WalWrite::Append(LogEntry { term, index, command: encoded }));
            assert(strokes(writes@) =~= strokes(old(writes)@) + appended(
                seq![entry_in(self@, term, command@)],
            ));
        }
    }

    /// The entries that a follower takes from a leader go to disk.
    fn record_entries(&self, req: &AppendEntriesRequest, writes: &mut Vec<WalWrite>)
        ensures
            strokes(final(writes)@) == strokes(old(writes)@) + (if replication::accepts(
                self@.persistent,
                self@.log,
                req@,
            ) {
                recorded(self@.log, req@)
            } else {
                Seq::empty()
            }),
    {
        let ghost before = strokes(writes@);
        if req.term < self.persistent.current_term || !self.log.matches(
            req.prev_log_index,
            req.prev_log_term,
        ) {
            assert(before + Seq::<Stroke>::empty() =~= before);
            return;
        }
        let shared = count_in_place(&self.log, req);
        proof {
            replication::lemma_in_place(self@.log, req@);
        }
        if shared < req.entries.len() && self.log.extends_past_by(req.prev_log_index, shared) {
            let from_index: u64 = req.prev_log_index + shared as u64 + 1;
            write(writes, WalWrite::Truncate { from_index });
        }
        write_entries(writes, &req.entries, shared);
        assert(strokes(writes@) =~= before + recorded(self@.log, req@));
    }

    /// Takes note of whether the writes went through.
    fn inform(&mut self, written: bool)
        requires
            old(self).inv(),
        ensures
            final(self).inv(),
            final(self)@ == informed(old(self)@, written),
    {
        if written {
            let was_faulty = self.faulty;
            self.faulty = false;
            self.saved = self.log.size();
            if was_faulty && self.volatile.role == Role::Leader {
                self.advance_commit();
            }
        } else {
            self.faulty = true;
        }
    }

    /// Reacts to an event and says what has to be done. `written` is whether
    /// everything that [`Cluster::writes_ahead`] asked for is on disk. What is
    /// not on disk is neither acknowledged nor counted.
    pub fn step(&mut self, event: Event<R>, now: Instant, written: bool) -> (out: Vec<Action<R>>)
        requires
            old(self).inv(),
            admissible(old(self)@, event@),
        ensures
            final(self).inv(),
            final(self)@ == stepped(informed(old(self)@, written), event@, now).0,
            acts(out@) == stepped(informed(old(self)@, written), event@, now).1,
    {
        let mut out: Vec<Action<R>> = Vec::new();
        assert(acts(out@) =~= Seq::<Act<R>>::empty());
        self.inform(written);
        let ghost n = self@;
        match event {
            Event::Rpc { from, msg } => self.handle_rpc(from, msg, now, &mut out),
            Event::Command(cmd) => self.handle_client_command(cmd, &mut out),
            Event::Query(query) => self.handle_client_query(query, &mut out),
            Event::HeartbeatDue => if self.volatile.role == Role::Leader {
                self.broadcast_append_entries(&mut out);
            },
            Event::ElectionDue => if self.volatile.role != Role::Leader {
                self.begin_election(now, &mut out);
            },
        }
        assert(acts(out@) =~= reacted(n, event@, now).1);
        self.apply_committed_entries(&mut out);
        out
    }

    /// Whether an event can be handled without a counter running over.
    pub fn admits(&self, event: &Event<R>) -> (r: bool)
        requires
            self.inv(),
        ensures
            r == admissible(self@, event@),
    {
        let can_append = self.log.last_index() < u64::MAX;
        match event {
            Event::Rpc { from, msg } => match msg {
                RpcMessage::RequestVoteResponse(resp) => can_append || !self.wins_with(*from, resp),
                RpcMessage::AppendEntriesResponse(resp) => self.can_take_reply(*from, resp),
                _ => true,
            },
            Event::Command(_) => self.volatile.role != Role::Leader || can_append,
            Event::Query(_) => true,
            Event::HeartbeatDue => true,
            Event::ElectionDue => self.volatile.role == Role::Leader || (
            self.persistent.current_term < u64::MAX && (self.config.cluster_size() > 1
                || can_append)),
        }
    }

    fn wins_with(&self, from: NodeId, resp: &RequestVoteResponse) -> (r: bool)
        requires
            self.inv(),
        ensures
            r == wins(self@, from, *resp),
    {
        resp.term == self.persistent.current_term && self.volatile.role == Role::Candidate
            && resp.vote_granted && match &self.vote_tally {
            Some(tally) => tally.has_majority_with(from),
            None => false,
        }
    }

    fn can_take_reply(&self, from: NodeId, resp: &AppendEntriesResponse) -> (r: bool)
        ensures
            r == receivable(self@, from, Message::AppendEntriesResponse(*resp)),
    {
        if resp.term != self.persistent.current_term || self.volatile.role != Role::Leader {
            return true;
        }
        if !resp.success {
            return match resp.conflict_index {
                Some(index) => index < u64::MAX,
                None => true,
            };
        }
        match self.unanswered.get(&from) {
            Some(queue) => {
                assert(queue@ == waiting(self@, from));
                if queue.len() == 0 {
                    return true;
                }
                let (prev, count) = queue[0];
                prev < u64::MAX && count < u64::MAX - prev
            },
            None => true,
        }
    }

    pub fn role(&self) -> (r: Role)
        ensures
            r == self@.volatile.role,
    {
        self.volatile.role
    }

    /// How long to wait from now on before starting an election.
    pub fn election_timeout(&self) -> (r: Duration)
        requires
            self.inv(),
        ensures
            self@.timeouts.admits(r),
    {
        self.election_timeout.random_timeout()
    }

    /// What the dashboard shows of this node.
    pub fn snapshot(&self) -> (r: ClusterSnapshot)
        ensures
            r@ == health(self@),
            r.node_id == self@.id,
            r.role@ == role_name(self@.volatile.role),
            r.current_term == self@.persistent.current_term,
            r.commit_index == self@.volatile.commit_index,
            r.last_applied == self@.volatile.last_applied,
            r.log_len == log::last_index(self@.log),
            r.leader_hint == self@.known_leader,
    {
        ClusterSnapshot {
            node_id: self.config.id,
            role: name_of(self.volatile.role),
            current_term: self.persistent.current_term,
            commit_index: self.volatile.commit_index,
            last_applied: self.volatile.last_applied,
            log_len: self.log.last_index(),
            leader_hint: self.known_leader,
        }
    }
}

proof fn lemma_for_all_peers(peers: Seq<NodeId>, peer: NodeId, value: u64)
    ensures
        for_all_peers(peers.push(peer), value) == for_all_peers(peers, value).insert(peer, value),
{
    peers.lemma_push_to_set_commute(peer);
    assert(for_all_peers(peers.push(peer), value) =~= for_all_peers(peers, value).insert(
        peer,
        value,
    ));
}

proof fn lemma_awaited<R>(n: Node<R>, peers: Seq<NodeId>, peer: NodeId)
    ensures
        awaited(n, peers.push(peer)) == awaited(n, peers).insert(
            peer,
            waiting(n, peer).push(span(request_to(n, peer))),
        ),
{
    peers.lemma_push_to_set_commute(peer);
    assert(awaited(n, peers.push(peer)) =~= awaited(n, peers).insert(
        peer,
        waiting(n, peer).push(span(request_to(n, peer))),
    ));
}

/// Adds a write.
fn write(writes: &mut Vec<WalWrite>, one: WalWrite)
    ensures
        strokes(final(writes)@) == strokes(old(writes)@).push(one@),
{
    writes.push(one);
    assert(strokes(writes@) =~= strokes(old(writes)@).push(one@));
}

/// Appends entries from position `start` on.
fn write_entries(writes: &mut Vec<WalWrite>, entries: &Vec<LogEntry>, start: usize)
    requires
        start <= entries.len(),
    ensures
        strokes(final(writes)@) == strokes(old(writes)@) + appended(
            log::contents(entries@).skip(start as int),
        ),
{
    let ghost before = strokes(writes@);
    let ghost new = log::contents(entries@).skip(start as int);
    let ghost all = appended(new);
    assert(before + all.take(0) =~= before);
    for i in start..entries.len()
        invariant
            new == log::contents(entries@).skip(start as int),
            all == appended(new),
            strokes(writes@) == before + all.take(i - start),
    {
        write(writes, WalWrite::Append(entries[i].clone()));
        proof {
            let at = i - start;
            assert(all.take(at + 1) =~= all.take(at).push(all[at]));
            assert(strokes(writes@) =~= before + all.take(at + 1));
        }
    }
    assert(all.take(all.len() as int) =~= all);
}

/// Adds an action.
fn push<R>(out: &mut Vec<Action<R>>, action: Action<R>)
    ensures
        acts(final(out)@) == acts(old(out)@).push(action@),
{
    out.push(action);
    assert(acts(out@) =~= acts(old(out)@).push(action@));
}

} // verus!
