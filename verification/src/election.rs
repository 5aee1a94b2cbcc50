//! Leader election.
use rand::Rng;
use std::collections::HashSet;
use std::time::Instant;
use vstd::prelude::*;

use crate::clock::{now, Duration};
use crate::log::{self, Entry, Log};
use crate::messages::{RequestVoteRequest, RequestVoteResponse};
use crate::state::{NodeId, PersistentState, Role, VolatileState};

verus! {

/// The range election timeouts are drawn from. They are randomized so that,
/// when a leader dies, its followers do not all become candidates at the same
/// instant and split the vote forever.
#[derive(Debug, Clone, Copy)]
pub struct ElectionTimeoutConfig {
    pub min: Duration,
    pub max: Duration,
}

/// The usual range of election timeouts.
pub open spec fn usual_timeouts() -> ElectionTimeoutConfig {
    ElectionTimeoutConfig {
        min: Duration { nanos: 150_000_000 },
        max: Duration { nanos: 300_000_000 },
    }
}

impl Default for ElectionTimeoutConfig {
    fn default() -> (r: Self)
        ensures
            r == usual_timeouts(),
            r.min.nanos == 150_000_000,
            r.max.nanos == 300_000_000,
    {
        ElectionTimeoutConfig { min: Duration::from_millis(150), max: Duration::from_millis(300) }
    }
}

/// Whole milliseconds of a span, reduced to 64 bits.
pub open spec fn whole_millis(d: Duration) -> u64 {
    (d.nanos as int / 1_000_000) as u64
}

impl ElectionTimeoutConfig {
    /// The bounds, in whole milliseconds, form a range that is not empty.
    pub open spec fn valid(self) -> bool {
        whole_millis(self.min) <= whole_millis(self.max)
    }

    /// `timeout` is a whole number of milliseconds within the bounds.
    pub open spec fn admits(self, timeout: Duration) -> bool {
        exists|millis: u64|
            whole_millis(self.min) <= millis <= whole_millis(self.max) && timeout.nanos
                == #[trigger] (millis * 1_000_000)
    }

    /// A fresh random timeout.
    pub fn random_timeout(&self) -> (r: Duration)
        requires
            self.valid(),
        ensures
            self.admits(r),
    {
        let min_ms = self.min.as_millis() as u64;
        let max_ms = self.max.as_millis() as u64;
        let ms = random_between(min_ms, max_ms);
        assert(ms * 1_000_000 == ms * 1_000_000);
        Duration::from_millis(ms)
    }
}

/// `rand::Rng::gen_range` over `low..=high` on the thread's own generator.
/// What comes back lies within the bounds, both included; which value it is
/// depends on chance.
#[verifier::external_body]
fn random_between(low: u64, high: u64) -> (r: u64)
    requires
        low <= high,
    ensures
        low <= r <= high,
{
    rand::thread_rng().gen_range(low..=high)
}

/// The votes a candidate has collected.
#[derive(Debug)]
pub struct VoteTally {
    votes_received: HashSet<NodeId>,
    cluster_size: usize,
}

/// The content of a [`VoteTally`].
pub struct Tally {
    pub voters: Set<NodeId>,
    pub cluster_size: usize,
}

impl Tally {
    /// A strict majority of the cluster has voted, the candidate included.
    pub open spec fn won(self) -> bool {
        self.voters.len() > self.cluster_size as int / 2
    }
}

impl View for VoteTally {
    type V = Tally;

    closed spec fn view(&self) -> Tally {
        Tally { voters: self.votes_received@, cluster_size: self.cluster_size }
    }
}

impl Default for VoteTally {
    fn default() -> (r: Self)
        ensures
            r@ == (Tally { voters: Set::empty(), cluster_size: 0 }),
    {
        VoteTally { votes_received: HashSet::new(), cluster_size: 0 }
    }
}

impl VoteTally {
    /// A candidate starts with its own vote.
    pub fn new(self_id: NodeId, cluster_size: usize) -> (r: Self)
        ensures
            r@ == (Tally { voters: Set::empty().insert(self_id), cluster_size }),
    {
        let mut votes_received: HashSet<NodeId> = HashSet::new();
        votes_received.insert(self_id);
        VoteTally { votes_received, cluster_size }
    }

    pub fn record_vote(&mut self, voter: NodeId)
        ensures
            final(self)@ == (Tally { voters: old(self)@.voters.insert(voter), ..old(self)@ }),
    {
        self.votes_received.insert(voter);
    }

    pub fn has_majority(&self) -> (r: bool)
        ensures
            r == self@.won(),
    {
        self.votes_received.len() > self.cluster_size / 2
    }

    /// Whether the vote of `voter` makes or keeps a majority.
    pub(crate) fn has_majority_with(&self, voter: NodeId) -> (r: bool)
        requires
            self@.voters.finite(),
        ensures
            r == (Tally { voters: self@.voters.insert(voter), ..self@ }).won(),
    {
        if self.votes_received.contains(&voter) {
            assert(self@.voters.insert(voter) =~= self@.voters);
            self.has_majority()
        } else {
            self.votes_received.len() >= self.cluster_size / 2
        }
    }
}

/// The persistent state of a node that starts an election.
pub open spec fn candidacy(p: PersistentState, self_id: NodeId) -> PersistentState {
    PersistentState { current_term: (p.current_term + 1) as u64, voted_for: Some(self_id) }
}

/// The volatile state of a node that starts an election at `now`.
pub open spec fn campaigning(v: VolatileState, now: Instant) -> VolatileState {
    VolatileState { role: Role::Candidate, last_heartbeat: now, ..v }
}

/// The request a candidate broadcasts.
pub open spec fn ballot(p: PersistentState, log: Seq<Entry>, self_id: NodeId) -> RequestVoteRequest {
    RequestVoteRequest {
        term: candidacy(p, self_id).current_term,
        candidate_id: self_id,
        last_log_index: log::last_index(log),
        last_log_term: log::last_term(log),
    }
}

/// Enters a new election round: next term, a vote for itself, and the request
/// to broadcast. Sending it and resetting the election timer is up to the
/// caller.
pub fn start_election(
    persistent: &mut PersistentState,
    volatile: &mut VolatileState,
    log: &Log,
    self_id: NodeId,
) -> (r: RequestVoteRequest)
    requires
        old(persistent).current_term < u64::MAX,
    ensures
        *final(persistent) == candidacy(*old(persistent), self_id),
        exists|now: Instant| *final(volatile) == #[trigger] campaigning(*old(volatile), now),
        r == ballot(*old(persistent), log@, self_id),
{
    start_election_at(persistent, volatile, log, self_id, now())
}

/// [`start_election`] at a given point in time.
pub fn start_election_at(
    persistent: &mut PersistentState,
    volatile: &mut VolatileState,
    log: &Log,
    self_id: NodeId,
    now: Instant,
) -> (r: RequestVoteRequest)
    requires
        old(persistent).current_term < u64::MAX,
    ensures
        *final(persistent) == candidacy(*old(persistent), self_id),
        *final(volatile) == campaigning(*old(volatile), now),
        r == ballot(*old(persistent), log@, self_id),
{
    persistent.current_term = persistent.current_term + 1;
    persistent.voted_for = Some(self_id);
    volatile.role = Role::Candidate;
    volatile.last_heartbeat = now;
    RequestVoteRequest {
        term: persistent.current_term,
        candidate_id: self_id,
        last_log_index: log.last_index(),
        last_log_term: log.last_term(),
    }
}

/// The candidate's log is at least as up-to-date as `log`: last terms are
/// compared first, then last indices.
pub open spec fn up_to_date(req: RequestVoteRequest, log: Seq<Entry>) -> bool {
    req.last_log_term > log::last_term(log) || (req.last_log_term == log::last_term(log)
        && req.last_log_index >= log::last_index(log))
}

/// A vote is granted to a candidate of a term that is not stale, whose log is
/// up to date, by a node that has not voted for anyone else in that term.
pub open spec fn grants(p: PersistentState, log: Seq<Entry>, req: RequestVoteRequest) -> bool {
    &&& up_to_date(req, log)
    &&& {
        ||| req.term > p.current_term
        ||| req.term == p.current_term && (p.voted_for is None || p.voted_for == Some(req.candidate_id))
    }
}

/// The persistent state after a vote request.
pub open spec fn after_vote(
    p: PersistentState,
    log: Seq<Entry>,
    req: RequestVoteRequest,
) -> PersistentState {
    PersistentState {
        current_term: if req.term > p.current_term {
            req.term
        } else {
            p.current_term
        },
        voted_for: if grants(p, log, req) {
            Some(req.candidate_id)
        } else if req.term > p.current_term {
            None
        } else {
            p.voted_for
        },
    }
}

/// The volatile state after a vote request that was handled at `now`: a newer
/// term makes any node a follower, and granting a vote counts as contact.
pub open spec fn after_vote_at(
    p: PersistentState,
    v: VolatileState,
    log: Seq<Entry>,
    req: RequestVoteRequest,
    now: Instant,
) -> VolatileState {
    VolatileState {
        role: if req.term > p.current_term {
            Role::Follower
        } else {
            v.role
        },
        last_heartbeat: if grants(p, log, req) {
            now
        } else {
            v.last_heartbeat
        },
        ..v
    }
}

/// The answer to a vote request.
pub open spec fn vote_reply(
    p: PersistentState,
    log: Seq<Entry>,
    req: RequestVoteRequest,
) -> RequestVoteResponse {
    RequestVoteResponse {
        term: after_vote(p, log, req).current_term,
        vote_granted: grants(p, log, req),
    }
}

/// Answers a vote request.
pub fn handle_request_vote(
    persistent: &mut PersistentState,
    volatile: &mut VolatileState,
    log: &Log,
    req: &RequestVoteRequest,
) -> (r: RequestVoteResponse)
    ensures
        *final(persistent) == after_vote(*old(persistent), log@, *req),
        exists|now: Instant|
            *final(volatile) == #[trigger] after_vote_at(
                *old(persistent),
                *old(volatile),
                log@,
                *req,
                now,
            ),
        r == vote_reply(*old(persistent), log@, *req),
{
    handle_request_vote_at(persistent, volatile, log, req, now())
}

/// [`handle_request_vote`] at a given point in time.
pub fn handle_request_vote_at(
    persistent: &mut PersistentState,
    volatile: &mut VolatileState,
    log: &Log,
    req: &RequestVoteRequest,
    now: Instant,
) -> (r: RequestVoteResponse)
    ensures
        *final(persistent) == after_vote(*old(persistent), log@, *req),
        *final(volatile) == after_vote_at(*old(persistent), *old(volatile), log@, *req, now),
        r == vote_reply(*old(persistent), log@, *req),
{
    // A stale candidate is told the newer term so that it can step down.
    if req.term < persistent.current_term {
        return RequestVoteResponse { term: persistent.current_term, vote_granted: false };
    }
    // A newer term ends whatever this node was doing in the old one.
    if req.term > persistent.current_term {
        persistent.current_term = req.term;
        persistent.voted_for = None;
        volatile.role = Role::Follower;
    }
    let voted_for_other = match persistent.voted_for {
        Some(voted) => voted != req.candidate_id,
        None => false,
    };
    let candidate_up_to_date = req.last_log_term > log.last_term() || (req.last_log_term
        == log.last_term() && req.last_log_index >= log.last_index());

    if !voted_for_other && candidate_up_to_date {
        persistent.voted_for = Some(req.candidate_id);
        volatile.last_heartbeat = now;
        RequestVoteResponse { term: persistent.current_term, vote_granted: true }
    } else {
        RequestVoteResponse { term: persistent.current_term, vote_granted: false }
    }
}

/// From `before` to `after` the term does not go back, and a vote cast in a
/// term stays as it was cast for as long as that term lasts.
pub open spec fn keeps_votes(before: PersistentState, after: PersistentState) -> bool {
    ||| after.current_term > before.current_term
    ||| after.current_term == before.current_term && (before.voted_for is Some ==> after.voted_for
        == before.voted_for)
}

/// Keeping votes over two spans keeps them over both together.
pub proof fn keeping_votes_is_transitive(
    a: PersistentState,
    b: PersistentState,
    c: PersistentState,
)
    requires
        keeps_votes(a, b),
        keeps_votes(b, c),
    ensures
        keeps_votes(a, c),
{
}

/// Neither answering a vote request nor starting an election takes back a
/// vote.
pub proof fn elections_keep_votes(
    p: PersistentState,
    log: Seq<Entry>,
    req: RequestVoteRequest,
    self_id: NodeId,
)
    ensures
        keeps_votes(p, after_vote(p, log, req)),
        p.current_term < u64::MAX ==> keeps_votes(p, candidacy(p, self_id)),
{
}

/// A node grants at most one candidate its vote in a term: whatever happened
/// in between, as long as it kept its votes, a second grant in the same term
/// goes to the same candidate.
pub proof fn one_vote_per_term(
    p: PersistentState,
    log1: Seq<Entry>,
    first: RequestVoteRequest,
    q: PersistentState,
    log2: Seq<Entry>,
    second: RequestVoteRequest,
)
    requires
        vote_reply(p, log1, first).vote_granted,
        keeps_votes(after_vote(p, log1, first), q),
        vote_reply(q, log2, second).vote_granted,
        first.term == second.term,
    ensures
        first.candidate_id == second.candidate_id,
{
}

/// A candidate whose log lacks entries at the end of the voter's log never
/// gets the vote.
pub proof fn lagging_candidates_lose(
    p: PersistentState,
    log: Seq<Entry>,
    req: RequestVoteRequest,
)
    requires
        req.last_log_term < log::last_term(log) || (req.last_log_term == log::last_term(log)
            && req.last_log_index < log::last_index(log)),
    ensures
        !vote_reply(p, log, req).vote_granted,
{
}

/// Two majorities of one cluster have a member in common.
pub proof fn majorities_overlap(a: Tally, b: Tally, members: Set<NodeId>)
    requires
        members.finite(),
        a.voters.subset_of(members),
        b.voters.subset_of(members),
        a.cluster_size == members.len(),
        b.cluster_size == members.len(),
        a.won(),
        b.won(),
    ensures
        exists|voter: NodeId| a.voters.contains(voter) && b.voters.contains(voter),
{
    if forall|voter: NodeId| !(a.voters.contains(voter) && b.voters.contains(voter)) {
        vstd::set_lib::lemma_len_subset(a.voters, members);
        vstd::set_lib::lemma_len_subset(b.voters, members);
        assert(a.voters.disjoint(b.voters));
        vstd::set_lib::lemma_set_disjoint_lens(a.voters, b.voters);
        vstd::set_lib::lemma_len_subset(a.voters + b.voters, members);
    }
}

/// Two candidates of one term that both win are the same candidate, when
/// every voter counted in a tally did cast its one vote of that term,
/// `choice`, for the candidate that counted it.
pub proof fn one_winner_per_term(
    members: Set<NodeId>,
    choice: spec_fn(NodeId) -> NodeId,
    candidate1: NodeId,
    tally1: Tally,
    candidate2: NodeId,
    tally2: Tally,
)
    requires
        members.finite(),
        tally1.voters.subset_of(members),
        tally2.voters.subset_of(members),
        tally1.cluster_size == members.len(),
        tally2.cluster_size == members.len(),
        tally1.won(),
        tally2.won(),
        forall|voter: NodeId| #[trigger] tally1.voters.contains(voter) ==> choice(voter) == candidate1,
        forall|voter: NodeId| #[trigger] tally2.voters.contains(voter) ==> choice(voter) == candidate2,
    ensures
        candidate1 == candidate2,
{
    majorities_overlap(tally1, tally2, members);
}

/// Votes are given, not only withheld: a node that is asked in a newer term, by
/// a candidate whose log ends in a newer term or in the same term and no
/// earlier, votes for that candidate, follows the newer term and waits for it.
/// A node without entries has no reason to refuse anyone.
pub proof fn candidates_of_a_newer_term_get_the_vote(
    p: PersistentState,
    v: VolatileState,
    log: Seq<Entry>,
    req: RequestVoteRequest,
    now: Instant,
)
    requires
        req.term > p.current_term,
        log.len() > 0 ==> (req.last_log_term > log.last().term || (req.last_log_term
            == log.last().term && req.last_log_index >= log.last().index)),
    ensures
        vote_reply(p, log, req) == (RequestVoteResponse { term: req.term, vote_granted: true }),
        after_vote(p, log, req) == (PersistentState {
            current_term: req.term,
            voted_for: Some(req.candidate_id),
        }),
        after_vote_at(p, v, log, req, now) == (VolatileState {
            role: Role::Follower,
            last_heartbeat: now,
            commit_index: v.commit_index,
            last_applied: v.last_applied,
        }),
{
}

/// In its own term a node gives a vote it has not given yet, and gives it again
/// to whom it was given. Its role stays, and it waits anew.
pub proof fn free_votes_are_given(
    p: PersistentState,
    v: VolatileState,
    log: Seq<Entry>,
    req: RequestVoteRequest,
    now: Instant,
)
    requires
        req.term == p.current_term,
        p.voted_for is None || p.voted_for == Some(req.candidate_id),
        log.len() > 0 ==> (req.last_log_term > log.last().term || (req.last_log_term
            == log.last().term && req.last_log_index >= log.last().index)),
    ensures
        vote_reply(p, log, req) == (RequestVoteResponse { term: req.term, vote_granted: true }),
        after_vote(p, log, req) == (PersistentState {
            current_term: p.current_term,
            voted_for: Some(req.candidate_id),
        }),
        after_vote_at(p, v, log, req, now) == (VolatileState { last_heartbeat: now, ..v }),
{
}

/// A vote is given once: whoever else asks in that term is refused, and so is
/// whoever asks in an older one. Nothing changes, and the reply names the
/// voter's term.
pub proof fn late_candidates_are_refused(
    p: PersistentState,
    v: VolatileState,
    log: Seq<Entry>,
    req: RequestVoteRequest,
    now: Instant,
)
    requires
        req.term < p.current_term || (req.term == p.current_term && p.voted_for is Some
            && p.voted_for != Some(req.candidate_id)),
    ensures
        vote_reply(p, log, req) == (RequestVoteResponse {
            term: p.current_term,
            vote_granted: false,
        }),
        after_vote(p, log, req) == p,
        after_vote_at(p, v, log, req, now) == v,
{
}

/// A candidate that lacks the voter's last entry is refused, but a newer term
/// of its own is adopted all the same, with the vote still to give.
pub proof fn lagging_candidates_still_raise_the_term(
    p: PersistentState,
    v: VolatileState,
    log: Seq<Entry>,
    req: RequestVoteRequest,
    now: Instant,
)
    requires
        log.len() > 0,
        req.last_log_term < log.last().term || (req.last_log_term == log.last().term
            && req.last_log_index < log.last().index),
    ensures
        !vote_reply(p, log, req).vote_granted,
        req.term > p.current_term ==> {
            &&& vote_reply(p, log, req).term == req.term
            &&& after_vote(p, log, req) == (PersistentState {
                current_term: req.term,
                voted_for: None,
            })
            &&& after_vote_at(p, v, log, req, now) == (VolatileState { role: Role::Follower, ..v })
        },
        req.term <= p.current_term ==> {
            &&& vote_reply(p, log, req).term == p.current_term
            &&& after_vote(p, log, req) == p
            &&& after_vote_at(p, v, log, req, now) == v
        },
{
}

/// Asking twice makes no difference: the second answer is the first, and the
/// vote stays.
pub proof fn repeated_requests_get_the_same_answer(
    p: PersistentState,
    log: Seq<Entry>,
    req: RequestVoteRequest,
)
    ensures
        ({
            let after = after_vote(p, log, req);
            &&& vote_reply(after, log, req) == vote_reply(p, log, req)
            &&& after_vote(after, log, req) == after
        }),
{
}

/// A candidate stands in the next term, has its own vote and asks for others by
/// the end of its log. What it had committed and applied stays.
pub proof fn candidates_stand_by_their_log(
    p: PersistentState,
    v: VolatileState,
    log: Seq<Entry>,
    last: Entry,
    self_id: NodeId,
    now: Instant,
)
    requires
        p.current_term < u64::MAX,
    ensures
        candidacy(p, self_id).current_term == p.current_term + 1,
        candidacy(p, self_id).voted_for == Some(self_id),
        campaigning(v, now).role == Role::Candidate,
        campaigning(v, now).last_heartbeat == now,
        campaigning(v, now).commit_index == v.commit_index,
        campaigning(v, now).last_applied == v.last_applied,
        ({
            let req = ballot(p, log.push(last), self_id);
            &&& req.term == p.current_term + 1
            &&& req.candidate_id == self_id
            &&& req.last_log_term == last.term
            &&& req.last_log_index == last.index
        }),
        ballot(p, Seq::empty(), self_id).last_log_index == 0,
        ballot(p, Seq::empty(), self_id).last_log_term == 0,
        ballot(p, Seq::empty(), self_id).term == p.current_term + 1,
        ballot(p, Seq::empty(), self_id).candidate_id == self_id,
{
}

/// A candidate gets the vote of every node that is not ahead of it: one whose
/// term is not newer and whose log is the candidate's or the beginning of it,
/// as long as terms and indices do not fall along the candidate's log.
pub proof fn candidates_win_over_nodes_they_are_ahead_of(
    p: PersistentState,
    log: Seq<Entry>,
    self_id: NodeId,
    voter: PersistentState,
    shared: int,
)
    requires
        voter.current_term <= p.current_term < u64::MAX,
        0 <= shared <= log.len(),
        forall|i: int, j: int|
            0 <= i <= j < log.len() ==> (#[trigger] log[i]).term <= (#[trigger] log[j]).term
                && log[i].index <= log[j].index,
    ensures
        vote_reply(voter, log.take(shared), ballot(p, log, self_id)).vote_granted,
{
    if shared > 0 {
        assert(log.take(shared).last() == log[shared - 1]);
        assert(log.last() == log[log.len() - 1]);
    }
}

/// Of two candidates in newer terms each voter can tell who is ahead: a node
/// with the log of one of them gives its vote to the other or would get the
/// other's vote.
pub proof fn of_two_logs_one_is_ahead(
    a: PersistentState,
    a_log: Seq<Entry>,
    a_id: NodeId,
    b: PersistentState,
    b_log: Seq<Entry>,
    b_id: NodeId,
)
    requires
        a.current_term == b.current_term,
        a.current_term < u64::MAX,
    ensures
        vote_reply(a, a_log, ballot(b, b_log, b_id)).vote_granted || vote_reply(
            b,
            b_log,
            ballot(a, a_log, a_id),
        ).vote_granted,
{
}

/// More than half of the cluster is a majority, and half of it or less is none.
pub proof fn majorities_are_more_than_half(tally: Tally)
    ensures
        2 * tally.voters.len() > tally.cluster_size ==> tally.won(),
        2 * tally.voters.len() <= tally.cluster_size ==> !tally.won(),
{
}

/// A timeout is a whole number of milliseconds between the bounds, and every
/// such number is possible.
pub proof fn timeouts_lie_between_the_bounds(timeouts: ElectionTimeoutConfig, timeout: Duration)
    requires
        timeouts.min.nanos as int / 1_000_000 <= u64::MAX,
        timeouts.max.nanos as int / 1_000_000 <= u64::MAX,
    ensures
        timeouts.admits(timeout) ==> {
            &&& timeout.nanos as int % 1_000_000 == 0
            &&& timeouts.min.nanos as int / 1_000_000 <= timeout.nanos as int / 1_000_000
            &&& timeout.nanos <= timeouts.max.nanos
        },
        timeout.nanos as int % 1_000_000 == 0 && timeouts.min.nanos <= timeout.nanos
            <= timeouts.max.nanos ==> timeouts.admits(timeout),
        timeouts.min.nanos <= timeouts.max.nanos ==> timeouts.valid(),
{
    if timeouts.admits(timeout) {
        let millis = choose|millis: u64|
            whole_millis(timeouts.min) <= millis <= whole_millis(timeouts.max) && timeout.nanos
                == #[trigger] (millis * 1_000_000);
        assert(timeout.nanos as int / 1_000_000 == millis);
    }
    if timeout.nanos as int % 1_000_000 == 0 && timeouts.min.nanos <= timeout.nanos
        <= timeouts.max.nanos {
        let millis = (timeout.nanos as int / 1_000_000) as u64;
        assert(timeout.nanos == millis * 1_000_000);
    }
}

/// Usually a follower waits between 150 and 300 milliseconds, both included.
pub proof fn usual_timeouts_are_short(millis: u64)
    ensures
        usual_timeouts().valid(),
        usual_timeouts().admits((Duration { nanos: (millis * 1_000_000) as u128 })) <==> 150
            <= millis <= 300,
{
    let timeout = Duration { nanos: (millis * 1_000_000) as u128 };
    assert(millis * 1_000_000 <= u128::MAX);
    timeouts_lie_between_the_bounds(usual_timeouts(), timeout);
    assert(timeout.nanos as int % 1_000_000 == 0);
}

} // verus!
