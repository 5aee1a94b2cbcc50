//! The state a node keeps while it takes part in consensus.
use std::collections::HashMap;
use std::time::Instant;
use vstd::prelude::*;

use crate::clock::{self, nanos_since, now, Duration};

verus! {

/// A monotonically increasing election term. Every message and vote is scoped
/// to a term; a node that sees a higher term than its own steps down.
pub type Term = u64;

/// A stable identifier for a node in the cluster, unique across the cluster
/// and the same after every restart.
pub type NodeId = u32;

/// The three roles a node can occupy: Follower -> Candidate -> Leader, or any
/// of them -> Follower when a higher term shows up.
#[derive(Debug, Clone, Copy, PartialEq, Eq, Structural)]
pub enum Role {
    Follower,
    Candidate,
    Leader,
}

/// The state that has to survive a restart: losing either field could let a
/// node vote twice in one term.
#[derive(Debug, Clone, Copy)]
pub struct PersistentState {
    pub current_term: Term,
    pub voted_for: Option<NodeId>,
}

impl Default for PersistentState {
    fn default() -> (r: Self)
        ensures
            r.current_term == 0,
            r.voted_for is None,
    {
        PersistentState { current_term: 0, voted_for: None }
    }
}

/// State that starts over on every restart.
#[derive(Debug)]
pub struct VolatileState {
    pub role: Role,
    /// Highest log index known to be committed.
    pub commit_index: u64,
    /// Highest log index applied to the local state machine.
    pub last_applied: u64,
    /// When this node last heard from a leader or granted a vote.
    pub last_heartbeat: Instant,
}

impl VolatileState {
    pub fn new() -> (r: Self)
        ensures
            r.role == Role::Follower,
            r.commit_index == 0,
            r.last_applied == 0,
    {
        VolatileState {
            role: Role::Follower,
            commit_index: 0,
            last_applied: 0,
            last_heartbeat: now(),
        }
    }

    /// Whether the time since the last heartbeat, as the clock shows it now, is
    /// longer than `timeout`.
    pub fn election_timed_out(&self, timeout: Duration) -> (r: bool)
        ensures
            exists|nanos: u128| #[trigger]
                clock::measured(self.last_heartbeat, nanos) && r == is_overdue(
                    (Duration { nanos }),
                    timeout,
                ),
    {
        let elapsed = Duration { nanos: nanos_since(&self.last_heartbeat) };
        overdue(elapsed, timeout)
    }
}

pub open spec fn is_overdue(elapsed: Duration, timeout: Duration) -> bool {
    elapsed.nanos > timeout.nanos
}

/// Whether a silence of `elapsed` is long enough to start an election.
pub fn overdue(elapsed: Duration, timeout: Duration) -> (r: bool)
    ensures
        r == is_overdue(elapsed, timeout),
{
    elapsed.nanos > timeout.nanos
}

/// What a leader knows of each follower's progress; starts over with every
/// election it wins.
#[derive(Debug)]
pub struct LeaderState {
    /// For each follower, the next log index to send.
    pub next_index: HashMap<NodeId, u64>,
    /// For each follower, the highest log index known to be on it.
    pub match_index: HashMap<NodeId, u64>,
}

impl Default for LeaderState {
    fn default() -> (r: Self)
        ensures
            r.next_index@ == Map::<NodeId, u64>::empty(),
            r.match_index@ == Map::<NodeId, u64>::empty(),
    {
        LeaderState { next_index: HashMap::new(), match_index: HashMap::new() }
    }
}

/// A silence is too long as soon as it is longer than the timeout, and not
/// before.
pub proof fn silence_ends_with_the_timeout(timeout: Duration, elapsed: Duration)
    ensures
        elapsed.nanos <= timeout.nanos ==> !is_overdue(elapsed, timeout),
        elapsed.nanos > timeout.nanos ==> is_overdue(elapsed, timeout),
{
}

} // verus!
