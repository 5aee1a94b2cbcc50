//! What a node does about each event: what changes, what stays, and what is
//! sent or answered.
use std::time::Instant;
use vstd::prelude::*;

use crate::client::{self, Itinerary};
use crate::cluster::{
    self, Act, Action, Answer, ClientCommand, ClientCommandResult, ClientQuery, ClusterSnapshot,
    Event, Happening, Node, Outcome, QueryResult, Stroke, WalWrite,
};
use crate::config::NodeConfig;
use crate::election::{self, ElectionTimeoutConfig, Tally};
use crate::kv_store::{self, Op};
use crate::log::{self, Entry, LogEntry};
use crate::messages::{
    Append, AppendEntriesResponse, Message, RequestVoteRequest, RequestVoteResponse, RpcMessage,
};
use crate::metrics_api;
use crate::replication;
use crate::safety;
use crate::state::{NodeId, PersistentState, Role, Term, VolatileState};

verus! {

/// A step is a reaction, and then what became committed is applied and answered.
/// Once it is over, everything but the store, the count of applied entries and
/// the waiting clients is as the reaction left it.
pub proof fn steps_react_and_apply<R>(n: Node<R>, event: Happening<R>, now: Instant)
    ensures
        safety::only_applied(
            cluster::reacted(n, event, now).0,
            cluster::stepped(n, event, now).0,
        ),
        cluster::stepped(n, event, now).0 == cluster::settled(
            cluster::reacted(n, event, now).0,
        ).0,
        cluster::stepped(n, event, now).1 == cluster::reacted(n, event, now).1 + cluster::settled(
            cluster::reacted(n, event, now).0,
        ).1,
{
    safety::settling_settles(cluster::reacted(n, event, now).0);
}

/// Nothing that a step is not about has changed: who the node is, whom it
/// knows, and how long it waits.
pub open spec fn same_node<R>(before: Node<R>, after: Node<R>) -> bool {
    &&& after.id == before.id
    &&& after.cluster_size == before.cluster_size
    &&& after.peers == before.peers
    &&& after.timeouts == before.timeouts
}

/// A node stays who it is, whatever happens to it.
pub proof fn nodes_stay_who_they_are<R>(n: Node<R>, event: Happening<R>, now: Instant)
    ensures
        same_node(n, cluster::stepped(n, event, now).0),
{
    steps_react_and_apply(n, event, now);
}

/// After a node has accepted a leader's request it knows that leader, whomever
/// it took for the leader before and whether or not the term is new. A request
/// that it refuses tells it nothing.
pub proof fn accepted_leaders_are_known<R>(n: Node<R>, from: NodeId, req: Append, now: Instant)
    ensures
        ({
            let event = Happening::<R>::Rpc { from, msg: Message::AppendEntries(req) };
            let after = cluster::stepped(n, event, now).0;
            let fits = req.term >= n.persistent.current_term && (req.prev_log_index == 0 || (
            req.prev_log_index <= n.log.len() && n.log[req.prev_log_index - 1].term
                == req.prev_log_term));
            &&& fits ==> after.known_leader == Some(req.leader_id)
            &&& !fits ==> after.known_leader == n.known_leader
        }),
{
    let event = Happening::<R>::Rpc { from, msg: Message::AppendEntries(req) };
    steps_react_and_apply(n, event, now);
}

/// Clients of a follower are sent to the leader whose request it accepted last.
pub proof fn clients_are_sent_to_the_last_leader<R>(
    n: Node<R>,
    from: NodeId,
    req: Append,
    op: Op,
    key: Seq<char>,
    client: R,
    now: Instant,
    later: Instant,
)
    requires
        req.term >= n.persistent.current_term,
        req.prev_log_index == 0 || (req.prev_log_index <= n.log.len() && n.log[req.prev_log_index
            - 1].term == req.prev_log_term),
    ensures
        ({
            let heard = cluster::stepped(
                n,
                Happening::<R>::Rpc { from, msg: Message::AppendEntries(req) },
                now,
            ).0;
            let hint = Some(req.leader_id);
            &&& cluster::stepped(heard, Happening::Command { op, client }, later).1 == seq![
                Act::Respond { client, result: Outcome::NotLeader { leader_hint: hint } },
            ]
            &&& cluster::stepped(heard, Happening::Query { key, client }, later).1 == seq![
                Act::Reply { client, answer: Answer::NotLeader { leader_hint: hint } },
            ]
        }),
{
    let event = Happening::<R>::Rpc { from, msg: Message::AppendEntries(req) };
    let heard = cluster::stepped(n, event, now).0;
    steps_react_and_apply(n, event, now);
    safety::settling_settles(cluster::reacted(n, event, now).0);
    safety::only_leaders_take_writes(heard, op, client, later);
    safety::reads_change_nothing(heard, key, client, later);
}

/// A leader's request does to a node's log, term and commit index what
/// replication says, and to nothing else of the node but its role, its timer and
/// the leader it knows. A new term ends a candidacy.
pub proof fn requests_do_what_replication_says<R>(
    n: Node<R>,
    from: NodeId,
    req: Append,
    now: Instant,
)
    ensures
        ({
            let event = Happening::<R>::Rpc { from, msg: Message::AppendEntries(req) };
            let after = cluster::stepped(n, event, now).0;
            let v = replication::after_append_at(n.persistent, n.volatile, n.log, req, now);
            &&& after.persistent == replication::after_append(n.persistent, req)
            &&& after.log == replication::log_after_append(n.persistent, n.log, req)
            &&& after.volatile.role == v.role
            &&& after.volatile.commit_index == v.commit_index
            &&& after.volatile.last_heartbeat == v.last_heartbeat
            &&& after.next_index == n.next_index
            &&& after.match_index == n.match_index
            &&& after.unanswered == n.unanswered
            &&& after.faulty == n.faulty
            &&& req.term > n.persistent.current_term ==> after.tally is None
            &&& req.term <= n.persistent.current_term ==> after.tally == n.tally
            &&& cluster::reacted(n, event, now).0.pending == n.pending
            &&& cluster::reacted(n, event, now).0.store == n.store
            &&& cluster::reacted(n, event, now).0.volatile.last_applied == n.volatile.last_applied
            &&& !n.faulty && n.saved == n.log.len() ==> after.saved == after.log.len()
        }),
{
    let event = Happening::<R>::Rpc { from, msg: Message::AppendEntries(req) };
    steps_react_and_apply(n, event, now);
}

/// Messages go to peers: to nobody else does a node send anything.
pub proof fn messages_go_to_peers<R>(n: Node<R>, event: Happening<R>, now: Instant, i: int)
    requires
        0 <= i < cluster::stepped(n, event, now).1.len(),
    ensures
        cluster::stepped(n, event, now).1[i] matches Act::Send { to, .. } ==> n.peers.contains(to),
{
    let (mid, first) = cluster::reacted(n, event, now);
    safety::settling_only_answers(mid);
    let deeds = cluster::stepped(n, event, now).1;
    if i >= first.len() {
        assert(deeds[i] == cluster::settled(mid).1[i - first.len()]);
    } else {
        assert(deeds[i] == first[i]);
        match event {
            Happening::ElectionDue => {
                let longer = cluster::crowned(cluster::candidate(n, now)).1;
                let calls = seq![Act::<R>::ResetElectionTimer] + cluster::ballots(n);
                if i >= calls.len() && first.len() > calls.len() {
                    assert(first[i] == longer[i - calls.len()]);
                    assert(n.peers.contains(n.peers[i - calls.len()]));
                } else if i > 0 {
                    assert(first[i] == cluster::ballots(n)[i - 1]);
                    assert(n.peers.contains(n.peers[i - 1]));
                }
            },
            _ => {
                if i < n.peers.len() {
                    assert(n.peers.contains(n.peers[i]));
                }
            },
        }
    }
}

/// Every request is answered, to whoever sent it, with what replication says;
/// only a node that cannot write may keep an acceptance to itself. Whoever
/// hears from a leader that is not stale waits anew.
pub proof fn requests_are_answered<R>(n: Node<R>, from: NodeId, req: Append, now: Instant)
    requires
        !n.faulty,
        n.peers.contains(from),
    ensures
        ({
            let event = Happening::<R>::Rpc { from, msg: Message::AppendEntries(req) };
            let deeds = cluster::reacted(n, event, now).1;
            let reply = Act::<R>::Send {
                to: from,
                msg: Message::AppendEntriesResponse(
                    replication::append_reply(n.persistent, n.log, req),
                ),
            };
            let stale = req.term < n.persistent.current_term;
            &&& stale && n.volatile.role == Role::Leader ==> deeds == seq![reply]
            &&& !(stale && n.volatile.role == Role::Leader) ==> deeds == seq![
                Act::<R>::ResetElectionTimer,
                reply,
            ]
        }),
{
    let event = Happening::<R>::Rpc { from, msg: Message::AppendEntries(req) };
    let deeds = cluster::reacted(n, event, now).1;
    if deeds.len() == 1 {
        assert(deeds =~= seq![deeds[0]]);
    } else {
        assert(deeds =~= seq![deeds[0], deeds[1]]);
    }
}

/// A follower that could not write keeps an acceptance to itself exactly as
/// long as the end of what it would acknowledge is not on its disk. A refusal
/// is never withheld, and whatever was saved and stays in the log still counts
/// as saved.
pub proof fn only_unsaved_acceptances_are_withheld<R>(
    n: Node<R>,
    from: NodeId,
    req: Append,
    now: Instant,
    k: int,
)
    requires
        n.faulty,
        n.saved <= n.log.len(),
        n.peers.contains(from),
    ensures
        ({
            let event = Happening::<R>::Rpc { from, msg: Message::AppendEntries(req) };
            let (after, deeds) = cluster::reacted(n, event, now);
            let reply = Act::<R>::Send {
                to: from,
                msg: Message::AppendEntriesResponse(
                    replication::append_reply(n.persistent, n.log, req),
                ),
            };
            let success = replication::append_reply(n.persistent, n.log, req).success;
            &&& deeds.contains(reply) <==> !success || req.prev_log_index + req.entries.len()
                <= after.saved
            &&& req.term >= n.persistent.current_term ==> deeds.len() > 0 && deeds[0]
                == Act::<R>::ResetElectionTimer
            &&& after.saved <= n.saved
            &&& 0 <= k <= n.saved && log::begins(after.log, n.log.take(k)) ==> k <= after.saved
        }),
{
    let event = Happening::<R>::Rpc { from, msg: Message::AppendEntries(req) };
    let (after, deeds) = cluster::reacted(n, event, now);
    let reply = Act::<R>::Send {
        to: from,
        msg: Message::AppendEntriesResponse(replication::append_reply(n.persistent, n.log, req)),
    };
    if deeds.len() == 2 {
        assert(deeds[1] == reply);
    }
    if deeds.len() == 1 && deeds[0] is Send {
        assert(deeds[0] == reply);
    }
    if after.log != n.log {
        replication::lemma_in_place(n.log, req);
        let at = req.prev_log_index + replication::in_place(
            n.log,
            req.prev_log_index as int,
            req.entries,
        );
        if at < k <= n.log.len() && log::begins(after.log, n.log.take(k)) {
            assert(after.log.take(k)[at] == n.log.take(k)[at]);
            assert(after.log[at] == req.entries[at - req.prev_log_index]);
        }
    }
}

/// A vote request does to a node's term, vote and role what the election rules
/// say, and nothing to its log, its followers or the leader it knows. It is
/// answered to whoever asked.
pub proof fn vote_requests_do_what_election_says<R>(
    n: Node<R>,
    from: NodeId,
    req: RequestVoteRequest,
    now: Instant,
)
    requires
        n.peers.contains(from),
    ensures
        ({
            let event = Happening::<R>::Rpc { from, msg: Message::RequestVote(req) };
            let (after, deeds) = cluster::reacted(n, event, now);
            let v = election::after_vote_at(n.persistent, n.volatile, n.log, req, now);
            let reply = Act::<R>::Send {
                to: from,
                msg: Message::RequestVoteResponse(
                    election::vote_reply(n.persistent, n.log, req),
                ),
            };
            &&& after.persistent == election::after_vote(n.persistent, n.log, req)
            &&& after.volatile.role == v.role
            &&& after.volatile.last_heartbeat == v.last_heartbeat
            &&& after.volatile.commit_index == n.volatile.commit_index
            &&& after.log == n.log
            &&& after.saved == n.saved
            &&& after.known_leader == n.known_leader
            &&& after.next_index == n.next_index
            &&& after.match_index == n.match_index
            &&& after.unanswered == n.unanswered
            &&& after.tally == n.tally
            &&& after.pending == n.pending
            &&& after.store == n.store
            &&& after.faulty == n.faulty
            &&& v.role == Role::Leader ==> deeds == seq![reply]
            &&& v.role != Role::Leader ==> deeds == seq![Act::<R>::ResetElectionTimer, reply]
        }),
{
    let event = Happening::<R>::Rpc { from, msg: Message::RequestVote(req) };
    let deeds = cluster::reacted(n, event, now).1;
    if deeds.len() == 1 {
        assert(deeds =~= seq![deeds[0]]);
    } else {
        assert(deeds =~= seq![deeds[0], deeds[1]]);
    }
}

/// A node whose election timer runs out stands for election in the next term,
/// unless it leads: it votes for itself, forgets the leader it knew, and asks
/// every peer for its vote.
pub proof fn timeouts_start_elections<R>(n: Node<R>, now: Instant, i: int)
    requires
        n.volatile.role != Role::Leader,
        n.persistent.current_term < u64::MAX,
        n.cluster_size > 1,
    ensures
        ({
            let (after, deeds) = cluster::reacted(n, Happening::<R>::ElectionDue, now);
            &&& after.volatile.role == Role::Candidate
            &&& after.volatile.last_heartbeat == now
            &&& after.volatile.commit_index == n.volatile.commit_index
            &&& after.persistent.current_term == n.persistent.current_term + 1
            &&& after.persistent.voted_for == Some(n.id)
            &&& after.known_leader is None
            &&& after.log == n.log
            &&& after.tally matches Some(tally) && {
                &&& tally.voters == Set::<NodeId>::empty().insert(n.id)
                &&& tally.cluster_size == n.cluster_size
            }
            &&& after == (Node {
                persistent: after.persistent,
                volatile: after.volatile,
                known_leader: None,
                tally: after.tally,
                ..n
            })
            &&& deeds.len() == n.peers.len() + 1
            &&& deeds[0] == Act::<R>::ResetElectionTimer
            &&& 0 <= i < n.peers.len() ==> deeds[i + 1] == (Act::<R>::Send {
                to: n.peers[i],
                msg: Message::RequestVote(election::ballot(n.persistent, n.log, n.id)),
            })
        }),
{
    let standing = cluster::candidate(n, now);
    assert(standing.tally->0.voters.len() == 1);
    if 0 <= i < n.peers.len() {
        let first = cluster::reacted(n, Happening::<R>::ElectionDue, now).1;
        assert(first[i + 1] == cluster::ballots(n)[i]);
    }
}

/// A node that is alone in its cluster wins at once: it leads in the next term
/// with its own vote, whether or not its disk can be written.
pub proof fn alone_a_node_elects_itself<R>(n: Node<R>, now: Instant)
    requires
        n.volatile.role != Role::Leader,
        n.persistent.current_term < u64::MAX,
        n.cluster_size <= 1,
    ensures
        ({
            let after = cluster::stepped(n, Happening::<R>::ElectionDue, now).0;
            &&& after.volatile.role == Role::Leader
            &&& after.persistent.current_term == n.persistent.current_term + 1
            &&& after.persistent.voted_for == Some(n.id)
            &&& after.known_leader == Some(n.id)
            &&& after.log.len() == n.log.len() + 1
            &&& after.log.drop_last() == n.log
            &&& after.log.last().term == n.persistent.current_term + 1
            &&& after.log.last().command == kv_store::command_bytes(Op::NoOp)
        }),
{
    steps_react_and_apply(n, Happening::<R>::ElectionDue, now);
    let standing = cluster::candidate(n, now);
    assert(standing.tally->0.voters.len() == 1);
    safety::leaders_start_with_a_noop(standing);
}

/// A leader needs no election, and a node that does not lead sends no
/// heartbeats.
pub proof fn timers_that_do_not_matter_are_ignored<R>(n: Node<R>, now: Instant)
    ensures
        n.volatile.role == Role::Leader ==> cluster::reacted(n, Happening::<R>::ElectionDue, now)
            == (n, Seq::<Act<R>>::empty()),
        n.volatile.role != Role::Leader ==> cluster::reacted(n, Happening::<R>::HeartbeatDue, now)
            == (n, Seq::<Act<R>>::empty()),
{
}

/// A greeting changes nothing.
pub proof fn greetings_change_nothing<R>(n: Node<R>, from: NodeId, id: NodeId, now: Instant)
    ensures
        cluster::reacted(n, Happening::<R>::Rpc { from, msg: Message::Hello(id) }, now) == (
            n,
            Seq::<Act<R>>::empty(),
        ),
{
}

/// A vote of the candidate's own term counts: with it the candidate leads if it
/// has more than half of the cluster behind it, and else goes on collecting.
pub proof fn votes_are_counted<R>(
    n: Node<R>,
    from: NodeId,
    resp: RequestVoteResponse,
    now: Instant,
    voters: Set<NodeId>,
)
    requires
        n.volatile.role == Role::Candidate,
        resp.vote_granted,
        resp.term == n.persistent.current_term,
        n.tally == Some(Tally { voters, cluster_size: n.cluster_size }),
    ensures
        ({
            let event = Happening::<R>::Rpc { from, msg: Message::RequestVoteResponse(resp) };
            let after = cluster::stepped(n, event, now).0;
            &&& after.persistent == n.persistent
            &&& 2 * voters.insert(from).len() > n.cluster_size ==> {
                &&& after.volatile.role == Role::Leader
                &&& after.known_leader == Some(n.id)
                &&& after.tally is None
                &&& after.log.len() == n.log.len() + 1
                &&& cluster::reacted(n, event, now) == cluster::crowned(
                    (Node {
                        tally: Some(
                            Tally { voters: voters.insert(from), cluster_size: n.cluster_size },
                        ),
                        ..n
                    }),
                )
            }
            &&& 2 * voters.insert(from).len() <= n.cluster_size ==> {
                &&& after.volatile.role == Role::Candidate
                &&& after.known_leader == n.known_leader
                &&& after.log == n.log
                &&& after.tally == Some(
                    Tally { voters: voters.insert(from), cluster_size: n.cluster_size },
                )
                &&& cluster::reacted(n, event, now).1.len() == 0
            }
        }),
{
    let event = Happening::<R>::Rpc { from, msg: Message::RequestVoteResponse(resp) };
    steps_react_and_apply(n, event, now);
    election::majorities_are_more_than_half(
        Tally { voters: voters.insert(from), cluster_size: n.cluster_size },
    );
}

/// Refusals, votes of an older term, and votes for a node that no longer stands
/// change nothing.
pub proof fn other_votes_count_for_nothing<R>(
    n: Node<R>,
    from: NodeId,
    resp: RequestVoteResponse,
    now: Instant,
)
    requires
        resp.term <= n.persistent.current_term,
        resp.term < n.persistent.current_term || n.volatile.role != Role::Candidate
            || !resp.vote_granted,
    ensures
        cluster::reacted(
            n,
            Happening::<R>::Rpc { from, msg: Message::RequestVoteResponse(resp) },
            now,
        ) == (n, Seq::<Act<R>>::empty()),
{
}

/// An answer of a newer term, to whatever question, sends a node back to
/// follow: no vote given in that term yet, no candidacy, and a new wait. Its log
/// and what it committed stay.
pub proof fn newer_answers_end_every_role<R>(
    n: Node<R>,
    from: NodeId,
    vote: RequestVoteResponse,
    resp: AppendEntriesResponse,
    now: Instant,
)
    requires
        vote.term > n.persistent.current_term,
        resp.term > n.persistent.current_term,
    ensures
        ({
            let (a, a_deeds) = cluster::reacted(
                n,
                Happening::<R>::Rpc { from, msg: Message::RequestVoteResponse(vote) },
                now,
            );
            let (b, b_deeds) = cluster::reacted(
                n,
                Happening::<R>::Rpc { from, msg: Message::AppendEntriesResponse(resp) },
                now,
            );
            &&& a == (Node {
                persistent: PersistentState { current_term: vote.term, voted_for: None },
                volatile: VolatileState { role: Role::Follower, ..n.volatile },
                tally: None,
                ..n
            })
            &&& b == (Node {
                persistent: PersistentState { current_term: resp.term, voted_for: None },
                volatile: VolatileState { role: Role::Follower, ..n.volatile },
                tally: None,
                ..n
            })
            &&& a_deeds == seq![Act::<R>::ResetElectionTimer]
            &&& b_deeds == seq![Act::<R>::ResetElectionTimer]
        }),
{
}

/// Whoever wins an election takes office with the log it has, a no-op of its own
/// term behind it, and nothing known of its followers: each of them is to be
/// sent whatever comes after the log of the moment.
pub proof fn winners_take_office<R>(n: Node<R>, i: int)
    requires
        0 <= i < n.peers.len(),
        n.log.len() == 0 || n.log.last().index < u64::MAX,
    ensures
        ({
            let (leader, deeds) = cluster::crowned(n);
            let peer = n.peers[i];
            let next = if n.log.len() == 0 {
                1
            } else {
                n.log.last().index + 1
            };
            &&& leader.volatile.role == Role::Leader
            &&& leader.known_leader == Some(n.id)
            &&& leader.tally is None
            &&& leader.persistent == n.persistent
            &&& leader.log == n.log.push(
                Entry {
                    term: n.persistent.current_term,
                    index: next as u64,
                    command: kv_store::command_bytes(Op::NoOp),
                },
            )
            &&& leader.next_index.contains_key(peer)
            &&& leader.next_index[peer] == next
            &&& leader.match_index.contains_key(peer)
            &&& leader.match_index[peer] == 0
            &&& leader.pending == n.pending
            &&& leader.store == n.store
            &&& leader.unanswered.contains_key(peer)
            &&& log::numbered(n.log) ==> leader.unanswered[peer] == seq![
                (n.log.len() as u64, 1u64),
            ]
            &&& deeds.len() == n.peers.len()
            &&& deeds[i] == (Act::<R>::Send {
                to: peer,
                msg: Message::AppendEntries(
                    replication::request_for(
                        n.persistent,
                        leader.log,
                        n.id,
                        next as u64,
                        n.volatile.commit_index,
                    ),
                ),
            })
        }),
{
    let peer = n.peers[i];
    assert(n.peers.contains(peer));
    assert(n.peers.to_set().contains(peer));
    let leader = cluster::crowned(n).0;
    if log::numbered(n.log) {
        let noop = leader.log.last();
        log::append_keeps_numbering(n.log, noop.term, noop.command);
        log::entries_after_is_the_tail(leader.log, n.log.len() as u64);
        assert(leader.unanswered[peer] =~= seq![(n.log.len() as u64, 1u64)]);
    }
}

/// The next index of a follower is what the leader has noted, and 1 if it has
/// noted nothing.
pub open spec fn noted_next<R>(n: Node<R>, peer: NodeId) -> u64 {
    if n.next_index.contains_key(peer) {
        n.next_index[peer]
    } else {
        1
    }
}

/// The requests a leader has noted as unanswered by a follower.
pub open spec fn noted_requests<R>(n: Node<R>, peer: NodeId) -> Seq<(u64, u64)> {
    if n.unanswered.contains_key(peer) {
        n.unanswered[peer]
    } else {
        Seq::empty()
    }
}

/// A leader whose heartbeat is due sends every peer, in turn, everything from
/// its next index on, and waits for one more answer from each.
pub proof fn heartbeats_go_to_every_peer<R>(n: Node<R>, now: Instant, i: int)
    requires
        n.volatile.role == Role::Leader,
    ensures
        ({
            let (after, deeds) = cluster::reacted(n, Happening::<R>::HeartbeatDue, now);
            let peer = n.peers[i];
            let req = replication::request_for(
                n.persistent,
                n.log,
                n.id,
                noted_next(n, peer),
                n.volatile.commit_index,
            );
            &&& deeds.len() == n.peers.len()
            &&& after == (Node { unanswered: after.unanswered, ..n })
            &&& forall|other: NodeId|
                !n.peers.contains(other) ==> #[trigger] after.unanswered.contains_key(other)
                    == n.unanswered.contains_key(other)
            &&& 0 <= i < n.peers.len() ==> {
                &&& deeds[i] == (Act::<R>::Send { to: peer, msg: Message::AppendEntries(req) })
                &&& after.unanswered.contains_key(peer)
                &&& after.unanswered[peer] == noted_requests(n, peer).push(
                    (req.prev_log_index, req.entries.len() as u64),
                )
            }
        }),
{
    let after = cluster::reacted(n, Happening::<R>::HeartbeatDue, now).0;
    assert forall|other: NodeId| !n.peers.contains(other) implies (
    #[trigger] after.unanswered.contains_key(other)) == n.unanswered.contains_key(other) by {
        assert(!n.peers.to_set().contains(other));
    }
    if 0 <= i < n.peers.len() {
        let peer = n.peers[i];
        assert(n.peers.contains(peer));
        assert(n.peers.to_set().contains(peer));
    }
}

/// A leader takes a client's command into its log, behind everything else and in
/// its own term, has the client wait for exactly that entry, and sends every
/// peer what it lacks, the new entry included.
pub proof fn commands_enter_the_log<R>(n: Node<R>, op: Op, client: R, now: Instant, i: int)
    requires
        n.volatile.role == Role::Leader,
        n.log.len() == 0 || n.log.last().index < u64::MAX,
    ensures
        ({
            let (after, deeds) = cluster::reacted(n, Happening::Command { op, client }, now);
            let index = if n.log.len() == 0 {
                1
            } else {
                (n.log.last().index + 1) as u64
            };
            let term = n.persistent.current_term;
            let longer = n.log.push(
                Entry { term, index, command: kv_store::command_bytes(op) },
            );
            &&& after.log == longer
            &&& after.pending == n.pending.insert(index, (term, client))
            &&& after.persistent == n.persistent
            &&& after.volatile.role == Role::Leader
            &&& after.volatile.last_applied == n.volatile.last_applied
            &&& after.store == n.store
            &&& after.next_index == n.next_index
            &&& after.match_index == n.match_index
            &&& after.known_leader == n.known_leader
            &&& deeds.len() == n.peers.len()
            &&& 0 <= i < n.peers.len() ==> deeds[i] == (Act::<R>::Send {
                to: n.peers[i],
                msg: Message::AppendEntries(
                    replication::request_for(
                        n.persistent,
                        longer,
                        n.id,
                        noted_next(n, n.peers[i]),
                        n.volatile.commit_index,
                    ),
                ),
            })
        }),
{
}

/// An acceptance counts for the oldest request that is not answered: the
/// follower holds the log up to the end of it, and is to be sent what follows.
/// Nothing else is learned, and nobody is told.
pub proof fn acceptances_are_noted<R>(
    n: Node<R>,
    from: NodeId,
    resp: AppendEntriesResponse,
    now: Instant,
)
    requires
        n.volatile.role == Role::Leader,
        resp.success,
        resp.term == n.persistent.current_term,
        n.unanswered.contains_key(from),
        n.unanswered[from].len() > 0,
        n.unanswered[from][0].0 + n.unanswered[from][0].1 < u64::MAX,
    ensures
        ({
            let event = Happening::<R>::Rpc { from, msg: Message::AppendEntriesResponse(resp) };
            let (after, deeds) = cluster::reacted(n, event, now);
            let end = n.unanswered[from][0].0 + n.unanswered[from][0].1;
            &&& after.match_index == n.match_index.insert(from, end as u64)
            &&& after.next_index == n.next_index.insert(from, (end + 1) as u64)
            &&& after.unanswered == n.unanswered.insert(from, n.unanswered[from].drop_first())
            &&& after.log == n.log
            &&& after.persistent == n.persistent
            &&& after.volatile.role == Role::Leader
            &&& after.known_leader == n.known_leader
            &&& after.pending == n.pending
            &&& deeds.len() == 0
        }),
{
}

/// A refusal sends the leader back to where the follower says, or one position
/// if it does not say, and counts for nothing else.
pub proof fn refusals_send_the_leader_back<R>(
    n: Node<R>,
    from: NodeId,
    resp: AppendEntriesResponse,
    now: Instant,
)
    requires
        n.volatile.role == Role::Leader,
        !resp.success,
        resp.term == n.persistent.current_term,
        resp.conflict_index matches Some(at) ==> at < u64::MAX,
    ensures
        ({
            let event = Happening::<R>::Rpc { from, msg: Message::AppendEntriesResponse(resp) };
            let (after, deeds) = cluster::reacted(n, event, now);
            &&& after.next_index.dom() == n.next_index.dom().insert(from)
            &&& forall|other: NodeId|
                other != from ==> #[trigger] after.next_index[other] == n.next_index[other]
            &&& resp.conflict_index matches Some(at) ==> after.next_index[from] == at + 1
            &&& resp.conflict_index is None ==> after.next_index[from] == if noted_next(n, from)
                <= 2 {
                1
            } else {
                noted_next(n, from) - 1
            }
            &&& after.match_index == n.match_index
            &&& after.log == n.log
            &&& after.persistent == n.persistent
            &&& after.volatile.role == Role::Leader
            &&& resp.conflict_index is Some && noted_requests(n, from).len() > 0
                ==> after.unanswered == n.unanswered.insert(
                from,
                noted_requests(n, from).drop_first(),
            )
            &&& resp.conflict_index is None || noted_requests(n, from).len() == 0
                ==> after.unanswered == n.unanswered
            &&& deeds.len() == 0
        }),
{
}

/// An answer of an older term, one to a node that does not lead, and an
/// acceptance of nothing count for nothing.
pub proof fn other_answers_count_for_nothing<R>(
    n: Node<R>,
    from: NodeId,
    resp: AppendEntriesResponse,
    now: Instant,
)
    requires
        resp.term <= n.persistent.current_term,
        resp.term < n.persistent.current_term || n.volatile.role != Role::Leader || (resp.success
            && noted_requests(n, from).len() == 0),
    ensures
        cluster::reacted(
            n,
            Happening::<R>::Rpc { from, msg: Message::AppendEntriesResponse(resp) },
            now,
        ) == (n, Seq::<Act<R>>::empty()),
{
}

/// How much of its own log a leader may count: what is on its disk.
pub open spec fn own_share<R>(n: Node<R>) -> u64 {
    let last = if n.log.len() == 0 {
        0
    } else {
        n.log.last().index
    };
    if n.faulty && n.saved < last {
        n.saved as u64
    } else {
        last
    }
}

/// As soon as the answers a leader has make a majority for an entry of its own
/// term, itself counted as far as its disk goes, that entry is committed and
/// applied with everything before it.
pub proof fn majorities_of_answers_commit<R>(
    n: Node<R>,
    from: NodeId,
    resp: AppendEntriesResponse,
    now: Instant,
    index: u64,
    who: Set<NodeId>,
)
    requires
        n.volatile.role == Role::Leader,
        resp.success,
        resp.term == n.persistent.current_term,
        n.unanswered.contains_key(from),
        n.unanswered[from].len() > 0,
        n.unanswered[from][0].0 + n.unanswered[from][0].1 < u64::MAX,
        n.match_index.dom().finite(),
        1 <= index <= n.log.len(),
        n.log[index - 1].term == n.persistent.current_term,
        ({
            let end = (n.unanswered[from][0].0 + n.unanswered[from][0].1) as u64;
            let known = n.match_index.insert(from, end);
            &&& who.subset_of(known.dom())
            &&& forall|id: NodeId| #[trigger] who.contains(id) ==> known[id] >= index
            &&& own_share(n) == index || exists|id: NodeId| #[trigger]
                known.contains_key(id) && known[id] == index
        }),
        2 * (who.len() + if own_share(n) >= index {
            1int
        } else {
            0int
        }) > n.cluster_size,
    ensures
        ({
            let event = Happening::<R>::Rpc { from, msg: Message::AppendEntriesResponse(resp) };
            let after = cluster::stepped(n, event, now).0;
            &&& after.volatile.commit_index >= index
            &&& after.volatile.last_applied >= index
        }),
{
    let event = Happening::<R>::Rpc { from, msg: Message::AppendEntriesResponse(resp) };
    let end = (n.unanswered[from][0].0 + n.unanswered[from][0].1) as u64;
    let known = n.match_index.insert(from, end);
    let mid = cluster::reacted(n, event, now).0;
    steps_react_and_apply(n, event, now);
    assert(cluster::own_match(n) == own_share(n));
    replication::majorities_commit(
        known,
        n.log,
        n.persistent.current_term,
        n.cluster_size,
        own_share(n),
        index,
        who,
    );
    assert(mid.volatile.commit_index >= index);
    committed_entries_are_applied(mid);
}

/// A leader that appends counts its own log: whatever a majority holds with it,
/// in its own term, is committed by the append itself.
pub proof fn appends_commit_what_they_can<R>(
    n: Node<R>,
    op: Op,
    client: R,
    now: Instant,
    who: Set<NodeId>,
)
    requires
        n.volatile.role == Role::Leader,
        !n.faulty,
        log::numbered(n.log),
        n.log.len() < u64::MAX,
        n.match_index.dom().finite(),
        who.subset_of(n.match_index.dom()),
        forall|id: NodeId| #[trigger] who.contains(id) ==> n.match_index[id] > n.log.len(),
        2 * (who.len() + 1) > n.cluster_size,
    ensures
        cluster::reacted(n, Happening::Command { op, client }, now).0.volatile.commit_index
            > n.log.len(),
{
    let longer = cluster::grown(n, cluster::own_entry(n, op));
    let entry = cluster::own_entry(n, op);
    log::append_keeps_numbering(n.log, entry.term, entry.command);
    replication::majorities_commit(
        n.match_index,
        longer.log,
        n.persistent.current_term,
        n.cluster_size,
        (n.log.len() + 1) as u64,
        (n.log.len() + 1) as u64,
        who,
    );
}

/// Whatever is committed and in the log is applied by the end of a step, up to
/// the commit index and no further.
pub proof fn committed_entries_are_applied<R>(n: Node<R>)
    ensures
        ({
            let after = cluster::settled(n).0;
            let end = if n.volatile.commit_index <= n.log.len() {
                n.volatile.commit_index as int
            } else {
                n.log.len() as int
            };
            &&& n.volatile.last_applied >= end ==> after.volatile.last_applied
                == n.volatile.last_applied
            &&& n.volatile.last_applied < end ==> after.volatile.last_applied == end
            &&& after.volatile.commit_index == n.volatile.commit_index
            &&& after.log == n.log
        }),
    decreases n.volatile.commit_index - n.volatile.last_applied,
{
    if n.volatile.last_applied < n.volatile.commit_index && n.volatile.last_applied < n.log.len() {
        assert(cluster::unsettled(n));
        committed_entries_are_applied(cluster::applied_one(n).0);
    }
}

/// Every step ends with what is committed applied.
pub proof fn steps_apply_what_is_committed<R>(n: Node<R>, event: Happening<R>, now: Instant)
    ensures
        ({
            let after = cluster::stepped(n, event, now).0;
            after.volatile.last_applied >= after.volatile.commit_index
                || after.volatile.last_applied >= after.log.len()
        }),
{
    let mid = cluster::reacted(n, event, now).0;
    committed_entries_are_applied(mid);
}

/// A committed command takes effect when it is applied: a write gives its key
/// the value, a delete takes its key away, however many keys there are, and a
/// no-op changes nothing. Each is answered with the value before it.
pub proof fn committed_commands_take_effect(
    store: Map<Seq<char>, Seq<u8>>,
    key: Seq<char>,
    value: Seq<u8>,
)
    ensures
        kv_store::command_fits(Op::Put { key, value }) ==> {
            let (after, before) = cluster::effect(
                store,
                kv_store::command_bytes(Op::Put { key, value }),
            );
            &&& after == store.insert(key, value)
            &&& store.contains_key(key) ==> before == Some(store[key])
            &&& !store.contains_key(key) ==> before is None
        },
        kv_store::command_fits(Op::Delete { key }) ==> {
            let (after, before) = cluster::effect(
                store,
                kv_store::command_bytes(Op::Delete { key }),
            );
            &&& after == store.remove(key)
            &&& !after.contains_key(key)
            &&& kv_store::lookup(after, key) is None
            &&& store.contains_key(key) ==> before == Some(store[key])
            &&& !store.contains_key(key) ==> before is None
        },
        cluster::effect(store, kv_store::command_bytes(Op::NoOp)) == (store, None::<Seq<u8>>),
{
    if kv_store::command_fits(Op::Put { key, value }) {
        kv_store::command_round_trips(Op::Put { key, value }, Seq::empty());
    }
    if kv_store::command_fits(Op::Delete { key }) {
        kv_store::command_round_trips(Op::Delete { key }, Seq::empty());
    }
    kv_store::command_round_trips(Op::NoOp, Seq::empty());
}

/// What follows a command in an entry makes no difference.
pub proof fn bytes_behind_a_command_do_not_count(
    store: Map<Seq<char>, Seq<u8>>,
    op: Op,
    rest: Seq<u8>,
)
    requires
        kv_store::command_fits(op),
    ensures
        cluster::effect(store, kv_store::command_bytes(op) + rest) == cluster::effect(
            store,
            kv_store::command_bytes(op),
        ),
{
    kv_store::command_round_trips(op, rest);
}

/// Bytes that do not begin with a command change nothing.
pub proof fn other_bytes_change_nothing(store: Map<Seq<char>, Seq<u8>>, bytes: Seq<u8>)
    requires
        forall|op: Op|
            !(bytes.len() >= (#[trigger] kv_store::command_bytes(op)).len() && bytes.take(
                kv_store::command_bytes(op).len() as int,
            ) == kv_store::command_bytes(op)),
    ensures
        cluster::effect(store, bytes) == (store, None::<Seq<u8>>),
{
    kv_store::only_commands_are_decoded(bytes);
    if let Some(op) = kv_store::parse_command(bytes) {
        assert(kv_store::command_bytes(op) == bytes.take(
            kv_store::command_bytes(op).len() as int,
        ));
    }
}

/// The commands of a log run one after the other: one more write, delete or
/// no-op at the end meets the store that the entries before it made.
pub proof fn logs_run_in_order(
    store: Map<Seq<char>, Seq<u8>>,
    entries: Seq<Entry>,
    term: Term,
    index: u64,
    key: Seq<char>,
    value: Seq<u8>,
)
    requires
        kv_store::command_fits(Op::Put { key, value }),
    ensures
        ({
            let put = Entry {
                term,
                index,
                command: kv_store::command_bytes(Op::Put { key, value }),
            };
            let delete = Entry { term, index, command: kv_store::command_bytes(Op::Delete { key }) };
            let noop = Entry { term, index, command: kv_store::command_bytes(Op::NoOp) };
            let made = safety::ran(store, entries);
            &&& safety::ran(store, Seq::empty()) == store
            &&& safety::ran(store, entries.push(put)) == made.insert(key, value)
            &&& safety::ran(store, entries.push(delete)) == made.remove(key)
            &&& safety::ran(store, entries.push(noop)) == made
        }),
{
    let made = safety::ran(store, entries);
    committed_commands_take_effect(made, key, value);
    let put = Entry { term, index, command: kv_store::command_bytes(Op::Put { key, value }) };
    let delete = Entry { term, index, command: kv_store::command_bytes(Op::Delete { key }) };
    let noop = Entry { term, index, command: kv_store::command_bytes(Op::NoOp) };
    assert(entries.push(put).drop_last() =~= entries);
    assert(entries.push(delete).drop_last() =~= entries);
    assert(entries.push(noop).drop_last() =~= entries);
}

proof fn lemma_runs_one(store: Map<Seq<char>, Seq<u8>>, entry: Entry)
    ensures
        safety::ran(store, seq![entry]) == cluster::effect(store, entry.command).0,
{
    let one = seq![entry];
    assert(one.drop_last() =~= Seq::<Entry>::empty());
    assert(safety::ran(store, one.drop_last()) == store);
}

/// Applying runs exactly the entries between what was applied before and what
/// is applied after, once each and in log order.
pub proof fn settling_runs_the_committed_entries<R>(n: Node<R>)
    requires
        n.volatile.last_applied <= n.log.len(),
    ensures
        ({
            let after = cluster::settled(n).0;
            &&& n.volatile.last_applied <= after.volatile.last_applied <= n.log.len()
            &&& after.store == safety::ran(
                n.store,
                n.log.subrange(
                    n.volatile.last_applied as int,
                    after.volatile.last_applied as int,
                ),
            )
        }),
    decreases n.volatile.commit_index - n.volatile.last_applied,
{
    let done = n.volatile.last_applied as int;
    let after = cluster::settled(n).0;
    if cluster::unsettled(n) {
        let mid = cluster::applied_one(n).0;
        settling_runs_the_committed_entries(mid);
        let end = after.volatile.last_applied as int;
        let one = seq![n.log[done]];
        lemma_runs_one(n.store, n.log[done]);
        safety::runs_add_up(n.store, one, n.log.subrange(done + 1, end));
        assert(one + n.log.subrange(done + 1, end) =~= n.log.subrange(done, end));
    } else {
        assert(n.log.subrange(done, done) =~= Seq::<Entry>::empty());
    }
}

/// Whoever waits for an entry is answered in the step that applies it: with what
/// the command displaced if the entry is of the term in which it was submitted,
/// and with the leader the node knows if another leader's entry is there
/// instead. It no longer waits then, and everyone else waits on.
pub proof fn waiting_clients_are_answered<R>(n: Node<R>, index: u64) -> (at: int)
    requires
        n.volatile.last_applied < index,
        index <= n.volatile.commit_index,
        index <= n.log.len(),
        n.pending.contains_key(index),
    ensures
        ({
            let (after, deeds) = cluster::settled(n);
            let (term, client) = n.pending[index];
            let entry = n.log[index - 1];
            let store = safety::ran(
                n.store,
                n.log.subrange(n.volatile.last_applied as int, index - 1),
            );
            &&& 0 <= at < deeds.len()
            &&& entry.term == term ==> deeds[at] == (Act::Respond {
                client,
                result: Outcome::Applied(cluster::effect(store, entry.command).1),
            })
            &&& entry.term != term ==> deeds[at] == (Act::Respond {
                client,
                result: Outcome::NotLeader { leader_hint: n.known_leader },
            })
            &&& !after.pending.contains_key(index)
        }),
    decreases n.volatile.commit_index - n.volatile.last_applied,
{
    let done = n.volatile.last_applied as int;
    let (mid, now) = cluster::applied_one(n);
    let (after, deeds) = cluster::settled(n);
    assert(cluster::unsettled(n));
    lemma_waiters_leave(mid);
    if index == done + 1 {
        assert(n.log.subrange(done, done) =~= Seq::<Entry>::empty());
        assert(deeds[0] == now[0]);
        0
    } else {
        let at = waiting_clients_are_answered(mid, index);
        let rest = cluster::settled(mid).1;
        assert(deeds[now.len() + at] == rest[at]);
        let one = seq![n.log[done]];
        lemma_runs_one(n.store, n.log[done]);
        safety::runs_add_up(n.store, one, n.log.subrange(done + 1, index - 1));
        assert(one + n.log.subrange(done + 1, index - 1) =~= n.log.subrange(done, index - 1));
        now.len() + at
    }
}

/// Nobody begins to wait while entries are applied.
proof fn lemma_waiters_leave<R>(n: Node<R>)
    ensures
        forall|index: u64| #[trigger]
            cluster::settled(n).0.pending.contains_key(index) ==> n.pending.contains_key(index)
                && cluster::settled(n).0.pending[index] == n.pending[index],
        forall|index: u64|
            #![trigger cluster::settled(n).0.pending.contains_key(index)]
            n.pending.contains_key(index) && (index <= n.volatile.last_applied || index
                > cluster::settled(n).0.volatile.last_applied)
                ==> cluster::settled(n).0.pending.contains_key(index),
    decreases n.volatile.commit_index - n.volatile.last_applied,
{
    if cluster::unsettled(n) {
        let mid = cluster::applied_one(n).0;
        safety::settling_settles(mid);
        lemma_waiters_leave(mid);
    }
}

/// Whoever waits for an entry that is not applied in a step waits on, and is
/// told nothing.
pub proof fn others_wait_on<R>(n: Node<R>, index: u64)
    requires
        n.pending.contains_key(index),
        index <= n.volatile.last_applied || index > n.volatile.commit_index || index > n.log.len(),
    ensures
        cluster::settled(n).0.pending.contains_key(index),
        cluster::settled(n).0.pending[index] == n.pending[index],
{
    lemma_waiters_leave(n);
    committed_entries_are_applied(n);
    let after = cluster::settled(n).0;
    assert(index <= n.volatile.last_applied || index > after.volatile.last_applied);
    assert(after.pending.contains_key(index));
}

/// Nobody is answered twice, and nobody who does not wait: for each answer one
/// client fewer is waiting.
pub proof fn clients_are_answered_once<R>(n: Node<R>)
    requires
        n.pending.dom().finite(),
    ensures
        cluster::settled(n).0.pending.dom().finite(),
        cluster::settled(n).1.len() + cluster::settled(n).0.pending.len() == n.pending.len(),
    decreases n.volatile.commit_index - n.volatile.last_applied,
{
    if cluster::unsettled(n) {
        let (mid, now) = cluster::applied_one(n);
        let index = (n.volatile.last_applied + 1) as u64;
        if n.pending.contains_key(index) {
            assert(n.pending.remove(index).dom() =~= n.pending.dom().remove(index));
        } else {
            assert(n.pending.remove(index) =~= n.pending);
        }
        clients_are_answered_once(mid);
    }
}

/// A delete to a leader that is alone is applied and answered at once with the
/// value that the key had, and a read then finds nothing.
pub proof fn alone_a_delete_is_final<R>(
    n: Node<R>,
    key: Seq<char>,
    writer: R,
    reader: R,
    now: Instant,
)
    requires
        !n.faulty,
        n.cluster_size <= 1,
        n.volatile.role == Role::Leader,
        log::numbered(n.log),
        n.log.len() < u64::MAX,
        n.volatile.last_applied == n.log.len(),
        kv_store::command_fits(Op::Delete { key }),
    ensures
        ({
            let delete = Happening::Command { op: Op::Delete { key }, client: writer };
            let (after, deeds) = cluster::stepped(n, delete, now);
            let before = if n.store.contains_key(key) {
                Some(n.store[key])
            } else {
                None
            };
            &&& deeds.last() == (Act::Respond { client: writer, result: Outcome::Applied(before) })
            &&& after.store == n.store.remove(key)
            &&& cluster::stepped(after, Happening::Query { key, client: reader }, now).1 == seq![
                Act::Reply { client: reader, answer: Answer::Value(None) },
            ]
        }),
{
    let op = Op::Delete { key };
    alone_a_command_is_applied(n, op, writer, now);
    committed_commands_take_effect(n.store, key, Seq::empty());
    let after = cluster::stepped(n, Happening::Command { op, client: writer }, now).0;
    safety::reads_change_nothing(after, key, reader, now);
}

/// Whatever a client asks of a leader that is alone is committed, applied and
/// answered in one step, and nobody else is answered.
pub proof fn alone_a_command_is_applied<R>(n: Node<R>, op: Op, client: R, now: Instant)
    requires
        !n.faulty,
        n.cluster_size <= 1,
        n.volatile.role == Role::Leader,
        log::numbered(n.log),
        n.log.len() < u64::MAX,
        n.volatile.last_applied == n.log.len(),
    ensures
        ({
            let (after, deeds) = cluster::stepped(n, Happening::Command { op, client }, now);
            let (store, before) = cluster::effect(n.store, kv_store::command_bytes(op));
            &&& after.store == store
            &&& after.volatile.last_applied == n.log.len() + 1
            &&& after.volatile.commit_index == n.log.len() + 1
            &&& after.volatile.role == Role::Leader
            &&& deeds.len() == n.peers.len() + 1
            &&& deeds.last() == (Act::Respond { client, result: Outcome::Applied(before) })
            &&& !cluster::unsettled(after)
        }),
{
    let event = Happening::Command { op, client };
    let (mid, deeds) = cluster::reacted(n, event, now);
    let entry = cluster::own_entry(n, op);
    let last = (n.log.len() + 1) as u64;
    log::append_keeps_numbering(n.log, entry.term, entry.command);
    assert(replication::committable(
        mid.match_index,
        mid.log,
        n.persistent.current_term,
        n.cluster_size,
        last,
        last,
    ));
    replication::commit_point_is_unique(
        mid.match_index,
        mid.log,
        n.persistent.current_term,
        n.cluster_size,
        last,
        Some(last),
    );
    let (after, answers) = cluster::applied_one(mid);
    assert(cluster::unsettled(mid));
    assert(!cluster::unsettled(after));
    assert(cluster::settled(after).1 =~= Seq::<Act<R>>::empty());
    assert(cluster::settled(mid).1 =~= answers);
}

/// A node that is told that everything it wrote went through counts its whole
/// log as saved. One that was told so before too has nothing to change.
pub proof fn good_news_about_the_disk<R>(n: Node<R>)
    ensures
        ({
            let told = cluster::informed(n, true);
            &&& !told.faulty
            &&& told.saved == n.log.len()
            &&& told.log == n.log
            &&& told.persistent == n.persistent
            &&& told.volatile.role == n.volatile.role
            &&& told.store == n.store
            &&& told.pending == n.pending
            &&& told.match_index == n.match_index
            &&& told.next_index == n.next_index
            &&& !n.faulty && n.saved == n.log.len() ==> told == n
            &&& n.volatile.role != Role::Leader ==> told.volatile == n.volatile
        }),
{
}

/// A node that is told that a write failed remembers that, and goes on as it is.
pub proof fn bad_news_about_the_disk<R>(n: Node<R>)
    ensures
        cluster::informed(n, false) == (Node { faulty: true, ..n }),
{
}

/// A leader whose log is on its disk again counts it again: what a majority
/// holds with it, in its own term, is committed then.
pub proof fn leaders_count_their_log_again<R>(n: Node<R>, index: u64, who: Set<NodeId>)
    requires
        n.faulty,
        n.volatile.role == Role::Leader,
        n.match_index.dom().finite(),
        1 <= index <= n.log.len(),
        n.log[index - 1].term == n.persistent.current_term,
        n.log.last().index >= index,
        n.log.last().index == index || exists|id: NodeId| #[trigger]
            n.match_index.contains_key(id) && n.match_index[id] == index,
        who.subset_of(n.match_index.dom()),
        forall|id: NodeId| #[trigger] who.contains(id) ==> n.match_index[id] >= index,
        2 * (who.len() + 1) > n.cluster_size,
    ensures
        cluster::informed(n, true).volatile.commit_index >= index,
{
    replication::majorities_commit(
        n.match_index,
        n.log,
        n.persistent.current_term,
        n.cluster_size,
        n.log.last().index,
        index,
        who,
    );
}

/// Only what changes the log is written: nothing for a read, a heartbeat, a vote
/// request, a greeting or an answer that a leader gets, and nothing for a
/// request whose entries are all there.
pub proof fn reads_and_heartbeats_write_nothing<R>(
    n: Node<R>,
    from: NodeId,
    key: Seq<char>,
    client: R,
    ask: RequestVoteRequest,
    resp: AppendEntriesResponse,
    id: NodeId,
    req: Append,
)
    requires
        !n.faulty,
        req.prev_log_index + req.entries.len() <= n.log.len(),
        n.log.subrange(
            req.prev_log_index as int,
            req.prev_log_index + req.entries.len(),
        ) == req.entries,
    ensures
        cluster::ahead(n, Happening::<R>::Query { key, client }).len() == 0,
        cluster::ahead(n, Happening::<R>::HeartbeatDue).len() == 0,
        cluster::ahead(n, Happening::<R>::Rpc { from, msg: Message::RequestVote(ask) }).len() == 0,
        cluster::ahead(n, Happening::<R>::Rpc { from, msg: Message::Hello(id) }).len() == 0,
        cluster::ahead(
            n,
            Happening::<R>::Rpc { from, msg: Message::AppendEntriesResponse(resp) },
        ).len() == 0,
        cluster::ahead(n, Happening::<R>::Rpc { from, msg: Message::AppendEntries(req) }).len()
            == 0,
{
    replication::lemma_in_place(n.log, req);
    let prev = req.prev_log_index as int;
    let shared = replication::in_place(n.log, prev, req.entries);
    if shared < req.entries.len() {
        assert(n.log.subrange(prev, prev + req.entries.len())[shared as int] == n.log[prev
            + shared]);
    }
}

/// A command that a leader takes is written as one entry, the one that enters
/// its log, and nothing else is touched on disk.
pub proof fn commands_are_written_once<R>(n: Node<R>, op: Op, client: R)
    requires
        !n.faulty,
        n.log.len() == 0 || n.log.last().index < u64::MAX,
    ensures
        n.volatile.role == Role::Leader ==> cluster::ahead(n, Happening::Command { op, client })
            == seq![
            Stroke::Append(
                Entry {
                    term: n.persistent.current_term,
                    index: if n.log.len() == 0 {
                        1
                    } else {
                        (n.log.last().index + 1) as u64
                    },
                    command: kv_store::command_bytes(op),
                },
            ),
        ],
        n.volatile.role != Role::Leader ==> cluster::ahead(
            n,
            Happening::Command { op, client },
        ).len() == 0,
{
    let entry = cluster::own_entry(n, op);
    if n.volatile.role == Role::Leader {
        assert(cluster::ahead(n, Happening::Command { op, client }) =~= seq![
            Stroke::Append(entry),
        ]);
    }
}

/// A node can deal with everything that happens, as long as terms and indices
/// have not reached their limit.
pub proof fn ordinary_events_are_dealt_with<R>(n: Node<R>, event: Happening<R>)
    requires
        n.persistent.current_term < u64::MAX,
        n.log.len() == 0 || n.log.last().index < u64::MAX,
        event matches Happening::Rpc { from, msg: Message::AppendEntriesResponse(resp) } ==> {
            &&& resp.conflict_index matches Some(at) ==> at < u64::MAX
            &&& n.unanswered.contains_key(from) && n.unanswered[from].len() > 0
                ==> n.unanswered[from][0].0 + n.unanswered[from][0].1 < u64::MAX
        },
    ensures
        cluster::admissible(n, event),
{
}

/// Requests, greetings, reads and heartbeats are dealt with whatever the state
/// of a node is.
pub proof fn requests_and_reads_are_always_dealt_with<R>(
    n: Node<R>,
    from: NodeId,
    id: NodeId,
    ask: RequestVoteRequest,
    req: Append,
    key: Seq<char>,
    client: R,
)
    ensures
        cluster::admissible(n, Happening::<R>::Rpc { from, msg: Message::Hello(id) }),
        cluster::admissible(n, Happening::<R>::Rpc { from, msg: Message::RequestVote(ask) }),
        cluster::admissible(n, Happening::<R>::Rpc { from, msg: Message::AppendEntries(req) }),
        cluster::admissible(n, Happening::Query { key, client }),
        cluster::admissible(n, Happening::<R>::HeartbeatDue),
{
}

/// A node starts as a follower that has committed and applied nothing, with the
/// log, the store and the term that it was given, and with its whole log saved.
pub proof fn nodes_start_as_followers<R>(
    config: NodeConfig,
    log: Seq<Entry>,
    store: Map<Seq<char>, Seq<u8>>,
    persistent: PersistentState,
    peers: Seq<NodeId>,
    timeouts: ElectionTimeoutConfig,
    now: Instant,
)
    requires
        config.peers@.len() < usize::MAX,
    ensures
        ({
            let n = cluster::started::<R>(config, log, store, persistent, peers, timeouts, now);
            &&& n.id == config.id
            &&& n.cluster_size == config.peers@.len() + 1
            &&& n.peers == peers
            &&& n.persistent == persistent
            &&& n.volatile.role == Role::Follower
            &&& n.volatile.commit_index == 0
            &&& n.volatile.last_applied == 0
            &&& n.volatile.last_heartbeat == now
            &&& n.log == log
            &&& n.store == store
            &&& n.known_leader is None
            &&& n.tally is None
            &&& n.pending == Map::<u64, (Term, R)>::empty()
            &&& n.next_index == Map::<NodeId, u64>::empty()
            &&& n.match_index == Map::<NodeId, u64>::empty()
            &&& n.unanswered == Map::<NodeId, Seq<(u64, u64)>>::empty()
            &&& !n.faulty
            &&& n.saved == log.len()
            &&& n.timeouts == timeouts
        }),
{
}

/// The dashboard calls each role by its name.
pub proof fn roles_are_called_by_name()
    ensures
        cluster::role_name(Role::Follower) == "Follower"@,
        cluster::role_name(Role::Candidate) == "Candidate"@,
        cluster::role_name(Role::Leader) == "Leader"@,
{
}

/// A read is answered from what is applied, by the leader alone; any other node
/// names the leader it knows.
pub proof fn reads_show_what_is_applied<R>(n: Node<R>, key: Seq<char>, client: R)
    ensures
        n.volatile.role != Role::Leader ==> cluster::queried(n, key, client) == (Act::Reply {
            client,
            answer: Answer::NotLeader { leader_hint: n.known_leader },
        }),
        n.volatile.role == Role::Leader && n.store.contains_key(key) ==> cluster::queried(
            n,
            key,
            client,
        ) == (Act::Reply { client, answer: Answer::Value(Some(n.store[key])) }),
        n.volatile.role == Role::Leader && !n.store.contains_key(key) ==> cluster::queried(
            n,
            key,
            client,
        ) == (Act::Reply { client, answer: Answer::Value(None) }),
{
}

/// A list of actions stands for all of them, in their order, and an action for
/// all that it says.
pub proof fn actions_stand_for_what_they_say<R>(
    actions: Seq<Action<R>>,
    i: int,
    to: NodeId,
    msg: RpcMessage,
    client: R,
    result: ClientCommandResult,
    answer: QueryResult,
)
    requires
        0 <= i < actions.len(),
    ensures
        cluster::acts(actions).len() == actions.len(),
        cluster::acts(actions)[i] == actions[i]@,
        (Action::<R>::Send { to, msg })@ == (Act::<R>::Send { to, msg: msg@ }),
        Action::<R>::ResetElectionTimer@ == Act::<R>::ResetElectionTimer,
        (Action::Respond { client, result })@ == (Act::Respond { client, result: result@ }),
        (Action::Reply { client, answer })@ == (Act::Reply { client, answer: answer@ }),
{
}

/// A result stands for the value in it, or for the leader that it names.
pub proof fn results_stand_for_their_value(value: Option<Vec<u8>>, hint: Option<NodeId>)
    ensures
        ClientCommandResult::Applied(value)@ == Outcome::Applied(kv_store::blob(value)),
        (ClientCommandResult::NotLeader { leader_hint: hint })@ == (Outcome::NotLeader {
            leader_hint: hint,
        }),
        QueryResult::Value(value)@ == Answer::Value(kv_store::blob(value)),
        (QueryResult::NotLeader { leader_hint: hint })@ == (Answer::NotLeader {
            leader_hint: hint,
        }),
{
}

/// An event stands for what happened, and a list of writes for all of them in
/// their order.
pub proof fn events_and_writes_stand_for_themselves<R>(
    from: NodeId,
    msg: RpcMessage,
    cmd: ClientCommand<R>,
    query: ClientQuery<R>,
    writes: Seq<WalWrite>,
    i: int,
    from_index: u64,
    entry: LogEntry,
)
    requires
        0 <= i < writes.len(),
    ensures
        (Event::<R>::Rpc { from, msg })@ == (Happening::<R>::Rpc { from, msg: msg@ }),
        Event::Command(cmd)@ == (Happening::Command {
            op: cmd.command@,
            client: cmd.respond_to,
        }),
        Event::Query(query)@ == (Happening::Query { key: query.key@, client: query.respond_to }),
        Event::<R>::HeartbeatDue@ == Happening::<R>::HeartbeatDue,
        Event::<R>::ElectionDue@ == Happening::<R>::ElectionDue,
        cluster::strokes(writes).len() == writes.len(),
        cluster::strokes(writes)[i] == writes[i]@,
        (WalWrite::Truncate { from_index })@ == (Stroke::Truncate { from_index }),
        WalWrite::Append(entry)@ == Stroke::Append(entry@),
{
}

/// A client that asks a follower gets to the leader with its next question: the
/// node that answers names the leader it knows, and the client asks that one
/// next, as long as it has not asked it yet.
pub proof fn redirected_clients_find_the_leader<R>(
    n: Node<R>,
    op: Op,
    client: R,
    now: Instant,
    trip: Itinerary,
    leader: NodeId,
    at: int,
)
    requires
        n.volatile.role != Role::Leader,
        !cluster::unsettled(n),
        n.known_leader == Some(leader),
        0 <= trip.asked < at < trip.order.len(),
        trip.order[at].0 == leader,
    ensures
        cluster::stepped(n, Happening::Command { op, client }, now).1[0] matches Act::Respond {
            client: told,
            result,
        } && {
            let reply = metrics_api::write_reply(result);
            let next = trip.answered(reply.is_leader, reply.leader_hint);
            &&& told == client
            &&& !reply.applied
            &&& 0 <= next.asked < next.order.len()
            &&& next.order[next.asked].0 == leader
        },
{
    safety::only_leaders_take_writes(n, op, client, now);
    client::named_leaders_are_asked_next(trip, leader, at);
}

/// The dashboard shows a node as it is: who it is and in which role and term,
/// how much it has committed and applied, how many entries it has, and the
/// leader it knows.
pub proof fn dashboards_show_the_node<R>(n: Node<R>, shown: ClusterSnapshot)
    requires
        log::numbered(n.log),
        n.log.len() <= u64::MAX,
    ensures
        cluster::health(n).node_id == n.id,
        cluster::health(n).role == (match n.volatile.role {
            Role::Follower => "Follower"@,
            Role::Candidate => "Candidate"@,
            Role::Leader => "Leader"@,
        }),
        cluster::health(n).current_term == n.persistent.current_term,
        cluster::health(n).commit_index == n.volatile.commit_index,
        cluster::health(n).last_applied == n.volatile.last_applied,
        cluster::health(n).log_len == n.log.len(),
        cluster::health(n).leader_hint == n.known_leader,
        shown@.node_id == shown.node_id,
        shown@.role == shown.role@,
        shown@.current_term == shown.current_term,
        shown@.commit_index == shown.commit_index,
        shown@.last_applied == shown.last_applied,
        shown@.log_len == shown.log_len,
        shown@.leader_hint == shown.leader_hint,
{
    if n.log.len() > 0 {
        assert(n.log[n.log.len() - 1].index == n.log.len());
    }
}

/// Four heartbeats fit into the shortest wait of a follower, and they are as far
/// apart as whole nanoseconds allow.
pub proof fn heartbeats_come_four_times_a_wait(timeouts: ElectionTimeoutConfig)
    ensures
        4 * cluster::heartbeat_nanos(timeouts) <= timeouts.min.nanos,
        timeouts.min.nanos < 4 * (cluster::heartbeat_nanos(timeouts) + 1),
{
}

} // verus!
