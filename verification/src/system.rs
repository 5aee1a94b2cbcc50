//! The whole cluster, and what can be said of all its nodes together.
//!
//! Nodes exchange messages over links. A link from one node to another is taken
//! to behave like a TCP connection, and like one that is opened again after it
//! broke: it hands messages over in the order in which they were sent, and each
//! at most once. It may delay them for as long as it likes, and it may lose any
//! of them. Nothing is assumed of messages on different links, nor of how fast
//! the nodes are. A node may stop at any time, and then stays silent: nodes
//! that start again are not part of the picture. Any write to a write-ahead log
//! may fail.
use std::time::Instant;
use vstd::prelude::*;

use crate::cluster::{self, Act, Happening, Node};
use crate::durability;
use crate::election;
use crate::kv_store::Op;
use crate::log::{self, Entry};
use crate::messages::{
    Append, AppendEntriesResponse, Message, RequestVoteRequest, RequestVoteResponse,
};
use crate::replication;
use crate::safety;
use crate::state::{NodeId, Role, Term, VolatileState};

verus! {

/// A vote, with the log of the voter when it was cast.
pub struct Cast {
    pub candidate: NodeId,
    pub log: Seq<Entry>,
}

/// An election that was won, with the log of the winner and those who voted
/// for it.
pub struct Crown {
    pub leader: NodeId,
    pub log: Seq<Entry>,
    pub voters: Set<NodeId>,
}

/// The cluster, with a record of what has happened so far.
#[verifier::reject_recursive_types(R)]
pub struct System<R> {
    pub nodes: Map<NodeId, Node<R>>,
    /// Every message ever sent: from whom, to whom, and what.
    pub sent: Set<(NodeId, NodeId, Message)>,
    /// The vote of each node in each term.
    pub votes: Map<(Term, NodeId), Cast>,
    /// The log each candidate of a term stood for election with.
    pub stood: Map<(Term, NodeId), Seq<Entry>>,
    /// The election of each term that had a leader.
    pub elected: Map<Term, Crown>,
    /// The log of the leader of each term, as it was last seen in office.
    pub script: Map<Term, Seq<Entry>>,
    /// How much of the log of a term's leader a node has accepted.
    pub acked: Map<(Term, NodeId), nat>,
    /// What leaders have committed: in which term, up to which index.
    pub commits: Set<(Term, nat)>,
}

/// How much a node has confirmed in a term: what it has accepted of the log of
/// the leader.
pub open spec fn confirmed<R>(s: System<R>, term: Term, id: NodeId) -> nat {
    if s.acked.contains_key((term, id)) {
        s.acked[(term, id)]
    } else {
        0
    }
}

/// The messages among some actions of a node.
pub open spec fn mail<R>(from: NodeId, deeds: Seq<Act<R>>) -> Set<(NodeId, NodeId, Message)> {
    Set::new(
        |letter: (NodeId, NodeId, Message)|
            letter.0 == from && exists|i: int|
                0 <= i < deeds.len() && #[trigger] deeds[i] == Act::<R>::Send {
                    to: letter.1,
                    msg: letter.2,
                },
    )
}

/// Where the entries of a request end in the leader's log.
pub open spec fn end_of(req: Append) -> int {
    req.prev_log_index + req.entries.len()
}

/// The event makes the node stand for election.
pub open spec fn stands<R>(n: Node<R>, event: Happening<R>) -> bool {
    event is ElectionDue && n.volatile.role != Role::Leader
}

/// The record of what has happened, after node `n` became `m` through an
/// event.
pub open spec fn noted<R>(
    s: System<R>,
    n: Node<R>,
    m: Node<R>,
    event: Happening<R>,
    letters: Set<(NodeId, NodeId, Message)>,
) -> System<R> {
    let id = n.id;
    let term = m.persistent.current_term;
    let leads = m.volatile.role == Role::Leader;
    System {
        nodes: s.nodes.insert(id, m),
        sent: s.sent.union(letters),
        votes: match m.persistent.voted_for {
            Some(candidate) => if s.votes.contains_key((term, id)) {
                s.votes
            } else {
                s.votes.insert((term, id), Cast { candidate, log: n.log })
            },
            None => s.votes,
        },
        stood: if stands(n, event) {
            s.stood.insert((term, id), n.log)
        } else {
            s.stood
        },
        elected: if leads && n.volatile.role != Role::Leader {
            s.elected.insert(
                term,
                Crown {
                    leader: id,
                    log: n.log,
                    voters: match event {
                        Happening::Rpc { from, .. } => n.tally->0.voters.insert(from),
                        _ => set![id],
                    },
                },
            )
        } else {
            s.elected
        },
        script: if leads {
            s.script.insert(term, m.log)
        } else {
            s.script
        },
        acked: if leads {
            s.acked.insert((term, id), m.log.len())
        } else {
            match event {
                Happening::Rpc { msg: Message::AppendEntries(req), .. } => if replication::accepts(
                    n.persistent,
                    n.log,
                    req,
                ) {
                    s.acked.insert(
                        (term, id),
                        vstd::math::max(confirmed(s, term, id) as int, end_of(req)) as nat,
                    )
                } else {
                    s.acked
                },
                _ => s.acked,
            }
        },
        commits: if leads && replication::commit_point(
            m.match_index,
            m.log,
            term,
            m.cluster_size,
            cluster::own_match(m),
        ) == Some(m.volatile.commit_index) {
            s.commits.insert((term, m.volatile.commit_index as nat))
        } else {
            s.commits
        },
    }
}

/// Every entry of a log is where the leader of its term put it, behind what
/// that leader had before it.
pub open spec fn rooted(script: Map<Term, Seq<Entry>>, log: Seq<Entry>) -> bool {
    forall|i: int|
        0 <= i < log.len() ==> {
            let term = (#[trigger] log[i]).term;
            script.contains_key(term) && log::begins(script[term], log.take(i + 1))
        }
}

/// `a` is at least as up-to-date as `b`.
pub open spec fn no_older(a: Seq<Entry>, b: Seq<Entry>) -> bool {
    log::last_term(a) > log::last_term(b) || (log::last_term(a) == log::last_term(b)
        && log::last_index(a) >= log::last_index(b))
}

/// A leader after `term`, up to `bound`, did not have the first `i` entries of
/// that term's leader.
pub open spec fn lost<R>(s: System<R>, term: Term, i: nat, bound: int) -> bool {
    exists|later: Term|
        {
            &&& term < later <= bound
            &&& #[trigger] s.elected.contains_key(later)
            &&& !log::begins(s.elected[later].log, s.script[term].take(i as int))
        }
}

/// The first `k` entries of a node's log are committed. What was committed in
/// the node's current term it has confirmed itself.
pub open spec fn sealed<R>(s: System<R>, id: NodeId, log: Seq<Entry>, term: Term, k: nat) -> bool {
    k == 0 || exists|t: Term, i: nat|
        {
            &&& #[trigger] s.commits.contains((t, i))
            &&& k <= i
            &&& t <= term
            &&& t == term ==> k <= confirmed(s, t, id)
            &&& log::begins(log, s.script[t].take(k as int))
        }
}

/// A candidate is where the record says, and those in its tally voted for it.
pub open spec fn candidate_ok<R>(s: System<R>, n: Node<R>) -> bool {
    let term = n.persistent.current_term;
    &&& n.tally matches Some(tally) && {
        &&& tally.cluster_size == n.cluster_size
        &&& forall|v: NodeId| #[trigger]
            tally.voters.contains(v) ==> s.votes.contains_key((term, v)) && s.votes[(
                term,
                v,
            )].candidate == n.id
    }
    &&& s.stood.contains_key((term, n.id))
    &&& s.stood[(term, n.id)] == n.log
    &&& forall|i: int| 0 <= i < n.log.len() ==> (#[trigger] n.log[i]).term < term
    &&& !(s.elected.contains_key(term) && s.elected[term].leader == n.id)
}

/// A leader was elected, its log is on record, and what it believes of its
/// followers they have confirmed.
pub open spec fn leader_ok<R>(s: System<R>, n: Node<R>) -> bool {
    let term = n.persistent.current_term;
    &&& s.elected.contains_key(term)
    &&& s.elected[term].leader == n.id
    &&& s.script.contains_key(term)
    &&& s.script[term] == n.log
    &&& confirmed(s, term, n.id) == n.log.len()
    &&& forall|f: NodeId| #[trigger]
        n.match_index.contains_key(f) ==> f != n.id && n.match_index[f] <= confirmed(s, term, f)
    &&& reaches(n)
}

/// A leader sends nobody what it does not have.
pub open spec fn reaches<R>(n: Node<R>) -> bool {
    forall|f: NodeId| #[trigger]
        n.next_index.contains_key(f) ==> n.next_index[f] <= n.log.len() + 1
}

/// Every client that waits does so for an entry that this node appended as the
/// leader of a term.
pub open spec fn waits_for_own<R>(s: System<R>, n: Node<R>) -> bool {
    forall|i: u64| #[trigger]
        n.pending.contains_key(i) ==> {
            let term = n.pending[i].0;
            &&& s.elected.contains_key(term)
            &&& s.elected[term].leader == n.id
            &&& 1 <= i <= s.script[term].len()
        }
}

pub open spec fn node_ok<R>(s: System<R>, id: NodeId) -> bool {
    let n = s.nodes[id];
    let term = n.persistent.current_term;
    &&& n.id == id
    &&& n.cluster_size == s.nodes.len()
    &&& !n.peers.contains(id)
    &&& n.peers.no_duplicates()
    &&& rooted(s.script, n.log)
    &&& forall|i: int| 0 <= i < n.log.len() ==> (#[trigger] n.log[i]).term <= term
    &&& n.persistent.voted_for matches Some(c) ==> s.votes.contains_key((term, id)) && s.votes[(
        term,
        id,
    )].candidate == c
    &&& n.volatile.role == Role::Candidate ==> candidate_ok(s, n)
    &&& n.volatile.role == Role::Leader ==> leader_ok(s, n)
    &&& sealed(s, id, n.log, term, n.volatile.commit_index as nat)
    &&& sealed(s, id, n.log, term, n.volatile.last_applied as nat)
    &&& waits_for_own(s, n)
}

pub open spec fn vote_ok<R>(s: System<R>, term: Term, v: NodeId) -> bool {
    let vote = s.votes[(term, v)];
    let p = s.nodes[v].persistent;
    &&& s.nodes.contains_key(v)
    &&& term <= p.current_term
    &&& term == p.current_term ==> p.voted_for == Some(vote.candidate)
    &&& rooted(s.script, vote.log)
    &&& s.stood.contains_key((term, vote.candidate))
    &&& no_older(s.stood[(term, vote.candidate)], vote.log)
}

pub open spec fn stand_ok<R>(s: System<R>, term: Term, c: NodeId) -> bool {
    s.nodes.contains_key(c) && 1 <= term <= s.nodes[c].persistent.current_term
}

pub open spec fn crown_ok<R>(s: System<R>, term: Term) -> bool {
    let crown = s.elected[term];
    let script = s.script[term];
    &&& s.stood.contains_key((term, crown.leader))
    &&& s.stood[(term, crown.leader)] == crown.log
    &&& crown.voters.subset_of(s.nodes.dom())
    &&& 2 * crown.voters.len() > s.nodes.len()
    &&& forall|v: NodeId| #[trigger]
        crown.voters.contains(v) ==> s.votes.contains_key((term, v)) && s.votes[(
            term,
            v,
        )].candidate == crown.leader
    &&& forall|i: int| 0 <= i < crown.log.len() ==> (#[trigger] crown.log[i]).term < term
    &&& s.script.contains_key(term)
    &&& log::begins(script, crown.log)
    &&& crown.log.len() < script.len()
    &&& forall|i: int|
        crown.log.len() <= i < script.len() ==> (#[trigger] script[i]).term == term
    &&& log::numbered(script)
    &&& rooted(s.script, script)
}

/// What a node has confirmed, it holds, held when it voted later and held
/// when a later leader counted its vote, unless a leader in between did not
/// have it.
pub open spec fn ack_ok<R>(s: System<R>, term: Term, v: NodeId) -> bool {
    &&& s.nodes.contains_key(v)
    &&& s.elected.contains_key(term)
    &&& s.acked[(term, v)] <= s.script[term].len()
    &&& term <= s.nodes[v].persistent.current_term
    &&& forall|i: nat|
        i <= s.acked[(term, v)] ==> #[trigger] log::begins(
            s.nodes[v].log,
            s.script[term].take(i as int),
        ) || lost(s, term, i, s.nodes[v].persistent.current_term as int)
    &&& forall|later: Term, i: nat|
        #![trigger s.votes.contains_key((later, v)), s.script[term].take(i as int)]
        s.votes.contains_key((later, v)) && term < later && i <= s.acked[(term, v)] ==> log::begins(
            s.votes[(later, v)].log,
            s.script[term].take(i as int),
        ) || lost(s, term, i, later as int)
    &&& forall|later: Term, i: nat|
        #![trigger s.elected.contains_key(later), s.script[term].take(i as int)]
        s.elected.contains_key(later) && s.elected[later].voters.contains(v) && term < later && i
            <= s.acked[(term, v)] ==> log::begins(
            s.votes[(later, v)].log,
            s.script[term].take(i as int),
        ) || lost(s, term, i, later - 1)
}

/// A request is a piece of the leader's log up to its end, which lies beyond
/// what the leader was elected with.
pub open spec fn request_ok<R>(s: System<R>, req: Append) -> bool {
    let script = s.script[req.term];
    let prev = req.prev_log_index as int;
    &&& s.elected[req.term].log.len() < end_of(req) <= script.len()
    &&& req.entries == script.subrange(prev, end_of(req))
    &&& prev > 0 ==> req.prev_log_term == script[prev - 1].term
    &&& req.leader_commit <= end_of(req)
    &&& req.leader_commit == 0 || exists|t: Term, i: nat|
        {
            &&& #[trigger] s.commits.contains((t, i))
            &&& req.leader_commit <= i
            &&& t <= req.term
            &&& log::begins(script, s.script[t].take(req.leader_commit as int))
        }
}

pub open spec fn letter_ok<R>(s: System<R>, from: NodeId, to: NodeId, msg: Message) -> bool {
    &&& s.nodes.contains_key(from)
    &&& from != to
    &&& match msg {
        Message::RequestVote(req) => {
            &&& req.candidate_id == from
            &&& s.stood.contains_key((req.term, from))
            &&& req.last_log_index == log::last_index(s.stood[(req.term, from)])
            &&& req.last_log_term == log::last_term(s.stood[(req.term, from)])
        },
        Message::RequestVoteResponse(resp) => resp.vote_granted ==> s.votes.contains_key(
            (resp.term, from),
        ) && s.votes[(resp.term, from)].candidate == to,
        Message::AppendEntries(req) => {
            &&& s.elected.contains_key(req.term)
            &&& s.elected[req.term].leader == from
            &&& req.leader_id == from
            &&& request_ok(s, req)
        },
        Message::AppendEntriesResponse(resp) => cluster::is_answer(resp) ==> {
            &&& s.elected.contains_key(resp.term)
            &&& s.elected[resp.term].leader == to
            &&& resp.conflict_index matches Some(c) ==> c <= s.script[resp.term].len()
        },
        Message::Hello(_) => true,
    }
}

/// A commit is an entry of the leader's own term that a majority has
/// confirmed.
pub open spec fn commit_ok<R>(s: System<R>, term: Term, i: nat) -> bool {
    &&& s.elected.contains_key(term)
    &&& 1 <= i <= s.script[term].len()
    &&& s.script[term][i - 1].term == term
    &&& exists|holders: Set<NodeId>|
        {
            &&& #[trigger] holders.subset_of(s.nodes.dom())
            &&& 2 * holders.len() > s.nodes.len()
            &&& forall|v: NodeId| #[trigger]
                holders.contains(v) ==> s.acked.contains_key((term, v)) && i <= s.acked[(term, v)]
        }
}

/// What holds of the nodes and of the record at all times.
pub open spec fn coherent<R>(s: System<R>) -> bool {
    &&& s.nodes.dom().finite()
    &&& s.script.dom() == s.elected.dom()
    &&& forall|id: NodeId| #[trigger] s.nodes.contains_key(id) ==> node_ok(s, id)
    &&& forall|term: Term, v: NodeId| #[trigger]
        s.votes.contains_key((term, v)) ==> vote_ok(s, term, v)
    &&& forall|term: Term, c: NodeId| #[trigger]
        s.stood.contains_key((term, c)) ==> stand_ok(s, term, c)
    &&& forall|term: Term| #[trigger] s.elected.contains_key(term) ==> crown_ok(s, term)
    &&& forall|term: Term, v: NodeId| #[trigger]
        s.acked.contains_key((term, v)) ==> ack_ok(s, term, v)
    &&& forall|from: NodeId, to: NodeId, msg: Message| #[trigger]
        s.sent.contains((from, to, msg)) ==> letter_ok(s, from, to, msg)
    &&& forall|term: Term, i: nat| #[trigger]
        s.commits.contains((term, i)) ==> commit_ok(s, term, i)
}

/// A log that is rooted is the beginning of the log of the leader of its last
/// entry's term.
proof fn lemma_rooted_tail(script: Map<Term, Seq<Entry>>, log: Seq<Entry>)
    requires
        rooted(script, log),
        log.len() > 0,
    ensures
        script.contains_key(log::last_term(log)),
        log::begins(script[log::last_term(log)], log),
{
    let i = log.len() - 1;
    assert(log[i].term == log::last_term(log));
    assert(log.take(i + 1) =~= log);
}

/// The beginning of a beginning is a beginning.
proof fn lemma_begins(a: Seq<Entry>, b: Seq<Entry>, c: Seq<Entry>)
    requires
        log::begins(a, b),
        log::begins(b, c),
    ensures
        log::begins(a, c),
{
    assert(a.take(c.len() as int) =~= a.take(b.len() as int).take(c.len() as int));
}

/// Of two beginnings of one log the shorter is a beginning of the longer.
proof fn lemma_nested(a: Seq<Entry>, b: Seq<Entry>, c: Seq<Entry>)
    requires
        log::begins(a, b),
        log::begins(a, c),
        c.len() <= b.len(),
    ensures
        log::begins(b, c),
{
    assert(b.take(c.len() as int) =~= a.take(b.len() as int).take(c.len() as int));
    assert(a.take(b.len() as int).take(c.len() as int) =~= a.take(c.len() as int));
}

/// Taking some of a log.
proof fn lemma_take(a: Seq<Entry>, i: int, j: int)
    requires
        0 <= i <= j <= a.len(),
    ensures
        log::begins(a, a.take(j)),
        log::begins(a.take(j), a.take(i)),
        a.take(j).take(i) == a.take(i),
{
    assert(a.take(j).take(i) =~= a.take(i));
}

/// Two majorities of the nodes have one in common.
proof fn lemma_overlap(members: Set<NodeId>, a: Set<NodeId>, b: Set<NodeId>) -> (v: NodeId)
    requires
        members.finite(),
        a.subset_of(members),
        b.subset_of(members),
        2 * a.len() > members.len(),
        2 * b.len() > members.len(),
    ensures
        a.contains(v),
        b.contains(v),
{
    vstd::set_lib::lemma_len_subset(a, members);
    vstd::set_lib::lemma_len_subset(b, members);
    if a.disjoint(b) {
        vstd::set_lib::lemma_set_disjoint_lens(a, b);
        vstd::set_lib::lemma_len_subset(a + b, members);
    }
    choose|v: NodeId| a.contains(v) && b.contains(v)
}

/// A leader of a later term has every entry that was committed: it never
/// loses what a client was told is safe.
pub proof fn later_leaders_have_what_is_committed<R>(s: System<R>, term: Term, i: nat, later: Term)
    requires
        coherent(s),
        s.commits.contains((term, i)),
        s.elected.contains_key(later),
        term < later,
    ensures
        log::begins(s.elected[later].log, s.script[term].take(i as int)),
    decreases later,
{
    let prefix = s.script[term].take(i as int);
    assert(commit_ok(s, term, i));
    assert(crown_ok(s, later));
    assert(crown_ok(s, term));
    let holders = choose|holders: Set<NodeId>|
        {
            &&& #[trigger] holders.subset_of(s.nodes.dom())
            &&& 2 * holders.len() > s.nodes.len()
            &&& forall|v: NodeId| #[trigger]
                holders.contains(v) ==> s.acked.contains_key((term, v)) && i <= s.acked[(term, v)]
        };
    let v = lemma_overlap(s.nodes.dom(), holders, s.elected[later].voters);
    assert(ack_ok(s, term, v));
    assert(vote_ok(s, later, v));
    let theirs = s.votes[(later, v)].log;
    let winner = s.elected[later].log;
    if !log::begins(theirs, prefix) {
        assert(lost(s, term, i, later - 1));
        let between = choose|between: Term|
            {
                &&& term < between <= later - 1
                &&& #[trigger] s.elected.contains_key(between)
                &&& !log::begins(s.elected[between].log, s.script[term].take(i as int))
            };
        later_leaders_have_what_is_committed(s, term, i, between);
    }
    assert(log::begins(theirs, prefix));
    // The voter's last term is at least that of the committed entry.
    lemma_rooted_tail(s.script, theirs);
    let last = log::last_term(theirs);
    assert(crown_ok(s, last));
    assert(theirs.take(i as int)[i - 1] == theirs[i - 1]);
    assert(prefix[i - 1] == s.script[term][i - 1]);
    assert(theirs[i - 1].term == term);
    lemma_terms_rise(s, last, i - 1, theirs.len() - 1);
    assert(s.script[last].take(theirs.len() as int)[i - 1] == s.script[last][i - 1]);
    assert(s.script[last].take(theirs.len() as int)[theirs.len() - 1] == s.script[last][
        theirs.len() - 1
    ]);
    assert(term <= last);
    assert(winner.len() > 0);
    assert(rooted(s.script, winner)) by {
        lemma_rooted_prefix(s.script, s.script[later], winner);
    }
    lemma_rooted_tail(s.script, winner);
    let top = log::last_term(winner);
    assert(winner[winner.len() - 1].term < later);
    assert(crown_ok(s, top));
    if top == last {
        assert(s.script[top][winner.len() - 1] == winner[winner.len() - 1]) by {
            assert(s.script[top].take(winner.len() as int)[winner.len() - 1] == s.script[top][
                winner.len() - 1
            ]);
        }
        assert(s.script[top].take(theirs.len() as int)[theirs.len() - 1] == theirs[theirs.len()
            - 1]);
        assert(winner.len() >= theirs.len());
        lemma_nested(s.script[top], winner, theirs);
        lemma_begins(winner, theirs, prefix);
    } else {
        assert(top > last);
        later_leaders_have_what_is_committed(s, term, i, top);
        let earlier = s.elected[top].log;
        assert(winner.len() > earlier.len()) by {
            if winner.len() <= earlier.len() {
                let k = winner.len() - 1;
                assert(s.script[top].take(winner.len() as int)[k] == s.script[top][k]);
                assert(s.script[top].take(earlier.len() as int)[k] == s.script[top][k]);
                assert(earlier[k].term < top);
            }
        }
        lemma_nested(s.script[top], winner, earlier);
        lemma_begins(winner, earlier, prefix);
    }
}

/// A beginning of a rooted log is rooted.
proof fn lemma_rooted_prefix(script: Map<Term, Seq<Entry>>, log: Seq<Entry>, prefix: Seq<Entry>)
    requires
        rooted(script, log),
        log::begins(log, prefix),
    ensures
        rooted(script, prefix),
{
    assert forall|i: int| 0 <= i < prefix.len() implies {
        let term = (#[trigger] prefix[i]).term;
        script.contains_key(term) && log::begins(script[term], prefix.take(i + 1))
    } by {
        assert(log.take(prefix.len() as int)[i] == log[i]);
        assert(prefix.take(i + 1) =~= log.take(i + 1));
    }
}

/// Terms never go down along the log of a leader.
proof fn lemma_terms_rise<R>(s: System<R>, term: Term, i: int, j: int)
    requires
        coherent(s),
        s.elected.contains_key(term),
        0 <= i <= j < s.script[term].len(),
    ensures
        s.script[term][i].term <= s.script[term][j].term <= term,
    decreases term,
{
    assert(crown_ok(s, term));
    let crown = s.elected[term];
    let script = s.script[term];
    if j < crown.log.len() {
        assert(script.take(crown.log.len() as int)[j] == script[j]);
        assert(script.take(crown.log.len() as int)[i] == script[i]);
        let below = crown.log[j].term;
        assert(script[j].term == below);
        assert(log::begins(s.script[below], script.take(j + 1)));
        assert(s.script[below].take(j + 1)[i] == s.script[below][i]);
        assert(s.script[below].take(j + 1)[j] == s.script[below][j]);
        assert(script.take(j + 1)[i] == script[i]);
        assert(script.take(j + 1)[j] == script[j]);
        lemma_terms_rise(s, below, i, j);
    } else if i < crown.log.len() {
        assert(script.take(crown.log.len() as int)[i] == script[i]);
        assert(crown.log[i].term < term);
    }
}

/// The record only grows: nothing that happened is taken back.
spec fn extends<R>(s: System<R>, t: System<R>) -> bool {
    &&& s.nodes.dom() == t.nodes.dom()
    &&& s.sent.subset_of(t.sent)
    &&& s.commits.subset_of(t.commits)
    &&& forall|key: (Term, NodeId)| #[trigger]
        s.votes.contains_key(key) ==> t.votes.contains_key(key) && t.votes[key] == s.votes[key]
    &&& forall|key: (Term, NodeId)| #[trigger]
        s.stood.contains_key(key) ==> t.stood.contains_key(key) && t.stood[key] == s.stood[key]
    &&& forall|term: Term| #[trigger]
        s.elected.contains_key(term) ==> t.elected.contains_key(term) && t.elected[term]
            == s.elected[term]
    &&& forall|term: Term| #[trigger]
        s.script.contains_key(term) ==> t.script.contains_key(term) && log::begins(
            t.script[term],
            s.script[term],
        )
    &&& forall|key: (Term, NodeId)| #[trigger]
        s.acked.contains_key(key) ==> t.acked.contains_key(key) && s.acked[key] <= t.acked[key]
}

proof fn lemma_same_take<R>(s: System<R>, t: System<R>, term: Term, i: int)
    requires
        extends(s, t),
        s.script.contains_key(term),
        0 <= i <= s.script[term].len(),
    ensures
        t.script[term].take(i) == s.script[term].take(i),
        i <= t.script[term].len(),
{
    lemma_take(t.script[term], i, s.script[term].len() as int);
}

proof fn lemma_rooted_stays<R>(s: System<R>, t: System<R>, log: Seq<Entry>)
    requires
        extends(s, t),
        rooted(s.script, log),
    ensures
        rooted(t.script, log),
{
    assert forall|i: int| 0 <= i < log.len() implies {
        let term = (#[trigger] log[i]).term;
        t.script.contains_key(term) && log::begins(t.script[term], log.take(i + 1))
    } by {
        let term = log[i].term;
        lemma_begins(t.script[term], s.script[term], log.take(i + 1));
    }
}

proof fn lemma_lost_stays<R>(s: System<R>, t: System<R>, term: Term, i: nat, bound: int, more: int)
    requires
        extends(s, t),
        s.script.contains_key(term),
        i <= s.script[term].len(),
        lost(s, term, i, bound),
        bound <= more,
    ensures
        lost(t, term, i, more),
{
    lemma_same_take(s, t, term, i as int);
    let later = choose|later: Term|
        {
            &&& term < later <= bound
            &&& #[trigger] s.elected.contains_key(later)
            &&& !log::begins(s.elected[later].log, s.script[term].take(i as int))
        };
    assert(t.elected.contains_key(later));
}

proof fn lemma_sealed_stays<R>(
    s: System<R>,
    t: System<R>,
    id: NodeId,
    log: Seq<Entry>,
    term: Term,
    k: nat,
)
    requires
        extends(s, t),
        coherent(s),
        sealed(s, id, log, term, k),
    ensures
        sealed(t, id, log, term, k),
{
    if k > 0 {
        let (c, i) = choose|c: Term, i: nat|
            {
                &&& #[trigger] s.commits.contains((c, i))
                &&& k <= i
                &&& c <= term
                &&& c == term ==> k <= confirmed(s, c, id)
                &&& log::begins(log, s.script[c].take(k as int))
            };
        assert(commit_ok(s, c, i));
        assert(crown_ok(s, c));
        lemma_same_take(s, t, c, k as int);
        assert(t.commits.contains((c, i)));
    }
}

/// A node that did not take part is none the worse.
proof fn lemma_bystander<R>(s: System<R>, t: System<R>, id: NodeId)
    requires
        coherent(s),
        extends(s, t),
        s.nodes.contains_key(id),
        t.nodes[id] == s.nodes[id],
        forall|term: Term| #[trigger]
            s.script.contains_key(term) && s.elected[term].leader == id ==> t.script[term]
                == s.script[term] && confirmed(t, term, id) == confirmed(s, term, id),
        forall|term: Term| #[trigger]
            t.elected.contains_key(term) && !s.elected.contains_key(term)
                ==> t.elected[term].leader != id,
    ensures
        node_ok(t, id),
{
    let n = s.nodes[id];
    let term = n.persistent.current_term;
    assert(node_ok(s, id));
    lemma_rooted_stays(s, t, n.log);
    lemma_sealed_stays(s, t, id, n.log, term, n.volatile.commit_index as nat);
    lemma_sealed_stays(s, t, id, n.log, term, n.volatile.last_applied as nat);
    if n.volatile.role == Role::Candidate {
        let tally = n.tally->0;
        assert forall|v: NodeId| #[trigger] tally.voters.contains(v) implies t.votes.contains_key(
            (term, v),
        ) && t.votes[(term, v)].candidate == n.id by {
            assert(s.votes.contains_key((term, v)));
        }
        assert(s.stood.contains_key((term, n.id)));
    }
    if n.volatile.role == Role::Leader {
        assert(s.elected.contains_key(term));
        assert forall|f: NodeId| #[trigger] n.match_index.contains_key(f) implies f != n.id
            && n.match_index[f] <= confirmed(t, term, f) by {
            if s.acked.contains_key((term, f)) {
                assert(t.acked.contains_key((term, f)));
            }
        }
    }
    assert(t.nodes.len() == s.nodes.len());
    lemma_waiting_stays(s, t, n, n);
}

/// Who waits for an entry on record waits for one on a longer record.
proof fn lemma_waiting_stays<R>(s: System<R>, t: System<R>, n: Node<R>, m: Node<R>)
    requires
        coherent(s),
        extends(s, t),
        waits_for_own(s, n),
        m.id == n.id,
        forall|i: u64| #[trigger]
            m.pending.contains_key(i) ==> (n.pending.contains_key(i) && n.pending[i]
                == m.pending[i]) || {
                &&& t.elected.contains_key(m.pending[i].0)
                &&& t.elected[m.pending[i].0].leader == n.id
                &&& 1 <= i <= t.script[m.pending[i].0].len()
            },
    ensures
        waits_for_own(t, m),
{
    assert forall|i: u64| #[trigger] m.pending.contains_key(i) implies {
        let term = m.pending[i].0;
        &&& t.elected.contains_key(term)
        &&& t.elected[term].leader == m.id
        &&& 1 <= i <= t.script[term].len()
    } by {
        if n.pending.contains_key(i) && n.pending[i] == m.pending[i] {
            let term = n.pending[i].0;
            assert(s.elected.contains_key(term));
            assert(s.script.contains_key(term)) by {
                assert(s.elected.dom().contains(term));
            }
        }
    }
}

proof fn lemma_crown_stays<R>(s: System<R>, t: System<R>, term: Term)
    requires
        coherent(s),
        extends(s, t),
        s.elected.contains_key(term),
        log::numbered(t.script[term]),
        forall|i: int|
            s.script[term].len() <= i < t.script[term].len() ==> (#[trigger] t.script[term][i]).term
                == term,
        rooted(t.script, t.script[term]),
    ensures
        crown_ok(t, term),
{
    assert(crown_ok(s, term));
    let crown = s.elected[term];
    assert(t.elected[term] == crown);
    assert(s.script.contains_key(term));
    lemma_begins(t.script[term], s.script[term], crown.log);
    assert(t.nodes.len() == s.nodes.len());
    assert(s.stood.contains_key((term, crown.leader)));
    assert forall|v: NodeId| #[trigger] crown.voters.contains(v) implies t.votes.contains_key(
        (term, v),
    ) && t.votes[(term, v)].candidate == crown.leader by {
        assert(s.votes.contains_key((term, v)));
    }
    assert forall|i: int| crown.log.len() <= i < t.script[term].len() implies (
    #[trigger] t.script[term][i]).term == term by {
        if i < s.script[term].len() {
            assert(t.script[term].take(s.script[term].len() as int)[i] == t.script[term][i]);
            assert(s.script[term][i].term == term);
        }
    }
}

proof fn lemma_letter_stays<R>(s: System<R>, t: System<R>, from: NodeId, to: NodeId, msg: Message)
    requires
        coherent(s),
        extends(s, t),
        s.sent.contains((from, to, msg)),
    ensures
        letter_ok(t, from, to, msg),
{
    assert(letter_ok(s, from, to, msg));
    assert(t.nodes.contains_key(from)) by {
        assert(s.nodes.dom().contains(from));
    }
    match msg {
        Message::RequestVote(req) => {
            assert(s.stood.contains_key((req.term, from)));
        },
        Message::RequestVoteResponse(resp) => {
            if resp.vote_granted {
                assert(s.votes.contains_key((resp.term, from)));
            }
        },
        Message::AppendEntries(req) => {
            assert(s.elected.contains_key(req.term));
            lemma_request_stays(s, t, req);
        },
        Message::AppendEntriesResponse(resp) => {
            if cluster::is_answer(resp) {
                assert(s.elected.contains_key(resp.term));
                assert(s.script.contains_key(resp.term)) by {
                    assert(s.elected.dom().contains(resp.term));
                }
            }
        },
        Message::Hello(_) => {},
    }
}

proof fn lemma_request_stays<R>(s: System<R>, t: System<R>, req: Append)
    requires
        coherent(s),
        extends(s, t),
        s.elected.contains_key(req.term),
        request_ok(s, req),
    ensures
        request_ok(t, req),
{
    let prev = req.prev_log_index as int;
    let end = end_of(req);
    let old_script = s.script[req.term];
    let script = t.script[req.term];
    assert(s.script.contains_key(req.term));
    assert(script.take(old_script.len() as int) == old_script);
    assert(script.subrange(prev, end) =~= old_script.subrange(prev, end)) by {
        assert forall|k: int| prev <= k < end implies script[k] == old_script[k] by {
            assert(script.take(old_script.len() as int)[k] == script[k]);
        }
    }
    if prev > 0 {
        assert(script.take(old_script.len() as int)[prev - 1] == script[prev - 1]);
    }
    if req.leader_commit > 0 {
        let (c, i) = choose|c: Term, i: nat|
            {
                &&& #[trigger] s.commits.contains((c, i))
                &&& req.leader_commit <= i
                &&& c <= req.term
                &&& log::begins(old_script, s.script[c].take(req.leader_commit as int))
            };
        assert(commit_ok(s, c, i));
        assert(crown_ok(s, c));
        lemma_same_take(s, t, c, req.leader_commit as int);
        lemma_begins(script, old_script, s.script[c].take(req.leader_commit as int));
        assert(t.commits.contains((c, i)));
    }
}

proof fn lemma_commit_stays<R>(s: System<R>, t: System<R>, term: Term, i: nat)
    requires
        coherent(s),
        extends(s, t),
        s.commits.contains((term, i)),
    ensures
        commit_ok(t, term, i),
{
    assert(commit_ok(s, term, i));
    assert(crown_ok(s, term));
    let holders = choose|holders: Set<NodeId>|
        {
            &&& #[trigger] holders.subset_of(s.nodes.dom())
            &&& 2 * holders.len() > s.nodes.len()
            &&& forall|v: NodeId| #[trigger]
                holders.contains(v) ==> s.acked.contains_key((term, v)) && i <= s.acked[(term, v)]
        };
    assert(holders.subset_of(t.nodes.dom()));
    assert(t.nodes.len() == s.nodes.len());
    assert forall|v: NodeId| #[trigger] holders.contains(v) implies t.acked.contains_key((term, v))
        && i <= t.acked[(term, v)] by {
        assert(s.acked.contains_key((term, v)));
    }
    let len = s.script[term].len() as int;
    assert(t.script[term].take(len)[i - 1] == t.script[term][i - 1]);
}

/// What a node has confirmed it still holds, unless a later leader did not
/// have it.
spec fn keeps_word<R>(s: System<R>, term: Term, v: NodeId) -> bool {
    &&& s.elected.contains_key(term)
    &&& s.acked[(term, v)] <= s.script[term].len()
    &&& term <= s.nodes[v].persistent.current_term
    &&& forall|i: nat|
        i <= s.acked[(term, v)] ==> #[trigger] log::begins(
            s.nodes[v].log,
            s.script[term].take(i as int),
        ) || lost(s, term, i, s.nodes[v].persistent.current_term as int)
}

/// New votes are those of node `id` in its present term.
spec fn votes_grow<R>(s: System<R>, t: System<R>, id: NodeId) -> bool {
    forall|key: (Term, NodeId)| #[trigger]
        t.votes.contains_key(key) && !s.votes.contains_key(key) ==> {
            &&& key == (t.nodes[id].persistent.current_term, id)
            &&& t.votes[key].log == s.nodes[id].log
            &&& s.nodes[id].persistent.current_term <= key.0
            &&& t.nodes[id].persistent.voted_for == Some(t.votes[key].candidate)
            &&& t.stood.contains_key((key.0, t.votes[key].candidate))
            &&& no_older(t.stood[(key.0, t.votes[key].candidate)], t.votes[key].log)
        }
}

/// A new leader is node `id` in its present term. It had the votes before, or
/// is alone and has just cast its own.
spec fn crowns_grow<R>(s: System<R>, t: System<R>, id: NodeId) -> bool {
    forall|term: Term| #[trigger]
        t.elected.contains_key(term) && !s.elected.contains_key(term) ==> {
            &&& term == t.nodes[id].persistent.current_term
            &&& t.elected[term].leader == id
            &&& crown_ok(t, term)
            &&& forall|v: NodeId| #[trigger]
                t.elected[term].voters.contains(v) ==> s.votes.contains_key((term, v)) || (v == id
                    && s.nodes[id].persistent.current_term < term)
        }
}

proof fn lemma_ack_stays<R>(s: System<R>, t: System<R>, id: NodeId, term: Term, v: NodeId)
    requires
        coherent(s),
        extends(s, t),
        s.nodes.contains_key(id),
        forall|a: Term, b: NodeId| #[trigger] t.votes.contains_key((a, b)) ==> vote_ok(t, a, b),
        forall|a: Term| #[trigger] t.elected.contains_key(a) ==> crown_ok(t, a),
        votes_grow(s, t, id),
        crowns_grow(s, t, id),
        t.nodes.contains_key(v),
        t.acked.contains_key((term, v)),
        keeps_word(t, term, v),
        term == t.nodes[v].persistent.current_term || (s.acked.contains_key((term, v))
            && s.acked[(term, v)] == t.acked[(term, v)]),
    ensures
        ack_ok(t, term, v),
{
    let most = t.acked[(term, v)];
    assert forall|later: Term, i: nat|
        #![trigger t.votes.contains_key((later, v)), t.script[term].take(i as int)]
        t.votes.contains_key((later, v)) && term < later && i <= most implies log::begins(
        t.votes[(later, v)].log,
        t.script[term].take(i as int),
    ) || lost(t, term, i, later as int) by {
        assert(vote_ok(t, later, v));
        assert(ack_ok(s, term, v));
        lemma_same_take(s, t, term, i as int);
        if s.votes.contains_key((later, v)) {
            if !log::begins(s.votes[(later, v)].log, s.script[term].take(i as int)) {
                lemma_lost_stays(s, t, term, i, later as int, later as int);
            }
        } else {
            let at = s.nodes[v].persistent.current_term as int;
            if !log::begins(s.nodes[v].log, s.script[term].take(i as int)) {
                lemma_lost_stays(s, t, term, i, at, later as int);
            }
        }
    }
    assert forall|later: Term, i: nat|
        #![trigger t.elected.contains_key(later), t.script[term].take(i as int)]
        t.elected.contains_key(later) && t.elected[later].voters.contains(v) && term < later && i
            <= most implies log::begins(t.votes[(later, v)].log, t.script[term].take(i as int)) || lost(
        t,
        term,
        i,
        later - 1,
    ) by {
        assert(crown_ok(t, later));
        assert(vote_ok(t, later, v));
        assert(ack_ok(s, term, v));
        lemma_same_take(s, t, term, i as int);
        let prefix = s.script[term].take(i as int);
        if s.elected.contains_key(later) {
            assert(crown_ok(s, later));
            assert(s.votes.contains_key((later, v)));
            if !log::begins(s.votes[(later, v)].log, prefix) {
                lemma_lost_stays(s, t, term, i, later - 1, later - 1);
            }
        } else if s.votes.contains_key((later, v)) {
            if !log::begins(s.votes[(later, v)].log, prefix) {
                assert(lost(s, term, i, later as int));
                assert(lost(s, term, i, later - 1)) by {
                    let between = choose|between: Term|
                        {
                            &&& term < between <= later
                            &&& #[trigger] s.elected.contains_key(between)
                            &&& !log::begins(s.elected[between].log, prefix)
                        };
                    assert(between != later);
                }
                lemma_lost_stays(s, t, term, i, later - 1, later - 1);
            }
        } else {
            let at = s.nodes[v].persistent.current_term as int;
            if !log::begins(s.nodes[v].log, prefix) {
                lemma_lost_stays(s, t, term, i, at, later - 1);
            }
        }
    }
}

/// From `s` to `t` node `id` has dealt with an event, and whatever it added to
/// the record is in order.
spec fn evolves<R>(s: System<R>, t: System<R>, id: NodeId) -> bool {
    let n = s.nodes[id];
    let m = t.nodes[id];
    let term = m.persistent.current_term;
    &&& extends(s, t)
    &&& s.nodes.contains_key(id)
    &&& t.script.dom() == t.elected.dom()
    &&& forall|o: NodeId| o != id ==> #[trigger] t.nodes[o] == s.nodes[o]
    &&& election::keeps_votes(n.persistent, m.persistent)
    &&& node_ok(t, id)
    &&& votes_grow(s, t, id)
    &&& crowns_grow(s, t, id)
    &&& forall|key: (Term, NodeId)| #[trigger]
        t.stood.contains_key(key) && !s.stood.contains_key(key) ==> key == (term, id) && term >= 1
    &&& forall|a: Term| #[trigger]
        s.script.contains_key(a) ==> t.script[a] == s.script[a] || {
            &&& a == term
            &&& s.elected[a].leader == id
            &&& log::numbered(t.script[a])
            &&& forall|i: int|
                s.script[a].len() <= i < t.script[a].len() ==> (#[trigger] t.script[a][i]).term == a
            &&& rooted(t.script, t.script[a])
        }
    &&& forall|key: (Term, NodeId)| #[trigger]
        t.acked.contains_key(key) ==> key == (term, id) || (s.acked.contains_key(key)
            && t.acked[key] == s.acked[key])
    &&& forall|a: Term| #[trigger] t.acked.contains_key((a, id)) ==> keeps_word(t, a, id)
    &&& forall|from: NodeId, to: NodeId, msg: Message| #[trigger]
        t.sent.contains((from, to, msg)) && !s.sent.contains((from, to, msg)) ==> letter_ok(
            t,
            from,
            to,
            msg,
        )
    &&& forall|a: Term, i: nat| #[trigger]
        t.commits.contains((a, i)) && !s.commits.contains((a, i)) ==> commit_ok(t, a, i)
}

/// The record goes on, and the cluster is sound.
spec fn carries_on<R>(s: System<R>, t: System<R>) -> bool {
    extends(s, t) && coherent(t)
}

proof fn lemma_evolution_is_sound<R>(s: System<R>, t: System<R>, id: NodeId)
    requires
        coherent(s),
        evolves(s, t, id),
    ensures
        coherent(t),
{
    let n = s.nodes[id];
    let m = t.nodes[id];
    let now = m.persistent.current_term;
    assert(node_ok(s, id));
    assert forall|o: NodeId| #[trigger] t.nodes.contains_key(o) implies node_ok(t, o) by {
        assert(s.nodes.dom().contains(o));
        if o != id {
            assert(t.nodes[o] == s.nodes[o]);
            assert forall|a: Term| #[trigger]
                s.script.contains_key(a) && s.elected[a].leader == o implies t.script[a]
                == s.script[a] && confirmed(t, a, o) == confirmed(s, a, o) by {
                if s.acked.contains_key((a, o)) {
                    assert(t.acked.contains_key((a, o)));
                }
            }
            lemma_bystander(s, t, o);
        }
    }
    assert forall|a: Term, v: NodeId| #[trigger] t.votes.contains_key((a, v)) implies vote_ok(
        t,
        a,
        v,
    ) by {
        if s.votes.contains_key((a, v)) {
            assert(vote_ok(s, a, v));
            let vote = s.votes[(a, v)];
            assert(s.nodes.dom().contains(v));
            assert(t.nodes.contains_key(v));
            lemma_rooted_stays(s, t, vote.log);
            assert(s.stood.contains_key((a, vote.candidate)));
            if v != id {
                assert(t.nodes[v] == s.nodes[v]);
            }
        } else {
            assert(s.nodes.dom().contains(id));
            lemma_rooted_stays(s, t, n.log);
        }
    }
    assert forall|a: Term, c: NodeId| #[trigger] t.stood.contains_key((a, c)) implies stand_ok(
        t,
        a,
        c,
    ) by {
        assert(s.nodes.dom().contains(id));
        if s.stood.contains_key((a, c)) {
            assert(stand_ok(s, a, c));
            assert(s.nodes.dom().contains(c));
            if c != id {
                assert(t.nodes[c] == s.nodes[c]);
            }
        }
    }
    assert forall|a: Term| #[trigger] t.elected.contains_key(a) implies crown_ok(t, a) by {
        if s.elected.contains_key(a) {
            assert(s.script.contains_key(a));
            assert(crown_ok(s, a));
            if t.script[a] == s.script[a] {
                lemma_rooted_stays(s, t, s.script[a]);
            }
            lemma_crown_stays(s, t, a);
        }
    }
    assert forall|a: Term, v: NodeId| #[trigger] t.acked.contains_key((a, v)) implies ack_ok(
        t,
        a,
        v,
    ) by {
        assert(s.nodes.dom().contains(id));
        if v != id {
            assert(s.acked.contains_key((a, v)));
            assert(ack_ok(s, a, v));
            assert(s.nodes.dom().contains(v));
            assert(t.nodes[v] == s.nodes[v]);
            assert(s.elected.contains_key(a));
            assert(s.script.contains_key(a));
            lemma_word_stays(s, t, a, v);
        }
        lemma_ack_stays(s, t, id, a, v);
    }
    assert forall|from: NodeId, to: NodeId, msg: Message| #[trigger]
        t.sent.contains((from, to, msg)) implies letter_ok(t, from, to, msg) by {
        if s.sent.contains((from, to, msg)) {
            lemma_letter_stays(s, t, from, to, msg);
        }
    }
    assert forall|a: Term, i: nat| #[trigger] t.commits.contains((a, i)) implies commit_ok(
        t,
        a,
        i,
    ) by {
        if s.commits.contains((a, i)) {
            lemma_commit_stays(s, t, a, i);
        }
    }
}

/// A node that did not take part still holds what it confirmed.
proof fn lemma_word_stays<R>(s: System<R>, t: System<R>, term: Term, v: NodeId)
    requires
        coherent(s),
        extends(s, t),
        s.acked.contains_key((term, v)),
        t.acked[(term, v)] == s.acked[(term, v)],
        t.nodes[v] == s.nodes[v],
    ensures
        keeps_word(t, term, v),
{
    assert(ack_ok(s, term, v));
    assert(s.elected.contains_key(term));
    assert(s.script.contains_key(term));
    let most = s.acked[(term, v)];
    let at = s.nodes[v].persistent.current_term as int;
    lemma_same_take(s, t, term, most as int);
    assert forall|i: nat| i <= most implies #[trigger] log::begins(
        t.nodes[v].log,
        t.script[term].take(i as int),
    ) || lost(t, term, i, at) by {
        lemma_same_take(s, t, term, i as int);
        if !log::begins(s.nodes[v].log, s.script[term].take(i as int)) {
            lemma_lost_stays(s, t, term, i, at, at);
        }
    }
}

/// What is committed stays so in later terms and for fewer entries.
proof fn lemma_sealed_less<R>(
    s: System<R>,
    id: NodeId,
    log: Seq<Entry>,
    term: Term,
    k: nat,
    later: Term,
    fewer: nat,
)
    requires
        coherent(s),
        sealed(s, id, log, term, k),
        term <= later,
        fewer <= k,
    ensures
        sealed(s, id, log, later, fewer),
{
    if fewer > 0 {
        let (c, i) = choose|c: Term, i: nat|
            {
                &&& #[trigger] s.commits.contains((c, i))
                &&& k <= i
                &&& c <= term
                &&& c == term ==> k <= confirmed(s, c, id)
                &&& log::begins(log, s.script[c].take(k as int))
            };
        assert(commit_ok(s, c, i));
        lemma_take(s.script[c], fewer as int, k as int);
        lemma_begins(log, s.script[c].take(k as int), s.script[c].take(fewer as int));
        assert(s.commits.contains((c, i)));
    }
}

/// A rooted log is numbered.
proof fn lemma_rooted_is_numbered<R>(s: System<R>, log: Seq<Entry>)
    requires
        coherent(s),
        rooted(s.script, log),
    ensures
        log::numbered(log),
        log::last_index(log) == log.len(),
{
    assert forall|i: int| 0 <= i < log.len() implies (#[trigger] log[i]).index == i + 1 by {
        let term = log[i].term;
        assert(s.script.contains_key(term));
        assert(s.elected.dom().contains(term));
        assert(s.elected.contains_key(term));
        assert(crown_ok(s, term));
        let script = s.script[term];
        assert(script.take(i + 1)[i] == script[i]);
        assert(log.take(i + 1)[i] == log[i]);
    }
    if log.len() > 0 {
        assert(log[log.len() - 1].index == log.len());
    }
}

/// What a leader can commit now is confirmed by a majority.
proof fn lemma_commit_is_ok<R>(t: System<R>, id: NodeId)
    requires
        t.nodes.dom().finite(),
        t.nodes.contains_key(id),
        node_ok(t, id),
        t.nodes[id].volatile.role == Role::Leader,
        forall|term: Term, v: NodeId| #[trigger]
            t.acked.contains_key((term, v)) ==> t.nodes.contains_key(v),
        log::last_index(t.nodes[id].log) == t.nodes[id].log.len(),
        replication::commit_point(
            t.nodes[id].match_index,
            t.nodes[id].log,
            t.nodes[id].persistent.current_term,
            t.nodes[id].cluster_size,
            cluster::own_match(t.nodes[id]),
        ) == Some(t.nodes[id].volatile.commit_index),
    ensures
        commit_ok(
            t,
            t.nodes[id].persistent.current_term,
            t.nodes[id].volatile.commit_index as nat,
        ),
{
    let m = t.nodes[id];
    let term = m.persistent.current_term;
    let i = m.volatile.commit_index;
    let last = cluster::own_match(m);
    replication::there_is_a_commit_point(m.match_index, m.log, term, m.cluster_size, last);
    assert(replication::committable(m.match_index, m.log, term, m.cluster_size, last, i));
    let followers = replication::holders(m.match_index, i);
    assert forall|v: NodeId| #[trigger] followers.contains(v) implies t.acked.contains_key(
        (term, v),
    ) && i <= t.acked[(term, v)] && v != id by {
        assert(m.match_index.contains_key(v));
    }
    assert(followers.subset_of(t.nodes.dom()));
    vstd::set_lib::lemma_len_subset(followers, t.nodes.dom());
    let holders = followers.insert(id);
    assert(!followers.contains(id));
    assert(holders.len() == followers.len() + 1);
    assert(t.acked.contains_key((term, id))) by {
        assert(confirmed(t, term, id) == m.log.len());
    }
    assert(holders.subset_of(t.nodes.dom()));
    assert(2 * holders.len() > t.nodes.len());
}

/// Node `n` may become `m` in a turn that makes no new leader and takes no
/// entries from one.
spec fn turns<R>(s: System<R>, n: Node<R>, m: Node<R>, event: Happening<R>) -> bool {
    let term = m.persistent.current_term;
    let leads = m.volatile.role == Role::Leader;
    let stood = if stands(n, event) {
        s.stood.insert((term, n.id), n.log)
    } else {
        s.stood
    };
    &&& m.id == n.id
    &&& m.cluster_size == n.cluster_size
    &&& m.peers == n.peers
    &&& m.volatile.last_applied == n.volatile.last_applied
    &&& election::keeps_votes(n.persistent, m.persistent)
    &&& leads ==> n.volatile.role == Role::Leader && n.persistent.current_term == term
    &&& stands(n, event) ==> n.persistent.current_term < term
    &&& m.log == n.log || (leads && exists|e: Entry|
        {
            &&& m.log == #[trigger] n.log.push(e)
            &&& e.term == term
            &&& e.index == n.log.len() + 1
        })
    &&& m.volatile.commit_index == n.volatile.commit_index || (leads && replication::commit_point(
        m.match_index,
        m.log,
        term,
        m.cluster_size,
        cluster::own_match(m),
    ) == Some(m.volatile.commit_index))
    &&& event matches Happening::Rpc { msg: Message::AppendEntries(req), .. } ==> leads
        || !replication::accepts(n.persistent, n.log, req)
    &&& leads ==> reaches(m)
    &&& forall|i: u64| #[trigger]
        m.pending.contains_key(i) ==> (n.pending.contains_key(i) && n.pending[i] == m.pending[i])
            || (leads && 1 <= i <= m.log.len() && m.pending[i].0 == term)
    &&& leads ==> forall|f: NodeId| #[trigger]
        m.match_index.contains_key(f) ==> f != n.id && m.match_index[f] <= confirmed(s, term, f)
    &&& m.persistent.voted_for matches Some(c) ==> if s.votes.contains_key((term, n.id)) {
        s.votes[(term, n.id)].candidate == c
    } else {
        stood.contains_key((term, c)) && no_older(stood[(term, c)], n.log)
    }
}

proof fn lemma_turn<R>(
    s: System<R>,
    id: NodeId,
    m: Node<R>,
    event: Happening<R>,
    letters: Set<(NodeId, NodeId, Message)>,
)
    requires
        coherent(s),
        s.nodes.contains_key(id),
        turns(s, s.nodes[id], m, event),
        m.volatile.role == Role::Candidate ==> candidate_ok(
            noted(s, s.nodes[id], m, event, letters),
            m,
        ),
        forall|from: NodeId, to: NodeId, msg: Message| #[trigger]
            letters.contains((from, to, msg)) ==> letter_ok(
                noted(s, s.nodes[id], m, event, letters),
                from,
                to,
                msg,
            ),
    ensures
        carries_on(s, noted(s, s.nodes[id], m, event, letters)),
{
    let n = s.nodes[id];
    let t = noted(s, n, m, event, letters);
    let term = m.persistent.current_term;
    let leads = m.volatile.role == Role::Leader;
    assert(node_ok(s, id));
    assert(t.nodes.dom() =~= s.nodes.dom());
    if leads {
        assert(s.elected.contains_key(term));
        assert(s.script[term] == n.log);
        assert(log::begins(m.log, n.log)) by {
            assert(m.log.take(n.log.len() as int) =~= n.log);
        }
    }
    assert(extends(s, t)) by {
        assert forall|key: (Term, NodeId)| #[trigger] s.stood.contains_key(
            key,
        ) implies t.stood.contains_key(key) && t.stood[key] == s.stood[key] by {
            assert(stand_ok(s, key.0, key.1));
        }
        assert forall|a: Term| #[trigger] s.script.contains_key(a) implies t.script.contains_key(a)
            && log::begins(t.script[a], s.script[a]) by {
            if a != term || !leads {
                assert(s.script[a].take(s.script[a].len() as int) =~= s.script[a]);
            }
        }
        assert forall|key: (Term, NodeId)| #[trigger] s.acked.contains_key(
            key,
        ) implies t.acked.contains_key(key) && s.acked[key] <= t.acked[key] by {}
    }
    assert(t.script.dom() =~= t.elected.dom());
    lemma_rooted_is_numbered(s, n.log);
    assert(leads ==> log::numbered(m.log) && log::last_index(m.log) == m.log.len());
    lemma_rooted_stays(s, t, n.log);
    assert(rooted(t.script, m.log)) by {
        if m.log != n.log {
            assert forall|i: int| 0 <= i < m.log.len() implies {
                let a = (#[trigger] m.log[i]).term;
                t.script.contains_key(a) && log::begins(t.script[a], m.log.take(i + 1))
            } by {
                if i < n.log.len() {
                    assert(m.log[i] == n.log[i]);
                    assert(m.log.take(i + 1) =~= n.log.take(i + 1));
                } else {
                    assert(m.log.take(i + 1) =~= m.log);
                }
            }
        }
    }
    assert forall|i: int| 0 <= i < m.log.len() implies (#[trigger] m.log[i]).term <= term by {
        if i < n.log.len() {
            assert(m.log[i] == n.log[i]);
        }
    }
    // The votes.
    assert(votes_grow(s, t, id));
    assert(crowns_grow(s, t, id));
    if m.persistent.voted_for is Some {
        assert(t.votes.contains_key((term, id)));
    }
    // What it holds.
    assert forall|a: Term| #[trigger] t.acked.contains_key((a, id)) implies keeps_word(
        t,
        a,
        id,
    ) by {
        if leads && a == term {
            assert(t.elected.contains_key(term));
            assert forall|i: nat| i <= t.acked[(a, id)] implies #[trigger] log::begins(
                t.nodes[id].log,
                t.script[a].take(i as int),
            ) || lost(t, a, i, term as int) by {
                lemma_take(m.log, i as int, m.log.len() as int);
            }
        } else {
            assert(s.acked.contains_key((a, id)));
            lemma_word_grows(s, t, a, id);
        }
    }
    // What is committed.
    let was = n.persistent.current_term;
    lemma_sealed_grows(s, t, id, n.log, m.log, was, n.volatile.commit_index as nat, term);
    lemma_sealed_grows(s, t, id, n.log, m.log, was, n.volatile.last_applied as nat, term);
    if m.volatile.commit_index != n.volatile.commit_index {
        lemma_point_is_sealed(t, id, m);
    }
    assert(leads ==> leader_ok(t, m)) by {
        if leads {
            assert forall|f: NodeId| #[trigger] m.match_index.contains_key(f) implies f != m.id
                && m.match_index[f] <= confirmed(t, term, f) by {
                if s.acked.contains_key((term, f)) {
                    assert(t.acked.contains_key((term, f)));
                }
            }
        }
    }
    assert(t.nodes.len() == s.nodes.len());
    lemma_waiting_stays(s, t, n, m);
    assert(node_ok(t, id));
    assert forall|a: Term, i: nat| #[trigger]
        t.commits.contains((a, i)) && !s.commits.contains((a, i)) implies commit_ok(t, a, i) by {
        lemma_ackers_are_nodes(s, t, id);
        lemma_commit_is_ok(t, id);
    }
    assert(evolves(s, t, id));
    lemma_evolution_is_sound(s, t, id);
}

/// What is committed in a log is committed in a longer one, later.
proof fn lemma_sealed_grows<R>(
    s: System<R>,
    t: System<R>,
    id: NodeId,
    log: Seq<Entry>,
    longer: Seq<Entry>,
    term: Term,
    k: nat,
    later: Term,
)
    requires
        coherent(s),
        extends(s, t),
        sealed(s, id, log, term, k),
        log::begins(longer, log) || longer == log,
        term <= later,
    ensures
        sealed(t, id, longer, later, k),
{
    lemma_sealed_less(s, id, log, term, k, later, k);
    if k > 0 {
        let (c, i) = choose|c: Term, i: nat|
            {
                &&& #[trigger] s.commits.contains((c, i))
                &&& k <= i
                &&& c <= later
                &&& c == later ==> k <= confirmed(s, c, id)
                &&& log::begins(log, s.script[c].take(k as int))
            };
        assert(commit_ok(s, c, i));
        assert(s.elected.contains_key(c));
        assert(s.script.contains_key(c));
        lemma_same_take(s, t, c, k as int);
        if longer != log {
            lemma_begins(longer, log, s.script[c].take(k as int));
        }
        assert(t.commits.contains((c, i)));
    }
}

/// What a leader commits now is committed.
proof fn lemma_point_is_sealed<R>(t: System<R>, id: NodeId, m: Node<R>)
    requires
        t.script.contains_key(m.persistent.current_term),
        t.script[m.persistent.current_term] == m.log,
        confirmed(t, m.persistent.current_term, id) == m.log.len(),
        t.commits.contains((m.persistent.current_term, m.volatile.commit_index as nat)),
        replication::commit_point(
            m.match_index,
            m.log,
            m.persistent.current_term,
            m.cluster_size,
            cluster::own_match(m),
        ) == Some(m.volatile.commit_index),
    ensures
        sealed(
            t,
            id,
            m.log,
            m.persistent.current_term,
            m.volatile.commit_index as nat,
        ),
{
    let term = m.persistent.current_term;
    let i = m.volatile.commit_index;
    let last = cluster::own_match(m);
    replication::there_is_a_commit_point(m.match_index, m.log, term, m.cluster_size, last);
    assert(replication::committable(m.match_index, m.log, term, m.cluster_size, last, i));
    lemma_take(m.log, i as int, m.log.len() as int);
    assert(m.log.take(m.log.len() as int) =~= m.log);
    assert(t.commits.contains((term, i as nat)));
}

/// Those who elected a node.
spec fn electors<R>(n: Node<R>, event: Happening<R>) -> Set<NodeId> {
    match event {
        Happening::Rpc { from, .. } => n.tally->0.voters.insert(from),
        _ => set![n.id],
    }
}

/// Node `n` becomes `m`, the leader of a term that had none.
spec fn rises<R>(s: System<R>, n: Node<R>, m: Node<R>, event: Happening<R>) -> bool {
    let term = m.persistent.current_term;
    let stands = event is ElectionDue;
    &&& m.id == n.id
    &&& m.cluster_size == n.cluster_size
    &&& m.peers == n.peers
    &&& m.pending == n.pending
    &&& reaches(m)
    &&& m.volatile.last_applied == n.volatile.last_applied
    &&& election::keeps_votes(n.persistent, m.persistent)
    &&& n.volatile.role != Role::Leader
    &&& m.volatile.role == Role::Leader
    &&& exists|e: Entry|
        {
            &&& m.log == #[trigger] n.log.push(e)
            &&& e.term == term
            &&& e.index == n.log.len() + 1
        }
    &&& m.volatile.commit_index == n.volatile.commit_index || replication::commit_point(
        m.match_index,
        m.log,
        term,
        m.cluster_size,
        cluster::own_match(m),
    ) == Some(m.volatile.commit_index)
    &&& forall|f: NodeId| #[trigger]
        m.match_index.contains_key(f) ==> f != n.id && m.match_index[f] == 0
    &&& m.persistent.voted_for matches Some(c) ==> if s.votes.contains_key((term, n.id)) {
        s.votes[(term, n.id)].candidate == c
    } else {
        stands && c == n.id
    }
    &&& if stands {
        &&& n.persistent.current_term < term
        &&& m.persistent.voted_for == Some(n.id)
    } else {
        &&& n.persistent.current_term == term
        &&& s.stood.contains_key((term, n.id))
        &&& s.stood[(term, n.id)] == n.log
        &&& forall|v: NodeId| #[trigger]
            electors(n, event).contains(v) ==> s.votes.contains_key((term, v)) && s.votes[(
                term,
                v,
            )].candidate == n.id
    }
    &&& 2 * electors(n, event).len() > s.nodes.len()
    &&& forall|i: int| 0 <= i < n.log.len() ==> (#[trigger] n.log[i]).term < term
    &&& !s.elected.contains_key(term)
}

#[verifier::rlimit(40)]
proof fn lemma_coronation<R>(
    s: System<R>,
    id: NodeId,
    m: Node<R>,
    event: Happening<R>,
    letters: Set<(NodeId, NodeId, Message)>,
)
    requires
        coherent(s),
        s.nodes.contains_key(id),
        rises(s, s.nodes[id], m, event),
        forall|from: NodeId, to: NodeId, msg: Message| #[trigger]
            letters.contains((from, to, msg)) ==> letter_ok(
                noted(s, s.nodes[id], m, event, letters),
                from,
                to,
                msg,
            ),
    ensures
        carries_on(s, noted(s, s.nodes[id], m, event, letters)),
{
    let n = s.nodes[id];
    let t = noted(s, n, m, event, letters);
    let term = m.persistent.current_term;
    assert(node_ok(s, id));
    assert(t.nodes.dom() =~= s.nodes.dom());
    assert(s.nodes.dom().contains(id));
    assert(!s.script.contains_key(term)) by {
        if s.script.contains_key(term) {
            assert(s.script.dom().contains(term));
        }
    }
    assert(!s.acked.contains_key((term, id))) by {
        if s.acked.contains_key((term, id)) {
            assert(ack_ok(s, term, id));
        }
    }
    assert(m.log.take(n.log.len() as int) =~= n.log);
    assert(extends(s, t)) by {
        assert forall|key: (Term, NodeId)| #[trigger] s.stood.contains_key(
            key,
        ) implies t.stood.contains_key(key) && t.stood[key] == s.stood[key] by {
            assert(stand_ok(s, key.0, key.1));
        }
        assert forall|a: Term| #[trigger] s.script.contains_key(a) implies t.script.contains_key(a)
            && log::begins(t.script[a], s.script[a]) by {
            assert(s.script[a].take(s.script[a].len() as int) =~= s.script[a]);
        }
    }
    assert(t.script.dom() =~= t.elected.dom());
    lemma_rooted_is_numbered(s, n.log);
    assert(log::numbered(m.log) && log::last_index(m.log) == m.log.len());
    lemma_rooted_stays(s, t, n.log);
    assert(rooted(t.script, m.log)) by {
        assert forall|i: int| 0 <= i < m.log.len() implies {
            let a = (#[trigger] m.log[i]).term;
            t.script.contains_key(a) && log::begins(t.script[a], m.log.take(i + 1))
        } by {
            if i < n.log.len() {
                assert(m.log[i] == n.log[i]);
                assert(m.log.take(i + 1) =~= n.log.take(i + 1));
            } else {
                assert(m.log.take(i + 1) =~= m.log);
            }
        }
    }
    assert forall|i: int| 0 <= i < m.log.len() implies (#[trigger] m.log[i]).term <= term by {
        if i < n.log.len() {
            assert(m.log[i] == n.log[i]);
        }
    }
    assert(t.stood.contains_key((term, id)) && t.stood[(term, id)] == n.log);
    assert(votes_grow(s, t, id));
    assert(crown_ok(t, term)) by {
        let crown = t.elected[term];
        assert(crown.voters == electors(n, event));
        assert(t.nodes.len() == s.nodes.len());
        assert forall|v: NodeId| #[trigger] crown.voters.contains(v) implies t.votes.contains_key(
            (term, v),
        ) && t.votes[(term, v)].candidate == id && s.nodes.dom().contains(v) by {
            if s.votes.contains_key((term, v)) {
                assert(vote_ok(s, term, v));
            }
        }
        assert(crown.voters.subset_of(t.nodes.dom()));
    }
    assert(crowns_grow(s, t, id)) by {
        assert forall|v: NodeId| #[trigger]
            t.elected[term].voters.contains(v) implies s.votes.contains_key((term, v)) || (v == id
            && n.persistent.current_term < term) by {
            assert(electors(n, event).contains(v));
        }
    }
    assert forall|a: Term| #[trigger] t.acked.contains_key((a, id)) implies keeps_word(
        t,
        a,
        id,
    ) by {
        if a == term {
            assert(t.elected.contains_key(term));
            assert forall|i: nat| i <= t.acked[(a, id)] implies #[trigger] log::begins(
                t.nodes[id].log,
                t.script[a].take(i as int),
            ) || lost(t, a, i, term as int) by {
                lemma_take(m.log, i as int, m.log.len() as int);
            }
        } else {
            assert(s.acked.contains_key((a, id)));
            lemma_word_grows(s, t, a, id);
        }
    }
    let was = n.persistent.current_term;
    lemma_sealed_grows(s, t, id, n.log, m.log, was, n.volatile.commit_index as nat, term);
    lemma_sealed_grows(s, t, id, n.log, m.log, was, n.volatile.last_applied as nat, term);
    if m.volatile.commit_index != n.volatile.commit_index {
        lemma_point_is_sealed(t, id, m);
    }
    assert(t.nodes.len() == s.nodes.len());
    assert(leader_ok(t, m));
    if m.persistent.voted_for is Some {
        assert(t.votes.contains_key((term, id)));
    }
    lemma_waiting_stays(s, t, n, m);
    assert(node_ok(t, id));
    assert forall|a: Term, i: nat| #[trigger]
        t.commits.contains((a, i)) && !s.commits.contains((a, i)) implies commit_ok(t, a, i) by {
        lemma_ackers_are_nodes(s, t, id);
        lemma_commit_is_ok(t, id);
    }
    assert(evolves(s, t, id));
    lemma_evolution_is_sound(s, t, id);
}

proof fn lemma_ackers_are_nodes<R>(s: System<R>, t: System<R>, id: NodeId)
    requires
        coherent(s),
        s.nodes.contains_key(id),
        t.nodes.dom() == s.nodes.dom(),
        forall|key: (Term, NodeId)| #[trigger]
            t.acked.contains_key(key) ==> key.1 == id || s.acked.contains_key(key),
    ensures
        forall|b: Term, v: NodeId| #[trigger]
            t.acked.contains_key((b, v)) ==> t.nodes.contains_key(v),
{
    assert(s.nodes.dom().contains(id));
    assert forall|b: Term, v: NodeId| #[trigger]
        t.acked.contains_key((b, v)) implies t.nodes.contains_key(v) by {
        if v != id {
            assert(s.acked.contains_key((b, v)));
            assert(ack_ok(s, b, v));
            assert(s.nodes.dom().contains(v));
        }
    }
}

/// A node whose log has only grown holds what it confirmed before.
proof fn lemma_word_grows<R>(s: System<R>, t: System<R>, a: Term, id: NodeId)
    requires
        coherent(s),
        extends(s, t),
        s.acked.contains_key((a, id)),
        t.acked[(a, id)] == s.acked[(a, id)],
        s.nodes[id].persistent.current_term <= t.nodes[id].persistent.current_term,
        log::begins(t.nodes[id].log, s.nodes[id].log) || t.nodes[id].log == s.nodes[id].log,
    ensures
        keeps_word(t, a, id),
{
    let n = s.nodes[id];
    let m = t.nodes[id];
    let term = m.persistent.current_term;
    assert(ack_ok(s, a, id));
    assert(s.elected.contains_key(a));
    assert(s.script.contains_key(a));
    let most = s.acked[(a, id)];
    lemma_same_take(s, t, a, most as int);
    assert forall|i: nat| i <= most implies #[trigger] log::begins(m.log, t.script[a].take(i as int))
        || lost(t, a, i, term as int) by {
        lemma_same_take(s, t, a, i as int);
        let prefix = s.script[a].take(i as int);
        if log::begins(n.log, prefix) {
            if m.log != n.log {
                lemma_begins(m.log, n.log, prefix);
            }
        } else {
            lemma_lost_stays(s, t, a, i, n.persistent.current_term as int, term as int);
        }
    }
}

/// Two rooted logs that have the same term at a position agree up to it.
proof fn lemma_agreement<R>(s: System<R>, a: Seq<Entry>, b: Seq<Entry>, k: int)
    requires
        coherent(s),
        rooted(s.script, a),
        rooted(s.script, b),
        0 <= k <= a.len(),
        k <= b.len(),
        k > 0 ==> a[k - 1].term == b[k - 1].term,
    ensures
        a.take(k) == b.take(k),
{
    if k > 0 {
        let term = a[k - 1].term;
        assert(log::begins(s.script[term], a.take(k)));
        assert(log::begins(s.script[term], b.take(k)));
    } else {
        assert(a.take(k) =~= b.take(k));
    }
}

/// A request that is accepted is a piece of the leader's log, and the log
/// before it agrees with the leader's.
proof fn lemma_accepted<R>(s: System<R>, id: NodeId, from: NodeId, req: Append)
    requires
        coherent(s),
        s.nodes.contains_key(id),
        s.sent.contains((from, id, Message::AppendEntries(req))),
        replication::accepts(s.nodes[id].persistent, s.nodes[id].log, req),
    ensures
        s.elected.contains_key(req.term),
        s.elected[req.term].leader == from,
        s.script.contains_key(req.term),
        from != id,
        s.elected[req.term].log.len() < end_of(req) <= s.script[req.term].len(),
        req.prev_log_index <= s.nodes[id].log.len(),
        log::begins(s.nodes[id].log, s.script[req.term].take(req.prev_log_index as int)),
        req.entries == s.script[req.term].subrange(req.prev_log_index as int, end_of(req)),
        replication::merged(s.nodes[id].log, req) == s.script[req.term].take(end_of(req)),
        req.leader_commit <= end_of(req),
        req.leader_commit == 0 || exists|t: Term, i: nat|
            {
                &&& #[trigger] s.commits.contains((t, i))
                &&& req.leader_commit <= i
                &&& t <= req.term
                &&& log::begins(
                    s.script[req.term],
                    s.script[t].take(req.leader_commit as int),
                )
            },
{
    let n = s.nodes[id];
    let prev = req.prev_log_index as int;
    assert(letter_ok(s, from, id, Message::AppendEntries(req)));
    assert(node_ok(s, id));
    assert(crown_ok(s, req.term));
    let script = s.script[req.term];
    assert(request_ok(s, req));
    lemma_agreement(s, n.log, script, prev);
    assert(n.log.take(prev) + req.entries =~= script.take(end_of(req)));
}

/// What a node's log and its leader's have in common at their beginning is in
/// the log that the node makes of them.
proof fn lemma_common_ground<R>(
    s: System<R>,
    id: NodeId,
    from: NodeId,
    req: Append,
    prefix: Seq<Entry>,
)
    requires
        coherent(s),
        s.nodes.contains_key(id),
        s.sent.contains((from, id, Message::AppendEntries(req))),
        replication::accepts(s.nodes[id].persistent, s.nodes[id].log, req),
        log::begins(s.nodes[id].log, prefix) || prefix.len() <= end_of(req),
        log::begins(s.script[req.term], prefix),
    ensures
        log::begins(
            replication::log_after_append(s.nodes[id].persistent, s.nodes[id].log, req),
            prefix,
        ),
{
    let n = s.nodes[id];
    let script = s.script[req.term];
    let end = end_of(req);
    lemma_accepted(s, id, from, req);
    lemma_take(script, end, end);
    let whole = script.take(end);
    if prefix.len() <= end {
        lemma_nested(script, whole, prefix);
        if log::begins(n.log, whole) {
            lemma_begins(n.log, whole, prefix);
        }
    } else {
        lemma_nested(script, prefix, whole);
        lemma_begins(n.log, prefix, whole);
    }
}

/// Node `n` becomes `m` by taking a leader's request.
spec fn follows<R>(s: System<R>, n: Node<R>, m: Node<R>, req: Append) -> bool {
    &&& m.id == n.id
    &&& m.cluster_size == n.cluster_size
    &&& m.peers == n.peers
    &&& m.pending == n.pending
    &&& m.persistent == replication::after_append(n.persistent, req)
    &&& m.log == replication::log_after_append(n.persistent, n.log, req)
    &&& m.volatile.role == Role::Follower
    &&& m.volatile.last_applied == n.volatile.last_applied
    &&& m.volatile.commit_index == replication::commit_after_append(
        n.persistent,
        n.volatile,
        n.log,
        req,
    )
}

/// What a node had committed is in the log it takes from a leader.
proof fn lemma_sealed_through_append<R>(
    s: System<R>,
    t: System<R>,
    id: NodeId,
    m: Node<R>,
    from: NodeId,
    req: Append,
    k: nat,
)
    requires
        coherent(s),
        extends(s, t),
        s.nodes.contains_key(id),
        s.sent.contains((from, id, Message::AppendEntries(req))),
        replication::accepts(s.nodes[id].persistent, s.nodes[id].log, req),
        follows(s, s.nodes[id], m, req),
        confirmed(s, req.term, id) <= confirmed(t, req.term, id),
        sealed(s, id, s.nodes[id].log, s.nodes[id].persistent.current_term, k),
    ensures
        sealed(t, id, m.log, req.term, k),
{
    let n = s.nodes[id];
    lemma_accepted(s, id, from, req);
    lemma_sealed_less(s, id, n.log, n.persistent.current_term, k, req.term, k);
    if k > 0 {
        let (c, i) = choose|c: Term, i: nat|
            {
                &&& #[trigger] s.commits.contains((c, i))
                &&& k <= i
                &&& c <= req.term
                &&& c == req.term ==> k <= confirmed(s, c, id)
                &&& log::begins(n.log, s.script[c].take(k as int))
            };
        assert(commit_ok(s, c, i));
        assert(s.script.contains_key(c)) by {
            assert(s.elected.dom().contains(c));
        }
        let prefix = s.script[c].take(k as int);
        lemma_same_take(s, t, c, k as int);
        let script = s.script[req.term];
        assert(crown_ok(s, req.term));
        if c < req.term {
            later_leaders_have_what_is_committed(s, c, i, req.term);
            let crown = s.elected[req.term].log;
            lemma_take(s.script[c], k as int, i as int);
            lemma_begins(crown, s.script[c].take(i as int), prefix);
            lemma_begins(script, crown, prefix);
        } else {
            lemma_take(script, k as int, k as int);
        }
        lemma_common_ground(s, id, from, req, prefix);
        assert(t.commits.contains((c, i)));
    }
}

#[verifier::rlimit(40)]
proof fn lemma_append<R>(
    s: System<R>,
    id: NodeId,
    m: Node<R>,
    from: NodeId,
    req: Append,
    letters: Set<(NodeId, NodeId, Message)>,
)
    requires
        coherent(s),
        s.nodes.contains_key(id),
        s.sent.contains((from, id, Message::AppendEntries(req))),
        replication::accepts(s.nodes[id].persistent, s.nodes[id].log, req),
        follows(s, s.nodes[id], m, req),
        forall|f: NodeId, to: NodeId, msg: Message| #[trigger]
            letters.contains((f, to, msg)) ==> letter_ok(
                noted(
                    s,
                    s.nodes[id],
                    m,
                    Happening::Rpc { from, msg: Message::AppendEntries(req) },
                    letters,
                ),
                f,
                to,
                msg,
            ),
    ensures
        carries_on(
            s,
            noted(
                s,
                s.nodes[id],
                m,
                Happening::Rpc { from, msg: Message::AppendEntries(req) },
                letters,
            ),
        ),
{
    let n = s.nodes[id];
    let event = Happening::<R>::Rpc { from, msg: Message::AppendEntries(req) };
    let t = noted(s, n, m, event, letters);
    let term = req.term;
    let end = end_of(req);
    let script = s.script[term];
    assert(node_ok(s, id));
    lemma_accepted(s, id, from, req);
    assert(crown_ok(s, term));
    assert(m.persistent.current_term == term);
    assert(t.nodes.dom() =~= s.nodes.dom());
    assert(s.nodes.dom().contains(id));
    assert(extends(s, t)) by {
        assert forall|a: Term| #[trigger] s.script.contains_key(a) implies t.script.contains_key(a)
            && log::begins(t.script[a], s.script[a]) by {
            assert(s.script[a].take(s.script[a].len() as int) =~= s.script[a]);
        }
    }
    assert(t.script == s.script && t.elected == s.elected);
    // The log.
    lemma_log_through_append(s, id, m, from, req);
    // What it holds.
    assert(t.acked[(term, id)] == vstd::math::max(confirmed(s, term, id) as int, end));
    assert(confirmed(s, term, id) <= script.len()) by {
        if s.acked.contains_key((term, id)) {
            assert(ack_ok(s, term, id));
        }
    }
    assert forall|a: Term| #[trigger] t.acked.contains_key((a, id)) implies keeps_word(
        t,
        a,
        id,
    ) by {
        lemma_word_through_append(s, t, id, m, from, req, a);
    }
    // What is committed.
    lemma_sealed_through_append(s, t, id, m, from, req, n.volatile.commit_index as nat);
    lemma_sealed_through_append(s, t, id, m, from, req, n.volatile.last_applied as nat);
    lemma_commit_through_append(s, t, id, m, from, req);
    assert(t.nodes.len() == s.nodes.len());
    if m.persistent.voted_for is Some {
        assert(s.votes.contains_key((term, id)));
    }
    lemma_waiting_stays(s, t, n, m);
    assert(node_ok(t, id));
    assert(votes_grow(s, t, id));
    assert(crowns_grow(s, t, id));
    assert(evolves(s, t, id));
    lemma_evolution_is_sound(s, t, id);
}

/// The log that a node makes of its own and its leader's is in order.
proof fn lemma_log_through_append<R>(
    s: System<R>,
    id: NodeId,
    m: Node<R>,
    from: NodeId,
    req: Append,
)
    requires
        coherent(s),
        s.nodes.contains_key(id),
        s.sent.contains((from, id, Message::AppendEntries(req))),
        replication::accepts(s.nodes[id].persistent, s.nodes[id].log, req),
        follows(s, s.nodes[id], m, req),
    ensures
        rooted(s.script, m.log),
        forall|i: int| 0 <= i < m.log.len() ==> (#[trigger] m.log[i]).term <= req.term,
{
    let n = s.nodes[id];
    let script = s.script[req.term];
    let end = end_of(req);
    assert(node_ok(s, id));
    lemma_accepted(s, id, from, req);
    assert(crown_ok(s, req.term));
    if m.log != n.log {
        assert(m.log == script.take(end));
        lemma_take(script, end, end);
        lemma_rooted_prefix(s.script, script, m.log);
        assert forall|i: int| 0 <= i < m.log.len() implies (#[trigger] m.log[i]).term
            <= req.term by {
            assert(script.take(end)[i] == script[i]);
            lemma_terms_rise(s, req.term, i, i);
        }
    }
}

/// What a node learns is committed from a leader's request is committed.
proof fn lemma_commit_through_append<R>(
    s: System<R>,
    t: System<R>,
    id: NodeId,
    m: Node<R>,
    from: NodeId,
    req: Append,
)
    requires
        coherent(s),
        t.script == s.script,
        s.commits.subset_of(t.commits),
        s.nodes.contains_key(id),
        s.sent.contains((from, id, Message::AppendEntries(req))),
        replication::accepts(s.nodes[id].persistent, s.nodes[id].log, req),
        follows(s, s.nodes[id], m, req),
        end_of(req) <= confirmed(t, req.term, id),
        sealed(t, id, m.log, req.term, s.nodes[id].volatile.commit_index as nat),
    ensures
        sealed(t, id, m.log, req.term, m.volatile.commit_index as nat),
{
    let n = s.nodes[id];
    let term = req.term;
    let script = s.script[term];
    let k = m.volatile.commit_index as nat;
    lemma_accepted(s, id, from, req);
    if k > 0 && k != n.volatile.commit_index {
        let (c, i) = choose|c: Term, i: nat|
            {
                &&& #[trigger] s.commits.contains((c, i))
                &&& req.leader_commit <= i
                &&& c <= term
                &&& log::begins(script, s.script[c].take(req.leader_commit as int))
            };
        assert(commit_ok(s, c, i));
        let whole = s.script[c].take(req.leader_commit as int);
        lemma_take(s.script[c], k as int, req.leader_commit as int);
        let prefix = s.script[c].take(k as int);
        lemma_begins(script, whole, prefix);
        lemma_common_ground(s, id, from, req, prefix);
        assert(t.commits.contains((c, i)));
    }
}

/// A node that takes a leader's request holds what it confirmed, or the
/// leader did not have it.
proof fn lemma_word_through_append<R>(
    s: System<R>,
    t: System<R>,
    id: NodeId,
    m: Node<R>,
    from: NodeId,
    req: Append,
    a: Term,
)
    requires
        coherent(s),
        extends(s, t),
        t.script == s.script,
        t.elected == s.elected,
        s.nodes.contains_key(id),
        s.sent.contains((from, id, Message::AppendEntries(req))),
        replication::accepts(s.nodes[id].persistent, s.nodes[id].log, req),
        follows(s, s.nodes[id], m, req),
        t.nodes[id] == m,
        t.acked.contains_key((a, id)),
        a != req.term ==> s.acked.contains_key((a, id)) && t.acked[(a, id)] == s.acked[(a, id)],
        a == req.term ==> t.acked[(a, id)] == vstd::math::max(
            confirmed(s, req.term, id) as int,
            end_of(req),
        ),
    ensures
        keeps_word(t, a, id),
{
    let n = s.nodes[id];
    let term = req.term;
    let end = end_of(req);
    let script = s.script[term];
    lemma_accepted(s, id, from, req);
    assert(crown_ok(s, term));
    assert(m.persistent.current_term == term);
    if s.acked.contains_key((a, id)) {
        assert(ack_ok(s, a, id));
    }
    let most = t.acked[(a, id)];
    assert(s.elected.contains_key(a));
    assert(s.script.contains_key(a)) by {
        assert(s.elected.dom().contains(a));
    }
    assert forall|i: nat| i <= most implies #[trigger] log::begins(m.log, s.script[a].take(i as int))
        || lost(t, a, i, term as int) by {
        let prefix = s.script[a].take(i as int);
        if a == term {
            lemma_take(script, i as int, i as int);
            if i > end {
                // Confirmed earlier in this very term.
                assert(i <= confirmed(s, term, id));
                assert(log::begins(n.log, prefix) || lost(
                    s,
                    a,
                    i,
                    n.persistent.current_term as int,
                ));
                assert(!lost(s, a, i, n.persistent.current_term as int));
            }
            lemma_common_ground(s, id, from, req, prefix);
        } else if !log::begins(n.log, prefix) {
            assert(lost(s, a, i, n.persistent.current_term as int));
            lemma_lost_stays(s, t, a, i, n.persistent.current_term as int, term as int);
        } else {
            let crown = s.elected[term].log;
            if log::begins(crown, prefix) {
                lemma_begins(script, crown, prefix);
                lemma_common_ground(s, id, from, req, prefix);
            } else {
                assert(t.elected.contains_key(term));
                assert(lost(t, a, i, term as int));
            }
        }
    }
}

/// A candidate that stays one is in order, whatever it did.
proof fn lemma_candidate_stays<R>(
    s: System<R>,
    n: Node<R>,
    m: Node<R>,
    event: Happening<R>,
    letters: Set<(NodeId, NodeId, Message)>,
)
    requires
        candidate_ok(s, n),
        !stands(n, event),
        m.volatile.role == Role::Candidate,
        m.id == n.id,
        m.cluster_size == n.cluster_size,
        m.log == n.log,
        m.tally == n.tally,
        m.persistent.current_term == n.persistent.current_term,
    ensures
        candidate_ok(noted(s, n, m, event, letters), m),
{
    let t = noted(s, n, m, event, letters);
    let term = n.persistent.current_term;
    let tally = n.tally->0;
    assert forall|v: NodeId| #[trigger] tally.voters.contains(v) implies t.votes.contains_key(
        (term, v),
    ) && t.votes[(term, v)].candidate == m.id by {
        assert(s.votes.contains_key((term, v)));
    }
}

/// What a leader sends is in order.
proof fn lemma_update_ok<R>(t: System<R>, x: Node<R>, peer: NodeId)
    requires
        t.nodes.contains_key(x.id),
        peer != x.id,
        t.elected.contains_key(x.persistent.current_term),
        t.elected[x.persistent.current_term].leader == x.id,
        t.script[x.persistent.current_term] == x.log,
        t.elected[x.persistent.current_term].log.len() < x.log.len(),
        log::numbered(x.log),
        reaches(x),
        x.volatile.commit_index == 0 || exists|c: Term, i: nat|
            {
                &&& #[trigger] t.commits.contains((c, i))
                &&& x.volatile.commit_index <= i
                &&& c <= x.persistent.current_term
                &&& log::begins(x.log, t.script[c].take(x.volatile.commit_index as int))
                &&& x.volatile.commit_index <= t.script[c].len()
            },
    ensures
        cluster::update_for(x, peer) matches Act::Send { to, msg } && to == peer && letter_ok(
            t,
            x.id,
            peer,
            msg,
        ),
{
    let req = cluster::request_to(x, peer);
    let prev = req.prev_log_index;
    lemma_request_ends(x, peer);
    log::entries_after_is_the_tail(x.log, prev);
    assert(x.log.skip(prev as int) =~= x.log.subrange(prev as int, x.log.len() as int));
    assert(request_ok(t, req));
}

/// A leader's request goes to the end of its log.
proof fn lemma_request_ends<R>(x: Node<R>, peer: NodeId)
    requires
        log::numbered(x.log),
        reaches(x),
    ensures
        end_of(cluster::request_to(x, peer)) == x.log.len(),
        cluster::request_to(x, peer).prev_log_index <= x.log.len(),
{
    let prev = cluster::request_to(x, peer).prev_log_index;
    log::entries_after_is_the_tail(x.log, prev);
}

/// The commit index of a node, for the messages it sends.
proof fn lemma_commit_to_tell<R>(s: System<R>, id: NodeId)
    requires
        coherent(s),
        s.nodes.contains_key(id),
        s.nodes[id].volatile.commit_index > 0,
    ensures
        exists|c: Term, i: nat|
            {
                &&& #[trigger] s.commits.contains((c, i))
                &&& s.nodes[id].volatile.commit_index <= i
                &&& c <= s.nodes[id].persistent.current_term
                &&& log::begins(
                    s.nodes[id].log,
                    s.script[c].take(s.nodes[id].volatile.commit_index as int),
                )
                &&& s.nodes[id].volatile.commit_index <= s.script[c].len()
            },
{
    let n = s.nodes[id];
    assert(node_ok(s, id));
    let k = n.volatile.commit_index as nat;
    let (c, i) = choose|c: Term, i: nat|
        {
            &&& #[trigger] s.commits.contains((c, i))
            &&& k <= i
            &&& c <= n.persistent.current_term
            &&& c == n.persistent.current_term ==> k <= confirmed(s, c, id)
            &&& log::begins(n.log, s.script[c].take(k as int))
        };
    assert(commit_ok(s, c, i));
}

/// No messages among the actions, no letters.
proof fn lemma_no_mail<R>(id: NodeId, deeds: Seq<Act<R>>)
    requires
        forall|i: int| 0 <= i < deeds.len() ==> !((#[trigger] deeds[i]) is Send),
    ensures
        mail(id, deeds) == Set::<(NodeId, NodeId, Message)>::empty(),
{
    assert(mail(id, deeds) =~= Set::<(NodeId, NodeId, Message)>::empty());
}

/// A node that learns of a newer term.
proof fn lemma_step_down<R>(s: System<R>, id: NodeId, event: Happening<R>, new_term: Term)
    requires
        coherent(s),
        s.nodes.contains_key(id),
        new_term > s.nodes[id].persistent.current_term,
        event matches Happening::Rpc { msg, .. } && (msg is RequestVoteResponse
            || msg is AppendEntriesResponse),
    ensures
        ({
            let (m, deeds) = cluster::stepped_down(s.nodes[id], new_term);
            carries_on(s, noted(s, s.nodes[id], m, event, mail(id, deeds)))
        }),
{
    let (m, deeds) = cluster::stepped_down(s.nodes[id], new_term);
    assert(node_ok(s, id));
    lemma_no_mail(id, deeds);
    lemma_turn(s, id, m, event, mail(id, deeds));
}

/// Nothing happens to a node, and it says nothing.
proof fn lemma_idle<R>(s: System<R>, id: NodeId, event: Happening<R>, deeds: Seq<Act<R>>)
    requires
        coherent(s),
        s.nodes.contains_key(id),
        forall|i: int| 0 <= i < deeds.len() ==> !((#[trigger] deeds[i]) is Send),
        !stands(s.nodes[id], event),
        event matches Happening::Rpc { msg, .. } ==> msg !is AppendEntries,
    ensures
        carries_on(s, noted(s, s.nodes[id], s.nodes[id], event, mail(id, deeds))),
{
    let n = s.nodes[id];
    assert(node_ok(s, id));
    lemma_no_mail(id, deeds);
    if n.volatile.role == Role::Candidate {
        lemma_candidate_stays(s, n, n, event, mail(id, deeds));
    }
    lemma_turn(s, id, n, event, mail(id, deeds));
}

proof fn lemma_vote_request<R>(
    s: System<R>,
    id: NodeId,
    from: NodeId,
    req: RequestVoteRequest,
    now: Instant,
)
    requires
        coherent(s),
        s.nodes.contains_key(id),
        s.sent.contains((from, id, Message::RequestVote(req))),
    ensures
        ({
            let (m, deeds) = cluster::asked_for_vote(s.nodes[id], from, req, now);
            let event = Happening::Rpc { from, msg: Message::RequestVote(req) };
            carries_on(s, noted(s, s.nodes[id], m, event, mail(id, deeds)))
        }),
{
    let n = s.nodes[id];
    let (m, deeds) = cluster::asked_for_vote(n, from, req, now);
    let event = Happening::<R>::Rpc { from, msg: Message::RequestVote(req) };
    let letters = mail(id, deeds);
    let t = noted(s, n, m, event, letters);
    assert(node_ok(s, id));
    assert(letter_ok(s, from, id, Message::RequestVote(req)));
    if m.volatile.role == Role::Candidate {
        lemma_candidate_stays(s, n, m, event, letters);
    }
    let term = m.persistent.current_term;
    if election::grants(n.persistent, n.log, req) {
        assert(no_older(s.stood[(req.term, from)], n.log));
        if s.votes.contains_key((term, id)) {
            assert(vote_ok(s, term, id));
        }
    }
    assert(turns(s, n, m, event));
    assert forall|f: NodeId, to: NodeId, msg: Message| #[trigger]
        letters.contains((f, to, msg)) implies letter_ok(t, f, to, msg) by {
        let i = choose|i: int|
            0 <= i < deeds.len() && #[trigger] deeds[i] == Act::<R>::Send { to, msg };
        assert(s.nodes.dom().contains(id));
        let reply = election::vote_reply(n.persistent, n.log, req);
        assert(msg == Message::RequestVoteResponse(reply) && to == from);
        if reply.vote_granted {
            assert(t.votes.contains_key((term, id)));
        }
    }
    lemma_turn(s, id, m, event, letters);
}

proof fn lemma_append_request<R>(
    s: System<R>,
    id: NodeId,
    from: NodeId,
    req: Append,
    now: Instant,
)
    requires
        coherent(s),
        s.nodes.contains_key(id),
        s.sent.contains((from, id, Message::AppendEntries(req))),
    ensures
        ({
            let (m, deeds) = cluster::asked_to_append(s.nodes[id], from, req, now);
            let event = Happening::Rpc { from, msg: Message::AppendEntries(req) };
            carries_on(s, noted(s, s.nodes[id], m, event, mail(id, deeds)))
        }),
{
    let n = s.nodes[id];
    let (m, deeds) = cluster::asked_to_append(n, from, req, now);
    let event = Happening::<R>::Rpc { from, msg: Message::AppendEntries(req) };
    let letters = mail(id, deeds);
    let t = noted(s, n, m, event, letters);
    assert(node_ok(s, id));
    assert(letter_ok(s, from, id, Message::AppendEntries(req)));
    assert forall|f: NodeId, to: NodeId, msg: Message| #[trigger]
        letters.contains((f, to, msg)) implies letter_ok(t, f, to, msg) by {
        let i = choose|i: int|
            0 <= i < deeds.len() && #[trigger] deeds[i] == Act::<R>::Send { to, msg };
        assert(s.nodes.dom().contains(id));
        let reply = replication::append_reply(n.persistent, n.log, req);
        assert(msg == Message::AppendEntriesResponse(reply) && to == from);
        if cluster::is_answer(reply) {
            assert(s.elected.contains_key(req.term));
            assert(req.prev_log_index <= s.script[req.term].len());
            assert(s.script.contains_key(req.term)) by {
                assert(s.elected.dom().contains(req.term));
            }
            assert(t.script[req.term].len() >= s.script[req.term].len()) by {
                assert(m.volatile.role == Role::Follower);
            }
        }
    }
    if replication::accepts(n.persistent, n.log, req) {
        lemma_append(s, id, m, from, req, letters);
    } else {
        if m.volatile.role == Role::Candidate {
            lemma_candidate_stays(s, n, m, event, letters);
        }
        assert(turns(s, n, m, event));
        lemma_turn(s, id, m, event, letters);
    }
}

/// Everything a leader sends to its peers is in order, when its log is on
/// record.
proof fn lemma_updates_ok<R>(t: System<R>, x: Node<R>, deeds: Seq<Act<R>>)
    requires
        t.nodes.contains_key(x.id),
        !x.peers.contains(x.id),
        t.elected.contains_key(x.persistent.current_term),
        t.elected[x.persistent.current_term].leader == x.id,
        t.script[x.persistent.current_term] == x.log,
        t.elected[x.persistent.current_term].log.len() < x.log.len(),
        log::numbered(x.log),
        reaches(x),
        x.volatile.commit_index == 0 || exists|c: Term, i: nat|
            {
                &&& #[trigger] t.commits.contains((c, i))
                &&& x.volatile.commit_index <= i
                &&& c <= x.persistent.current_term
                &&& log::begins(x.log, t.script[c].take(x.volatile.commit_index as int))
                &&& x.volatile.commit_index <= t.script[c].len()
            },
        forall|i: int|
            0 <= i < deeds.len() && (#[trigger] deeds[i]) is Send ==> cluster::updates(x).contains(
                deeds[i],
            ),
    ensures
        forall|from: NodeId, to: NodeId, msg: Message| #[trigger]
            mail(x.id, deeds).contains((from, to, msg)) ==> letter_ok(t, from, to, msg),
{
    assert forall|from: NodeId, to: NodeId, msg: Message| #[trigger]
        mail(x.id, deeds).contains((from, to, msg)) implies letter_ok(t, from, to, msg) by {
        let i = choose|i: int|
            0 <= i < deeds.len() && #[trigger] deeds[i] == Act::<R>::Send { to, msg };
        let k = choose|k: int|
            0 <= k < cluster::updates(x).len() && cluster::updates(x)[k] == deeds[i];
        let peer = x.peers[k];
        assert(x.peers.contains(peer));
        lemma_update_ok(t, x, peer);
        assert(deeds[i] == cluster::update_for(x, peer));
    }
}

proof fn lemma_heartbeat<R>(s: System<R>, id: NodeId)
    requires
        coherent(s),
        s.nodes.contains_key(id),
        s.nodes[id].volatile.role == Role::Leader,
    ensures
        carries_on(
            s,
            noted(
                s,
                s.nodes[id],
                cluster::told(s.nodes[id]),
                Happening::HeartbeatDue,
                mail(id, cluster::updates(s.nodes[id])),
            ),
        ),
{
    let n = s.nodes[id];
    let deeds = cluster::updates(n);
    let event = Happening::<R>::HeartbeatDue;
    let letters = mail(id, deeds);
    let m = cluster::told(n);
    let t = noted(s, n, m, event, letters);
    assert(node_ok(s, id));
    assert(crown_ok(s, n.persistent.current_term));
    lemma_rooted_is_numbered(s, n.log);
    assert(s.nodes.dom().contains(id));
    assert(t.script =~= s.script);
    if n.volatile.commit_index > 0 {
        lemma_commit_to_tell(s, id);
        let (c, i) = choose|c: Term, i: nat|
            {
                &&& #[trigger] s.commits.contains((c, i))
                &&& n.volatile.commit_index <= i
                &&& c <= n.persistent.current_term
                &&& log::begins(n.log, s.script[c].take(n.volatile.commit_index as int))
                &&& n.volatile.commit_index <= s.script[c].len()
            };
        assert(t.commits.contains((c, i)));
    }
    lemma_updates_ok(t, n, deeds);
    lemma_turn(s, id, m, event, letters);
}

/// Advancing the commit index changes nothing else.
proof fn lemma_advanced<R>(n: Node<R>)
    ensures
        ({
            let m = cluster::advanced(n);
            &&& m == (Node {
                volatile: VolatileState {
                    commit_index: m.volatile.commit_index,
                    ..n.volatile
                },
                ..n
            })
            &&& m.volatile.commit_index == n.volatile.commit_index || replication::commit_point(
                m.match_index,
                m.log,
                m.persistent.current_term,
                m.cluster_size,
                cluster::own_match(m),
            ) == Some(m.volatile.commit_index)
        }),
{
}

proof fn lemma_command<R>(s: System<R>, id: NodeId, op: Op, client: R)
    requires
        coherent(s),
        s.nodes.contains_key(id),
        s.nodes[id].volatile.role == Role::Leader,
        s.nodes[id].log.len() < u64::MAX,
    ensures
        ({
            let (m, deeds) = cluster::commanded(s.nodes[id], op, client);
            let event = Happening::Command { op, client };
            carries_on(s, noted(s, s.nodes[id], m, event, mail(id, deeds)))
        }),
{
    let n = s.nodes[id];
    let (m, deeds) = cluster::commanded(n, op, client);
    let event = Happening::Command { op, client };
    let letters = mail(id, deeds);
    let t = noted(s, n, m, event, letters);
    let entry = cluster::own_entry(n, op);
    let grown = cluster::grown(cluster::awaiting(n, op, client), entry);
    let term = n.persistent.current_term;
    assert(node_ok(s, id));
    assert(crown_ok(s, term));
    lemma_rooted_is_numbered(s, n.log);
    log::append_keeps_numbering(n.log, entry.term, entry.command);
    lemma_advanced(cluster::told(grown));
    assert(m.log == n.log.push(entry));
    assert(s.nodes.dom().contains(id));
    if n.volatile.commit_index > 0 {
        lemma_commit_to_tell(s, id);
        let (c, i) = choose|c: Term, i: nat|
            {
                &&& #[trigger] s.commits.contains((c, i))
                &&& n.volatile.commit_index <= i
                &&& c <= term
                &&& log::begins(n.log, s.script[c].take(n.volatile.commit_index as int))
                &&& n.volatile.commit_index <= s.script[c].len()
            };
        let k = n.volatile.commit_index as int;
        assert(t.commits.contains((c, i)));
        assert(m.log.take(n.log.len() as int) =~= n.log);
        lemma_begins(m.log, n.log, s.script[c].take(k));
        if c == term {
            assert(m.log.take(k) =~= n.log.take(k));
        }
        assert(t.script[c].take(k) == s.script[c].take(k));
    }
    assert forall|i: int| 0 <= i < deeds.len() && (
    #[trigger] deeds[i]) is Send implies cluster::updates(grown).contains(deeds[i]) by {
        assert(deeds == cluster::updates(grown));
        assert(cluster::updates(grown)[i] == deeds[i]);
    }
    lemma_updates_ok(t, grown, deeds);
    assert(reaches(m));
    assert(turns(s, n, m, event));
    lemma_turn(s, id, m, event, letters);
}

/// What a follower's answer says of the oldest unanswered request is true.
spec fn credible<R>(s: System<R>, id: NodeId, from: NodeId, resp: AppendEntriesResponse) -> bool {
    let n = s.nodes[id];
    let term = n.persistent.current_term;
    let oldest = cluster::waiting(n, from)[0];
    n.volatile.role == Role::Leader && resp.term == term && cluster::is_answer(resp)
        && cluster::waiting(n, from).len() > 0 ==> {
        &&& oldest.0 + oldest.1 <= n.log.len()
        &&& resp.success ==> oldest.0 + oldest.1 <= confirmed(s, term, from)
    }
}

proof fn lemma_append_reply<R>(
    s: System<R>,
    id: NodeId,
    from: NodeId,
    resp: AppendEntriesResponse,
)
    requires
        coherent(s),
        s.nodes.contains_key(id),
        s.sent.contains((from, id, Message::AppendEntriesResponse(resp))),
        s.nodes[id].log.len() < u64::MAX,
        credible(s, id, from, resp),
    ensures
        ({
            let (m, deeds) = cluster::got_append_reply(s.nodes[id], from, resp);
            let event = Happening::Rpc { from, msg: Message::AppendEntriesResponse(resp) };
            carries_on(s, noted(s, s.nodes[id], m, event, mail(id, deeds)))
        }),
{
    let n = s.nodes[id];
    let (m, deeds) = cluster::got_append_reply(n, from, resp);
    let event = Happening::<R>::Rpc { from, msg: Message::AppendEntriesResponse(resp) };
    let letters = mail(id, deeds);
    assert(node_ok(s, id));
    assert(letter_ok(s, from, id, Message::AppendEntriesResponse(resp)));
    if resp.term > n.persistent.current_term {
        lemma_step_down(s, id, event, resp.term);
    } else if m == n {
        lemma_idle(s, id, event, deeds);
    } else {
        lemma_no_mail(id, deeds);
        assert(reaches(m));
        assert(turns(s, n, m, event));
        lemma_turn(s, id, m, event, letters);
    }
}

/// A candidate that has won leads a term that had no leader.
proof fn lemma_office_is_vacant<R>(s: System<R>, id: NodeId, voters: Set<NodeId>)
    requires
        coherent(s),
        s.nodes.contains_key(id),
        candidate_ok(s, s.nodes[id]),
        2 * voters.len() > s.nodes.len(),
        forall|v: NodeId| #[trigger]
            voters.contains(v) ==> s.votes.contains_key((s.nodes[id].persistent.current_term, v))
                && s.votes[(s.nodes[id].persistent.current_term, v)].candidate == s.nodes[id].id,
    ensures
        !s.elected.contains_key(s.nodes[id].persistent.current_term),
{
    let term = s.nodes[id].persistent.current_term;
    if s.elected.contains_key(term) {
        assert(crown_ok(s, term));
        assert(voters.subset_of(s.nodes.dom())) by {
            assert forall|v: NodeId| voters.contains(v) implies s.nodes.dom().contains(v) by {
                assert(vote_ok(s, term, v));
            }
        }
        let v = lemma_overlap(s.nodes.dom(), voters, s.elected[term].voters);
        assert(s.votes.contains_key((term, v)));
    }
}

/// What a node does when it takes office is in order.
proof fn lemma_office<R>(
    s: System<R>,
    id: NodeId,
    standing: Node<R>,
    event: Happening<R>,
    calls: Seq<Act<R>>,
)
    requires
        coherent(s),
        s.nodes.contains_key(id),
        s.nodes[id].log.len() < u64::MAX,
        standing.id == id,
        standing.log == s.nodes[id].log,
        standing.peers == s.nodes[id].peers,
        standing.cluster_size == s.nodes[id].cluster_size,
        standing.volatile.commit_index == s.nodes[id].volatile.commit_index,
        standing.volatile.last_applied == s.nodes[id].volatile.last_applied,
        s.nodes[id].persistent.current_term <= standing.persistent.current_term,
        rises(s, s.nodes[id], cluster::crowned(standing).0, event),
        forall|from: NodeId, to: NodeId, msg: Message| #[trigger]
            mail(id, calls).contains((from, to, msg)) ==> letter_ok(
                noted(
                    s,
                    s.nodes[id],
                    cluster::crowned(standing).0,
                    event,
                    mail(id, calls + cluster::crowned(standing).1),
                ),
                from,
                to,
                msg,
            ),
    ensures
        carries_on(
            s,
            noted(
                s,
                s.nodes[id],
                cluster::crowned(standing).0,
                event,
                mail(id, calls + cluster::crowned(standing).1),
            ),
        ),
{
    let n = s.nodes[id];
    let (m, deeds) = cluster::crowned(standing);
    let all = calls + deeds;
    let letters = mail(id, all);
    let t = noted(s, n, m, event, letters);
    let term = m.persistent.current_term;
    let next = (log::last_index(n.log) + 1) as u64;
    let leader = Node {
        volatile: VolatileState { role: Role::Leader, ..standing.volatile },
        known_leader: Some(id),
        tally: None,
        next_index: cluster::for_all_peers(n.peers, next),
        match_index: cluster::for_all_peers(n.peers, 0),
        unanswered: Map::empty(),
        ..standing
    };
    let entry = cluster::own_entry(leader, Op::NoOp);
    let grown = cluster::grown(leader, entry);
    assert(node_ok(s, id));
    lemma_rooted_is_numbered(s, n.log);
    log::append_keeps_numbering(n.log, entry.term, entry.command);
    lemma_advanced(cluster::told(grown));
    assert(m.log == grown.log);
    assert(reaches(grown));
    assert(s.nodes.dom().contains(id));
    if n.volatile.commit_index > 0 {
        lemma_commit_to_tell(s, id);
        let (c, i) = choose|c: Term, i: nat|
            {
                &&& #[trigger] s.commits.contains((c, i))
                &&& n.volatile.commit_index <= i
                &&& c <= n.persistent.current_term
                &&& log::begins(n.log, s.script[c].take(n.volatile.commit_index as int))
                &&& n.volatile.commit_index <= s.script[c].len()
            };
        let k = n.volatile.commit_index as int;
        assert(commit_ok(s, c, i));
        assert(c != term);
        assert(t.commits.contains((c, i)));
        assert(m.log.take(n.log.len() as int) =~= n.log);
        lemma_begins(m.log, n.log, s.script[c].take(k));
    }
    assert forall|i: int| 0 <= i < deeds.len() && (
    #[trigger] deeds[i]) is Send implies cluster::updates(grown).contains(deeds[i]) by {
        assert(deeds == cluster::updates(grown));
        assert(cluster::updates(grown)[i] == deeds[i]);
    }
    lemma_updates_ok(t, grown, deeds);
    assert forall|from: NodeId, to: NodeId, msg: Message| #[trigger]
        letters.contains((from, to, msg)) implies letter_ok(t, from, to, msg) by {
        let i = choose|i: int|
            0 <= i < all.len() && #[trigger] all[i] == Act::<R>::Send { to, msg };
        if i < calls.len() {
            assert(calls[i] == Act::<R>::Send { to, msg });
            assert(mail(id, calls).contains((from, to, msg)));
        } else {
            assert(deeds[i - calls.len()] == Act::<R>::Send { to, msg });
            assert(mail(id, deeds).contains((from, to, msg)));
        }
    }
    lemma_coronation(s, id, m, event, letters);
}

proof fn lemma_vote_reply<R>(s: System<R>, id: NodeId, from: NodeId, resp: RequestVoteResponse)
    requires
        coherent(s),
        s.nodes.contains_key(id),
        s.nodes[id].log.len() < u64::MAX,
        s.sent.contains((from, id, Message::RequestVoteResponse(resp))),
    ensures
        ({
            let (m, deeds) = cluster::got_vote(s.nodes[id], from, resp);
            let event = Happening::Rpc { from, msg: Message::RequestVoteResponse(resp) };
            carries_on(s, noted(s, s.nodes[id], m, event, mail(id, deeds)))
        }),
{
    let n = s.nodes[id];
    let (m, deeds) = cluster::got_vote(n, from, resp);
    let event = Happening::<R>::Rpc { from, msg: Message::RequestVoteResponse(resp) };
    let letters = mail(id, deeds);
    let term = n.persistent.current_term;
    assert(node_ok(s, id));
    assert(letter_ok(s, from, id, Message::RequestVoteResponse(resp)));
    if resp.term > term {
        lemma_step_down(s, id, event, resp.term);
    } else if resp.term < term || n.volatile.role != Role::Candidate || !resp.vote_granted {
        lemma_idle(s, id, event, deeds);
    } else {
        let standing = Node { tally: cluster::counted(n, from), ..n };
        let voters = n.tally->0.voters.insert(from);
        assert forall|v: NodeId| #[trigger] voters.contains(v) implies s.votes.contains_key(
            (term, v),
        ) && s.votes[(term, v)].candidate == id by {
            if v != from {
                assert(n.tally->0.voters.contains(v));
            }
        }
        if cluster::wins(n, from, resp) {
            assert(2 * voters.len() > s.nodes.len());
            lemma_office_is_vacant(s, id, voters);
            lemma_rooted_is_numbered(s, n.log);
            lemma_crowned_shape(standing);
            assert(rises(s, n, m, event));
            let none = Seq::<Act<R>>::empty();
            lemma_no_mail(id, none);
            assert(none + deeds =~= deeds);
            lemma_office(s, id, standing, event, none);
        } else {
            lemma_no_mail(id, deeds);
            let t = noted(s, n, m, event, letters);
            assert(candidate_ok(t, m)) by {
                assert forall|v: NodeId| #[trigger]
                    m.tally->0.voters.contains(v) implies t.votes.contains_key((term, v))
                    && t.votes[(term, v)].candidate == id by {
                    assert(voters.contains(v));
                }
            }
            assert(turns(s, n, m, event));
            lemma_turn(s, id, m, event, letters);
        }
    }
}

/// What becomes of a node that takes office.
proof fn lemma_crowned_shape<R>(n: Node<R>)
    requires
        !n.peers.contains(n.id),
        log::numbered(n.log),
        n.log.len() < u64::MAX,
    ensures
        ({
            let m = cluster::crowned(n).0;
            let e = cluster::own_entry(n, Op::NoOp);
            &&& m.id == n.id
            &&& m.cluster_size == n.cluster_size
            &&& m.peers == n.peers
            &&& m.pending == n.pending
            &&& reaches(m)
            &&& m.persistent == n.persistent
            &&& m.volatile.last_applied == n.volatile.last_applied
            &&& m.volatile.role == Role::Leader
            &&& m.log == n.log.push(e)
            &&& e.term == n.persistent.current_term
            &&& e.index == n.log.len() + 1
            &&& m.volatile.commit_index == n.volatile.commit_index || replication::commit_point(
                m.match_index,
                m.log,
                m.persistent.current_term,
                m.cluster_size,
                cluster::own_match(m),
            ) == Some(m.volatile.commit_index)
            &&& forall|f: NodeId| #[trigger]
                m.match_index.contains_key(f) ==> f != n.id && m.match_index[f] == 0
        }),
{
    let e = cluster::own_entry(n, Op::NoOp);
    log::append_keeps_numbering(n.log, e.term, e.command);
    let next = (log::last_index(n.log) + 1) as u64;
    let leader = Node {
        volatile: VolatileState { role: Role::Leader, ..n.volatile },
        known_leader: Some(n.id),
        tally: None,
        next_index: cluster::for_all_peers(n.peers, next),
        match_index: cluster::for_all_peers(n.peers, 0),
        unanswered: Map::empty(),
        ..n
    };
    lemma_advanced(cluster::told(cluster::grown(leader, e)));
}

proof fn lemma_election<R>(s: System<R>, id: NodeId, now: Instant)
    requires
        coherent(s),
        s.nodes.contains_key(id),
        stands(s.nodes[id], Happening::ElectionDue),
        s.nodes[id].persistent.current_term < u64::MAX,
        s.nodes[id].log.len() < u64::MAX,
    ensures
        ({
            let (m, deeds) = cluster::campaign(s.nodes[id], now);
            carries_on(s, noted(s, s.nodes[id], m, Happening::ElectionDue, mail(id, deeds)))
        }),
{
    let n = s.nodes[id];
    let (m, deeds) = cluster::campaign(n, now);
    let event = Happening::<R>::ElectionDue;
    let letters = mail(id, deeds);
    let t = noted(s, n, m, event, letters);
    let standing = cluster::candidate(n, now);
    let calls = seq![Act::<R>::ResetElectionTimer] + cluster::ballots(n);
    let term = standing.persistent.current_term;
    assert(node_ok(s, id));
    assert(s.nodes.dom().contains(id));
    assert(!s.votes.contains_key((term, id))) by {
        if s.votes.contains_key((term, id)) {
            assert(vote_ok(s, term, id));
        }
    }
    assert(t.stood == s.stood.insert((term, id), n.log));
    assert forall|from: NodeId, to: NodeId, msg: Message| #[trigger]
        mail(id, calls).contains((from, to, msg)) implies letter_ok(t, from, to, msg) by {
        let i = choose|i: int|
            0 <= i < calls.len() && #[trigger] calls[i] == Act::<R>::Send { to, msg };
        assert(cluster::ballots(n)[i - 1] == Act::<R>::Send { to, msg });
        assert(n.peers.contains(to));
    }
    if standing.tally->0.won() {
        assert(set![id] =~= Set::<NodeId>::empty().insert(id));
        assert(electors(n, event) == standing.tally->0.voters);
        assert(2 * electors(n, event).len() > s.nodes.len());
        assert(!s.elected.contains_key(term)) by {
            if s.elected.contains_key(term) {
                assert(crown_ok(s, term));
                let leader = s.elected[term].leader;
                assert(stand_ok(s, term, leader));
                lemma_only_node(s.nodes.dom(), id, leader);
            }
        }
        lemma_rooted_is_numbered(s, n.log);
        lemma_crowned_shape(standing);
        assert(m == cluster::crowned(standing).0);
        assert(rises(s, n, m, event));
        assert(deeds == calls + cluster::crowned(standing).1);
        lemma_office(s, id, standing, event, calls);
    } else {
        assert(t.votes.contains_key((term, id)));
        assert(candidate_ok(t, m)) by {
            assert forall|v: NodeId| #[trigger]
                m.tally->0.voters.contains(v) implies t.votes.contains_key((term, v)) && t.votes[(
                term,
                v,
            )].candidate == id by {
                assert(v == id);
            }
            if s.elected.contains_key(term) && s.elected[term].leader == id {
                assert(crown_ok(s, term));
                assert(stand_ok(s, term, id));
            }
        }
        assert(turns(s, n, m, event));
        lemma_turn(s, id, m, event, letters);
    }
}

/// In a set of at most one, two are the same.
proof fn lemma_only_node(members: Set<NodeId>, a: NodeId, b: NodeId)
    requires
        members.finite(),
        members.len() <= 1,
        members.contains(a),
        members.contains(b),
    ensures
        a == b,
{
    if a != b {
        let two = set![a, b];
        assert(two.subset_of(members));
        vstd::set_lib::lemma_len_subset(two, members);
        assert(two.len() == 2);
    }
}

/// Every reaction to an event keeps nodes and record coherent.
proof fn lemma_reaction<R>(s: System<R>, id: NodeId, event: Happening<R>, now: Instant)
    requires
        coherent(s),
        dealable(s, id, event),
    ensures
        ({
            let (m, deeds) = cluster::reacted(s.nodes[id], event, now);
            carries_on(s, noted(s, s.nodes[id], m, event, mail(id, deeds)))
        }),
{
    let n = s.nodes[id];
    let (m, deeds) = cluster::reacted(n, event, now);
    assert(node_ok(s, id));
    match event {
        Happening::Rpc { from, msg } => match msg {
            Message::Hello(_) => lemma_idle(s, id, event, deeds),
            Message::RequestVote(req) => lemma_vote_request(s, id, from, req, now),
            Message::RequestVoteResponse(resp) => lemma_vote_reply(s, id, from, resp),
            Message::AppendEntries(req) => lemma_append_request(s, id, from, req, now),
            Message::AppendEntriesResponse(resp) => lemma_append_reply(s, id, from, resp),
        },
        Happening::Command { op, client } => {
            if n.volatile.role == Role::Leader {
                lemma_command(s, id, op, client);
            } else {
                lemma_idle(s, id, event, deeds);
            }
        },
        Happening::Query { .. } => lemma_idle(s, id, event, deeds),
        Happening::HeartbeatDue => {
            if n.volatile.role == Role::Leader {
                lemma_heartbeat(s, id);
            } else {
                lemma_idle(s, id, event, deeds);
            }
        },
        Happening::ElectionDue => {
            if stands(n, event) {
                lemma_election(s, id, now);
            } else {
                lemma_idle(s, id, event, deeds);
            }
        },
    }
}

/// A node can deal with an event now, and if it is a follower's answer, what
/// it says is true.
spec fn dealable<R>(s: System<R>, id: NodeId, event: Happening<R>) -> bool {
    &&& s.nodes.contains_key(id)
    &&& cluster::admissible(s.nodes[id], event)
    &&& s.nodes[id].log.len() < u64::MAX
    &&& event matches Happening::Rpc { from, msg } ==> s.sent.contains((from, id, msg)) && (
    msg matches Message::AppendEntriesResponse(resp) ==> credible(s, id, from, resp))
}

/// Applying committed entries keeps nodes and record coherent.
proof fn lemma_settling_is_coherent<R>(s: System<R>, id: NodeId)
    requires
        coherent(s),
        s.nodes.contains_key(id),
    ensures
        carries_on(
            s,
            System { nodes: s.nodes.insert(id, cluster::settled(s.nodes[id]).0), ..s },
        ),
{
    let n = s.nodes[id];
    let m = cluster::settled(n).0;
    let t = System { nodes: s.nodes.insert(id, m), ..s };
    let term = n.persistent.current_term;
    safety::settling_settles(n);
    assert(node_ok(s, id));
    assert(t.nodes.dom() =~= s.nodes.dom());
    assert(s.nodes.dom().contains(id));
    assert(extends(s, t)) by {
        assert forall|a: Term| #[trigger] s.script.contains_key(a) implies t.script.contains_key(a)
            && log::begins(t.script[a], s.script[a]) by {
            assert(s.script[a].take(s.script[a].len() as int) =~= s.script[a]);
        }
    }
    let k = m.volatile.last_applied as nat;
    assert(sealed(s, id, n.log, term, k)) by {
        if n.volatile.last_applied <= n.volatile.commit_index {
            lemma_sealed_less(s, id, n.log, term, n.volatile.commit_index as nat, term, k);
        } else {
            assert(m == n);
        }
    }
    lemma_sealed_stays(s, t, id, n.log, term, k);
    lemma_sealed_stays(s, t, id, n.log, term, n.volatile.commit_index as nat);
    lemma_rooted_stays(s, t, n.log);
    assert(t.nodes.len() == s.nodes.len());
    if m.volatile.role == Role::Candidate {
        assert(candidate_ok(t, m));
    }
    if m.volatile.role == Role::Leader {
        assert(leader_ok(t, m));
    }
    lemma_fewer_wait(n);
    lemma_waiting_stays(s, t, n, m);
    assert(node_ok(t, id));
    assert forall|a: Term| #[trigger] t.acked.contains_key((a, id)) implies keeps_word(
        t,
        a,
        id,
    ) by {
        lemma_word_grows(s, t, a, id);
    }
    assert(evolves(s, t, id));
    lemma_evolution_is_sound(s, t, id);
}

/// Applying committed entries makes nobody wait who did not wait before.
proof fn lemma_fewer_wait<R>(n: Node<R>)
    ensures
        forall|i: u64| #[trigger]
            cluster::settled(n).0.pending.contains_key(i) ==> n.pending.contains_key(i)
                && n.pending[i] == cluster::settled(n).0.pending[i],
    decreases n.volatile.commit_index - n.volatile.last_applied,
{
    if cluster::unsettled(n) {
        lemma_fewer_wait(cluster::applied_one(n).0);
    }
}

/// The nodes and the record after one node has dealt with an event.
pub open spec fn dealt<R>(s: System<R>, id: NodeId, event: Happening<R>, now: Instant) -> System<R> {
    let n = s.nodes[id];
    let (m, deeds) = cluster::stepped(n, event, now);
    noted(s, n, m, event, mail(id, deeds))
}

proof fn lemma_step<R>(s: System<R>, id: NodeId, event: Happening<R>, now: Instant)
    requires
        coherent(s),
        dealable(s, id, event),
    ensures
        carries_on(s, dealt(s, id, event, now)),
{
    let n = s.nodes[id];
    let (mid, deeds) = cluster::reacted(n, event, now);
    let (done, answers) = cluster::settled(mid);
    lemma_reaction(s, id, event, now);
    assert(node_ok(s, id));
    let half = noted(s, n, mid, event, mail(id, deeds));
    safety::settling_settles(mid);
    safety::settling_only_answers(mid);
    assert(mail(id, deeds + answers) =~= mail(id, deeds)) by {
        let all = deeds + answers;
        assert forall|letter: (NodeId, NodeId, Message)| mail(id, deeds).contains(
            letter,
        ) implies mail(id, all).contains(letter) by {
            let i = choose|i: int|
                0 <= i < deeds.len() && #[trigger] deeds[i] == Act::<R>::Send {
                    to: letter.1,
                    msg: letter.2,
                };
            assert(all[i] == deeds[i]);
        }
        assert forall|letter: (NodeId, NodeId, Message)| mail(id, all).contains(
            letter,
        ) implies mail(id, deeds).contains(letter) by {
            let i = choose|i: int|
                0 <= i < all.len() && #[trigger] all[i] == Act::<R>::Send {
                    to: letter.1,
                    msg: letter.2,
                };
            if i >= deeds.len() {
                assert(answers[i - deeds.len()] is Respond);
            }
            assert(all[i] == deeds[i]);
        }
    }
    assert(half.nodes[id] == mid);
    assert(half.nodes.insert(id, done) =~= s.nodes.insert(id, done));
    assert(dealt(s, id, event, now) == System { nodes: half.nodes.insert(id, done), ..half });
    lemma_settling_is_coherent(half, id);
    lemma_extending_twice(s, half, dealt(s, id, event, now));
}

proof fn lemma_extending_twice<R>(a: System<R>, b: System<R>, c: System<R>)
    requires
        extends(a, b),
        extends(b, c),
    ensures
        extends(a, c),
{
    assert forall|term: Term| #[trigger] a.script.contains_key(term) implies c.script.contains_key(
        term,
    ) && log::begins(c.script[term], a.script[term]) by {
        assert(b.script.contains_key(term));
        lemma_begins(c.script[term], b.script[term], a.script[term]);
    }
    assert forall|key: (Term, NodeId)| #[trigger] a.acked.contains_key(
        key,
    ) implies c.acked.contains_key(key) && a.acked[key] <= c.acked[key] by {
        assert(b.acked.contains_key(key));
    }
    assert forall|key: (Term, NodeId)| #[trigger] a.votes.contains_key(
        key,
    ) implies c.votes.contains_key(key) && c.votes[key] == a.votes[key] by {
        assert(b.votes.contains_key(key));
    }
    assert forall|key: (Term, NodeId)| #[trigger] a.stood.contains_key(
        key,
    ) implies c.stood.contains_key(key) && c.stood[key] == a.stood[key] by {
        assert(b.stood.contains_key(key));
    }
    assert forall|term: Term| #[trigger] a.elected.contains_key(
        term,
    ) implies c.elected.contains_key(term) && c.elected[term] == a.elected[term] by {
        assert(b.elected.contains_key(term));
    }
}

/// A cluster and the links between its nodes.
#[verifier::reject_recursive_types(R)]
pub struct World<R> {
    pub cluster: System<R>,
    /// What is under way from one node to another, oldest first.
    pub links: Map<(NodeId, NodeId), Seq<Message>>,
}

/// What is under way from `from` to `to`.
pub open spec fn link<R>(w: World<R>, from: NodeId, to: NodeId) -> Seq<Message> {
    if w.links.contains_key((from, to)) {
        w.links[(from, to)]
    } else {
        Seq::empty()
    }
}

/// The messages to one node among some actions, in order.
pub open spec fn addressed<R>(deeds: Seq<Act<R>>, to: NodeId) -> Seq<Message>
    decreases deeds.len(),
{
    if deeds.len() == 0 {
        Seq::empty()
    } else {
        let before = addressed(deeds.drop_last(), to);
        match deeds.last() {
            Act::Send { to: other, msg } => if other == to {
                before.push(msg)
            } else {
                before
            },
            _ => before,
        }
    }
}

/// What is under way on a link once node `id` has taken the message it deals
/// with, if it deals with one.
pub open spec fn received<R>(
    w: World<R>,
    id: NodeId,
    event: Happening<R>,
    from: NodeId,
    to: NodeId,
) -> Seq<Message> {
    match event {
        Happening::Rpc { from: sender, .. } => if sender == from && to == id {
            link(w, from, to).drop_first()
        } else {
            link(w, from, to)
        },
        _ => link(w, from, to),
    }
}

/// The links after node `id` has taken the message it deals with, and has
/// sent what it had to send.
pub open spec fn carried<R>(
    w: World<R>,
    id: NodeId,
    event: Happening<R>,
    deeds: Seq<Act<R>>,
) -> Map<(NodeId, NodeId), Seq<Message>> {
    Map::new(
        |key: (NodeId, NodeId)| true,
        |key: (NodeId, NodeId)|
            if key.0 == id {
                received(w, id, event, key.0, key.1) + addressed(deeds, key.1)
            } else {
                received(w, id, event, key.0, key.1)
            },
    )
}

/// The world after one node has dealt with an event.
pub open spec fn turned<R>(w: World<R>, id: NodeId, event: Happening<R>, now: Instant) -> World<R> {
    World {
        cluster: dealt(w.cluster, id, event, now),
        links: carried(w, id, event, cluster::stepped(w.cluster.nodes[id], event, now).1),
    }
}

/// A node can deal with an event now. A message that arrives is the oldest
/// that is under way from its sender.
pub open spec fn possible<R>(w: World<R>, id: NodeId, event: Happening<R>) -> bool {
    &&& w.cluster.nodes.contains_key(id)
    &&& cluster::admissible(w.cluster.nodes[id], event)
    &&& w.cluster.nodes[id].log.len() < u64::MAX
    &&& event matches Happening::Rpc { from, msg } ==> link(w, from, id).len() > 0 && link(
        w,
        from,
        id,
    )[0] == msg
}

/// The world after the oldest message on a link is lost.
pub open spec fn after_loss<R>(w: World<R>, from: NodeId, to: NodeId) -> World<R> {
    World { links: w.links.insert((from, to), link(w, from, to).drop_first()), ..w }
}

/// The answers to a leader of `term` among some messages.
pub open spec fn answers(msgs: Seq<Message>, term: Term) -> Seq<AppendEntriesResponse>
    decreases msgs.len(),
{
    if msgs.len() == 0 {
        Seq::empty()
    } else {
        let others = answers(msgs.drop_first(), term);
        match msgs[0] {
            Message::AppendEntriesResponse(resp) => if resp.term == term && cluster::is_answer(
                resp,
            ) {
                seq![resp] + others
            } else {
                others
            },
            _ => others,
        }
    }
}

/// The requests of a leader of `term` among some messages.
pub open spec fn requests(msgs: Seq<Message>, term: Term) -> Seq<Append>
    decreases msgs.len(),
{
    if msgs.len() == 0 {
        Seq::empty()
    } else {
        let others = requests(msgs.drop_first(), term);
        match msgs[0] {
            Message::AppendEntries(req) => if req.term == term {
                seq![req] + others
            } else {
                others
            },
            _ => others,
        }
    }
}

/// Where a request that a leader remembers ends in its log.
pub open spec fn extent(span: (u64, u64)) -> int {
    span.0 + span.1
}

/// What a leader waits for from a follower fits what is under way between
/// them. The answers under way come first, then the answers to the requests
/// under way. Each of them is to one of the requests the leader waits for, not
/// to an earlier one than its place says, and later requests reach no less
/// far. `len` is the length of the leader's log, and `held` is how much of it
/// the follower has confirmed.
pub open spec fn in_step(
    waiting: Seq<(u64, u64)>,
    replies: Seq<AppendEntriesResponse>,
    asked: Seq<Append>,
    len: nat,
    held: nat,
) -> bool {
    &&& replies.len() + asked.len() <= waiting.len()
    &&& forall|j: int| 0 <= j < waiting.len() ==> extent(#[trigger] waiting[j]) <= len
    &&& forall|i: int, j: int|
        #![trigger waiting[i], waiting[j]]
        0 <= i <= j < waiting.len() ==> extent(waiting[i]) <= extent(waiting[j])
    &&& forall|j: int|
        0 <= j < replies.len() && (#[trigger] replies[j]).success ==> extent(waiting[j]) <= held
    &&& forall|j: int|
        0 <= j < asked.len() ==> extent(waiting[replies.len() + j]) <= end_of(#[trigger] asked[j])
}

/// A leader and a follower are in step.
pub open spec fn paced<R>(w: World<R>, leader: NodeId, follower: NodeId) -> bool {
    let n = w.cluster.nodes[leader];
    let term = n.persistent.current_term;
    w.cluster.nodes.contains_key(leader) && n.volatile.role == Role::Leader ==> in_step(
        cluster::waiting(n, follower),
        answers(link(w, follower, leader), term),
        requests(link(w, leader, follower), term),
        n.log.len(),
        confirmed(w.cluster, term, follower),
    )
}

/// Everything under way was sent, and leaders are in step with all followers.
pub open spec fn orderly<R>(w: World<R>) -> bool {
    &&& forall|from: NodeId, to: NodeId, j: int|
        0 <= j < link(w, from, to).len() ==> w.cluster.sent.contains(
            (from, to, #[trigger] link(w, from, to)[j]),
        )
    &&& forall|leader: NodeId, follower: NodeId| #[trigger] paced(w, leader, follower)
}

/// What holds of a cluster at all times.
pub open spec fn sound<R>(w: World<R>) -> bool {
    coherent(w.cluster) && orderly(w)
}

proof fn lemma_answer_lost(
    waiting: Seq<(u64, u64)>,
    replies: Seq<AppendEntriesResponse>,
    asked: Seq<Append>,
    len: nat,
    held: nat,
)
    requires
        in_step(waiting, replies, asked, len, held),
        replies.len() > 0,
    ensures
        in_step(waiting, replies.drop_first(), asked, len, held),
{
    let fewer = replies.drop_first();
    assert forall|j: int| 0 <= j < fewer.len() && (#[trigger] fewer[j]).success implies extent(
        waiting[j],
    ) <= held by {
        assert(fewer[j] == replies[j + 1]);
        assert(extent(waiting[j]) <= extent(waiting[j + 1]));
    }
    assert forall|j: int| 0 <= j < asked.len() implies extent(waiting[fewer.len() + j]) <= end_of(
        #[trigger] asked[j],
    ) by {
        assert(extent(waiting[fewer.len() + j]) <= extent(waiting[replies.len() + j]));
    }
}

proof fn lemma_request_lost(
    waiting: Seq<(u64, u64)>,
    replies: Seq<AppendEntriesResponse>,
    asked: Seq<Append>,
    len: nat,
    held: nat,
)
    requires
        in_step(waiting, replies, asked, len, held),
        asked.len() > 0,
    ensures
        in_step(waiting, replies, asked.drop_first(), len, held),
{
    let fewer = asked.drop_first();
    assert forall|j: int| 0 <= j < fewer.len() implies extent(waiting[replies.len() + j]) <= end_of(
        #[trigger] fewer[j],
    ) by {
        assert(fewer[j] == asked[j + 1]);
        assert(extent(waiting[replies.len() + j]) <= extent(waiting[replies.len() + (j + 1)]));
    }
}

proof fn lemma_answer_taken(
    waiting: Seq<(u64, u64)>,
    replies: Seq<AppendEntriesResponse>,
    asked: Seq<Append>,
    len: nat,
    held: nat,
)
    requires
        in_step(waiting, replies, asked, len, held),
        replies.len() > 0,
    ensures
        in_step(waiting.drop_first(), replies.drop_first(), asked, len, held),
{
    let left = waiting.drop_first();
    let fewer = replies.drop_first();
    assert forall|j: int| 0 <= j < fewer.len() && (#[trigger] fewer[j]).success implies extent(
        left[j],
    ) <= held by {
        assert(fewer[j] == replies[j + 1]);
        assert(left[j] == waiting[j + 1]);
    }
    assert forall|j: int| 0 <= j < asked.len() implies extent(left[fewer.len() + j]) <= end_of(
        #[trigger] asked[j],
    ) by {
        assert(left[fewer.len() + j] == waiting[replies.len() + j]);
    }
}

proof fn lemma_request_sent(
    waiting: Seq<(u64, u64)>,
    replies: Seq<AppendEntriesResponse>,
    asked: Seq<Append>,
    len: nat,
    held: nat,
    span: (u64, u64),
    req: Append,
    more: nat,
)
    requires
        in_step(waiting, replies, asked, len, held),
        len <= more,
        extent(span) == more,
        end_of(req) == more,
    ensures
        in_step(waiting.push(span), replies, asked.push(req), more, held),
{
    let longer = waiting.push(span);
    assert forall|j: int| 0 <= j < longer.len() implies extent(#[trigger] longer[j]) <= more by {
        if j < waiting.len() {
            assert(longer[j] == waiting[j]);
        }
    }
    assert forall|j: int| 0 <= j < asked.push(req).len() implies extent(
        longer[replies.len() + j],
    ) <= end_of(#[trigger] asked.push(req)[j]) by {
        if j < asked.len() {
            assert(asked.push(req)[j] == asked[j]);
            assert(longer[replies.len() + j] == waiting[replies.len() + j]);
        } else {
            assert(extent(longer[replies.len() + j]) <= more);
        }
    }
}

proof fn lemma_request_answered(
    waiting: Seq<(u64, u64)>,
    replies: Seq<AppendEntriesResponse>,
    asked: Seq<Append>,
    len: nat,
    held: nat,
    resp: AppendEntriesResponse,
    more: nat,
)
    requires
        in_step(waiting, replies, asked, len, held),
        asked.len() > 0,
        held <= more,
        resp.success ==> end_of(asked[0]) <= more,
    ensures
        in_step(waiting, replies.push(resp), asked.drop_first(), len, more),
{
    let longer = replies.push(resp);
    let fewer = asked.drop_first();
    assert forall|j: int| 0 <= j < longer.len() && (#[trigger] longer[j]).success implies extent(
        waiting[j],
    ) <= more by {
        if j < replies.len() {
            assert(longer[j] == replies[j]);
        } else {
            assert(extent(waiting[replies.len() as int]) <= end_of(asked[0]));
        }
    }
    assert forall|j: int| 0 <= j < fewer.len() implies extent(waiting[longer.len() + j]) <= end_of(
        #[trigger] fewer[j],
    ) by {
        assert(fewer[j] == asked[j + 1]);
        assert(longer.len() + j == replies.len() + (j + 1));
    }
}

proof fn lemma_answers_add_up(a: Seq<Message>, b: Seq<Message>, term: Term)
    ensures
        answers(a + b, term) == answers(a, term) + answers(b, term),
    decreases a.len(),
{
    if a.len() == 0 {
        assert(a + b =~= b);
        assert(answers(a, term) + answers(b, term) =~= answers(b, term));
    } else {
        lemma_answers_add_up(a.drop_first(), b, term);
        assert((a + b).drop_first() =~= a.drop_first() + b);
        assert((a + b)[0] == a[0]);
        let others = answers(a.drop_first(), term);
        if let Message::AppendEntriesResponse(resp) = a[0] {
            assert((seq![resp] + others) + answers(b, term) =~= seq![resp] + (others + answers(
                b,
                term,
            )));
        }
    }
}

proof fn lemma_requests_add_up(a: Seq<Message>, b: Seq<Message>, term: Term)
    ensures
        requests(a + b, term) == requests(a, term) + requests(b, term),
    decreases a.len(),
{
    if a.len() == 0 {
        assert(a + b =~= b);
        assert(requests(a, term) + requests(b, term) =~= requests(b, term));
    } else {
        lemma_requests_add_up(a.drop_first(), b, term);
        assert((a + b).drop_first() =~= a.drop_first() + b);
        assert((a + b)[0] == a[0]);
        let others = requests(a.drop_first(), term);
        if let Message::AppendEntries(req) = a[0] {
            assert((seq![req] + others) + requests(b, term) =~= seq![req] + (others + requests(
                b,
                term,
            )));
        }
    }
}

/// Taking the oldest message takes at most the oldest answer.
proof fn lemma_answers_shrink(msgs: Seq<Message>, term: Term)
    requires
        msgs.len() > 0,
    ensures
        answers(msgs.drop_first(), term) == answers(msgs, term) || (answers(msgs, term).len() > 0
            && answers(msgs.drop_first(), term) == answers(msgs, term).drop_first()),
        msgs[0] matches Message::AppendEntriesResponse(resp) && resp.term == term
            && cluster::is_answer(resp) ==> {
            &&& answers(msgs, term).len() > 0
            &&& answers(msgs, term)[0] == msgs[0]->AppendEntriesResponse_0
            &&& answers(msgs.drop_first(), term) == answers(msgs, term).drop_first()
        },
{
    let others = answers(msgs.drop_first(), term);
    if let Message::AppendEntriesResponse(resp) = msgs[0] {
        assert((seq![resp] + others).drop_first() =~= others);
    }
}

/// Taking the oldest message takes at most the oldest request.
proof fn lemma_requests_shrink(msgs: Seq<Message>, term: Term)
    requires
        msgs.len() > 0,
    ensures
        requests(msgs.drop_first(), term) == requests(msgs, term) || (requests(msgs, term).len() > 0
            && requests(msgs.drop_first(), term) == requests(msgs, term).drop_first()),
        msgs[0] matches Message::AppendEntries(req) && req.term == term ==> {
            &&& requests(msgs, term).len() > 0
            &&& requests(msgs, term)[0] == msgs[0]->AppendEntries_0
            &&& requests(msgs.drop_first(), term) == requests(msgs, term).drop_first()
        },
{
    let others = requests(msgs.drop_first(), term);
    if let Message::AppendEntries(req) = msgs[0] {
        assert((seq![req] + others).drop_first() =~= others);
    }
}

proof fn lemma_no_answers(msgs: Seq<Message>, term: Term)
    requires
        forall|j: int|
            0 <= j < msgs.len() ==> ((#[trigger] msgs[j]) matches Message::AppendEntriesResponse(
                resp,
            ) ==> resp.term != term || !cluster::is_answer(resp)),
    ensures
        answers(msgs, term) == Seq::<AppendEntriesResponse>::empty(),
    decreases msgs.len(),
{
    if msgs.len() > 0 {
        let fewer = msgs.drop_first();
        assert forall|j: int| 0 <= j < fewer.len() implies ((
        #[trigger] fewer[j]) matches Message::AppendEntriesResponse(resp) ==> resp.term != term
            || !cluster::is_answer(resp)) by {
            assert(fewer[j] == msgs[j + 1]);
        }
        lemma_no_answers(fewer, term);
        assert(msgs[0] matches Message::AppendEntriesResponse(resp) ==> resp.term != term
            || !cluster::is_answer(resp));
    }
}

proof fn lemma_no_requests(msgs: Seq<Message>, term: Term)
    requires
        forall|j: int|
            0 <= j < msgs.len() ==> ((#[trigger] msgs[j]) matches Message::AppendEntries(req)
                ==> req.term != term),
    ensures
        requests(msgs, term) == Seq::<Append>::empty(),
    decreases msgs.len(),
{
    if msgs.len() > 0 {
        let fewer = msgs.drop_first();
        assert forall|j: int| 0 <= j < fewer.len() implies ((
        #[trigger] fewer[j]) matches Message::AppendEntries(req) ==> req.term != term) by {
            assert(fewer[j] == msgs[j + 1]);
        }
        lemma_no_requests(fewer, term);
        assert(msgs[0] matches Message::AppendEntries(req) ==> req.term != term);
    }
}

/// Whatever is addressed to a node was sent to it.
proof fn lemma_addressed<R>(deeds: Seq<Act<R>>, to: NodeId, j: int)
    requires
        0 <= j < addressed(deeds, to).len(),
    ensures
        exists|i: int|
            0 <= i < deeds.len() && #[trigger] deeds[i] == (Act::<R>::Send {
                to,
                msg: addressed(deeds, to)[j],
            }),
    decreases deeds.len(),
{
    let fewer = deeds.drop_last();
    let msg = addressed(deeds, to)[j];
    if j < addressed(fewer, to).len() {
        lemma_addressed(fewer, to, j);
        let i = choose|i: int|
            0 <= i < fewer.len() && #[trigger] fewer[i] == Act::<R>::Send { to, msg };
        assert(deeds[i] == fewer[i]);
    } else {
        assert(deeds[deeds.len() - 1] == deeds.last());
    }
}

proof fn lemma_addressed_adds_up<R>(a: Seq<Act<R>>, b: Seq<Act<R>>, to: NodeId)
    ensures
        addressed(a + b, to) == addressed(a, to) + addressed(b, to),
    decreases b.len(),
{
    if b.len() == 0 {
        assert(a + b =~= a);
        assert(addressed(a, to) + addressed(b, to) =~= addressed(a, to));
    } else {
        lemma_addressed_adds_up(a, b.drop_last(), to);
        assert((a + b).drop_last() =~= a + b.drop_last());
        if let Act::Send { to: other, msg } = b.last() {
            let before = addressed(b.drop_last(), to);
            assert((addressed(a, to) + before).push(msg) =~= addressed(a, to) + before.push(msg));
        }
    }
}

proof fn lemma_nothing_addressed<R>(deeds: Seq<Act<R>>, to: NodeId)
    requires
        forall|i: int|
            0 <= i < deeds.len() ==> ((#[trigger] deeds[i]) matches Act::Send { to: other, .. }
                ==> other != to),
    ensures
        addressed(deeds, to) == Seq::<Message>::empty(),
{
    if addressed(deeds, to).len() > 0 {
        lemma_addressed(deeds, to, 0);
        let i = choose|i: int|
            0 <= i < deeds.len() && #[trigger] deeds[i] == Act::<R>::Send {
                to,
                msg: addressed(deeds, to)[0],
            };
        assert(deeds[i] is Send);
    }
    assert(addressed(deeds, to) =~= Seq::<Message>::empty());
}

/// A leader sends each peer one request, and waits for one more answer from
/// it.
proof fn lemma_told<R>(x: Node<R>, peer: NodeId)
    requires
        x.peers.no_duplicates(),
    ensures
        x.peers.contains(peer) ==> {
            &&& cluster::waiting(cluster::told(x), peer) == cluster::waiting(x, peer).push(
                cluster::span(cluster::request_to(x, peer)),
            )
            &&& addressed(cluster::updates(x), peer) == seq![
                Message::AppendEntries(cluster::request_to(x, peer)),
            ]
        },
        !x.peers.contains(peer) ==> {
            &&& cluster::waiting(cluster::told(x), peer) == cluster::waiting(x, peer)
            &&& addressed(cluster::updates(x), peer) == Seq::<Message>::empty()
        },
{
    let all = cluster::updates(x);
    if x.peers.contains(peer) {
        let k = choose|k: int| 0 <= k < x.peers.len() && x.peers[k] == peer;
        let before = all.take(k);
        let behind = all.skip(k + 1);
        let one = seq![all[k]];
        assert forall|i: int| 0 <= i < before.len() implies ((#[trigger] before[i]) matches Act::Send {
            to: other,
            ..
        } ==> other != peer) by {
            assert(before[i] == all[i]);
        }
        assert forall|i: int| 0 <= i < behind.len() implies ((#[trigger] behind[i]) matches Act::Send {
            to: other,
            ..
        } ==> other != peer) by {
            assert(behind[i] == all[i + k + 1]);
        }
        lemma_nothing_addressed(before, peer);
        lemma_nothing_addressed(behind, peer);
        assert(all =~= before + (one + behind));
        lemma_addressed_adds_up(before, one + behind, peer);
        lemma_addressed_adds_up(one, behind, peer);
        assert(addressed(one.drop_last(), peer) =~= Seq::<Message>::empty());
        assert(addressed(one, peer) =~= seq![
            Message::AppendEntries(cluster::request_to(x, peer)),
        ]);
        assert(addressed(all, peer) =~= addressed(one, peer));
        assert(x.peers.to_set().contains(peer));
    } else {
        assert forall|i: int| 0 <= i < all.len() implies ((#[trigger] all[i]) matches Act::Send {
            to: other,
            ..
        } ==> other != peer) by {
            assert(x.peers.contains(x.peers[i]));
        }
        lemma_nothing_addressed(all, peer);
        assert(!x.peers.to_set().contains(peer));
    }
}

/// Applying committed entries sends nothing.
proof fn lemma_settling_sends_nothing<R>(n: Node<R>, event: Happening<R>, now: Instant, to: NodeId)
    ensures
        addressed(cluster::stepped(n, event, now).1, to) == addressed(
            cluster::reacted(n, event, now).1,
            to,
        ),
{
    let (mid, deeds) = cluster::reacted(n, event, now);
    let replies = cluster::settled(mid).1;
    safety::settling_only_answers(mid);
    lemma_nothing_addressed(replies, to);
    lemma_addressed_adds_up(deeds, replies, to);
    assert(addressed(deeds, to) + Seq::<Message>::empty() =~= addressed(deeds, to));
}

/// A link after a node has dealt with an event.
proof fn lemma_link_after<R>(
    w: World<R>,
    id: NodeId,
    event: Happening<R>,
    now: Instant,
    from: NodeId,
    to: NodeId,
)
    ensures
        link(turned(w, id, event, now), from, to) == if from == id {
            received(w, id, event, from, to) + addressed(
                cluster::reacted(w.cluster.nodes[id], event, now).1,
                to,
            )
        } else {
            received(w, id, event, from, to)
        },
{
    lemma_settling_sends_nothing(w.cluster.nodes[id], event, now, to);
    assert(turned(w, id, event, now).links.contains_key((from, to)));
}

/// What is left on a link was sent.
proof fn lemma_left_was_sent<R>(
    w: World<R>,
    id: NodeId,
    event: Happening<R>,
    from: NodeId,
    to: NodeId,
    j: int,
)
    requires
        orderly(w),
        possible(w, id, event),
        0 <= j < received(w, id, event, from, to).len(),
    ensures
        w.cluster.sent.contains((from, to, received(w, id, event, from, to)[j])),
{
    let old = link(w, from, to);
    let left = received(w, id, event, from, to);
    if left.len() == old.len() {
        assert(left[j] == old[j]);
    } else {
        assert(left[j] == old[j + 1]);
    }
}

/// Nothing of a term is under way to or from a node that never led it.
proof fn lemma_quiet<R>(w: World<R>, id: NodeId, event: Happening<R>, f: NodeId, term: Term)
    requires
        coherent(w.cluster),
        orderly(w),
        possible(w, id, event),
        !(w.cluster.elected.contains_key(term) && w.cluster.elected[term].leader == id),
    ensures
        answers(received(w, id, event, f, id), term) == Seq::<AppendEntriesResponse>::empty(),
        requests(received(w, id, event, id, f), term) == Seq::<Append>::empty(),
{
    let s = w.cluster;
    let inward = received(w, id, event, f, id);
    assert forall|j: int| 0 <= j < inward.len() implies ((
    #[trigger] inward[j]) matches Message::AppendEntriesResponse(resp) ==> resp.term != term
        || !cluster::is_answer(resp)) by {
        lemma_left_was_sent(w, id, event, f, id, j);
        assert(letter_ok(s, f, id, inward[j]));
    }
    lemma_no_answers(inward, term);
    let outward = received(w, id, event, id, f);
    assert forall|j: int| 0 <= j < outward.len() implies ((
    #[trigger] outward[j]) matches Message::AppendEntries(req) ==> req.term != term) by {
        lemma_left_was_sent(w, id, event, id, f, j);
        assert(letter_ok(s, id, f, outward[j]));
    }
    lemma_no_requests(outward, term);
}

/// A leader that has told everyone is in step, if it was before.
proof fn lemma_told_in_step<R>(
    x: Node<R>,
    f: NodeId,
    replies: Seq<AppendEntriesResponse>,
    asked: Seq<Append>,
    len: nat,
    held: nat,
)
    requires
        x.peers.no_duplicates(),
        log::numbered(x.log),
        reaches(x),
        len <= x.log.len() <= u64::MAX,
        in_step(cluster::waiting(x, f), replies, asked, len, held),
    ensures
        in_step(
            cluster::waiting(cluster::told(x), f),
            replies,
            asked + requests(
                addressed(cluster::updates(x), f),
                x.persistent.current_term,
            ),
            x.log.len(),
            held,
        ),
{
    let term = x.persistent.current_term;
    let sends = addressed(cluster::updates(x), f);
    lemma_told(x, f);
    if x.peers.contains(f) {
        let req = cluster::request_to(x, f);
        lemma_request_ends(x, f);
        lemma_request_sent(
            cluster::waiting(x, f),
            replies,
            asked,
            len,
            held,
            cluster::span(req),
            req,
            x.log.len(),
        );
        assert(sends.drop_first() =~= Seq::<Message>::empty());
        assert(requests(sends.drop_first(), term) =~= Seq::<Append>::empty());
        assert(requests(sends, term) =~= seq![req]);
        assert(asked + seq![req] =~= asked.push(req));
    } else {
        assert(requests(sends, term) =~= Seq::<Append>::empty());
        assert(asked + requests(sends, term) =~= asked);
    }
}

/// A node that takes office is in step with everyone.
proof fn lemma_crowned_in_step<R>(
    standing: Node<R>,
    calls: Seq<Act<R>>,
    f: NodeId,
    held: nat,
)
    requires
        standing.peers.no_duplicates(),
        log::numbered(standing.log),
        standing.log.len() < u64::MAX,
        forall|i: int|
            0 <= i < calls.len() ==> !((#[trigger] calls[i]) matches Act::Send {
                msg: Message::AppendEntries(_),
                ..
            }),
    ensures
        ({
            let (m, deeds) = cluster::crowned(standing);
            in_step(
                cluster::waiting(m, f),
                Seq::<AppendEntriesResponse>::empty(),
                requests(addressed(calls + deeds, f), standing.persistent.current_term),
                m.log.len(),
                held,
            )
        }),
{
    let (m, deeds) = cluster::crowned(standing);
    let term = standing.persistent.current_term;
    let next = (log::last_index(standing.log) + 1) as u64;
    let leader = Node {
        volatile: VolatileState { role: Role::Leader, ..standing.volatile },
        known_leader: Some(standing.id),
        tally: None,
        next_index: cluster::for_all_peers(standing.peers, next),
        match_index: cluster::for_all_peers(standing.peers, 0),
        unanswered: Map::empty(),
        ..standing
    };
    let entry = cluster::own_entry(leader, Op::NoOp);
    let grown = cluster::grown(leader, entry);
    log::append_keeps_numbering(standing.log, entry.term, entry.command);
    lemma_advanced(cluster::told(grown));
    assert(reaches(grown));
    let none = Seq::<AppendEntriesResponse>::empty();
    let nil = Seq::<Append>::empty();
    assert(cluster::waiting(grown, f) == Seq::<(u64, u64)>::empty());
    assert(in_step(cluster::waiting(grown, f), none, nil, 0, held));
    lemma_told_in_step(grown, f, none, nil, 0, held);
    let sends = addressed(cluster::updates(grown), f);
    assert(nil + requests(sends, term) =~= requests(sends, term));
    assert(addressed(deeds, f) == sends);
    lemma_addressed_adds_up(calls, deeds, f);
    let called = addressed(calls, f);
    assert forall|j: int| 0 <= j < called.len() implies ((
    #[trigger] called[j]) matches Message::AppendEntries(req) ==> req.term != term) by {
        lemma_addressed(calls, f, j);
        let i = choose|i: int|
            0 <= i < calls.len() && #[trigger] calls[i] == (Act::<R>::Send { to: f, msg: called[j] });
    }
    lemma_no_requests(called, term);
    lemma_requests_add_up(called, sends, term);
    assert(nil + requests(sends, term) =~= requests(sends, term));
    assert(cluster::waiting(m, f) == cluster::waiting(cluster::told(grown), f));
}

/// A leader stays in step with its followers, whatever it deals with.
proof fn lemma_leader_paced<R>(
    w: World<R>,
    id: NodeId,
    event: Happening<R>,
    now: Instant,
    f: NodeId,
)
    requires
        sound(w),
        possible(w, id, event),
        extends(w.cluster, turned(w, id, event, now).cluster),
    ensures
        paced(turned(w, id, event, now), id, f),
{
    let s = w.cluster;
    let v = turned(w, id, event, now);
    let n = s.nodes[id];
    let (mid, deeds) = cluster::reacted(n, event, now);
    let done = v.cluster.nodes[id];
    let term = mid.persistent.current_term;
    safety::settling_settles(mid);
    assert(node_ok(s, id));
    assert(done == cluster::stepped(n, event, now).0);
    if mid.volatile.role == Role::Leader {
        let held = confirmed(v.cluster, term, f);
        assert(confirmed(s, term, f) <= held) by {
            if s.acked.contains_key((term, f)) {
                assert(v.cluster.acked.contains_key((term, f)));
            }
        }
        lemma_rooted_is_numbered(s, n.log);
        lemma_link_after(w, id, event, now, id, f);
        lemma_link_after(w, id, event, now, f, id);
        if f == id {
            lemma_no_link_to_oneself(w, id);
        }
        let inward = received(w, id, event, f, id);
        let outward = received(w, id, event, id, f);
        lemma_requests_add_up(outward, addressed(deeds, f), term);
        if f == id {
            assert(addressed(deeds, f) == Seq::<Message>::empty()) by {
                lemma_nothing_to_oneself(n, event, now);
            }
            assert(outward + Seq::<Message>::empty() =~= outward);
        }
        assert(cluster::waiting(done, f) == cluster::waiting(mid, f));
        if n.volatile.role == Role::Leader {
            assert(term == n.persistent.current_term);
            lemma_leader_stays_in_step(w, id, event, now, f, held);
        } else {
            assert(!(s.elected.contains_key(term) && s.elected[term].leader == id)) by {
                if s.elected.contains_key(term) && s.elected[term].leader == id {
                    assert(crown_ok(s, term));
                    assert(stand_ok(s, term, id));
                }
            }
            lemma_quiet(w, id, event, f, term);
            if event is ElectionDue {
                let calls = seq![Act::<R>::ResetElectionTimer] + cluster::ballots(n);
                lemma_crowned_in_step(cluster::candidate(n, now), calls, f, held);
            } else {
                let from = event->Rpc_from;
                let standing = Node { tally: cluster::counted(n, from), ..n };
                let none = Seq::<Act<R>>::empty();
                assert(none + deeds =~= deeds);
                lemma_crowned_in_step(standing, none, f, held);
            }
            assert(Seq::<Append>::empty() + requests(addressed(deeds, f), term) =~= requests(
                addressed(deeds, f),
                term,
            ));
        }
    }
}

/// Nothing is under way from a node to itself.
proof fn lemma_no_link_to_oneself<R>(w: World<R>, id: NodeId)
    requires
        sound(w),
    ensures
        link(w, id, id).len() == 0,
{
    if link(w, id, id).len() > 0 {
        assert(w.cluster.sent.contains((id, id, link(w, id, id)[0])));
        assert(letter_ok(w.cluster, id, id, link(w, id, id)[0]));
    }
}

/// A leader that was one before stays in step.
proof fn lemma_leader_stays_in_step<R>(
    w: World<R>,
    id: NodeId,
    event: Happening<R>,
    now: Instant,
    f: NodeId,
    held: nat,
)
    requires
        sound(w),
        possible(w, id, event),
        w.cluster.nodes[id].volatile.role == Role::Leader,
        cluster::reacted(w.cluster.nodes[id], event, now).0.volatile.role == Role::Leader,
        confirmed(w.cluster, w.cluster.nodes[id].persistent.current_term, f) <= held,
    ensures
        ({
            let n = w.cluster.nodes[id];
            let (mid, deeds) = cluster::reacted(n, event, now);
            let term = n.persistent.current_term;
            in_step(
                cluster::waiting(mid, f),
                answers(received(w, id, event, f, id), term),
                requests(received(w, id, event, id, f), term) + requests(
                    addressed(deeds, f),
                    term,
                ),
                mid.log.len(),
                held,
            )
        }),
{
    let s = w.cluster;
    let n = s.nodes[id];
    let term = n.persistent.current_term;
    let (mid, deeds) = cluster::reacted(n, event, now);
    let queue = cluster::waiting(n, f);
    let replies = answers(link(w, f, id), term);
    let asked = requests(link(w, id, f), term);
    let len = n.log.len();
    assert(node_ok(s, id));
    assert(paced(w, id, f));
    assert(in_step(queue, replies, asked, len, held));
    lemma_rooted_is_numbered(s, n.log);
    if f == id {
        lemma_no_link_to_oneself(w, id);
    }
    let sends = addressed(deeds, f);
    match event {
        Happening::HeartbeatDue => {
            lemma_told_in_step(n, f, replies, asked, len, held);
        },
        Happening::Command { op, client } => {
            let entry = cluster::own_entry(n, op);
            let grown = cluster::grown(cluster::awaiting(n, op, client), entry);
            log::append_keeps_numbering(n.log, entry.term, entry.command);
            lemma_advanced(cluster::told(grown));
            assert(reaches(grown));
            assert(cluster::waiting(grown, f) == queue);
            lemma_told_in_step(grown, f, replies, asked, len, held);
            assert(sends == addressed(cluster::updates(grown), f));
            assert(cluster::waiting(mid, f) == cluster::waiting(cluster::told(grown), f));
        },
        Happening::Rpc { from, msg } => {
            assert forall|j: int| 0 <= j < sends.len() implies ((
            #[trigger] sends[j]) matches Message::AppendEntries(req) ==> req.term != term) by {
                lemma_addressed(deeds, f, j);
                let i = choose|i: int|
                    0 <= i < deeds.len() && #[trigger] deeds[i] == (Act::<R>::Send {
                        to: f,
                        msg: sends[j],
                    });
            }
            lemma_no_requests(sends, term);
            assert(asked + Seq::<Append>::empty() =~= asked);
            assert(s.sent.contains((from, id, link(w, from, id)[0])));
            assert(letter_ok(s, from, id, msg));
            assert(received(w, id, event, id, f) == link(w, id, f));
            lemma_answers_shrink(link(w, from, id), term);
            assert(mid.log == n.log);
            if f == from {
                if replies.len() > 0 {
                    lemma_answer_lost(queue, replies, asked, len, held);
                    lemma_answer_taken(queue, replies, asked, len, held);
                }
                match msg {
                    Message::AppendEntriesResponse(resp) => {
                        if resp.term == term && cluster::is_answer(resp) {
                            assert(cluster::waiting(mid, f) == queue.drop_first());
                        } else {
                            assert(cluster::waiting(mid, f) == queue);
                        }
                    },
                    _ => {
                        assert(cluster::waiting(mid, f) == queue);
                    },
                }
            } else {
                assert(received(w, id, event, f, id) == link(w, f, id));
                assert(cluster::waiting(mid, f) == queue);
            }
        },
        _ => {
            lemma_nothing_addressed(deeds, f);
            assert(requests(sends, term) =~= Seq::<Append>::empty());
            assert(asked + Seq::<Append>::empty() =~= asked);
        },
    }
}

/// No node sends anything to itself.
proof fn lemma_nothing_to_oneself<R>(n: Node<R>, event: Happening<R>, now: Instant)
    requires
        !n.peers.contains(n.id),
    ensures
        addressed(cluster::reacted(n, event, now).1, n.id) == Seq::<Message>::empty(),
{
    let deeds = cluster::reacted(n, event, now).1;
    assert forall|i: int| 0 <= i < deeds.len() implies ((#[trigger] deeds[i]) matches Act::Send {
        to: other,
        ..
    } ==> other != n.id) by {
        if deeds[i] is Send {
            assert(n.peers.contains(deeds[i]->Send_to));
        }
    }
    lemma_nothing_addressed(deeds, n.id);
}

/// A leader stays in step with a follower, whatever the follower deals with.
proof fn lemma_follower_paced<R>(
    w: World<R>,
    id: NodeId,
    event: Happening<R>,
    now: Instant,
    leader: NodeId,
)
    requires
        sound(w),
        possible(w, id, event),
        extends(w.cluster, turned(w, id, event, now).cluster),
        leader != id,
    ensures
        paced(turned(w, id, event, now), leader, id),
{
    let s = w.cluster;
    let v = turned(w, id, event, now);
    let t = v.cluster;
    let n = s.nodes[id];
    let l = s.nodes[leader];
    let deeds = cluster::reacted(n, event, now).1;
    let term = l.persistent.current_term;
    if t.nodes.contains_key(leader) && l.volatile.role == Role::Leader {
        assert(t.nodes[leader] == l);
        let queue = cluster::waiting(l, id);
        let replies = answers(link(w, id, leader), term);
        let asked = requests(link(w, leader, id), term);
        let len = l.log.len();
        let held = confirmed(s, term, id);
        let more = confirmed(t, term, id);
        assert(held <= more) by {
            if s.acked.contains_key((term, id)) {
                assert(t.acked.contains_key((term, id)));
            }
        }
        assert(s.nodes.dom().contains(leader));
        assert(node_ok(s, id));
        assert(paced(w, leader, id));
        assert(in_step(queue, replies, asked, len, held));
        assert(in_step(queue, replies, asked, len, more));
        lemma_link_after(w, id, event, now, id, leader);
        lemma_link_after(w, id, event, now, leader, id);
        let sends = addressed(deeds, leader);
        lemma_answers_add_up(link(w, id, leader), sends, term);
        if is_request_of(n, event, leader, term) {
            let req = event->Rpc_msg->AppendEntries_0;
            lemma_requests_shrink(link(w, leader, id), term);
            lemma_request_lost(queue, replies, asked, len, more);
            lemma_reply_alone(n, leader, req, now);
            let reply = replication::append_reply(n.persistent, n.log, req);
            if n.peers.contains(leader) && !cluster::withheld(n, req) {
                let one = seq![Message::AppendEntriesResponse(reply)];
                assert(one.drop_first() =~= Seq::<Message>::empty());
                assert(answers(one.drop_first(), term) =~= Seq::<AppendEntriesResponse>::empty());
                if reply.term == term && cluster::is_answer(reply) {
                    assert(answers(one, term) =~= seq![reply]);
                    if reply.success {
                        lemma_confirms(w, id, leader, req, now);
                    }
                    lemma_request_answered(queue, replies, asked, len, held, reply, more);
                    assert(replies + seq![reply] =~= replies.push(reply));
                } else {
                    assert(replies + Seq::<AppendEntriesResponse>::empty() =~= replies);
                }
            } else {
                assert(replies + Seq::<AppendEntriesResponse>::empty() =~= replies);
            }
        } else {
            lemma_no_other_answers(n, event, now, leader, term);
            assert(replies + Seq::<AppendEntriesResponse>::empty() =~= replies);
            if received(w, id, event, leader, id) != link(w, leader, id) {
                lemma_requests_shrink(link(w, leader, id), term);
                if asked.len() > 0 {
                    lemma_request_lost(queue, replies, asked, len, more);
                }
            }
        }
    }
}

/// This is a request that a leader of `term` made and the node deals with.
spec fn is_request_of<R>(n: Node<R>, event: Happening<R>, leader: NodeId, term: Term) -> bool {
    event matches Happening::Rpc { from, msg: Message::AppendEntries(req) } && from == leader
        && req.term == term
}

/// Nobody sends a leader an answer in its term but to a request of that term.
proof fn lemma_no_other_answers<R>(
    n: Node<R>,
    event: Happening<R>,
    now: Instant,
    leader: NodeId,
    term: Term,
)
    requires
        !is_request_of(n, event, leader, term),
    ensures
        answers(addressed(cluster::reacted(n, event, now).1, leader), term) == Seq::<
            AppendEntriesResponse,
        >::empty(),
{
    let deeds = cluster::reacted(n, event, now).1;
    let sends = addressed(deeds, leader);
    assert forall|j: int| 0 <= j < sends.len() implies ((
    #[trigger] sends[j]) matches Message::AppendEntriesResponse(resp) ==> resp.term != term
        || !cluster::is_answer(resp)) by {
        lemma_addressed(deeds, leader, j);
        let i = choose|i: int|
            0 <= i < deeds.len() && #[trigger] deeds[i] == (Act::<R>::Send {
                to: leader,
                msg: sends[j],
            });
        if let Message::AppendEntriesResponse(resp) = sends[j] {
            let req = event->Rpc_msg->AppendEntries_0;
            assert(resp == replication::append_reply(n.persistent, n.log, req));
            assert(event->Rpc_from == leader);
        }
    }
    lemma_no_answers(sends, term);
}

/// A request is answered once, to whom it came from, if there is a way and the
/// answer is not withheld.
proof fn lemma_reply_alone<R>(n: Node<R>, from: NodeId, req: Append, now: Instant)
    ensures
        addressed(cluster::asked_to_append(n, from, req, now).1, from) == if n.peers.contains(
            from,
        ) && !cluster::withheld(n, req) {
            seq![
                Message::AppendEntriesResponse(
                    replication::append_reply(n.persistent, n.log, req),
                ),
            ]
        } else {
            Seq::<Message>::empty()
        },
{
    let (after, deeds) = cluster::asked_to_append(n, from, req, now);
    let reply = Message::AppendEntriesResponse(
        replication::append_reply(n.persistent, n.log, req),
    );
    let last = if cluster::withheld(n, req) {
        Seq::empty()
    } else {
        cluster::sent(n, from, reply)
    };
    let before = deeds.take(deeds.len() - last.len());
    assert(deeds =~= before + last);
    lemma_nothing_addressed(before, from);
    lemma_addressed_adds_up(before, last, from);
    if n.peers.contains(from) && !cluster::withheld(n, req) {
        assert(addressed(last.drop_last(), from) =~= Seq::<Message>::empty());
        assert(addressed(last, from) =~= seq![reply]);
    }
    assert(Seq::<Message>::empty() + addressed(last, from) =~= addressed(last, from));
}

/// A follower that accepts a request has confirmed all of it.
proof fn lemma_confirms<R>(w: World<R>, id: NodeId, from: NodeId, req: Append, now: Instant)
    requires
        sound(w),
        possible(w, id, Happening::Rpc { from, msg: Message::AppendEntries(req) }),
        replication::accepts(w.cluster.nodes[id].persistent, w.cluster.nodes[id].log, req),
    ensures
        end_of(req) <= confirmed(
            turned(w, id, Happening::Rpc { from, msg: Message::AppendEntries(req) }, now).cluster,
            req.term,
            id,
        ),
{
    let event = Happening::<R>::Rpc { from, msg: Message::AppendEntries(req) };
    let mid = cluster::reacted(w.cluster.nodes[id], event, now).0;
    safety::settling_settles(mid);
    assert(mid.volatile.role == Role::Follower);
    assert(mid.persistent.current_term == req.term);
}

/// An answer that arrives says what is true.
proof fn lemma_deals<R>(w: World<R>, id: NodeId, event: Happening<R>)
    requires
        sound(w),
        possible(w, id, event),
    ensures
        dealable(w.cluster, id, event),
{
    if let Happening::Rpc { from, msg } = event {
        assert(w.cluster.sent.contains((from, id, link(w, from, id)[0])));
        if let Message::AppendEntriesResponse(resp) = msg {
            let n = w.cluster.nodes[id];
            let term = n.persistent.current_term;
            if n.volatile.role == Role::Leader && resp.term == term && cluster::is_answer(resp) {
                assert(paced(w, id, from));
                lemma_answers_shrink(link(w, from, id), term);
                let replies = answers(link(w, from, id), term);
                let oldest = cluster::waiting(n, from)[0];
                assert(extent(oldest) <= n.log.len());
                assert(replies[0].success ==> extent(oldest) <= confirmed(w.cluster, term, from));
            }
        }
    }
}

proof fn lemma_world_step<R>(w: World<R>, id: NodeId, event: Happening<R>, now: Instant)
    requires
        sound(w),
        possible(w, id, event),
    ensures
        extends(w.cluster, turned(w, id, event, now).cluster),
        sound(turned(w, id, event, now)),
{
    let s = w.cluster;
    let v = turned(w, id, event, now);
    let n = s.nodes[id];
    lemma_deals(w, id, event);
    lemma_step(s, id, event, now);
    assert(node_ok(s, id));
    assert forall|from: NodeId, to: NodeId, j: int|
        0 <= j < link(v, from, to).len() implies v.cluster.sent.contains(
        (from, to, #[trigger] link(v, from, to)[j]),
    ) by {
        lemma_link_after(w, id, event, now, from, to);
        let left = received(w, id, event, from, to);
        if j < left.len() {
            lemma_left_was_sent(w, id, event, from, to, j);
        } else {
            let deeds = cluster::stepped(n, event, now).1;
            lemma_settling_sends_nothing(n, event, now, to);
            lemma_addressed(deeds, to, j - left.len());
            assert(mail(id, deeds).contains((from, to, link(v, from, to)[j])));
        }
    }
    assert forall|leader: NodeId, follower: NodeId| #[trigger] paced(v, leader, follower) by {
        if leader == id {
            lemma_leader_paced(w, id, event, now, follower);
        } else if follower == id {
            lemma_follower_paced(w, id, event, now, leader);
        } else {
            assert(paced(w, leader, follower));
            lemma_link_after(w, id, event, now, leader, follower);
            lemma_link_after(w, id, event, now, follower, leader);
            let term = s.nodes[leader].persistent.current_term;
            assert(confirmed(v.cluster, term, follower) == confirmed(s, term, follower));
            assert(v.cluster.nodes[leader] == s.nodes[leader]);
            assert(s.nodes.dom() == v.cluster.nodes.dom());
            if v.cluster.nodes.contains_key(leader) {
                assert(s.nodes.dom().contains(leader));
            }
        }
    }
}

/// A lost message leaves the cluster sound.
pub proof fn losses_keep_the_cluster_sound<R>(w: World<R>, from: NodeId, to: NodeId)
    requires
        sound(w),
        link(w, from, to).len() > 0,
    ensures
        sound(after_loss(w, from, to)),
{
    let v = after_loss(w, from, to);
    assert forall|a: NodeId, b: NodeId, j: int|
        0 <= j < link(v, a, b).len() implies v.cluster.sent.contains(
        (a, b, #[trigger] link(v, a, b)[j]),
    ) by {
        if a == from && b == to {
            assert(link(v, a, b)[j] == link(w, a, b)[j + 1]);
        } else {
            assert(link(v, a, b)[j] == link(w, a, b)[j]);
        }
    }
    assert forall|leader: NodeId, follower: NodeId| #[trigger] paced(v, leader, follower) by {
        let n = w.cluster.nodes[leader];
        let term = n.persistent.current_term;
        if w.cluster.nodes.contains_key(leader) && n.volatile.role == Role::Leader {
            let queue = cluster::waiting(n, follower);
            let replies = answers(link(w, follower, leader), term);
            let asked = requests(link(w, leader, follower), term);
            let held = confirmed(w.cluster, term, follower);
            assert(paced(w, leader, follower));
            lemma_answers_shrink(link(w, from, to), term);
            lemma_requests_shrink(link(w, from, to), term);
            if leader == follower {
                lemma_no_link_to_oneself(w, leader);
            }
            if replies.len() > 0 {
                lemma_answer_lost(queue, replies, asked, n.log.len(), held);
            }
            if asked.len() > 0 {
                lemma_request_lost(queue, replies, asked, n.log.len(), held);
            }
        }
    }
}

/// The nodes and the record once a node knows whether its writes went through.
pub open spec fn prepared<R>(s: System<R>, id: NodeId, written: bool) -> System<R> {
    let n = s.nodes[id];
    noted(
        s,
        n,
        cluster::informed(n, written),
        Happening::HeartbeatDue,
        Set::<(NodeId, NodeId, Message)>::empty(),
    )
}

/// The world once a node knows whether its writes went through.
pub open spec fn told<R>(w: World<R>, id: NodeId, written: bool) -> World<R> {
    World { cluster: prepared(w.cluster, id, written), ..w }
}

/// The world after one node has dealt with an event. `written` is whether
/// everything that it had to write for it went to disk.
pub open spec fn next<R>(
    w: World<R>,
    id: NodeId,
    event: Happening<R>,
    now: Instant,
    written: bool,
) -> World<R> {
    turned(told(w, id, written), id, event, now)
}

/// What a node learns about its disk leaves the cluster sound.
proof fn lemma_told_world<R>(w: World<R>, id: NodeId, event: Happening<R>, written: bool)
    requires
        sound(w),
        possible(w, id, event),
    ensures
        extends(w.cluster, told(w, id, written).cluster),
        sound(told(w, id, written)),
        possible(told(w, id, written), id, event),
        told(w, id, written).cluster.nodes[id] == cluster::informed(
            w.cluster.nodes[id],
            written,
        ),
        forall|o: NodeId|
            o != id ==> #[trigger] told(w, id, written).cluster.nodes[o] == w.cluster.nodes[o],
        told(w, id, written).cluster.nodes.dom() == w.cluster.nodes.dom(),
{
    let s = w.cluster;
    let v = told(w, id, written);
    let n = s.nodes[id];
    let m = cluster::informed(n, written);
    let tick = Happening::<R>::HeartbeatDue;
    let none = Set::<(NodeId, NodeId, Message)>::empty();
    assert(node_ok(s, id));
    lemma_advanced(Node { faulty: false, saved: n.log.len(), ..n });
    if m.volatile.role == Role::Candidate {
        lemma_candidate_stays(s, n, m, tick, none);
    }
    assert(turns(s, n, m, tick));
    lemma_turn(s, id, m, tick, none);
    assert(v.cluster.nodes.dom() =~= s.nodes.dom());
    assert forall|from: NodeId, to: NodeId, j: int|
        0 <= j < link(v, from, to).len() implies v.cluster.sent.contains(
        (from, to, #[trigger] link(v, from, to)[j]),
    ) by {
        assert(link(w, from, to)[j] == link(v, from, to)[j]);
    }
    assert forall|leader: NodeId, follower: NodeId| #[trigger] paced(v, leader, follower) by {
        assert(paced(w, leader, follower));
        let term = s.nodes[leader].persistent.current_term;
        assert(s.nodes.dom().contains(leader) == v.cluster.nodes.dom().contains(leader));
        assert(confirmed(v.cluster, term, follower) == confirmed(s, term, follower)) by {
            if follower == id && n.volatile.role == Role::Leader
                && n.persistent.current_term == term {
                assert(leader_ok(s, n));
            }
        }
        assert(link(v, follower, leader) == link(w, follower, leader));
        assert(link(v, leader, follower) == link(w, leader, follower));
    }
}

/// One event leaves the cluster sound, and changes no other node.
proof fn lemma_next<R>(
    w: World<R>,
    id: NodeId,
    event: Happening<R>,
    now: Instant,
    written: bool,
)
    requires
        sound(w),
        possible(w, id, event),
    ensures
        extends(w.cluster, next(w, id, event, now, written).cluster),
        sound(next(w, id, event, now, written)),
        next(w, id, event, now, written).cluster.nodes[id] == cluster::stepped(
            cluster::informed(w.cluster.nodes[id], written),
            event,
            now,
        ).0,
        forall|o: NodeId|
            o != id ==> #[trigger] next(w, id, event, now, written).cluster.nodes[o]
                == w.cluster.nodes[o],
        next(w, id, event, now, written).cluster.nodes.dom() == w.cluster.nodes.dom(),
{
    let v = told(w, id, written);
    lemma_told_world(w, id, event, written);
    lemma_world_step(v, id, event, now);
    let t = next(w, id, event, now, written).cluster;
    lemma_extending_twice(w.cluster, v.cluster, t);
    assert(node_ok(v.cluster, id));
    assert forall|o: NodeId| o != id implies #[trigger] t.nodes[o] == w.cluster.nodes[o] by {
        assert(v.cluster.nodes[o] == w.cluster.nodes[o]);
    }
}

/// Whatever happens next, the cluster stays sound.
pub proof fn steps_keep_the_cluster_sound<R>(
    w: World<R>,
    id: NodeId,
    event: Happening<R>,
    now: Instant,
    written: bool,
)
    requires
        sound(w),
        possible(w, id, event),
    ensures
        sound(next(w, id, event, now, written)),
{
    lemma_next(w, id, event, now, written);
}

/// A cluster that has just started: empty logs, no leader, nothing sent.
pub open spec fn fresh<R>(w: World<R>) -> bool {
    let s = w.cluster;
    &&& w.links == Map::<(NodeId, NodeId), Seq<Message>>::empty()
    &&& s.nodes.dom().finite()
    &&& s.sent == Set::<(NodeId, NodeId, Message)>::empty()
    &&& s.votes == Map::<(Term, NodeId), Cast>::empty()
    &&& s.stood == Map::<(Term, NodeId), Seq<Entry>>::empty()
    &&& s.elected == Map::<Term, Crown>::empty()
    &&& s.script == Map::<Term, Seq<Entry>>::empty()
    &&& s.acked == Map::<(Term, NodeId), nat>::empty()
    &&& s.commits == Set::<(Term, nat)>::empty()
    &&& forall|id: NodeId| #[trigger]
        s.nodes.contains_key(id) ==> {
            let n = s.nodes[id];
            &&& n.id == id
            &&& n.cluster_size == s.nodes.len()
            &&& !n.peers.contains(id)
            &&& n.peers.no_duplicates()
            &&& n.log == Seq::<Entry>::empty()
            &&& n.persistent.voted_for is None
            &&& n.volatile.role == Role::Follower
            &&& n.volatile.commit_index == 0
            &&& n.volatile.last_applied == 0
            &&& n.pending == Map::<u64, (Term, R)>::empty()
            &&& !n.faulty
            &&& n.saved == 0
        }
}

/// A cluster starts sound.
pub proof fn clusters_start_sound<R>(w: World<R>)
    requires
        fresh(w),
    ensures
        sound(w),
{
    assert(w.cluster.script.dom() =~= w.cluster.elected.dom());
}

/// What can happen to a cluster: a node deals with an event, after the first
/// `wrote` of the writes it needs have gone to disk and it was told whether all
/// of them have, or the oldest message on a link is lost.
pub enum Incident<R> {
    Dealt { id: NodeId, event: Happening<R>, now: Instant, wrote: nat, written: bool },
    Lost { from: NodeId, to: NodeId },
}

/// The world after one incident.
pub open spec fn changed<R>(w: World<R>, incident: Incident<R>) -> World<R> {
    match incident {
        Incident::Dealt { id, event, now, written, .. } => next(w, id, event, now, written),
        Incident::Lost { from, to } => after_loss(w, from, to),
    }
}

/// An incident can happen now.
pub open spec fn can_happen<R>(w: World<R>, incident: Incident<R>) -> bool {
    match incident {
        Incident::Dealt { id, event, wrote, written, .. } => {
            let needed = cluster::ahead(w.cluster.nodes[id], event).len();
            &&& possible(w, id, event)
            &&& wrote <= needed
            &&& written ==> wrote == needed
        },
        Incident::Lost { from, to } => link(w, from, to).len() > 0,
    }
}

/// The world after a series of incidents.
pub open spec fn after<R>(w: World<R>, incidents: Seq<Incident<R>>) -> World<R>
    decreases incidents.len(),
{
    if incidents.len() == 0 {
        w
    } else {
        changed(after(w, incidents.drop_last()), incidents.last())
    }
}

/// Each of a series of incidents can happen when it does.
pub open spec fn plausible<R>(w: World<R>, incidents: Seq<Incident<R>>) -> bool
    decreases incidents.len(),
{
    incidents.len() > 0 ==> plausible(w, incidents.drop_last()) && can_happen(
        after(w, incidents.drop_last()),
        incidents.last(),
    )
}

/// A cluster is sound at all times.
pub proof fn clusters_stay_sound<R>(w: World<R>, incidents: Seq<Incident<R>>)
    requires
        fresh(w),
        plausible(w, incidents),
    ensures
        sound(after(w, incidents)),
    decreases incidents.len(),
{
    if incidents.len() == 0 {
        clusters_start_sound(w);
    } else {
        clusters_stay_sound(w, incidents.drop_last());
        let before = after(w, incidents.drop_last());
        match incidents.last() {
            Incident::Dealt { id, event, now, written, .. } => {
                steps_keep_the_cluster_sound(before, id, event, now, written);
            },
            Incident::Lost { from, to } => {
                losses_keep_the_cluster_sound(before, from, to);
            },
        }
    }
}

/// There is at most one leader in a term.
pub proof fn one_leader_per_term<R>(w: World<R>, a: NodeId, b: NodeId)
    requires
        sound(w),
        w.cluster.nodes.contains_key(a),
        w.cluster.nodes.contains_key(b),
        w.cluster.nodes[a].volatile.role == Role::Leader,
        w.cluster.nodes[b].volatile.role == Role::Leader,
        w.cluster.nodes[a].persistent.current_term == w.cluster.nodes[b].persistent.current_term,
    ensures
        a == b,
{
    let s = w.cluster;
    assert(node_ok(s, a));
    assert(node_ok(s, b));
}

/// Two logs that agree on the term of an entry agree on everything up to it.
pub proof fn logs_match<R>(w: World<R>, a: NodeId, b: NodeId)
    requires
        sound(w),
        w.cluster.nodes.contains_key(a),
        w.cluster.nodes.contains_key(b),
    ensures
        replication::matching(w.cluster.nodes[a].log, w.cluster.nodes[b].log),
{
    let s = w.cluster;
    let x = s.nodes[a].log;
    let y = s.nodes[b].log;
    assert(node_ok(s, a));
    assert(node_ok(s, b));
    assert forall|i: int|
        0 <= i < x.len() && i < y.len() && (#[trigger] x[i]).term == (
        #[trigger] y[i]).term implies x.take(i + 1) == y.take(i + 1) by {
        lemma_agreement(s, x, y, i + 1);
    }
}

/// Two commits agree on what they have in common.
proof fn lemma_commits_agree<R>(s: System<R>, t1: Term, i1: nat, t2: Term, i2: nat, k: nat)
    requires
        coherent(s),
        s.commits.contains((t1, i1)),
        s.commits.contains((t2, i2)),
        t1 <= t2,
        k <= i1,
        k <= i2,
    ensures
        s.script[t1].take(k as int) == s.script[t2].take(k as int),
{
    assert(commit_ok(s, t1, i1));
    assert(commit_ok(s, t2, i2));
    if t1 < t2 {
        later_leaders_have_what_is_committed(s, t1, i1, t2);
        assert(crown_ok(s, t2));
        let crown = s.elected[t2].log;
        let whole = s.script[t1].take(i1 as int);
        lemma_begins(s.script[t2], crown, whole);
        lemma_take(s.script[t1], k as int, i1 as int);
        lemma_begins(s.script[t2], whole, s.script[t1].take(k as int));
    }
}

/// What any two nodes consider committed is the same.
pub proof fn committed_entries_agree<R>(w: World<R>, a: NodeId, b: NodeId, k: nat)
    requires
        sound(w),
        w.cluster.nodes.contains_key(a),
        w.cluster.nodes.contains_key(b),
        k <= w.cluster.nodes[a].volatile.commit_index,
        k <= w.cluster.nodes[b].volatile.commit_index,
    ensures
        k <= w.cluster.nodes[a].log.len(),
        k <= w.cluster.nodes[b].log.len(),
        w.cluster.nodes[a].log.take(k as int) == w.cluster.nodes[b].log.take(k as int),
{
    let s = w.cluster;
    let x = s.nodes[a];
    let y = s.nodes[b];
    assert(node_ok(s, a));
    assert(node_ok(s, b));
    lemma_sealed_logs_agree(
        s,
        a,
        x.log,
        x.persistent.current_term,
        x.volatile.commit_index as nat,
        b,
        y.log,
        y.persistent.current_term,
        y.volatile.commit_index as nat,
        k,
    );
}

proof fn lemma_sealed_logs_agree<R>(
    s: System<R>,
    a: NodeId,
    x: Seq<Entry>,
    tx: Term,
    kx: nat,
    b: NodeId,
    y: Seq<Entry>,
    ty: Term,
    ky: nat,
    k: nat,
)
    requires
        coherent(s),
        sealed(s, a, x, tx, kx),
        sealed(s, b, y, ty, ky),
        k <= kx,
        k <= ky,
    ensures
        k <= x.len(),
        k <= y.len(),
        x.take(k as int) == y.take(k as int),
{
    if k == 0 {
        assert(x.take(0) =~= y.take(0));
    } else {
        let (c, i) = choose|c: Term, i: nat|
            {
                &&& #[trigger] s.commits.contains((c, i))
                &&& kx <= i
                &&& c <= tx
                &&& c == tx ==> kx <= confirmed(s, c, a)
                &&& log::begins(x, s.script[c].take(kx as int))
            };
        let (d, j) = choose|d: Term, j: nat|
            {
                &&& #[trigger] s.commits.contains((d, j))
                &&& ky <= j
                &&& d <= ty
                &&& d == ty ==> ky <= confirmed(s, d, b)
                &&& log::begins(y, s.script[d].take(ky as int))
            };
        assert(commit_ok(s, c, i));
        assert(commit_ok(s, d, j));
        lemma_take(s.script[c], k as int, kx as int);
        lemma_take(s.script[d], k as int, ky as int);
        lemma_begins(x, s.script[c].take(kx as int), s.script[c].take(k as int));
        lemma_begins(y, s.script[d].take(ky as int), s.script[d].take(k as int));
        if c <= d {
            lemma_commits_agree(s, c, i, d, j, k);
        } else {
            lemma_commits_agree(s, d, j, c, i, k);
        }
    }
}

/// What a node has applied, and told a client about, is in the log of every
/// leader of that term and of every later one: losing a leader loses nothing.
pub proof fn leaders_have_what_is_applied<R>(w: World<R>, id: NodeId, leader: NodeId)
    requires
        sound(w),
        w.cluster.nodes.contains_key(id),
        w.cluster.nodes.contains_key(leader),
        w.cluster.nodes[leader].volatile.role == Role::Leader,
        w.cluster.nodes[id].persistent.current_term <= w.cluster.nodes[leader].persistent.current_term,
    ensures
        w.cluster.nodes[id].volatile.last_applied <= w.cluster.nodes[id].log.len(),
        log::begins(
            w.cluster.nodes[leader].log,
            w.cluster.nodes[id].log.take(w.cluster.nodes[id].volatile.last_applied as int),
        ),
{
    let s = w.cluster;
    let n = s.nodes[id];
    let l = s.nodes[leader];
    let k = n.volatile.last_applied as nat;
    assert(node_ok(s, id));
    assert(node_ok(s, leader));
    if k == 0 {
        assert(l.log.take(0) =~= n.log.take(0));
    } else {
        let (c, i) = choose|c: Term, i: nat|
            {
                &&& #[trigger] s.commits.contains((c, i))
                &&& k <= i
                &&& c <= n.persistent.current_term
                &&& c == n.persistent.current_term ==> k <= confirmed(s, c, id)
                &&& log::begins(n.log, s.script[c].take(k as int))
            };
        let term = l.persistent.current_term;
        assert(commit_ok(s, c, i));
        assert(crown_ok(s, term));
        lemma_take(s.script[c], k as int, i as int);
        let whole = s.script[c].take(i as int);
        if c < term {
            later_leaders_have_what_is_committed(s, c, i, term);
            lemma_begins(l.log, s.elected[term].log, whole);
            lemma_begins(l.log, whole, s.script[c].take(k as int));
        } else {
            lemma_take(l.log, k as int, i as int);
        }
    }
}

/// Nodes that have applied equally much hold the same store.
pub proof fn stores_agree<R>(
    w: World<R>,
    a: NodeId,
    b: NodeId,
    origin: Map<Seq<char>, Seq<u8>>,
)
    requires
        sound(w),
        w.cluster.nodes.contains_key(a),
        w.cluster.nodes.contains_key(b),
        safety::faithful(w.cluster.nodes[a], origin),
        safety::faithful(w.cluster.nodes[b], origin),
        w.cluster.nodes[a].volatile.last_applied == w.cluster.nodes[b].volatile.last_applied,
    ensures
        w.cluster.nodes[a].store == w.cluster.nodes[b].store,
{
    let s = w.cluster;
    let x = s.nodes[a];
    let y = s.nodes[b];
    assert(node_ok(s, a));
    assert(node_ok(s, b));
    lemma_sealed_logs_agree(
        s,
        a,
        x.log,
        x.persistent.current_term,
        x.volatile.last_applied as nat,
        b,
        y.log,
        y.persistent.current_term,
        y.volatile.last_applied as nat,
        x.volatile.last_applied as nat,
    );
    safety::same_log_same_store(x, y, origin);
}

/// A commit is for good: it stays on record, and what was committed does not
/// change.
pub proof fn commits_are_for_good<R>(
    w: World<R>,
    id: NodeId,
    event: Happening<R>,
    now: Instant,
    written: bool,
    term: Term,
    i: nat,
)
    requires
        sound(w),
        possible(w, id, event),
        w.cluster.commits.contains((term, i)),
    ensures
        ({
            let v = next(w, id, event, now, written);
            &&& v.cluster.commits.contains((term, i))
            &&& v.cluster.script[term].take(i as int) == w.cluster.script[term].take(i as int)
        }),
{
    let s = w.cluster;
    let t = next(w, id, event, now, written).cluster;
    lemma_next(w, id, event, now, written);
    assert(commit_ok(s, term, i));
    assert(s.script.contains_key(term)) by {
        assert(s.elected.dom().contains(term));
    }
    lemma_same_take(s, t, term, i as int);
}

/// The applied part of a log is never replaced.
proof fn lemma_applied_stays<R>(w: World<R>, id: NodeId, event: Happening<R>, now: Instant)
    requires
        sound(w),
        possible(w, id, event),
    ensures
        safety::spares_applied(w.cluster.nodes[id], event) || ({
            let n = w.cluster.nodes[id];
            let m = cluster::reacted(n, event, now).0;
            let k = n.volatile.last_applied as int;
            &&& m.volatile.last_applied == n.volatile.last_applied
            &&& m.store == n.store
            &&& k <= m.log.len()
            &&& k <= n.log.len()
            &&& m.log.take(k) == n.log.take(k)
        }),
{
    let s = w.cluster;
    if !safety::spares_applied(s.nodes[id], event) {
        let n = s.nodes[id];
        let (m, deeds) = cluster::reacted(n, event, now);
        let t = noted(s, n, m, event, mail(id, deeds));
        let k = n.volatile.last_applied as nat;
        lemma_deals(w, id, event);
        lemma_reaction(s, id, event, now);
        assert(node_ok(s, id));
        assert(t.nodes.contains_key(id));
        assert(node_ok(t, id));
        lemma_sealed_stays(s, t, id, n.log, n.persistent.current_term, k);
        lemma_sealed_logs_agree(
            t,
            id,
            n.log,
            n.persistent.current_term,
            k,
            id,
            m.log,
            m.persistent.current_term,
            k,
            k,
        );
    }
}

/// The store of every node is what the applied part of its log makes of the
/// store it started with, whatever happens.
pub proof fn stores_stay_faithful<R>(
    w: World<R>,
    id: NodeId,
    event: Happening<R>,
    now: Instant,
    written: bool,
    origin: Map<Seq<char>, Seq<u8>>,
)
    requires
        sound(w),
        possible(w, id, event),
        safety::faithful(w.cluster.nodes[id], origin),
    ensures
        safety::faithful(next(w, id, event, now, written).cluster.nodes[id], origin),
{
    let v = told(w, id, written);
    let n = v.cluster.nodes[id];
    lemma_told_world(w, id, event, written);
    lemma_next(w, id, event, now, written);
    lemma_advanced(
        Node { faulty: false, saved: w.cluster.nodes[id].log.len(), ..w.cluster.nodes[id] },
    );
    lemma_applied_stays(v, id, event, now);
    if safety::spares_applied(n, event) {
        safety::stores_follow_the_log(n, event, now, origin);
    } else {
        safety::settling_is_faithful(cluster::reacted(n, event, now).0, origin);
    }
}

/// Every node of a cluster is faithful to what they all started with.
proof fn lemma_all_faithful<R>(
    w: World<R>,
    incidents: Seq<Incident<R>>,
    origin: Map<Seq<char>, Seq<u8>>,
    id: NodeId,
)
    requires
        fresh(w),
        plausible(w, incidents),
        w.cluster.nodes.contains_key(id),
        w.cluster.nodes[id].store == origin,
    ensures
        after(w, incidents).cluster.nodes.contains_key(id),
        safety::faithful(after(w, incidents).cluster.nodes[id], origin),
    decreases incidents.len(),
{
    if incidents.len() == 0 {
        safety::nodes_start_faithful(w.cluster.nodes[id]);
    } else {
        let before = after(w, incidents.drop_last());
        clusters_stay_sound(w, incidents.drop_last());
        lemma_all_faithful(w, incidents.drop_last(), origin, id);
        if let Incident::Dealt { id: acting, event, now, written, .. } = incidents.last() {
            lemma_next(before, acting, event, now, written);
            assert(before.cluster.nodes.dom().contains(id));
            if acting == id {
                stores_stay_faithful(before, id, event, now, written, origin);
            }
        }
    }
}

/// Every node applies the same commands in the same order: nodes that started
/// with the same store and have applied equally much hold the same store.
pub proof fn replicas_agree<R>(
    w: World<R>,
    incidents: Seq<Incident<R>>,
    a: NodeId,
    b: NodeId,
)
    requires
        fresh(w),
        plausible(w, incidents),
        w.cluster.nodes.contains_key(a),
        w.cluster.nodes.contains_key(b),
        w.cluster.nodes[a].store == w.cluster.nodes[b].store,
        after(w, incidents).cluster.nodes[a].volatile.last_applied == after(
            w,
            incidents,
        ).cluster.nodes[b].volatile.last_applied,
    ensures
        after(w, incidents).cluster.nodes[a].store == after(w, incidents).cluster.nodes[b].store,
{
    let origin = w.cluster.nodes[a].store;
    clusters_stay_sound(w, incidents);
    lemma_all_faithful(w, incidents, origin, a);
    lemma_all_faithful(w, incidents, origin, b);
    stores_agree(after(w, incidents), a, b, origin);
}

/// What a node has applied stays applied, entry for entry.
proof fn lemma_applied_for_good<R>(
    w: World<R>,
    first: Seq<Incident<R>>,
    rest: Seq<Incident<R>>,
    id: NodeId,
)
    requires
        fresh(w),
        plausible(w, first + rest),
        w.cluster.nodes.contains_key(id),
    ensures
        ({
            let early = after(w, first).cluster.nodes[id];
            let late = after(w, first + rest).cluster.nodes[id];
            let k = early.volatile.last_applied as int;
            &&& plausible(w, first)
            &&& after(w, first + rest).cluster.nodes.contains_key(id)
            &&& k <= early.log.len()
            &&& k <= late.volatile.last_applied <= late.log.len()
            &&& late.log.take(k) == early.log.take(k)
            &&& early.persistent.current_term <= late.persistent.current_term
        }),
    decreases rest.len(),
{
    if rest.len() == 0 {
        assert(first + rest =~= first);
        clusters_stay_sound(w, first);
        lemma_all_faithful(w, first, w.cluster.nodes[id].store, id);
    } else {
        let fewer = rest.drop_last();
        assert((first + rest).drop_last() =~= first + fewer);
        lemma_applied_for_good(w, first, fewer, id);
        lemma_all_faithful(w, first + rest, w.cluster.nodes[id].store, id);
        clusters_stay_sound(w, first + fewer);
        let before = after(w, first + fewer);
        if let Incident::Dealt { id: acting, event, now, written, .. } = (first + rest).last() {
            lemma_next(before, acting, event, now, written);
            if acting == id {
                let k = after(w, first).cluster.nodes[id].volatile.last_applied as int;
                let n = before.cluster.nodes[id];
                let m = after(w, first + rest).cluster.nodes[id];
                lemma_applied_step(before, id, event, now, written);
                let done = n.volatile.last_applied as int;
                lemma_take(m.log, k, done);
                lemma_take(n.log, k, done);
            }
        }
    }
}

/// What a node has applied stays applied through one event.
proof fn lemma_applied_step<R>(
    w: World<R>,
    id: NodeId,
    event: Happening<R>,
    now: Instant,
    written: bool,
)
    requires
        sound(w),
        possible(w, id, event),
        w.cluster.nodes[id].volatile.last_applied <= w.cluster.nodes[id].log.len(),
    ensures
        ({
            let n = w.cluster.nodes[id];
            let m = next(w, id, event, now, written).cluster.nodes[id];
            let done = n.volatile.last_applied as int;
            &&& done <= m.volatile.last_applied
            &&& done <= m.log.len()
            &&& m.log.take(done) == n.log.take(done)
            &&& n.persistent.current_term <= m.persistent.current_term
        }),
{
    let v = told(w, id, written);
    let old = w.cluster.nodes[id];
    lemma_next(w, id, event, now, written);
    lemma_told_world(w, id, event, written);
    lemma_advanced(Node { faulty: false, saved: old.log.len(), ..old });
    lemma_applied_turn(v, id, event, now);
}

/// What a node has applied stays applied when it reacts and settles.
proof fn lemma_applied_turn<R>(w: World<R>, id: NodeId, event: Happening<R>, now: Instant)
    requires
        sound(w),
        possible(w, id, event),
        w.cluster.nodes[id].volatile.last_applied <= w.cluster.nodes[id].log.len(),
    ensures
        ({
            let n = w.cluster.nodes[id];
            let m = cluster::stepped(n, event, now).0;
            let done = n.volatile.last_applied as int;
            &&& done <= m.volatile.last_applied
            &&& done <= m.log.len()
            &&& m.log.take(done) == n.log.take(done)
            &&& n.persistent.current_term <= m.persistent.current_term
        }),
{
    let n = w.cluster.nodes[id];
    lemma_applied_prefix_stays(w, id, event, now);
    safety::settling_settles(cluster::reacted(n, event, now).0);
    safety::steps_keep_votes(n, event, now);
}

/// The entries a node has applied are in its log after every reaction.
proof fn lemma_applied_prefix_stays<R>(w: World<R>, id: NodeId, event: Happening<R>, now: Instant)
    requires
        sound(w),
        possible(w, id, event),
        w.cluster.nodes[id].volatile.last_applied <= w.cluster.nodes[id].log.len(),
    ensures
        ({
            let n = w.cluster.nodes[id];
            let mid = cluster::reacted(n, event, now).0;
            let done = n.volatile.last_applied as int;
            mid.log.len() >= done && mid.log.take(done) == n.log.take(done)
        }),
{
    let n = w.cluster.nodes[id];
    let mid = cluster::reacted(n, event, now).0;
    let done = n.volatile.last_applied as int;
    lemma_applied_stays(w, id, event, now);
    if safety::spares_applied(n, event) {
        if let Happening::Rpc { from, msg: Message::AppendEntries(req) } = event {
            if replication::accepts(n.persistent, n.log, req) {
                let applied = VolatileState {
                    commit_index: n.volatile.last_applied,
                    ..n.volatile
                };
                replication::committed_entries_survive(n.persistent, applied, n.log, req, now);
            }
        } else {
            safety::logs_only_grow(n, event, now);
            assert(mid.log.take(done) =~= mid.log.take(n.log.len() as int).take(done));
        }
    }
}

/// No data is lost with a leader: once a node has applied an entry and told a
/// client so, the entry is in the log of every leader of that term and of
/// every later one, whatever the nodes have dealt with since and however many
/// messages were delayed or lost.
pub proof fn acknowledged_writes_survive<R>(
    w: World<R>,
    first: Seq<Incident<R>>,
    rest: Seq<Incident<R>>,
    id: NodeId,
    leader: NodeId,
)
    requires
        fresh(w),
        plausible(w, first + rest),
        w.cluster.nodes.contains_key(id),
        w.cluster.nodes.contains_key(leader),
        after(w, first + rest).cluster.nodes[leader].volatile.role == Role::Leader,
        after(w, first + rest).cluster.nodes[leader].persistent.current_term >= after(
            w,
            first,
        ).cluster.nodes[id].persistent.current_term,
    ensures
        ({
            let early = after(w, first).cluster.nodes[id];
            log::begins(
                after(w, first + rest).cluster.nodes[leader].log,
                early.log.take(early.volatile.last_applied as int),
            )
        }),
{
    let before = after(w, first).cluster;
    let now = after(w, first + rest).cluster;
    let early = before.nodes[id];
    let k = early.volatile.last_applied as nat;
    lemma_applied_for_good(w, first, rest, id);
    lemma_applied_for_good(w, first, rest, leader);
    clusters_stay_sound(w, first);
    clusters_stay_sound(w, first + rest);
    lemma_records_grow(w, first, rest);
    assert(before.nodes.contains_key(id)) by {
        lemma_all_faithful(w, first, w.cluster.nodes[id].store, id);
    }
    assert(node_ok(before, id));
    let l = now.nodes[leader];
    assert(node_ok(now, leader));
    if k == 0 {
        assert(l.log.take(0) =~= early.log.take(0));
    } else {
        let (c, i) = choose|c: Term, i: nat|
            {
                &&& #[trigger] before.commits.contains((c, i))
                &&& k <= i
                &&& c <= early.persistent.current_term
                &&& c == early.persistent.current_term ==> k <= confirmed(before, c, id)
                &&& log::begins(early.log, before.script[c].take(k as int))
            };
        let term = l.persistent.current_term;
        assert(commit_ok(before, c, i));
        assert(before.script.contains_key(c)) by {
            assert(before.elected.dom().contains(c));
        }
        lemma_same_take(before, now, c, i as int);
        lemma_same_take(before, now, c, k as int);
        assert(now.commits.contains((c, i)));
        assert(commit_ok(now, c, i));
        assert(crown_ok(now, term));
        lemma_take(now.script[c], k as int, i as int);
        let whole = now.script[c].take(i as int);
        if c < term {
            later_leaders_have_what_is_committed(now, c, i, term);
            lemma_begins(l.log, now.elected[term].log, whole);
            lemma_begins(l.log, whole, now.script[c].take(k as int));
        } else {
            lemma_take(l.log, k as int, i as int);
        }
    }
}

/// A new leader serves every write that was acknowledged: once it has applied
/// as much as a node had applied before, its store is what that node had, with
/// only later commands on top.
pub proof fn acknowledged_writes_are_served<R>(
    w: World<R>,
    first: Seq<Incident<R>>,
    rest: Seq<Incident<R>>,
    id: NodeId,
    leader: NodeId,
)
    requires
        fresh(w),
        plausible(w, first + rest),
        w.cluster.nodes.contains_key(id),
        w.cluster.nodes.contains_key(leader),
        w.cluster.nodes[id].store == w.cluster.nodes[leader].store,
        after(w, first + rest).cluster.nodes[leader].volatile.role == Role::Leader,
        after(w, first + rest).cluster.nodes[leader].persistent.current_term >= after(
            w,
            first,
        ).cluster.nodes[id].persistent.current_term,
        after(w, first + rest).cluster.nodes[leader].volatile.last_applied >= after(
            w,
            first,
        ).cluster.nodes[id].volatile.last_applied,
    ensures
        ({
            let early = after(w, first).cluster.nodes[id];
            let late = after(w, first + rest).cluster.nodes[leader];
            &&& late.volatile.last_applied <= late.log.len()
            &&& late.store == safety::ran(
                early.store,
                late.log.subrange(
                    early.volatile.last_applied as int,
                    late.volatile.last_applied as int,
                ),
            )
        }),
{
    let origin = w.cluster.nodes[id].store;
    let early = after(w, first).cluster.nodes[id];
    let late = after(w, first + rest).cluster.nodes[leader];
    let k = early.volatile.last_applied as int;
    let m = late.volatile.last_applied as int;
    lemma_records_grow(w, first, rest);
    acknowledged_writes_survive(w, first, rest, id, leader);
    lemma_all_faithful(w, first, origin, id);
    lemma_all_faithful(w, first + rest, origin, leader);
    let more = late.log.subrange(k, m);
    assert(late.log.take(m) =~= early.log.take(k) + more) by {
        assert forall|i: int| 0 <= i < k implies late.log[i] == early.log[i] by {
            assert(late.log.take(k)[i] == early.log.take(k)[i]);
        }
    }
    safety::runs_add_up(origin, early.log.take(k), more);
}

/// Its own no-op tells a new leader how far it has to go: a leader of a later
/// term that has applied an entry of its own term has applied at least as much
/// as any node had applied in an earlier one.
pub proof fn noops_bring_new_leaders_up_to_date<R>(
    w: World<R>,
    first: Seq<Incident<R>>,
    rest: Seq<Incident<R>>,
    id: NodeId,
    leader: NodeId,
    own: int,
)
    requires
        fresh(w),
        plausible(w, first + rest),
        w.cluster.nodes.contains_key(id),
        w.cluster.nodes.contains_key(leader),
        after(w, first + rest).cluster.nodes[leader].volatile.role == Role::Leader,
        after(w, first + rest).cluster.nodes[leader].persistent.current_term > after(
            w,
            first,
        ).cluster.nodes[id].persistent.current_term,
        ({
            let late = after(w, first + rest).cluster.nodes[leader];
            &&& 0 <= own < late.volatile.last_applied
            &&& own < late.log.len()
            &&& late.log[own].term == late.persistent.current_term
        }),
    ensures
        after(w, first + rest).cluster.nodes[leader].volatile.last_applied >= after(
            w,
            first,
        ).cluster.nodes[id].volatile.last_applied,
{
    let before = after(w, first).cluster;
    let now = after(w, first + rest).cluster;
    let early = before.nodes[id];
    let late = now.nodes[leader];
    let k = early.volatile.last_applied as nat;
    lemma_records_grow(w, first, rest);
    clusters_stay_sound(w, first);
    clusters_stay_sound(w, first + rest);
    lemma_all_faithful(w, first, w.cluster.nodes[id].store, id);
    lemma_all_faithful(w, first + rest, w.cluster.nodes[leader].store, leader);
    assert(node_ok(before, id));
    assert(node_ok(now, leader));
    if k > 0 {
        let (c, i) = choose|c: Term, i: nat|
            {
                &&& #[trigger] before.commits.contains((c, i))
                &&& k <= i
                &&& c <= early.persistent.current_term
                &&& c == early.persistent.current_term ==> k <= confirmed(before, c, id)
                &&& log::begins(early.log, before.script[c].take(k as int))
            };
        let term = late.persistent.current_term;
        assert(commit_ok(before, c, i));
        assert(now.commits.contains((c, i)));
        assert(commit_ok(now, c, i));
        assert(crown_ok(now, term));
        later_leaders_have_what_is_committed(now, c, i, term);
        let crown = now.elected[term].log;
        if own < crown.len() {
            assert(late.log.take(crown.len() as int)[own] == late.log[own]);
        }
    }
}

/// A new leader serves every write that was acknowledged as soon as its own
/// no-op is applied: its store then is what any node of an earlier term had,
/// with only later commands on top.
pub proof fn new_leaders_serve_what_was_acknowledged<R>(
    w: World<R>,
    first: Seq<Incident<R>>,
    rest: Seq<Incident<R>>,
    id: NodeId,
    leader: NodeId,
    own: int,
)
    requires
        fresh(w),
        plausible(w, first + rest),
        w.cluster.nodes.contains_key(id),
        w.cluster.nodes.contains_key(leader),
        w.cluster.nodes[id].store == w.cluster.nodes[leader].store,
        after(w, first + rest).cluster.nodes[leader].volatile.role == Role::Leader,
        after(w, first + rest).cluster.nodes[leader].persistent.current_term > after(
            w,
            first,
        ).cluster.nodes[id].persistent.current_term,
        ({
            let late = after(w, first + rest).cluster.nodes[leader];
            &&& 0 <= own < late.volatile.last_applied
            &&& own < late.log.len()
            &&& late.log[own].term == late.persistent.current_term
        }),
    ensures
        ({
            let early = after(w, first).cluster.nodes[id];
            let late = after(w, first + rest).cluster.nodes[leader];
            &&& early.volatile.last_applied <= late.volatile.last_applied <= late.log.len()
            &&& late.store == safety::ran(
                early.store,
                late.log.subrange(
                    early.volatile.last_applied as int,
                    late.volatile.last_applied as int,
                ),
            )
        }),
{
    noops_bring_new_leaders_up_to_date(w, first, rest, id, leader, own);
    acknowledged_writes_are_served(w, first, rest, id, leader);
}

/// A record extends itself.
proof fn lemma_extending_self<R>(t: System<R>)
    ensures
        extends(t, t),
{
    assert forall|term: Term| #[trigger] t.script.contains_key(term) implies log::begins(
        t.script[term],
        t.script[term],
    ) by {
        assert(t.script[term].take(t.script[term].len() as int) =~= t.script[term]);
    }
}

/// The record of a longer series contains that of its beginning.
proof fn lemma_records_grow<R>(w: World<R>, first: Seq<Incident<R>>, rest: Seq<Incident<R>>)
    requires
        fresh(w),
        plausible(w, first + rest),
    ensures
        plausible(w, first),
        extends(after(w, first).cluster, after(w, first + rest).cluster),
    decreases rest.len(),
{
    if rest.len() == 0 {
        assert(first + rest =~= first);
        lemma_extending_self(after(w, first).cluster);
    } else {
        let fewer = rest.drop_last();
        assert((first + rest).drop_last() =~= first + fewer);
        lemma_records_grow(w, first, fewer);
        clusters_stay_sound(w, first + fewer);
        let before = after(w, first + fewer);
        let now = after(w, first + rest);
        match (first + rest).last() {
            Incident::Dealt { id, event, now, written, .. } => {
                lemma_next(before, id, event, now, written);
            },
            Incident::Lost { .. } => {
                lemma_extending_self(before.cluster);
            },
        }
        lemma_extending_twice(after(w, first).cluster, before.cluster, now.cluster);
    }
}

/// Committed entries are never replaced: whatever a node deals with, the
/// entries up to its commit index stay as they are.
pub proof fn committed_entries_are_never_replaced<R>(
    w: World<R>,
    id: NodeId,
    event: Happening<R>,
    now: Instant,
    written: bool,
)
    requires
        sound(w),
        possible(w, id, event),
    ensures
        ({
            let n = w.cluster.nodes[id];
            let m = next(w, id, event, now, written).cluster.nodes[id];
            let k = n.volatile.commit_index as int;
            k <= n.log.len() && log::begins(m.log, n.log.take(k))
        }),
{
    let v = told(w, id, written);
    let n = w.cluster.nodes[id];
    let k = n.volatile.commit_index as nat;
    let term = n.persistent.current_term;
    lemma_told_world(w, id, event, written);
    lemma_next(w, id, event, now, written);
    lemma_advanced(Node { faulty: false, saved: n.log.len(), ..n });
    assert(node_ok(w.cluster, id));
    lemma_sealed_stays(w.cluster, v.cluster, id, n.log, term, k);
    lemma_sealed_prefix_stays(v, id, event, now, k);
}

/// What is committed of a log stays in it, whatever the node deals with.
proof fn lemma_sealed_prefix_stays<R>(
    w: World<R>,
    id: NodeId,
    event: Happening<R>,
    now: Instant,
    k: nat,
)
    requires
        sound(w),
        possible(w, id, event),
        sealed(
            w.cluster,
            id,
            w.cluster.nodes[id].log,
            w.cluster.nodes[id].persistent.current_term,
            k,
        ),
    ensures
        ({
            let n = w.cluster.nodes[id];
            let m = cluster::stepped(n, event, now).0;
            k <= n.log.len() && log::begins(m.log, n.log.take(k as int))
        }),
{
    let s = w.cluster;
    let n = s.nodes[id];
    let (mid, deeds) = cluster::reacted(n, event, now);
    let t = noted(s, n, mid, event, mail(id, deeds));
    let term = n.persistent.current_term;
    assert(node_ok(s, id));
    lemma_deals(w, id, event);
    lemma_reaction(s, id, event, now);
    safety::settling_settles(mid);
    lemma_sealed_stays(s, t, id, n.log, term, k);
    lemma_sealed_logs_agree(s, id, n.log, term, k, id, n.log, term, k, k);
    lemma_take(n.log, k as int, n.log.len() as int);
    match event {
        Happening::Rpc { from, msg: Message::AppendEntries(req) } => {
            if replication::accepts(n.persistent, n.log, req) {
                lemma_sealed_through_append(s, t, id, mid, from, req, k);
                lemma_sealed_logs_agree(t, id, n.log, term, k, id, mid.log, req.term, k, k);
            } else {
                assert(mid.log == n.log);
            }
        },
        _ => {
            safety::logs_only_grow(n, event, now);
            lemma_begins(mid.log, n.log, n.log.take(k as int));
        },
    }
}

/// What a leader appends for a client's command stays tied to its term and
/// index: whatever happens later, an entry of that term at that index, in the
/// log of any node, is the entry of that very command. So a client that is
/// told its entry was applied hears of its own command and of no other.
pub proof fn entries_keep_their_command<R>(
    w: World<R>,
    first: Seq<Incident<R>>,
    rest: Seq<Incident<R>>,
    id: NodeId,
    op: Op,
    client: R,
    now: Instant,
    wrote: nat,
    written: bool,
    holder: NodeId,
)
    requires
        fresh(w),
        plausible(w, first.push(Incident::Dealt {
            id,
            event: Happening::Command { op, client },
            now,
            wrote,
            written,
        }) + rest),
        after(w, first).cluster.nodes[id].volatile.role == Role::Leader,
    ensures
        ({
            let submitted = first.push(
                (Incident::Dealt {
                    id,
                    event: Happening::Command { op, client },
                    now,
                    wrote,
                    written,
                }),
            );
            let entry = cluster::own_entry(after(w, first).cluster.nodes[id], op);
            let held = after(w, submitted + rest).cluster.nodes[holder].log;
            after(w, submitted + rest).cluster.nodes.contains_key(holder) && 1 <= entry.index
                <= held.len() && held[entry.index - 1].term == entry.term ==> held[entry.index - 1]
                == entry
        }),
{
    let event = Happening::Command { op, client };
    let submitted = first.push(Incident::Dealt { id, event, now, wrote, written });
    let before = after(w, first);
    let old = before.cluster.nodes[id];
    let n = cluster::informed(old, written);
    let entry = cluster::own_entry(n, op);
    let term = entry.term;
    let taken = after(w, submitted).cluster;
    let late = after(w, submitted + rest).cluster;
    assert(submitted.drop_last() =~= first);
    assert(after(w, submitted) == next(before, id, event, now, written));
    lemma_records_grow(w, submitted, rest);
    clusters_stay_sound(w, first);
    clusters_stay_sound(w, submitted);
    clusters_stay_sound(w, submitted + rest);
    lemma_told_world(before, id, event, written);
    lemma_next(before, id, event, now, written);
    assert(node_ok(before.cluster, id));
    lemma_advanced(Node { faulty: false, saved: old.log.len(), ..old });
    assert(entry == cluster::own_entry(old, op));
    lemma_rooted_is_numbered(before.cluster, n.log);
    let mid = cluster::reacted(n, event, now).0;
    safety::settling_settles(mid);
    lemma_advanced(
        cluster::told(cluster::grown(cluster::awaiting(n, op, client), entry)),
    );
    assert(mid.log == n.log.push(entry));
    assert(taken.script.contains_key(term) && taken.script[term] == mid.log);
    let at = entry.index - 1;
    assert(taken.script[term][at] == entry);
    assert(late.script[term].take(taken.script[term].len() as int)[at] == late.script[term][at]);
    if late.nodes.contains_key(holder) {
        let held = late.nodes[holder].log;
        assert(node_ok(late, holder));
        if at < held.len() && held[at].term == term {
            assert(held.take(at + 1)[at] == held[at]);
            assert(late.script[term].take(at + 1)[at] == late.script[term][at]);
        }
    }
}

/// What the write-ahead log of a node holds after a series of incidents, if it
/// was empty before.
pub open spec fn disk<R>(w: World<R>, incidents: Seq<Incident<R>>, id: NodeId) -> Seq<Entry>
    decreases incidents.len(),
{
    if incidents.len() == 0 {
        Seq::empty()
    } else {
        let before = disk(w, incidents.drop_last(), id);
        match incidents.last() {
            Incident::Dealt { id: acting, event, wrote, .. } => if acting == id {
                let n = after(w, incidents.drop_last()).cluster.nodes[id];
                durability::on_disk(before, cluster::ahead(n, event).take(wrote as int))
            } else {
                before
            },
            Incident::Lost { .. } => before,
        }
    }
}

/// The entries of a request that is under way are numbered on.
proof fn lemma_requests_are_numbered<R>(w: World<R>, id: NodeId, event: Happening<R>)
    requires
        sound(w),
        possible(w, id, event),
    ensures
        durability::asks_in_order(event),
{
    if let Happening::Rpc { from, msg: Message::AppendEntries(req) } = event {
        let s = w.cluster;
        assert(s.sent.contains((from, id, link(w, from, id)[0])));
        assert(letter_ok(s, from, id, Message::AppendEntries(req)));
        assert(crown_ok(s, req.term));
        let script = s.script[req.term];
        assert forall|i: int| 0 <= i < req.entries.len() implies (#[trigger] req.entries[i]).index
            == req.prev_log_index + 1 + i by {
            assert(req.entries[i] == script[req.prev_log_index + i]);
        }
    }
}

/// The disks back the logs at all times, whatever writes fail: every node of a
/// cluster that started with nothing has on disk what it counts on. As long as
/// its writes go through that is exactly the log it has in memory, entries in
/// order, each index once.
pub proof fn write_ahead_logs_back_the_logs<R>(
    w: World<R>,
    incidents: Seq<Incident<R>>,
    id: NodeId,
)
    requires
        fresh(w),
        plausible(w, incidents),
        w.cluster.nodes.contains_key(id),
    ensures
        durability::backed(after(w, incidents).cluster.nodes[id], disk(w, incidents, id)),
        log::numbered(disk(w, incidents, id)),
        log::numbered(after(w, incidents).cluster.nodes[id].log),
    decreases incidents.len(),
{
    if incidents.len() == 0 {
        durability::nodes_start_backed(w.cluster.nodes[id]);
    } else {
        let fewer = incidents.drop_last();
        write_ahead_logs_back_the_logs(w, fewer, id);
        let before = after(w, fewer);
        clusters_stay_sound(w, fewer);
        if let Incident::Dealt { id: acting, event, now, wrote, written } = incidents.last() {
            let n = before.cluster.nodes[acting];
            lemma_next(before, acting, event, now, written);
            if acting == id {
                lemma_requests_are_numbered(before, id, event);
                durability::disks_back_the_logs(
                    n,
                    event,
                    now,
                    disk(w, fewer, id),
                    wrote as int,
                    written,
                );
            } else {
                assert(after(w, incidents).cluster.nodes[id] == before.cluster.nodes[id]);
            }
        }
    }
}

/// A follower acknowledges entries only once they are on disk, whatever
/// requests came late or again before, and whatever writes failed: if all the
/// writes went through its disk then holds exactly its log, and if not, the log
/// up to the end of what it acknowledges.
pub proof fn acknowledgements_are_on_disk<R>(
    w: World<R>,
    incidents: Seq<Incident<R>>,
    id: NodeId,
    from: NodeId,
    req: Append,
    now: Instant,
    wrote: nat,
    written: bool,
    j: int,
)
    requires
        ({
            let event = Happening::<R>::Rpc { from, msg: Message::AppendEntries(req) };
            let n = after(w, incidents).cluster.nodes[id];
            let writes = cluster::ahead(n, event);
            let deeds = cluster::stepped(cluster::informed(n, written), event, now).1;
            &&& possible(after(w, incidents), id, event)
            &&& wrote <= writes.len()
            &&& written ==> wrote == writes.len()
            &&& 0 <= j < deeds.len()
            &&& deeds[j] matches Act::Send { msg: Message::AppendEntriesResponse(resp), .. }
                && resp.success
        }),
        fresh(w),
        plausible(w, incidents),
        w.cluster.nodes.contains_key(id),
    ensures
        ({
            let event = Happening::<R>::Rpc { from, msg: Message::AppendEntries(req) };
            let n = after(w, incidents).cluster.nodes[id];
            let writes = cluster::ahead(n, event);
            let m = cluster::stepped(cluster::informed(n, written), event, now).0;
            let then = durability::on_disk(disk(w, incidents, id), writes.take(wrote as int));
            &&& written ==> then == m.log
            &&& end_of(req) <= m.log.len()
            &&& log::begins(then, m.log.take(end_of(req)))
        }),
{
    let n = after(w, incidents).cluster.nodes[id];
    write_ahead_logs_back_the_logs(w, incidents, id);
    durability::acknowledged_entries_are_on_disk(
        n,
        from,
        req,
        now,
        disk(w, incidents, id),
        wrote as int,
        written,
        j,
    );
}

/// A power failure loses no committed entry, not even in the middle of a step:
/// after any number of the writes the disk of a node holds everything that the
/// node had saved up to its commit index.
pub proof fn crashes_lose_nothing_committed<R>(
    w: World<R>,
    incidents: Seq<Incident<R>>,
    id: NodeId,
    event: Happening<R>,
    now: Instant,
    i: nat,
    k: nat,
)
    requires
        fresh(w),
        plausible(w, incidents),
        w.cluster.nodes.contains_key(id),
        possible(after(w, incidents), id, event),
        i <= cluster::ahead(after(w, incidents).cluster.nodes[id], event).len(),
        k <= after(w, incidents).cluster.nodes[id].volatile.commit_index,
        k <= after(w, incidents).cluster.nodes[id].saved,
    ensures
        ({
            let n = after(w, incidents).cluster.nodes[id];
            let then = durability::on_disk(
                disk(w, incidents, id),
                cluster::ahead(n, event).take(i as int),
            );
            log::begins(then, n.log.take(k as int))
        }),
{
    let v = after(w, incidents);
    let n = v.cluster.nodes[id];
    clusters_stay_sound(w, incidents);
    write_ahead_logs_back_the_logs(w, incidents, id);
    durability::disks_back_the_logs(n, event, now, disk(w, incidents, id), i as int, false);
    committed_entries_are_never_replaced(v, id, event, now, false);
    lemma_next(v, id, event, now, false);
    let m = cluster::stepped(cluster::informed(n, false), event, now).0;
    let commit = n.volatile.commit_index as int;
    lemma_take(n.log, k as int, commit);
    lemma_begins(m.log, n.log.take(commit), n.log.take(k as int));
}

} // verus!
