//! What holds of every node, whatever happens to it.
use std::time::Instant;
use vstd::prelude::*;

use crate::clock::Duration;
use crate::cluster::{self, Act, Answer, Happening, Node, Outcome};
use crate::election::{self, ElectionTimeoutConfig};
use crate::kv_store::{self, Op};
use crate::log::{self, Entry};
use crate::messages::{Append, AppendEntriesResponse, Message};
use crate::replication;
use crate::state::{NodeId, Role, Term, VolatileState};

verus! {

/// `after` differs from `before` at most in what has been applied.
pub open spec fn only_applied<R>(before: Node<R>, after: Node<R>) -> bool {
    after == (Node {
        volatile: VolatileState {
            last_applied: after.volatile.last_applied,
            ..before.volatile
        },
        store: after.store,
        pending: after.pending,
        ..before
    })
}

/// Applying committed entries touches nothing but the store, the waiting
/// clients and the count of applied entries, and leaves nothing to apply.
pub proof fn settling_settles<R>(n: Node<R>)
    ensures
        only_applied(n, cluster::settled(n).0),
        !cluster::unsettled(cluster::settled(n).0),
        n.volatile.last_applied <= cluster::settled(n).0.volatile.last_applied,
        n.volatile.last_applied <= n.volatile.commit_index
            ==> cluster::settled(n).0.volatile.last_applied <= n.volatile.commit_index,
    decreases n.volatile.commit_index - n.volatile.last_applied,
{
    if cluster::unsettled(n) {
        settling_settles(cluster::applied_one(n).0);
    }
}

/// After every step everything committed is applied, as far as the log holds
/// it: committing an entry commits whatever lies before it.
pub proof fn steps_settle<R>(n: Node<R>, event: Happening<R>, now: Instant)
    ensures
        ({
            let after = cluster::stepped(n, event, now).0;
            &&& !cluster::unsettled(after)
            &&& after.volatile.commit_index <= after.log.len() ==> after.volatile.commit_index
                <= after.volatile.last_applied
        }),
{
    settling_settles(cluster::reacted(n, event, now).0);
}

/// No event takes back a vote or a term.
pub proof fn steps_keep_votes<R>(n: Node<R>, event: Happening<R>, now: Instant)
    requires
        cluster::admissible(n, event),
    ensures
        election::keeps_votes(n.persistent, cluster::stepped(n, event, now).0.persistent),
{
    settling_settles(cluster::reacted(n, event, now).0);
}

/// The term a message carries.
pub open spec fn term_of(msg: Message) -> Option<Term> {
    match msg {
        Message::Hello(_) => None,
        Message::RequestVote(req) => Some(req.term),
        Message::RequestVoteResponse(resp) => Some(resp.term),
        Message::AppendEntries(req) => Some(req.term),
        Message::AppendEntriesResponse(resp) => Some(resp.term),
    }
}

/// A node that sees a higher term than its own follows it, whatever it was
/// doing.
pub proof fn newer_terms_win<R>(n: Node<R>, from: NodeId, msg: Message, now: Instant)
    requires
        term_of(msg) matches Some(term) && term > n.persistent.current_term,
    ensures
        ({
            let after = cluster::stepped(n, Happening::Rpc { from, msg }, now).0;
            &&& after.volatile.role == Role::Follower
            &&& Some(after.persistent.current_term) == term_of(msg)
        }),
{
    settling_settles(cluster::received(n, from, msg, now).0);
}

/// A leader of an older term changes nothing, and is told the newer term.
pub proof fn stale_leaders_are_refused<R>(n: Node<R>, from: NodeId, req: Append, now: Instant)
    requires
        req.term < n.persistent.current_term,
        !cluster::unsettled(n),
        n.peers.contains(from),
    ensures
        ({
            let (after, deeds) = cluster::stepped(
                n,
                Happening::Rpc { from, msg: Message::AppendEntries(req) },
                now,
            );
            &&& after == n
            &&& deeds.last() == Act::<R>::Send {
                to: from,
                msg: Message::AppendEntriesResponse(
                    replication::append_reply(n.persistent, n.log, req),
                ),
            }
            &&& replication::append_reply(n.persistent, n.log, req).term == n.persistent.current_term
            &&& !replication::append_reply(n.persistent, n.log, req).success
        }),
{
}

/// A node that is not the leader takes no writes: it changes nothing and says
/// which leader it knows of.
pub proof fn only_leaders_take_writes<R>(n: Node<R>, op: Op, client: R, now: Instant)
    requires
        n.volatile.role != Role::Leader,
        !cluster::unsettled(n),
    ensures
        cluster::stepped(n, Happening::Command { op, client }, now) == (
            n,
            seq![
                Act::Respond {
                    client,
                    result: Outcome::NotLeader { leader_hint: n.known_leader },
                },
            ],
        ),
{
    let deeds = cluster::commanded(n, op, client).1;
    assert(deeds + Seq::<Act<R>>::empty() =~= deeds);
}

/// A read changes nothing, and only a leader gives a value.
pub proof fn reads_change_nothing<R>(n: Node<R>, key: Seq<char>, client: R, now: Instant)
    requires
        !cluster::unsettled(n),
    ensures
        cluster::stepped(n, Happening::Query { key, client }, now) == (
            n,
            seq![
                Act::Reply {
                    client,
                    answer: if n.volatile.role == Role::Leader {
                        Answer::Value(kv_store::lookup(n.store, key))
                    } else {
                        Answer::NotLeader { leader_hint: n.known_leader }
                    },
                },
            ],
        ),
{
    let deeds = seq![cluster::queried(n, key, client)];
    assert(deeds + Seq::<Act<R>>::empty() =~= deeds);
}

/// Applying committed entries answers clients and does nothing else.
pub proof fn settling_only_answers<R>(n: Node<R>)
    ensures
        forall|i: int|
            0 <= i < cluster::settled(n).1.len() ==> (#[trigger] cluster::settled(n).1[i]) is Respond,
    decreases n.volatile.commit_index - n.volatile.last_applied,
{
    if cluster::unsettled(n) {
        settling_only_answers(cluster::applied_one(n).0);
    }
}

/// The entries of a request are numbered on from the position before them.
pub open spec fn numbered_on(req: Append) -> bool {
    forall|i: int|
        0 <= i < req.entries.len() ==> (#[trigger] req.entries[i]).index == req.prev_log_index + 1
            + i
}

/// A leader with a numbered log numbers what it sends.
pub proof fn leaders_number_what_they_send<R>(n: Node<R>, peer: NodeId)
    requires
        log::numbered(n.log),
        cluster::next_for(n, peer) <= n.log.len() + 1,
    ensures
        cluster::update_for(n, peer) matches Act::Send {
            msg: Message::AppendEntries(req),
            ..
        } && numbered_on(req),
{
    let next = cluster::next_for(n, peer);
    let prev = replication::request_for(n.persistent, n.log, n.id, next, 0).prev_log_index;
    log::entries_after_is_the_tail(n.log, prev);
}

/// What a leader's own entry makes of its log.
proof fn lemma_proposal<R>(n: Node<R>, op: Op)
    requires
        log::numbered(n.log),
        n.log.len() < u64::MAX,
    ensures
        log::numbered(cluster::proposed(n, op).0.log),
        cluster::proposed(n, op).0.log == n.log.push(cluster::own_entry(n, op)),
        cluster::own_entry(n, op).index == n.log.len() + 1,
{
    let entry = cluster::own_entry(n, op);
    log::append_keeps_numbering(n.log, entry.term, entry.command);
}

/// A store after the commands in `entries`, applied in order.
pub open spec fn ran(store: Map<Seq<char>, Seq<u8>>, entries: Seq<Entry>) -> Map<
    Seq<char>,
    Seq<u8>,
>
    decreases entries.len(),
{
    if entries.len() == 0 {
        store
    } else {
        cluster::effect(ran(store, entries.drop_last()), entries.last().command).0
    }
}

/// A node's store is what the applied part of its log makes of `origin`, the
/// store it started with.
pub open spec fn faithful<R>(n: Node<R>, origin: Map<Seq<char>, Seq<u8>>) -> bool {
    &&& n.volatile.last_applied <= n.log.len()
    &&& n.store == ran(origin, n.log.take(n.volatile.last_applied as int))
}

/// Nodes that have applied the same part of the same log hold the same store.
pub proof fn same_log_same_store<R>(a: Node<R>, b: Node<R>, origin: Map<Seq<char>, Seq<u8>>)
    requires
        faithful(a, origin),
        faithful(b, origin),
        a.volatile.last_applied == b.volatile.last_applied,
        a.log.take(a.volatile.last_applied as int) == b.log.take(b.volatile.last_applied as int),
    ensures
        a.store == b.store,
{
}

/// A node that starts with nothing applied is faithful.
pub proof fn nodes_start_faithful<R>(n: Node<R>)
    requires
        n.volatile.last_applied == 0,
    ensures
        faithful(n, n.store),
{
    assert(n.log.take(0) =~= Seq::<Entry>::empty());
}

/// The entries a node has applied are never replaced by this event.
pub open spec fn spares_applied<R>(n: Node<R>, event: Happening<R>) -> bool {
    event matches Happening::Rpc { msg: Message::AppendEntries(req), .. } ==> (
    replication::accepts(n.persistent, n.log, req) ==> forall|k: int|
        0 <= k < req.entries.len() && req.prev_log_index + k < n.volatile.last_applied ==> (
        #[trigger] req.entries[k]) == n.log[req.prev_log_index + k])
}

/// A store always is what the applied part of the log makes of it: commands
/// are applied once each, in log order, and nothing else changes the store.
pub proof fn stores_follow_the_log<R>(
    n: Node<R>,
    event: Happening<R>,
    now: Instant,
    origin: Map<Seq<char>, Seq<u8>>,
)
    requires
        faithful(n, origin),
        spares_applied(n, event),
    ensures
        faithful(cluster::stepped(n, event, now).0, origin),
{
    let mid = cluster::reacted(n, event, now).0;
    let done = n.volatile.last_applied as int;
    assert(mid.log.len() >= done && mid.log.take(done) =~= n.log.take(done)) by {
        if let Happening::Rpc { from, msg: Message::AppendEntries(req) } = event {
            if replication::accepts(n.persistent, n.log, req) {
                let applied = VolatileState {
                    commit_index: n.volatile.last_applied,
                    ..n.volatile
                };
                replication::committed_entries_survive(n.persistent, applied, n.log, req, now);
            }
        }
    }
    settling_is_faithful(mid, origin);
}

/// Applying committed entries keeps a store faithful.
pub proof fn settling_is_faithful<R>(n: Node<R>, origin: Map<Seq<char>, Seq<u8>>)
    requires
        faithful(n, origin),
    ensures
        faithful(cluster::settled(n).0, origin),
    decreases n.volatile.commit_index - n.volatile.last_applied,
{
    if cluster::unsettled(n) {
        let after = cluster::applied_one(n).0;
        let done = n.volatile.last_applied as int;
        assert(n.log.take(done + 1).drop_last() =~= n.log.take(done));
        assert(n.log.take(done + 1).last() == n.log[done]);
        settling_is_faithful(after, origin);
    }
}

/// A client is told that its command was applied only for an entry of the term
/// in which its own command was appended, at the index where it was appended,
/// once that entry is committed and applied. It is told what the command in
/// that entry displaced.
pub open spec fn answers<R>(
    n: Node<R>,
    act: Act<R>,
    index: u64,
    origin: Map<Seq<char>, Seq<u8>>,
) -> bool {
    &&& n.pending.contains_key(index)
    &&& n.volatile.last_applied < index <= n.log.len()
    &&& index <= n.volatile.commit_index
    &&& act matches Act::Respond { client, result: Outcome::Applied(result) } && {
        let entry = n.log[index - 1];
        &&& n.pending[index] == (entry.term, client)
        &&& faithful(n, origin) ==> result == cluster::effect(
            ran(origin, n.log.take(index - 1)),
            entry.command,
        ).1
    }
}

/// Every `Applied` that a client gets answers its own entry.
pub proof fn answers_follow_commits<R>(
    n: Node<R>,
    event: Happening<R>,
    now: Instant,
    origin: Map<Seq<char>, Seq<u8>>,
    i: int,
)
    requires
        0 <= i < cluster::stepped(n, event, now).1.len(),
        cluster::stepped(n, event, now).1[i] matches Act::Respond {
            result: Outcome::Applied(_),
            ..
        },
    ensures
        ({
            let mid = cluster::reacted(n, event, now).0;
            let (after, deeds) = cluster::stepped(n, event, now);
            exists|index: u64|
                #[trigger] answers(mid, deeds[i], index, origin) && index
                    <= after.volatile.last_applied
        }),
{
    let (mid, deeds) = cluster::reacted(n, event, now);
    let at = i - deeds.len();
    lemma_answers_follow_commits(mid, origin, at);
    let act = cluster::settled(mid).1[at];
    let index = choose|index: u64|
        #[trigger] answers(mid, act, index, origin) && index <= cluster::settled(
            mid,
        ).0.volatile.last_applied;
    assert(answers(mid, cluster::stepped(n, event, now).1[i], index, origin));
}

proof fn lemma_answers_follow_commits<R>(
    n: Node<R>,
    origin: Map<Seq<char>, Seq<u8>>,
    i: int,
)
    requires
        0 <= i < cluster::settled(n).1.len(),
        cluster::settled(n).1[i]->result is Applied,
    ensures
        ({
            let act = cluster::settled(n).1[i];
            exists|index: u64|
                #[trigger] answers(n, act, index, origin) && index <= cluster::settled(
                    n,
                ).0.volatile.last_applied
        }),
    decreases n.volatile.commit_index - n.volatile.last_applied,
{
    if cluster::unsettled(n) {
        let (after, replies) = cluster::applied_one(n);
        let act = cluster::settled(n).1[i];
        settling_settles(after);
        let here = (n.volatile.last_applied + 1) as u64;
        if i < replies.len() {
            assert(act == replies[i]);
            assert(answers(n, act, here, origin));
        } else {
            lemma_answers_follow_commits(after, origin, i - replies.len());
            let index = choose|index: u64|
                #[trigger] answers(after, act, index, origin) && index <= cluster::settled(
                    after,
                ).0.volatile.last_applied;
            if faithful(n, origin) {
                let done = n.volatile.last_applied as int;
                assert(n.log.take(done + 1).drop_last() =~= n.log.take(done));
                assert(n.log.take(done + 1).last() == n.log[done]);
                assert(faithful(after, origin));
            }
            assert(answers(n, act, index, origin));
        }
    }
}

/// Every new leader appends a no-op in its own term before anything else, and
/// keeps the log it has.
pub proof fn leaders_start_with_a_noop<R>(n: Node<R>)
    ensures
        ({
            let leader = cluster::crowned(n).0;
            &&& leader.volatile.role == Role::Leader
            &&& leader.log.drop_last() == n.log
            &&& leader.log.last().term == n.persistent.current_term
            &&& leader.log.last().command == kv_store::command_bytes(Op::NoOp)
        }),
{
    let leader = cluster::crowned(n).0;
    assert(leader.log.drop_last() =~= n.log);
}

/// A node becomes leader by winning an election and in no other way.
pub proof fn only_winners_lead<R>(n: Node<R>, event: Happening<R>, now: Instant)
    requires
        n.volatile.role != Role::Leader,
        cluster::stepped(n, event, now).0.volatile.role == Role::Leader,
    ensures
        match event {
            Happening::Rpc { from, msg: Message::RequestVoteResponse(resp) } => cluster::wins(
                n,
                from,
                resp,
            ),
            Happening::ElectionDue => n.cluster_size <= 1,
            _ => false,
        },
{
    settling_settles(cluster::reacted(n, event, now).0);
}

/// A node that is alone in its cluster leads as soon as its election timer
/// runs out, and has its whole log committed and applied then.
pub proof fn alone_a_node_leads_at_once<R>(n: Node<R>, now: Instant)
    requires
        !n.faulty,
        n.cluster_size <= 1,
        n.volatile.role != Role::Leader,
        log::numbered(n.log),
        n.log.len() < u64::MAX,
        n.volatile.last_applied <= n.log.len(),
    ensures
        ({
            let after = cluster::stepped(n, Happening::ElectionDue, now).0;
            &&& after.volatile.role == Role::Leader
            &&& after.volatile.commit_index == n.log.len() + 1
            &&& after.volatile.last_applied == n.log.len() + 1
        }),
{
    let standing = cluster::candidate(n, now);
    let leader = cluster::crowned(standing).0;
    let noop = cluster::own_entry(standing, Op::NoOp);
    log::append_keeps_numbering(n.log, noop.term, noop.command);
    assert(leader.log == n.log.push(noop));
    lemma_alone_commits(
        leader.match_index,
        leader.log,
        leader.persistent.current_term,
        n.cluster_size,
    );
    settling_settles(leader);
}

/// A leader that is alone commits whatever it appends.
proof fn lemma_alone_commits(
    match_index: Map<NodeId, u64>,
    log: Seq<Entry>,
    term: Term,
    cluster_size: usize,
)
    requires
        cluster_size <= 1,
        log::numbered(log),
        0 < log.len() <= u64::MAX,
        log.last().term == term,
    ensures
        replication::commit_point(match_index, log, term, cluster_size, log::last_index(log))
            == Some(log.len() as u64),
{
    let last = log.len() as u64;
    assert(log[log.len() - 1].index == log.len());
    assert(replication::committable(match_index, log, term, cluster_size, last, last));
    replication::commit_point_is_unique(match_index, log, term, cluster_size, last, Some(last));
}

/// A write to a leader that is alone is applied and answered at once, and a
/// read then gives back what was written.
pub proof fn alone_a_write_is_read_back<R>(
    n: Node<R>,
    key: Seq<char>,
    value: Seq<u8>,
    writer: R,
    reader: R,
    now: Instant,
)
    requires
        !n.faulty,
        n.cluster_size <= 1,
        n.volatile.role == Role::Leader,
        log::numbered(n.log),
        n.log.len() < u64::MAX,
        n.volatile.last_applied == n.log.len(),
        kv_store::command_fits(Op::Put { key, value }),
    ensures
        ({
            let put = Happening::Command { op: Op::Put { key, value }, client: writer };
            let (after, deeds) = cluster::stepped(n, put, now);
            &&& deeds.last() == Act::Respond {
                client: writer,
                result: Outcome::Applied(kv_store::lookup(n.store, key)),
            }
            &&& after.store == n.store.insert(key, value)
            &&& cluster::stepped(after, Happening::Query { key, client: reader }, now).1 == seq![
                Act::Reply { client: reader, answer: Answer::Value(Some(value)) },
            ]
        }),
{
    let op = Op::Put { key, value };
    let put = Happening::Command { op, client: writer };
    let (mid, deeds) = cluster::reacted(n, put, now);
    let entry = cluster::own_entry(n, op);
    lemma_proposal(cluster::awaiting(n, op, writer), op);
    lemma_alone_commits(mid.match_index, mid.log, mid.persistent.current_term, n.cluster_size);
    kv_store::command_round_trips(op, Seq::empty());
    let (after, answers) = cluster::applied_one(mid);
    assert(cluster::unsettled(mid));
    assert(!cluster::unsettled(after));
    assert(cluster::settled(after).1 =~= Seq::<Act<R>>::empty());
    assert(cluster::settled(mid).1 =~= answers);
    reads_change_nothing(after, key, reader, now);
}

/// `other` holds everything `log` holds up to `index`.
pub open spec fn holds_up_to(other: Seq<Entry>, log: Seq<Entry>, index: u64) -> bool {
    index <= other.len() && index <= log.len() && other.take(index as int) == log.take(index as int)
}

/// What a leader believes of its followers is true of their logs.
pub open spec fn truthful<R>(n: Node<R>, logs: spec_fn(NodeId) -> Seq<Entry>) -> bool {
    forall|id: NodeId| #[trigger]
        n.match_index.contains_key(id) ==> holds_up_to(logs(id), n.log, n.match_index[id])
}

/// A new leader believes nothing of its followers, which is true.
pub proof fn new_leaders_are_truthful<R>(n: Node<R>, logs: spec_fn(NodeId) -> Seq<Entry>)
    ensures
        truthful(cluster::crowned(n).0, logs),
{
    let leader = cluster::crowned(n).0;
    assert forall|id: NodeId| #[trigger] leader.match_index.contains_key(id) implies holds_up_to(
        logs(id),
        leader.log,
        leader.match_index[id],
    ) by {
        assert(logs(id).take(0) =~= leader.log.take(0));
    }
}

/// Appending to its own log does not make a leader's belief wrong.
pub proof fn writes_keep_leaders_truthful<R>(
    n: Node<R>,
    op: Op,
    client: R,
    logs: spec_fn(NodeId) -> Seq<Entry>,
)
    requires
        truthful(n, logs),
    ensures
        truthful(cluster::commanded(n, op, client).0, logs),
{
    let after = cluster::commanded(n, op, client).0;
    assert forall|id: NodeId| #[trigger] after.match_index.contains_key(id) implies holds_up_to(
        logs(id),
        after.log,
        after.match_index[id],
    ) by {
        assert(n.match_index.contains_key(id));
        let index = n.match_index[id] as int;
        assert(after.log.take(index) =~= n.log.take(index));
    }
}

/// An answer keeps the leader's belief true, as long as the follower that
/// accepted holds what the oldest unanswered request brought it up to.
pub proof fn answers_keep_leaders_truthful<R>(
    n: Node<R>,
    from: NodeId,
    resp: AppendEntriesResponse,
    logs: spec_fn(NodeId) -> Seq<Entry>,
)
    requires
        truthful(n, logs),
        resp.success && resp.term == n.persistent.current_term && cluster::waiting(n, from).len()
            > 0 ==> {
            let (prev, count) = cluster::waiting(n, from)[0];
            &&& prev + count <= u64::MAX
            &&& holds_up_to(logs(from), n.log, (prev + count) as u64)
        },
    ensures
        truthful(cluster::got_append_reply(n, from, resp).0, logs),
{
    let after = cluster::got_append_reply(n, from, resp).0;
    assert forall|id: NodeId| #[trigger] after.match_index.contains_key(id) implies holds_up_to(
        logs(id),
        after.log,
        after.match_index[id],
    ) by {
        if id != from || !resp.success || after.match_index == n.match_index {
            assert(n.match_index.contains_key(id));
        }
    }
}

/// What a truthful leader commits is an entry of its own term that a majority
/// of the cluster holds, together with everything before it.
pub proof fn commits_are_held_by_a_majority<R>(
    n: Node<R>,
    logs: spec_fn(NodeId) -> Seq<Entry>,
)
    requires
        truthful(n, logs),
        n.match_index.dom().finite(),
        !n.match_index.contains_key(n.id),
        log::numbered(n.log),
        cluster::advanced(n).volatile.commit_index != n.volatile.commit_index,
    ensures
        ({
            let commit = cluster::advanced(n).volatile.commit_index;
            &&& log::term_at(n.log, commit) == Some(n.persistent.current_term)
            &&& exists|holders: Set<NodeId>|
                {
                    &&& holders.finite()
                    &&& #[trigger] holders.len() > n.cluster_size as int / 2
                    &&& forall|id: NodeId| #[trigger]
                        holders.contains(id) ==> id == n.id || holds_up_to(logs(id), n.log, commit)
                }
        }),
{
    let own = cluster::own_match(n);
    let term = n.persistent.current_term;
    let point = replication::commit_point(n.match_index, n.log, term, n.cluster_size, own);
    let commit = point->0;
    assert(point is Some);
    replication::there_is_a_commit_point(n.match_index, n.log, term, n.cluster_size, own);
    let followers = replication::holders(n.match_index, commit);
    let holders = if own >= commit {
        followers.insert(n.id)
    } else {
        followers
    };
    assert(followers.finite());
    assert(!followers.contains(n.id));
    assert(holders.len() > n.cluster_size as int / 2);
    assert forall|id: NodeId| #[trigger] holders.contains(id) implies id == n.id || holds_up_to(
        logs(id),
        n.log,
        commit,
    ) by {
        if id != n.id {
            assert(n.match_index.contains_key(id));
            let index = n.match_index[id] as int;
            assert(logs(id).take(commit as int) =~= logs(id).take(index).take(commit as int));
            assert(n.log.take(commit as int) =~= n.log.take(index).take(commit as int));
        }
    }
}

/// A snapshot of what the first entries made of a store, together with the
/// entries after them, gives what the whole log gives.
pub proof fn snapshots_stand_for_the_past(
    origin: Map<Seq<char>, Seq<u8>>,
    log: Seq<Entry>,
    included: u64,
)
    requires
        log::numbered(log),
        included <= log.len(),
    ensures
        ran(ran(origin, log.take(included as int)), log::entries_after(log, included)) == ran(
            origin,
            log,
        ),
{
    log::entries_after_is_the_tail(log, included);
    runs_add_up(origin, log.take(included as int), log.skip(included as int));
    assert(log.take(included as int) + log.skip(included as int) =~= log);
}

/// Running a log is running its beginning and then the rest.
pub proof fn runs_add_up(origin: Map<Seq<char>, Seq<u8>>, a: Seq<Entry>, b: Seq<Entry>)
    ensures
        ran(ran(origin, a), b) == ran(origin, a + b),
    decreases b.len(),
{
    if b.len() == 0 {
        assert(a + b =~= a);
    } else {
        runs_add_up(origin, a, b.drop_last());
        assert((a + b).drop_last() =~= a + b.drop_last());
    }
}

/// Heartbeats come more often than any election timer runs out, as long as
/// the timers are set to a millisecond or more.
pub proof fn heartbeats_outpace_elections(
    timeouts: ElectionTimeoutConfig,
    interval: Duration,
    timeout: Duration,
)
    requires
        1_000_000 <= timeouts.min.nanos,
        timeouts.min.nanos as int / 1_000_000 <= u64::MAX,
        interval.nanos == timeouts.min.nanos as int / 4,
        timeouts.admits(timeout),
    ensures
        interval.nanos < timeout.nanos,
{
    let min = timeouts.min.nanos as int;
    let floor = min / 1_000_000;
    let millis = choose|millis: u64|
        election::whole_millis(timeouts.min) <= millis <= election::whole_millis(timeouts.max)
            && timeout.nanos == #[trigger] (millis * 1_000_000);
    assert(floor <= millis);
    assert(min < (floor + 1) * 1_000_000);
}

/// A node only ever adds to its log, unless a leader's entries differ from
/// what it has.
pub proof fn logs_only_grow<R>(n: Node<R>, event: Happening<R>, now: Instant)
    requires
        event matches Happening::Rpc { msg: Message::AppendEntries(req), .. } ==> forall|k: int|
            0 <= k < req.entries.len() && req.prev_log_index + k < n.log.len() ==> (
            #[trigger] req.entries[k]) == n.log[req.prev_log_index + k],
    ensures
        n.log.len() <= cluster::reacted(n, event, now).0.log.len(),
        cluster::reacted(n, event, now).0.log.take(n.log.len() as int) == n.log,
{
    let m = cluster::reacted(n, event, now).0;
    if let Happening::Rpc { msg: Message::AppendEntries(req), .. } = event {
        let whole = replication::merged(n.log, req);
        if m.log != n.log {
            if whole.len() < n.log.len() {
                assert(n.log.take(whole.len() as int) =~= whole);
            }
        }
    } else {
        assert(m.log == n.log || m.log.drop_last() =~= n.log);
    }
    assert(m.log.take(n.log.len() as int) =~= n.log);
}

} // verus!
