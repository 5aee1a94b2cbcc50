//! Log replication.
use std::collections::HashMap;
use std::time::Instant;
use vstd::prelude::*;

use crate::clock::now;
use crate::election;
use crate::log::{self, Entry, Log, LogEntry};
use crate::messages::{Append, AppendEntriesRequest, AppendEntriesResponse};
use crate::state::{LeaderState, NodeId, PersistentState, Role, Term, VolatileState};

verus! {

/// A follower takes a leader's entries when the leader's term is not stale
/// and both logs agree on the entry just before them.
pub open spec fn accepts(p: PersistentState, log: Seq<Entry>, req: Append) -> bool {
    req.term >= p.current_term && log::agrees(log, req.prev_log_index, req.prev_log_term)
}

/// The persistent state after a leader's request.
pub open spec fn after_append(p: PersistentState, req: Append) -> PersistentState {
    if req.term > p.current_term {
        PersistentState { current_term: req.term, voted_for: None }
    } else {
        p
    }
}

/// The agreed part of the log with the leader's entries behind it.
pub open spec fn merged(log: Seq<Entry>, req: Append) -> Seq<Entry> {
    log.take(req.prev_log_index as int) + req.entries
}

/// The log after a leader's request. A log that has all of the leader's
/// entries keeps whatever it has behind them; otherwise everything from the
/// first entry that differs gives way to the leader's. A heartbeat changes
/// nothing.
pub open spec fn log_after_append(p: PersistentState, log: Seq<Entry>, req: Append) -> Seq<Entry> {
    if accepts(p, log, req) && !log::begins(log, merged(log, req)) {
        merged(log, req)
    } else {
        log
    }
}

/// How many of `entries` the log already has, from position `prev` on and up
/// to the first that differs.
pub open spec fn in_place(log: Seq<Entry>, prev: int, entries: Seq<Entry>) -> nat
    decreases entries.len(),
{
    if entries.len() == 0 || prev >= log.len() || log[prev] != entries[0] {
        0
    } else {
        1 + in_place(log, prev + 1, entries.drop_first())
    }
}

/// The commit index after a leader's request: the leader's, capped at what
/// this log holds. It never goes back.
pub open spec fn commit_after_append(
    p: PersistentState,
    v: VolatileState,
    log: Seq<Entry>,
    req: Append,
) -> u64 {
    if accepts(p, log, req) {
        vstd::math::max(
            v.commit_index as int,
            vstd::math::min(
                req.leader_commit as int,
                log::last_index(log_after_append(p, log, req)) as int,
            ),
        ) as u64
    } else {
        v.commit_index
    }
}

/// The volatile state after a leader's request that was handled at `now`.
pub open spec fn after_append_at(
    p: PersistentState,
    v: VolatileState,
    log: Seq<Entry>,
    req: Append,
    now: Instant,
) -> VolatileState {
    if req.term < p.current_term {
        v
    } else {
        VolatileState {
            role: Role::Follower,
            commit_index: commit_after_append(p, v, log, req),
            last_applied: v.last_applied,
            last_heartbeat: now,
        }
    }
}

/// How far back a leader should jump after a rejection: to the last entry
/// this log has, but in any case below the position that did not agree.
pub open spec fn conflict(log: Seq<Entry>, req: Append) -> u64 {
    let below = if req.prev_log_index == 0 {
        0
    } else {
        req.prev_log_index - 1
    };
    vstd::math::min(log::last_index(log) as int, below) as u64
}

/// The answer to a leader's request.
pub open spec fn append_reply(
    p: PersistentState,
    log: Seq<Entry>,
    req: Append,
) -> AppendEntriesResponse {
    if req.term < p.current_term {
        AppendEntriesResponse { term: p.current_term, success: false, conflict_index: None }
    } else if !accepts(p, log, req) {
        AppendEntriesResponse {
            term: req.term,
            success: false,
            conflict_index: Some(conflict(log, req)),
        }
    } else {
        AppendEntriesResponse { term: req.term, success: true, conflict_index: None }
    }
}

/// Answers a leader's request. The same message serves as a heartbeat when it
/// carries no entries.
pub fn handle_append_entries(
    persistent: &mut PersistentState,
    volatile: &mut VolatileState,
    log: &mut Log,
    req: &AppendEntriesRequest,
) -> (r: AppendEntriesResponse)
    ensures
        *final(persistent) == after_append(*old(persistent), req@),
        exists|now: Instant|
            *final(volatile) == #[trigger] after_append_at(
                *old(persistent),
                *old(volatile),
                old(log)@,
                req@,
                now,
            ),
        final(log)@ == log_after_append(*old(persistent), old(log)@, req@),
        r == append_reply(*old(persistent), old(log)@, req@),
{
    handle_append_entries_at(persistent, volatile, log, req, now())
}

/// [`handle_append_entries`] at a given point in time.
pub fn handle_append_entries_at(
    persistent: &mut PersistentState,
    volatile: &mut VolatileState,
    log: &mut Log,
    req: &AppendEntriesRequest,
    now: Instant,
) -> (r: AppendEntriesResponse)
    ensures
        *final(persistent) == after_append(*old(persistent), req@),
        *final(volatile) == after_append_at(
            *old(persistent),
            *old(volatile),
            old(log)@,
            req@,
            now,
        ),
        final(log)@ == log_after_append(*old(persistent), old(log)@, req@),
        r == append_reply(*old(persistent), old(log)@, req@),
{
    // A stale leader is told the newer term so that it steps down.
    if req.term < persistent.current_term {
        return AppendEntriesResponse {
            term: persistent.current_term,
            success: false,
            conflict_index: None,
        };
    }
    if req.term > persistent.current_term {
        persistent.current_term = req.term;
        persistent.voted_for = None;
    }
    volatile.role = Role::Follower;
    volatile.last_heartbeat = now;

    if !log.matches(req.prev_log_index, req.prev_log_term) {
        let last = log.last_index();
        let below = req.prev_log_index.saturating_sub(1);
        let conflict_index = if last < below {
            last
        } else {
            below
        };
        return AppendEntriesResponse {
            term: persistent.current_term,
            success: false,
            conflict_index: Some(conflict_index),
        };
    }
    let shared = count_in_place(log, req);
    proof {
        lemma_in_place(log@, req@);
        let prev = req.prev_log_index as int;
        assert(log::prefix(log@, prev + shared) =~= log@.take(prev + shared));
    }
    if shared < req.entries.len() {
        log.keep_and_append(req.prev_log_index + shared as u64, rest_of(&req.entries, shared));
    }
    let last = log.last_index();
    let safe = if req.leader_commit < last {
        req.leader_commit
    } else {
        last
    };
    if safe > volatile.commit_index {
        volatile.commit_index = safe;
    }
    AppendEntriesResponse { term: persistent.current_term, success: true, conflict_index: None }
}

/// How many of the leader's entries are already in place.
pub(crate) fn count_in_place(log: &Log, req: &AppendEntriesRequest) -> (r: usize)
    ensures
        r == in_place(log@, req.prev_log_index as int, req@.entries),
        r <= req.entries.len(),
        req.prev_log_index <= log@.len() ==> req.prev_log_index + r <= u64::MAX,
{
    let ghost prev = req.prev_log_index as int;
    let ghost entries = req@.entries;
    let mut count: usize = 0;
    assert(entries.skip(0) =~= entries);
    while count < req.entries.len() && log.extends_past_by(req.prev_log_index, count) && log.holds(
        req.prev_log_index + count as u64 + 1,
        &req.entries[count],
    )
        invariant
            entries == req@.entries,
            prev == req.prev_log_index,
            count <= req.entries.len(),
            prev <= log@.len() ==> prev + count <= log@.len(),
            prev <= log@.len() ==> prev + count <= u64::MAX,
            in_place(log@, prev, entries) == count + in_place(
                log@,
                prev + count,
                entries.skip(count as int),
            ),
        decreases req.entries.len() - count,
    {
        assert(entries.skip(count as int)[0] == entries[count as int]);
        assert(entries.skip(count as int).drop_first() =~= entries.skip(count + 1));
        count = count + 1;
    }
    proof {
        let left = entries.skip(count as int);
        if count < req.entries.len() {
            assert(left[0] == entries[count as int]);
        }
    }
    count
}

/// The entries from position `start` on.
fn rest_of(entries: &Vec<LogEntry>, start: usize) -> (r: Vec<LogEntry>)
    requires
        start <= entries.len(),
    ensures
        log::contents(r@) == log::contents(entries@).skip(start as int),
{
    let mut rest: Vec<LogEntry> = Vec::new();
    for i in start..entries.len()
        invariant
            rest.len() == i - start,
            forall|j: int| 0 <= j < i - start ==> (#[trigger] rest@[j])@ == entries@[start + j]@,
    {
        rest.push(entries[i].clone());
    }
    assert(log::contents(rest@) =~= log::contents(entries@).skip(start as int));
    rest
}

/// What is in place stays, and the rest comes behind it.
pub proof fn lemma_in_place(log: Seq<Entry>, req: Append)
    requires
        req.prev_log_index <= log.len(),
    ensures
        ({
            let prev = req.prev_log_index as int;
            let shared = in_place(log, prev, req.entries);
            &&& shared <= req.entries.len()
            &&& prev + shared <= log.len()
            &&& (shared == req.entries.len()) == log::begins(log, merged(log, req))
            &&& log.take(prev + shared) + req.entries.skip(shared as int) == merged(log, req)
            &&& shared < req.entries.len() && prev + shared < log.len() ==> log[prev + shared]
                != req.entries[shared as int]
        }),
{
    let prev = req.prev_log_index as int;
    let shared = in_place(log, prev, req.entries);
    lemma_in_place_run(log, prev, req.entries);
    let whole = merged(log, req);
    assert(log.take(prev + shared) + req.entries.skip(shared as int) =~= whole);
    if shared == req.entries.len() {
        assert(log.take(whole.len() as int) =~= whole);
    } else if log::begins(log, whole) {
        assert(log.take(whole.len() as int)[prev + shared] == log[prev + shared]);
        assert(whole[prev + shared] == req.entries[shared as int]);
    }
}

proof fn lemma_in_place_run(log: Seq<Entry>, prev: int, entries: Seq<Entry>)
    requires
        0 <= prev <= log.len(),
    ensures
        ({
            let shared = in_place(log, prev, entries);
            &&& shared <= entries.len()
            &&& prev + shared <= log.len()
            &&& forall|i: int| 0 <= i < shared ==> log[prev + i] == #[trigger] entries[i]
            &&& shared < entries.len() && prev + shared < log.len() ==> log[prev + shared]
                != entries[shared as int]
        }),
    decreases entries.len(),
{
    if entries.len() > 0 && prev < log.len() && log[prev] == entries[0] {
        let others = entries.drop_first();
        lemma_in_place_run(log, prev + 1, others);
        let shared = in_place(log, prev, entries);
        assert forall|i: int| 0 <= i < shared implies log[prev + i] == #[trigger] entries[i] by {
            if i > 0 {
                assert(others[i - 1] == entries[i]);
            }
        }
    }
}

/// What the leader sends a follower whose next index is `next`.
pub open spec fn request_for(
    p: PersistentState,
    log: Seq<Entry>,
    leader_id: NodeId,
    next: u64,
    commit_index: u64,
) -> Append {
    let prev = if next == 0 {
        0u64
    } else {
        (next - 1) as u64
    };
    Append {
        term: p.current_term,
        leader_id,
        prev_log_index: prev,
        prev_log_term: match log::term_at(log, prev) {
            Some(term) => term,
            None => 0,
        },
        entries: log::entries_after(log, prev),
        leader_commit: commit_index,
    }
}

/// Builds the request for one follower from that follower's next index.
pub fn build_append_entries(
    persistent: &PersistentState,
    log: &Log,
    leader_id: NodeId,
    follower_next_index: u64,
    commit_index: u64,
) -> (r: AppendEntriesRequest)
    ensures
        r@ == request_for(*persistent, log@, leader_id, follower_next_index, commit_index),
{
    let prev_log_index = follower_next_index.saturating_sub(1);
    let prev_log_term = match log.term_at(prev_log_index) {
        Some(term) => term,
        None => 0,
    };
    AppendEntriesRequest {
        term: persistent.current_term,
        leader_id,
        prev_log_index,
        prev_log_term,
        entries: log.entries_after(prev_log_index),
        leader_commit: commit_index,
    }
}

/// Where the leader backs up to after a rejection: what the follower asked
/// for, or else one entry.
pub open spec fn retreat(sent_prev_log_index: u64, response: AppendEntriesResponse) -> int {
    match response.conflict_index {
        Some(index) => index as int,
        None => if sent_prev_log_index == 0 {
            0
        } else {
            sent_prev_log_index - 1
        },
    }
}

/// Updates what the leader knows of a follower from that follower's answer.
pub fn handle_append_entries_response(
    leader_state: &mut LeaderState,
    follower_id: NodeId,
    sent_prev_log_index: u64,
    sent_entries_count: u64,
    response: &AppendEntriesResponse,
)
    requires
        response.success ==> sent_prev_log_index + sent_entries_count < u64::MAX,
        !response.success ==> retreat(sent_prev_log_index, *response) < u64::MAX,
    ensures
        response.success ==> {
            let matched = (sent_prev_log_index + sent_entries_count) as u64;
            &&& final(leader_state).match_index@ == old(leader_state).match_index@.insert(
                follower_id,
                matched,
            )
            &&& final(leader_state).next_index@ == old(leader_state).next_index@.insert(
                follower_id,
                (matched + 1) as u64,
            )
        },
        !response.success ==> {
            &&& final(leader_state).match_index@ == old(leader_state).match_index@
            &&& final(leader_state).next_index@ == old(leader_state).next_index@.insert(
                follower_id,
                (retreat(sent_prev_log_index, *response) + 1) as u64,
            )
        },
{
    if response.success {
        let new_match_index: u64 = sent_prev_log_index + sent_entries_count;
        leader_state.match_index.insert(follower_id, new_match_index);
        leader_state.next_index.insert(follower_id, new_match_index + 1);
    } else {
        let retreat_to: u64 = match response.conflict_index {
            Some(index) => index,
            None => sent_prev_log_index.saturating_sub(1),
        };
        leader_state.next_index.insert(follower_id, retreat_to + 1);
    }
}

/// The followers known to hold the log up to index `n`.
pub open spec fn holders(match_index: Map<NodeId, u64>, n: u64) -> Set<NodeId> {
    match_index.dom().filter(|id: NodeId| match_index[id] >= n)
}

/// How many nodes hold the log up to `n`, the leader included.
pub open spec fn replicas(match_index: Map<NodeId, u64>, self_match_index: u64, n: u64) -> nat {
    holders(match_index, n).len() + if self_match_index >= n {
        1nat
    } else {
        0nat
    }
}

/// Some node, the leader included, is known to have reached exactly `n`.
pub open spec fn reached(match_index: Map<NodeId, u64>, self_match_index: u64, n: u64) -> bool {
    n == self_match_index || exists|id: NodeId| #[trigger]
        match_index.contains_key(id) && match_index[id] == n
}

/// The leader may commit up to `n`: a node has reached it, a majority holds
/// it, and the entry there is from the leader's own term.
pub open spec fn committable(
    match_index: Map<NodeId, u64>,
    log: Seq<Entry>,
    current_term: Term,
    cluster_size: usize,
    self_match_index: u64,
    n: u64,
) -> bool {
    &&& n != 0
    &&& reached(match_index, self_match_index, n)
    &&& log::term_at(log, n) == Some(current_term)
    &&& replicas(match_index, self_match_index, n) >= cluster_size as int / 2 + 1
}

/// `r` is the highest index the leader may commit, `None` if there is none.
pub open spec fn is_commit_point(
    match_index: Map<NodeId, u64>,
    log: Seq<Entry>,
    current_term: Term,
    cluster_size: usize,
    self_match_index: u64,
    r: Option<u64>,
) -> bool {
    match r {
        Some(n) => {
            &&& committable(match_index, log, current_term, cluster_size, self_match_index, n)
            &&& forall|m: u64| #[trigger]
                committable(match_index, log, current_term, cluster_size, self_match_index, m)
                    ==> m <= n
        },
        None => forall|m: u64|
            !#[trigger] committable(
                match_index,
                log,
                current_term,
                cluster_size,
                self_match_index,
                m,
            ),
    }
}

/// The highest index the leader may commit, `None` if there is none.
pub open spec fn commit_point(
    match_index: Map<NodeId, u64>,
    log: Seq<Entry>,
    current_term: Term,
    cluster_size: usize,
    self_match_index: u64,
) -> Option<u64> {
    choose|r: Option<u64>|
        is_commit_point(match_index, log, current_term, cluster_size, self_match_index, r)
}

/// There is only one highest index.
pub proof fn commit_point_is_unique(
    match_index: Map<NodeId, u64>,
    log: Seq<Entry>,
    current_term: Term,
    cluster_size: usize,
    self_match_index: u64,
    r: Option<u64>,
)
    requires
        is_commit_point(match_index, log, current_term, cluster_size, self_match_index, r),
    ensures
        r == commit_point(match_index, log, current_term, cluster_size, self_match_index),
{
    let other = commit_point(match_index, log, current_term, cluster_size, self_match_index);
    assert(is_commit_point(
        match_index,
        log,
        current_term,
        cluster_size,
        self_match_index,
        other,
    ));
}

/// There always is a highest index the leader may commit, or none at all.
pub proof fn there_is_a_commit_point(
    match_index: Map<NodeId, u64>,
    log: Seq<Entry>,
    current_term: Term,
    cluster_size: usize,
    self_match_index: u64,
)
    ensures
        is_commit_point(
            match_index,
            log,
            current_term,
            cluster_size,
            self_match_index,
            commit_point(match_index, log, current_term, cluster_size, self_match_index),
        ),
{
    let fit = |m: u64|
        committable(match_index, log, current_term, cluster_size, self_match_index, m);
    let r = lemma_highest(fit, u64::MAX);
    assert(is_commit_point(match_index, log, current_term, cluster_size, self_match_index, r)) by {
        assert forall|m: u64| #[trigger]
            committable(
                match_index,
                log,
                current_term,
                cluster_size,
                self_match_index,
                m,
            ) implies r is Some && m <= r->0 by {
            assert(fit(m));
        }
    }
}

proof fn lemma_highest(fit: spec_fn(u64) -> bool, bound: u64) -> (r: Option<u64>)
    ensures
        r matches Some(n) ==> fit(n),
        forall|m: u64| m <= bound && #[trigger] fit(m) ==> r is Some && m <= r->0,
    decreases bound,
{
    if fit(bound) {
        Some(bound)
    } else if bound == 0 {
        None
    } else {
        lemma_highest(fit, (bound - 1) as u64)
    }
}

/// The keys of a map, each once, in no particular order.
fn key_list(map: &HashMap<NodeId, u64>) -> (r: Vec<NodeId>)
    ensures
        r@.no_duplicates(),
        r@.to_set() == map@.dom(),
{
    let mut ids: Vec<NodeId> = Vec::new();
    let keys = map.keys();
    let ghost listed = vstd::std_specs::iter::IteratorSpec::remaining(&keys).unref();
    for id in it: keys
        invariant
            it.seq().unref() == listed,
            ids@ == listed.take(it.index()),
    {
        ids.push(*id);
    }
    assert(listed.take(listed.len() as int) =~= listed);
    ids
}

proof fn lemma_holders_step(
    match_index: Map<NodeId, u64>,
    ids: Seq<NodeId>,
    i: int,
    n: u64,
)
    requires
        ids.no_duplicates(),
        0 <= i < ids.len(),
    ensures
        ({
            let large = |id: NodeId| match_index[id] >= n;
            let before = ids.take(i).to_set().filter(large);
            let after = ids.take(i + 1).to_set().filter(large);
            after.len() == before.len() + if large(ids[i]) {
                1nat
            } else {
                0nat
            }
        }),
{
    let large = |id: NodeId| match_index[id] >= n;
    let before = ids.take(i).to_set().filter(large);
    let after = ids.take(i + 1).to_set().filter(large);
    assert(ids.take(i + 1) =~= ids.take(i).push(ids[i]));
    assert(ids.take(i + 1).to_set() =~= ids.take(i).to_set().insert(ids[i])) by {
        assert forall|id: NodeId| ids.take(i).to_set().insert(ids[i]).contains(
            id,
        ) implies ids.take(i + 1).to_set().contains(id) by {
            if id == ids[i] {
                assert(ids.take(i + 1)[i] == id);
            } else {
                let k = choose|k: int| 0 <= k < i && ids.take(i)[k] == id;
                assert(ids.take(i + 1)[k] == id);
            }
        }
    }
    assert(!ids.take(i).contains(ids[i]));
    if large(ids[i]) {
        assert(after =~= before.insert(ids[i]));
    } else {
        assert(after =~= before);
    }
}

/// How many of the followers `ids` hold the log up to `n`.
fn count_holders(match_index: &HashMap<NodeId, u64>, ids: &Vec<NodeId>, n: u64) -> (r: usize)
    requires
        ids@.no_duplicates(),
        ids@.to_set() == match_index@.dom(),
    ensures
        r == holders(match_index@, n).len(),
{
    let mut count: usize = 0;
    let ghost large = |id: NodeId| match_index@[id] >= n;
    assert(ids@.take(0).to_set().filter(large) =~= Set::empty());
    for i in 0..ids.len()
        invariant
            ids@.no_duplicates(),
            ids@.to_set() == match_index@.dom(),
            large == (|id: NodeId| match_index@[id] >= n),
            count <= i,
            count == ids@.take(i as int).to_set().filter(large).len(),
    {
        let id = ids[i];
        assert(ids@.contains(id));
        proof {
            lemma_holders_step(match_index@, ids@, i as int, n);
        }
        if let Some(matched) = match_index.get(&id) {
            if *matched >= n {
                count = count + 1;
            }
        }
    }
    assert(ids@.take(ids@.len() as int) =~= ids@);
    count
}

/// The highest index the leader may commit now. Only an entry of the leader's
/// own term can be committed this way: one from an earlier term, even if a
/// majority holds it, could still be overwritten by a later leader. Earlier
/// entries follow when an entry on top of them commits.
pub fn advance_commit_index(
    leader_state: &LeaderState,
    log: &Log,
    current_term: Term,
    cluster_size: usize,
    self_match_index: u64,
) -> (r: Option<u64>)
    ensures
        is_commit_point(
            leader_state.match_index@,
            log@,
            current_term,
            cluster_size,
            self_match_index,
            r,
        ),
        r == commit_point(
            leader_state.match_index@,
            log@,
            current_term,
            cluster_size,
            self_match_index,
        ),
{
    let ids = key_list(&leader_state.match_index);
    let ghost matches = leader_state.match_index@;
    let ghost fit = |m: u64|
        committable(matches, log@, current_term, cluster_size, self_match_index, m);
    let mut best: Option<u64> = None;
    if may_commit(
        leader_state,
        &ids,
        log,
        current_term,
        cluster_size,
        self_match_index,
        self_match_index,
    ) {
        best = Some(self_match_index);
    }
    for i in 0..ids.len()
        invariant
            ids@.no_duplicates(),
            ids@.to_set() == matches.dom(),
            matches == leader_state.match_index@,
            fit == (|m: u64|
                committable(matches, log@, current_term, cluster_size, self_match_index, m)),
            best matches Some(n) ==> fit(n),
            fit(self_match_index) ==> best is Some && self_match_index <= best->0,
            forall|j: int|
                #![trigger ids@[j]]
                0 <= j < i && fit(matches[ids@[j]]) ==> best is Some && matches[ids@[j]] <= best->0,
    {
        let id = ids[i];
        assert(ids@.contains(id));
        if let Some(matched) = leader_state.match_index.get(&id) {
            let candidate = *matched;
            let larger = match best {
                Some(n) => candidate > n,
                None => true,
            };
            if larger && may_commit(
                leader_state,
                &ids,
                log,
                current_term,
                cluster_size,
                self_match_index,
                candidate,
            ) {
                best = Some(candidate);
            }
        }
    }
    proof {
        assert forall|m: u64| #[trigger]
            committable(
                matches,
                log@,
                current_term,
                cluster_size,
                self_match_index,
                m,
            ) implies best is Some && m <= best->0 by {
            assert(fit(m));
            if m != self_match_index {
                let id = choose|id: NodeId| #[trigger]
                    matches.contains_key(id) && matches[id] == m;
                assert(ids@.to_set().contains(id));
                let j = choose|j: int| 0 <= j < ids@.len() && ids@[j] == id;
                assert(fit(matches[ids@[j]]));
            }
        }
        commit_point_is_unique(
            matches,
            log@,
            current_term,
            cluster_size,
            self_match_index,
            best,
        );
    }
    best
}

/// Whether the leader may commit up to `candidate`.
fn may_commit(
    leader_state: &LeaderState,
    ids: &Vec<NodeId>,
    log: &Log,
    current_term: Term,
    cluster_size: usize,
    self_match_index: u64,
    candidate: u64,
) -> (r: bool)
    requires
        ids@.no_duplicates(),
        ids@.to_set() == leader_state.match_index@.dom(),
        reached(leader_state.match_index@, self_match_index, candidate),
    ensures
        r == committable(
            leader_state.match_index@,
            log@,
            current_term,
            cluster_size,
            self_match_index,
            candidate,
        ),
{
    if candidate == 0 {
        return false;
    }
    let own_term = match log.term_at(candidate) {
        Some(term) => term == current_term,
        None => false,
    };
    if !own_term {
        return false;
    }
    let count = count_holders(&leader_state.match_index, ids, candidate);
    if self_match_index >= candidate {
        count >= cluster_size / 2
    } else {
        count >= cluster_size / 2 + 1
    }
}

/// A leader's request never takes back a vote.
pub proof fn appends_keep_votes(p: PersistentState, req: Append)
    ensures
        election::keeps_votes(p, after_append(p, req)),
{
}

/// What is committed stays: a request whose entries agree with the log up to
/// the commit index, however late it comes and however often, replaces nothing
/// up to there, and the commit index does not go back.
pub proof fn committed_entries_survive(
    p: PersistentState,
    v: VolatileState,
    log: Seq<Entry>,
    req: Append,
    now: Instant,
)
    requires
        v.commit_index <= log.len(),
        forall|k: int|
            0 <= k < req.entries.len() && req.prev_log_index + k < v.commit_index ==> (
            #[trigger] req.entries[k]) == log[req.prev_log_index + k],
    ensures
        log::begins(log_after_append(p, log, req), log.take(v.commit_index as int)),
        after_append_at(p, v, log, req, now).commit_index >= v.commit_index,
{
    let after = log_after_append(p, log, req);
    let k = v.commit_index as int;
    if after != log {
        let prev = req.prev_log_index as int;
        lemma_in_place(log, req);
        lemma_in_place_run(log, prev, req.entries);
        let shared = in_place(log, prev, req.entries);
        if prev + shared < k {
            assert(req.entries[shared as int] == log[prev + shared]);
        }
        assert(after.take(k) =~= log.take(k));
    } else {
        assert(after.take(k) =~= log.take(k));
    }
}

/// Two logs that agree on the term at a position agree on everything up to
/// it.
pub open spec fn matching(a: Seq<Entry>, b: Seq<Entry>) -> bool {
    forall|i: int|
        0 <= i < a.len() && i < b.len() && (#[trigger] a[i]).term == (#[trigger] b[i]).term
            ==> a.take(i + 1) == b.take(i + 1)
}

/// A follower that accepts a request has the leader's whole log as the
/// beginning of its own, and no more if it had to replace anything.
pub proof fn accepting_copies_the_leader(
    leader: PersistentState,
    leader_log: Seq<Entry>,
    leader_id: NodeId,
    next: u64,
    commit_index: u64,
    follower: PersistentState,
    follower_log: Seq<Entry>,
)
    requires
        log::numbered(leader_log),
        matching(follower_log, leader_log),
        next <= leader_log.len() + 1,
        accepts(
            follower,
            follower_log,
            request_for(leader, leader_log, leader_id, next, commit_index),
        ),
    ensures
        ({
            let req = request_for(leader, leader_log, leader_id, next, commit_index);
            let after = log_after_append(follower, follower_log, req);
            &&& log::begins(after, leader_log)
            &&& after == follower_log || after == leader_log
            &&& matching(after, leader_log)
        }),
{
    let req = request_for(leader, leader_log, leader_id, next, commit_index);
    let prev = req.prev_log_index;
    let after = log_after_append(follower, follower_log, req);
    assert(merged(follower_log, req) == leader_log) by {
        log::entries_after_is_the_tail(leader_log, prev);
        assert(follower_log.take(prev as int) == leader_log.take(prev as int)) by {
            if prev == 0 {
                assert(follower_log.take(0) =~= leader_log.take(0));
            } else {
                assert(follower_log[prev - 1].term == leader_log[prev - 1].term);
            }
        }
        assert(leader_log.take(prev as int) + leader_log.skip(prev as int) =~= leader_log);
    }
    assert(leader_log.take(leader_log.len() as int) =~= leader_log);
    assert(matching(leader_log, leader_log));
}

/// A rejection moves the follower's next index strictly back, and what it
/// moves to is at most one past the follower's last entry. At the very start
/// of the log nothing is rejected any more, so a leader that keeps asking
/// gets through.
pub proof fn rejections_make_progress(
    leader: PersistentState,
    leader_log: Seq<Entry>,
    leader_id: NodeId,
    next: u64,
    commit_index: u64,
    follower: PersistentState,
    follower_log: Seq<Entry>,
)
    requires
        follower.current_term <= leader.current_term,
        next >= 1,
    ensures
        ({
            let req = request_for(leader, leader_log, leader_id, next, commit_index);
            let reply = append_reply(follower, follower_log, req);
            &&& !reply.success ==> {
                let again = retreat(req.prev_log_index, reply) + 1;
                1 <= again < next && again <= log::last_index(follower_log) + 1
            }
            &&& next == 1 ==> reply.success
        }),
{
}

/// A rejection never sends the leader back below what both logs share: in
/// particular not below the follower's committed entries, as long as the
/// leader has them all.
pub proof fn rejections_stop_at_shared_entries(
    leader: PersistentState,
    leader_log: Seq<Entry>,
    leader_id: NodeId,
    next: u64,
    commit_index: u64,
    follower: PersistentState,
    follower_log: Seq<Entry>,
    shared: u64,
)
    requires
        log::numbered(leader_log),
        log::numbered(follower_log),
        shared <= follower_log.len(),
        shared <= leader_log.len(),
        follower_log.take(shared as int) == leader_log.take(shared as int),
        shared < next <= leader_log.len() + 1,
        follower.current_term <= leader.current_term,
    ensures
        ({
            let req = request_for(leader, leader_log, leader_id, next, commit_index);
            let reply = append_reply(follower, follower_log, req);
            !reply.success ==> retreat(req.prev_log_index, reply) >= shared
        }),
{
    let req = request_for(leader, leader_log, leader_id, next, commit_index);
    let prev = req.prev_log_index;
    if follower_log.len() > 0 {
        assert(follower_log[follower_log.len() - 1].index == follower_log.len());
    }
    assert(log::last_index(follower_log) == follower_log.len());
    if prev == shared && shared > 0 {
        assert(follower_log.take(shared as int)[shared - 1] == follower_log[shared - 1]);
        assert(leader_log.take(shared as int)[shared - 1] == leader_log[shared - 1]);
        assert(log::agrees(follower_log, prev, req.prev_log_term));
    }
    if prev > shared {
        assert(conflict(follower_log, req) >= shared);
    }
}

/// A leader's request is accepted whenever its term is not stale and the log
/// has an entry of the named term at the position before the new ones, or there
/// is nothing before them. The follower then holds the leader's entries at
/// their positions, behind what both had in common.
pub proof fn agreeing_requests_are_accepted(p: PersistentState, log: Seq<Entry>, req: Append)
    requires
        req.term >= p.current_term,
        req.prev_log_index == 0 || (req.prev_log_index <= log.len() && log[req.prev_log_index
            - 1].term == req.prev_log_term),
    ensures
        append_reply(p, log, req) == (AppendEntriesResponse {
            term: req.term,
            success: true,
            conflict_index: None,
        }),
        ({
            let prev = req.prev_log_index as int;
            let after = log_after_append(p, log, req);
            &&& after.len() >= prev + req.entries.len()
            &&& after.take(prev) == log.take(prev)
            &&& after.subrange(prev, prev + req.entries.len()) == req.entries
        }),
{
    let prev = req.prev_log_index as int;
    let after = log_after_append(p, log, req);
    let whole = merged(log, req);
    lemma_in_place(log, req);
    assert(after.take(whole.len() as int) =~= whole);
    assert(after.take(prev) =~= log.take(prev)) by {
        assert(after.take(whole.len() as int).take(prev) =~= after.take(prev));
        assert(whole.take(prev) =~= log.take(prev));
    }
    assert(after.subrange(prev, prev + req.entries.len()) =~= req.entries) by {
        assert(after.take(whole.len() as int).skip(prev) =~= after.subrange(
            prev,
            prev + req.entries.len(),
        ));
        assert(whole.skip(prev) =~= req.entries);
    }
}

/// What a follower has behind the leader's entries stays exactly if it had all
/// of them already: such a request, a heartbeat above all, changes nothing of
/// its log. If one of them is missing or different, nothing stays behind them.
pub proof fn only_differing_entries_cut_the_log(p: PersistentState, log: Seq<Entry>, req: Append)
    requires
        req.term >= p.current_term,
        req.prev_log_index == 0 || (req.prev_log_index <= log.len() && log[req.prev_log_index
            - 1].term == req.prev_log_term),
    ensures
        ({
            let prev = req.prev_log_index as int;
            let end = prev + req.entries.len();
            let after = log_after_append(p, log, req);
            let has_all = end <= log.len() && forall|k: int|
                0 <= k < req.entries.len() ==> log[prev + k] == #[trigger] req.entries[k];
            &&& has_all ==> after == log
            &&& !has_all ==> after.len() == end
            &&& req.entries.len() == 0 ==> after == log
        }),
{
    let prev = req.prev_log_index as int;
    let end = prev + req.entries.len();
    let whole = merged(log, req);
    let has_all = end <= log.len() && forall|k: int|
        0 <= k < req.entries.len() ==> log[prev + k] == #[trigger] req.entries[k];
    if has_all {
        assert(log.take(end) =~= whole) by {
            assert forall|i: int| 0 <= i < end implies log.take(end)[i] == whole[i] by {
                if i >= prev {
                    assert(log[prev + (i - prev)] == req.entries[i - prev]);
                }
            }
        }
    } else if log::begins(log, whole) {
        assert forall|k: int| 0 <= k < req.entries.len() implies log[prev + k]
            == #[trigger] req.entries[k] by {
            assert(log.take(end)[prev + k] == whole[prev + k]);
        }
    }
}

/// A request of a stale leader changes nothing and is answered with the newer
/// term.
pub proof fn stale_requests_change_nothing(
    p: PersistentState,
    v: VolatileState,
    log: Seq<Entry>,
    req: Append,
    now: Instant,
)
    requires
        req.term < p.current_term,
    ensures
        append_reply(p, log, req) == (AppendEntriesResponse {
            term: p.current_term,
            success: false,
            conflict_index: None,
        }),
        after_append(p, req) == p,
        after_append_at(p, v, log, req, now) == v,
        log_after_append(p, log, req) == log,
{
}

/// A request that does not fit the log is refused and changes neither the log
/// nor what is committed. The reply points at the last position that the leader
/// may still try: the end of the log, or the position before the one that did
/// not fit, whichever comes first.
pub proof fn gaps_and_conflicts_are_refused(
    p: PersistentState,
    v: VolatileState,
    log: Seq<Entry>,
    req: Append,
    now: Instant,
)
    requires
        req.term >= p.current_term,
        req.prev_log_index > 0,
        req.prev_log_index > log.len() || log[req.prev_log_index - 1].term != req.prev_log_term,
    ensures
        ({
            let reply = append_reply(p, log, req);
            let last = if log.len() == 0 {
                0
            } else {
                log.last().index
            };
            &&& !reply.success
            &&& reply.term == req.term
            &&& reply.conflict_index matches Some(at) && {
                &&& at <= last
                &&& at < req.prev_log_index
                &&& at == last || at == req.prev_log_index - 1
            }
        }),
        log_after_append(p, log, req) == log,
        after_append_at(p, v, log, req, now).commit_index == v.commit_index,
{
}

/// Whoever hears from a leader of its own term or a newer one follows it: it
/// takes over the term, gives up any other role and waits anew. A vote of the
/// same term is not touched, and one of an older term is history. Nothing is
/// applied yet.
pub proof fn nodes_follow_a_leader_they_hear(
    p: PersistentState,
    v: VolatileState,
    log: Seq<Entry>,
    req: Append,
    now: Instant,
)
    requires
        req.term >= p.current_term,
    ensures
        after_append(p, req).current_term == req.term,
        req.term == p.current_term ==> after_append(p, req).voted_for == p.voted_for,
        req.term > p.current_term ==> after_append(p, req).voted_for is None,
        after_append_at(p, v, log, req, now).role == Role::Follower,
        after_append_at(p, v, log, req, now).last_heartbeat == now,
        after_append_at(p, v, log, req, now).last_applied == v.last_applied,
{
}

/// What the leader says is committed and the follower holds is committed on the
/// follower. It commits no more than that, and takes nothing back.
pub proof fn followers_commit_what_their_leader_did(
    p: PersistentState,
    v: VolatileState,
    log: Seq<Entry>,
    req: Append,
    now: Instant,
    n: u64,
)
    requires
        req.term >= p.current_term,
        req.prev_log_index == 0 || (req.prev_log_index <= log.len() && log[req.prev_log_index
            - 1].term == req.prev_log_term),
    ensures
        ({
            let after = log_after_append(p, log, req);
            let commit = after_append_at(p, v, log, req, now).commit_index;
            let last = if after.len() == 0 {
                0
            } else {
                after.last().index
            };
            &&& n <= req.leader_commit && n <= last ==> n <= commit
            &&& commit >= v.commit_index
            &&& commit > v.commit_index ==> commit <= req.leader_commit && commit <= last
        }),
{
}

/// A request says who sends it, in which term and what is committed. It starts
/// right behind the position before the follower's next index, names the term
/// of the entry there, and carries everything from there on.
pub proof fn requests_carry_what_is_missing(
    p: PersistentState,
    log: Seq<Entry>,
    leader_id: NodeId,
    next: u64,
    commit_index: u64,
)
    requires
        log::numbered(log),
        1 <= next <= log.len() + 1,
    ensures
        ({
            let req = request_for(p, log, leader_id, next, commit_index);
            &&& req.term == p.current_term
            &&& req.leader_id == leader_id
            &&& req.leader_commit == commit_index
            &&& req.prev_log_index == next - 1
            &&& next > 1 ==> req.prev_log_term == log[next - 2].term
            &&& next == 1 ==> req.prev_log_term == 0
            &&& req.entries == log.subrange(next - 1, log.len() as int)
        }),
{
    let prev = (next - 1) as u64;
    log::entries_after_is_the_tail(log, prev);
    assert(log.skip(prev as int) =~= log.subrange(prev as int, log.len() as int));
}

/// Whatever the next index is and however the entries are numbered, a request of
/// a leader says who sends it, in which term and what is committed, and carries
/// the entries past the position before; past the end of a numbered log there
/// is nothing to send.
pub proof fn requests_past_the_end_are_heartbeats(
    p: PersistentState,
    log: Seq<Entry>,
    leader_id: NodeId,
    next: u64,
    commit_index: u64,
)
    ensures
        ({
            let req = request_for(p, log, leader_id, next, commit_index);
            &&& req.term == p.current_term
            &&& req.leader_id == leader_id
            &&& req.leader_commit == commit_index
            &&& req.prev_log_index == if next == 0 {
                0
            } else {
                next - 1
            }
            &&& req.entries == log::entries_after(log, req.prev_log_index)
            &&& 1 < next <= log.len() + 1 ==> req.prev_log_term == log[next - 2].term
            &&& next <= 1 || next > log.len() + 1 ==> req.prev_log_term == 0
            &&& log::numbered(log) && next > log.len() ==> req.entries.len() == 0
        }),
{
    if log::numbered(log) && next > log.len() {
        log::nothing_after_the_end(log, (next - 1) as u64);
    }
}

/// After a rejection a leader goes back to where the follower says, and one
/// position if it does not say.
pub proof fn leaders_go_back_where_they_are_told(
    sent_prev_log_index: u64,
    response: AppendEntriesResponse,
)
    ensures
        response.conflict_index matches Some(at) ==> retreat(sent_prev_log_index, response) == at,
        response.conflict_index is None && sent_prev_log_index > 0 ==> retreat(
            sent_prev_log_index,
            response,
        ) == sent_prev_log_index - 1,
        response.conflict_index is None && sent_prev_log_index == 0 ==> retreat(
            sent_prev_log_index,
            response,
        ) == 0,
{
}

/// A leader commits whatever a majority is known to have reached: with more
/// than half of the cluster at `n` or beyond, itself counted, one of them at
/// `n`, and an entry of its own term there, it commits up to `n` at least.
pub proof fn majorities_commit(
    match_index: Map<NodeId, u64>,
    log: Seq<Entry>,
    current_term: Term,
    cluster_size: usize,
    self_match_index: u64,
    n: u64,
    who: Set<NodeId>,
)
    requires
        match_index.dom().finite(),
        1 <= n <= log.len(),
        log[n - 1].term == current_term,
        who.subset_of(match_index.dom()),
        forall|id: NodeId| #[trigger] who.contains(id) ==> match_index[id] >= n,
        self_match_index == n || exists|id: NodeId| #[trigger]
            match_index.contains_key(id) && match_index[id] == n,
        2 * (who.len() + if self_match_index >= n {
            1int
        } else {
            0int
        }) > cluster_size,
    ensures
        commit_point(match_index, log, current_term, cluster_size, self_match_index) matches Some(
            c,
        ) && c >= n,
{
    there_is_a_commit_point(match_index, log, current_term, cluster_size, self_match_index);
    let all = holders(match_index, n);
    assert(who.subset_of(all));
    vstd::set_lib::lemma_len_subset(who, all);
    assert(committable(match_index, log, current_term, cluster_size, self_match_index, n));
}

/// A leader commits nothing else: where it commits up to, there is an entry of
/// its own term, and more than half of the cluster is known to be there or
/// beyond, itself counted.
pub proof fn commits_have_a_majority(
    match_index: Map<NodeId, u64>,
    log: Seq<Entry>,
    current_term: Term,
    cluster_size: usize,
    self_match_index: u64,
)
    requires
        match_index.dom().finite(),
    ensures
        commit_point(match_index, log, current_term, cluster_size, self_match_index) matches Some(
            c,
        ) ==> {
            &&& 1 <= c <= log.len()
            &&& log[c - 1].term == current_term
            &&& exists|who: Set<NodeId>|
                {
                    &&& who.subset_of(match_index.dom())
                    &&& forall|id: NodeId| #[trigger] who.contains(id) ==> match_index[id] >= c
                    &&& 2 * (#[trigger] who.len() + if self_match_index >= c {
                        1int
                    } else {
                        0int
                    }) > cluster_size
                }
        },
{
    there_is_a_commit_point(match_index, log, current_term, cluster_size, self_match_index);
    if let Some(c) = commit_point(
        match_index,
        log,
        current_term,
        cluster_size,
        self_match_index,
    ) {
        let who = holders(match_index, c);
        assert(committable(match_index, log, current_term, cluster_size, self_match_index, c));
        assert(who.subset_of(match_index.dom()));
        assert(2 * (who.len() + if self_match_index >= c {
            1int
        } else {
            0int
        }) > cluster_size);
    }
}

} // verus!
