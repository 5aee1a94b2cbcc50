//! Finding the leader: a client asks one node after the other until one of
//! them answers as the leader, and learns from what the others say.
use std::collections::HashMap;
use vstd::prelude::*;
use vstd::string::StringExecFns;

use crate::config;
use crate::leader_tracking::{self, Belief, Contact, LeaderTracker};
use crate::metrics_api::{GetResponse, WriteResponse};
use crate::state::NodeId;

verus! {

#[derive(Debug, Clone, Copy, PartialEq, Eq, Structural)]
pub enum ClientError {
    /// The whole cluster was tried, and nobody answered as the leader.
    NoLeaderReachable,
}

impl ClientError {
    pub fn message(&self) -> (r: String)
        ensures
            r@ == "no reachable node responded as leader after trying the whole cluster"@,
    {
        "no reachable node responded as leader after trying the whole cluster".to_owned()
    }
}

/// A client of a cluster.
#[derive(Debug)]
pub struct QuorumClient {
    tracker: LeaderTracker,
}

impl View for QuorumClient {
    type V = Belief;

    closed spec fn view(&self) -> Belief {
        self.tracker@
    }
}

/// One request on its way through the cluster.
#[derive(Debug)]
pub struct Search {
    order: Vec<(NodeId, String)>,
    asked: usize,
}

/// The content of a [`Search`].
pub struct Itinerary {
    pub order: Seq<Contact>,
    /// How many nodes have been asked.
    pub asked: int,
}

impl View for Search {
    type V = Itinerary;

    closed spec fn view(&self) -> Itinerary {
        Itinerary { order: leader_tracking::contacts(self.order@), asked: self.asked as int }
    }
}

impl Itinerary {
    pub open spec fn unfinished(self) -> bool {
        0 <= self.asked < self.order.len()
    }

    /// The node to ask now.
    pub open spec fn current(self) -> Option<Contact> {
        if self.unfinished() {
            Some(self.order[self.asked])
        } else {
            None
        }
    }

    /// One more node has been asked.
    pub open spec fn onward(self) -> Itinerary {
        Itinerary { asked: self.asked + 1, ..self }
    }

    /// The node that was named as the leader comes next, if it is one that has
    /// not been asked yet.
    pub open spec fn toward(self, hint: Option<NodeId>) -> Itinerary {
        match hint {
            Some(id) => {
                let k = position(self.order, self.asked, id);
                if k < self.order.len() {
                    Itinerary {
                        order: self.order.remove(k).insert(self.asked, self.order[k]),
                        ..self
                    }
                } else {
                    self
                }
            },
            None => self,
        }
    }

    /// What is left to ask after a node has answered: nothing changes if it is
    /// the leader, otherwise the node that it names comes next.
    pub open spec fn answered(self, is_leader: bool, hint: Option<NodeId>) -> Itinerary {
        if is_leader {
            self.onward()
        } else {
            self.onward().toward(hint)
        }
    }
}

/// Where a node comes in the order from `from` on; the end if it does not.
pub open spec fn position(order: Seq<Contact>, from: int, id: NodeId) -> int
    decreases order.len() - from,
{
    if from >= order.len() {
        order.len() as int
    } else if order[from].0 == id {
        from
    } else {
        position(order, from + 1, id)
    }
}

/// The order in which a client asks: its best guess first, then every other
/// node, lowest id first.
pub open spec fn is_plan(belief: Belief, order: Seq<Contact>) -> bool {
    match belief.favourite() {
        Some(first) => {
            &&& order.len() > 0
            &&& order[0] == first
            &&& belief.is_fallback(Some(first.0), order.skip(1))
        },
        None => belief.is_fallback(None, order),
    }
}

/// What a client believes after a node has answered.
pub open spec fn learned(
    belief: Belief,
    node: NodeId,
    is_leader: bool,
    hint: Option<NodeId>,
) -> Belief {
    Belief {
        guess: if is_leader {
            Some(node)
        } else {
            match hint {
                Some(id) => if belief.nodes.contains_key(id) {
                    Some(id)
                } else {
                    None
                },
                None => None,
            }
        },
        ..belief
    }
}

/// What a client takes from the answer to a read.
pub open spec fn found(reply: GetResponse) -> Option<Option<String>> {
    if reply.is_leader {
        Some(reply.value)
    } else {
        None
    }
}

/// What a client takes from the answer to a write.
pub open spec fn took(reply: WriteResponse) -> bool {
    reply.is_leader
}

/// Where a key lives on a node.
pub open spec fn url(addr: Seq<char>, key: Seq<char>) -> Seq<char> {
    "http://"@ + addr + "/kv/"@ + key
}

/// The address of a key on a node.
pub fn url_for(addr: &str, key: &str) -> (r: String)
    ensures
        r@ == url(addr@, key@),
{
    let mut text = "http://".to_owned();
    text.append(addr);
    text.append("/kv/");
    text.append(key);
    text
}

impl QuorumClient {
    /// `nodes` holds the address of each node's HTTP API.
    pub fn new(nodes: HashMap<NodeId, String>) -> (r: Self)
        ensures
            r@ == (Belief { nodes: config::addresses(nodes@), guess: None }),
    {
        QuorumClient { tracker: LeaderTracker::new(nodes) }
    }

    /// The best guess first, if there is one, then every other node.
    pub fn candidate_order(&self) -> (r: Vec<(NodeId, String)>)
        ensures
            is_plan(self@, leader_tracking::contacts(r@)),
    {
        match self.tracker.best_guess() {
            Some((id, addr)) => {
                let mut rest = self.tracker.fallback_order(Some(id));
                let ghost others = leader_tracking::contacts(rest@);
                let mut order: Vec<(NodeId, String)> = Vec::new();
                order.push((id, addr));
                order.append(&mut rest);
                assert(leader_tracking::contacts(order@).skip(1) =~= others);
                order
            },
            None => self.tracker.fallback_order(None),
        }
    }

    /// Starts a request.
    pub fn search(&self) -> (r: Search)
        ensures
            is_plan(self@, r@.order),
            r@.asked == 0,
    {
        Search { order: self.candidate_order(), asked: 0 }
    }

    /// Takes the answer of the node that was just asked to a read; `None` if
    /// it could not be reached or made no sense. Gives the value if that node
    /// is the leader.
    pub fn take_get_reply(&mut self, search: &mut Search, reply: Option<GetResponse>) -> (r: Option<
        Option<String>,
    >)
        requires
            old(search)@.unfinished(),
        ensures
            match reply {
                None => {
                    &&& r is None
                    &&& final(self)@ == old(self)@
                    &&& final(search)@ == old(search)@.onward()
                },
                Some(body) => {
                    &&& final(search)@ == old(search)@.answered(body.is_leader, body.leader_hint)
                    &&& r == found(body)
                    &&& r == (if body.is_leader {
                        Some(body.value)
                    } else {
                        None
                    })
                    &&& final(self)@ == learned(
                        old(self)@,
                        old(search)@.order[old(search)@.asked].0,
                        body.is_leader,
                        body.leader_hint,
                    )
                },
            },
    {
        let node_id = search.order[search.asked].0;
        let total = search.order.len();
        assert(search.asked < total);
        search.asked = search.asked + 1;
        match reply {
            None => None,
            Some(body) => {
                self.learn(node_id, body.is_leader, body.leader_hint);
                if body.is_leader {
                    Some(body.value)
                } else {
                    search.redirect(body.leader_hint);
                    None
                }
            },
        }
    }

    /// Takes the answer of the node that was just asked to a write or a
    /// delete. True if that node is the leader and took it.
    pub fn take_write_reply(&mut self, search: &mut Search, reply: Option<WriteResponse>) -> (r:
        bool)
        requires
            old(search)@.unfinished(),
        ensures
            match reply {
                None => {
                    &&& !r
                    &&& final(self)@ == old(self)@
                    &&& final(search)@ == old(search)@.onward()
                },
                Some(body) => {
                    &&& final(search)@ == old(search)@.answered(body.is_leader, body.leader_hint)
                    &&& r == took(body)
                    &&& r == body.is_leader
                    &&& final(self)@ == learned(
                        old(self)@,
                        old(search)@.order[old(search)@.asked].0,
                        body.is_leader,
                        body.leader_hint,
                    )
                },
            },
    {
        let node_id = search.order[search.asked].0;
        let total = search.order.len();
        assert(search.asked < total);
        search.asked = search.asked + 1;
        match reply {
            None => false,
            Some(body) => {
                self.learn(node_id, body.is_leader, body.leader_hint);
                if !body.is_leader {
                    search.redirect(body.leader_hint);
                }
                body.is_leader
            },
        }
    }

    fn learn(&mut self, node_id: NodeId, is_leader: bool, hint: Option<NodeId>)
        ensures
            final(self)@ == learned(old(self)@, node_id, is_leader, hint),
    {
        if is_leader {
            self.tracker.record_confirmed_leader(node_id);
        } else {
            self.tracker.record_not_leader(hint);
        }
    }
}

impl Search {
    /// The node to ask now.
    pub fn next(&self) -> (r: Result<(NodeId, String), ClientError>)
        ensures
            match r {
                Ok((id, addr)) => self@.unfinished() && self@.order[self@.asked] == (id, addr@),
                Err(ClientError::NoLeaderReachable) => !self@.unfinished(),
            },
            match r {
                Ok((id, addr)) => self@.current() == Some((id, addr@)),
                Err(_) => self@.current() is None,
            },
    {
        if self.asked < self.order.len() {
            let (id, addr) = &self.order[self.asked];
            Ok((*id, addr.clone()))
        } else {
            Err(ClientError::NoLeaderReachable)
        }
    }

    /// Asks the node that was named as the leader next.
    fn redirect(&mut self, hint: Option<NodeId>)
        ensures
            final(self)@ == old(self)@.toward(hint),
    {
        let id = match hint {
            Some(id) => id,
            None => {
                return;
            },
        };
        let ghost order = self@.order;
        let mut k = self.asked;
        if k >= self.order.len() {
            return;
        }
        while k < self.order.len() && self.order[k].0 != id
            invariant
                order == leader_tracking::contacts(self.order@),
                self.asked <= k <= self.order.len(),
                position(order, self.asked as int, id) == position(order, k as int, id),
            decreases self.order.len() - k,
        {
            k = k + 1;
        }
        if k < self.order.len() {
            let found = self.order.remove(k);
            self.order.insert(self.asked, found);
            assert(leader_tracking::contacts(self.order@) =~= order.remove(k as int).insert(
                self.asked as int,
                order[k as int],
            ));
        }
    }
}

/// A client asks every node of the cluster before it gives up, and none of
/// them twice.
pub proof fn plans_cover_the_cluster(belief: Belief, order: Seq<Contact>)
    requires
        is_plan(belief, order),
    ensures
        forall|id: NodeId| #[trigger]
            belief.nodes.contains_key(id) ==> leader_tracking::lists_node(order, id),
        forall|i: int|
            0 <= i < order.len() ==> belief.nodes.contains_key((#[trigger] order[i]).0)
                && belief.nodes[order[i].0] == order[i].1,
        forall|i: int, j: int| 0 <= i < j < order.len() ==> order[i].0 != order[j].0,
{
    if let Some(first) = belief.favourite() {
        let rest = order.skip(1);
        assert forall|i: int| 0 <= i < order.len() implies belief.nodes.contains_key(
            (#[trigger] order[i]).0,
        ) && belief.nodes[order[i].0] == order[i].1 by {
            if i > 0 {
                assert(rest[i - 1] == order[i]);
            }
        }
        assert forall|i: int, j: int| 0 <= i < j < order.len() implies order[i].0
            != order[j].0 by {
            assert(rest[j - 1] == order[j]);
            if i > 0 {
                assert(rest[i - 1] == order[i]);
            }
        }
        assert forall|id: NodeId| #[trigger]
            belief.nodes.contains_key(id) implies leader_tracking::lists_node(order, id) by {
            if id == first.0 {
                assert(order[0].0 == id);
            } else {
                assert(leader_tracking::lists_node(rest, id));
                let k = choose|k: int| 0 <= k < rest.len() && (#[trigger] rest[k]).0 == id;
                assert(order[k + 1].0 == id);
            }
        }
    }
}

/// A leader that was found is asked first the next time.
pub proof fn leaders_are_remembered(
    belief: Belief,
    node: NodeId,
    hint: Option<NodeId>,
    order: Seq<Contact>,
)
    requires
        belief.nodes.contains_key(node),
        is_plan(learned(belief, node, true, hint), order),
    ensures
        order[0] == (node, belief.nodes[node]),
{
}

/// A hint at a node of the cluster is followed; a hint at a stranger is not
/// believed, and the next request goes through the cluster without a guess.
pub proof fn only_known_nodes_are_believed(belief: Belief, node: NodeId, hint: NodeId)
    ensures
        ({
            let after = learned(belief, node, false, Some(hint));
            if belief.nodes.contains_key(hint) {
                after.favourite() == Some((hint, belief.nodes[hint]))
            } else {
                after.favourite() is None
            }
        }),
{
}

/// Where a node comes in the order, if it does.
proof fn lemma_position(order: Seq<Contact>, from: int, id: NodeId)
    requires
        0 <= from,
    ensures
        ({
            let k = position(order, from, id);
            &&& from <= order.len() ==> from <= k <= order.len()
            &&& from <= k < order.len() ==> order[k].0 == id
            &&& forall|i: int| from <= i < k && i < order.len() ==> (#[trigger] order[i]).0 != id
        }),
    decreases order.len() - from,
{
    if from < order.len() && order[from].0 != id {
        lemma_position(order, from + 1, id);
    }
}

/// Following a hint changes only the order of what is left: whoever was asked
/// stays asked, every node is still asked once, and none twice.
pub proof fn detours_cover_the_cluster(trip: Itinerary, hint: Option<NodeId>)
    requires
        0 <= trip.asked <= trip.order.len(),
        forall|i: int, j: int|
            0 <= i < j < trip.order.len() ==> trip.order[i].0 != trip.order[j].0,
    ensures
        ({
            let new = trip.toward(hint);
            &&& new.asked == trip.asked
            &&& new.order.len() == trip.order.len()
            &&& new.order.take(trip.asked) == trip.order.take(trip.asked)
            &&& forall|i: int|
                0 <= i < new.order.len() ==> trip.order.contains(#[trigger] new.order[i])
            &&& forall|i: int|
                0 <= i < trip.order.len() ==> new.order.contains(#[trigger] trip.order[i])
            &&& forall|i: int, j: int|
                0 <= i < j < new.order.len() ==> new.order[i].0 != new.order[j].0
        }),
{
    let new = trip.toward(hint);
    if let Some(id) = hint {
        let k = position(trip.order, trip.asked, id);
        lemma_position(trip.order, trip.asked, id);
        if k < trip.order.len() {
            assert forall|i: int| 0 <= i < new.order.len() implies trip.order.contains(
                #[trigger] new.order[i],
            ) by {
                assert(new.order[i] == trip.order[came_from(trip.asked, k, i)]);
            }
            assert forall|i: int| 0 <= i < trip.order.len() implies new.order.contains(
                #[trigger] trip.order[i],
            ) by {
                let now = if i == k {
                    trip.asked
                } else if trip.asked <= i < k {
                    i + 1
                } else {
                    i
                };
                assert(new.order[now] == trip.order[i]);
            }
            assert forall|i: int, j: int| 0 <= i < j < new.order.len() implies new.order[i].0
                != new.order[j].0 by {
                let a = came_from(trip.asked, k, i);
                let b = came_from(trip.asked, k, j);
                assert(new.order[i] == trip.order[a]);
                assert(new.order[j] == trip.order[b]);
                if a < b {
                    assert(trip.order[a].0 != trip.order[b].0);
                } else {
                    assert(trip.order[b].0 != trip.order[a].0);
                }
            }
        }
    }
    assert(new.order.take(trip.asked) =~= trip.order.take(trip.asked));
    if new.order == trip.order {
        assert forall|i: int| 0 <= i < new.order.len() implies trip.order.contains(
            #[trigger] new.order[i],
        ) by {
            assert(trip.order[i] == new.order[i]);
        }
    }
}

/// Where position `i` of the order was before the node at `k` was moved to
/// `asked`.
spec fn came_from(asked: int, k: int, i: int) -> int {
    if i == asked {
        k
    } else if asked < i <= k {
        i - 1
    } else {
        i
    }
}

/// A wrong guess costs one question: if the node that was asked first is not
/// the leader but knows who is, the leader is asked next.
pub proof fn wrong_guesses_cost_one_question(
    belief: Belief,
    order: Seq<Contact>,
    leader: NodeId,
)
    requires
        is_plan(belief, order),
        belief.nodes.contains_key(leader),
        order[0].0 != leader,
    ensures
        ({
            let trip = (Itinerary { order, asked: 0 }).answered(false, Some(leader));
            &&& trip.asked == 1
            &&& trip.unfinished()
            &&& trip.order[trip.asked] == (leader, belief.nodes[leader])
        }),
{
    plans_cover_the_cluster(belief, order);
    assert(leader_tracking::lists_node(order, leader));
    let i = choose|i: int| 0 <= i < order.len() && (#[trigger] order[i]).0 == leader;
    lemma_position(order, 1, leader);
    let k = position(order, 1, leader);
    assert(k <= i);
    assert(order[k].0 == leader);
}

/// A named leader is asked next at every point of the search, as long as it has
/// not been asked yet.
pub proof fn named_leaders_are_asked_next(trip: Itinerary, leader: NodeId, at: int)
    requires
        trip.unfinished(),
        trip.asked < at < trip.order.len(),
        trip.order[at].0 == leader,
    ensures
        ({
            let next = trip.answered(false, Some(leader));
            next.unfinished() && next.order[next.asked].0 == leader
        }),
{
    lemma_position(trip.order, trip.asked + 1, leader);
}

/// A client believes whoever answers as the leader, and else whoever it is
/// pointed at, if that is a node of the cluster; pointed at nobody it believes
/// nothing. Whom it can ask does not change.
pub proof fn answers_settle_the_belief(
    belief: Belief,
    node: NodeId,
    hint: Option<NodeId>,
    named: NodeId,
)
    ensures
        learned(belief, node, true, hint) == (Belief { nodes: belief.nodes, guess: Some(node) }),
        learned(belief, node, false, None) == (Belief { nodes: belief.nodes, guess: None }),
        belief.nodes.contains_key(named) ==> learned(belief, node, false, Some(named)) == (Belief {
            nodes: belief.nodes,
            guess: Some(named),
        }),
        !belief.nodes.contains_key(named) ==> learned(belief, node, false, Some(named))
            == (Belief { nodes: belief.nodes, guess: None }),
{
}

/// A search goes on with the next node of the order, whatever the last one
/// said, and is over when there is none.
pub proof fn searches_go_on_in_order(trip: Itinerary, hint: Option<NodeId>)
    requires
        0 <= trip.asked < trip.order.len(),
    ensures
        trip.unfinished(),
        trip.onward() == (Itinerary { order: trip.order, asked: trip.asked + 1 }),
        trip.answered(true, hint) == trip.onward(),
        trip.answered(false, None) == trip.onward(),
        trip.answered(false, hint).asked == trip.asked + 1,
        trip.asked + 1 == trip.order.len() ==> !trip.onward().unfinished(),
{
}

/// A hint at a node that has been asked, or that is not in the order at all,
/// changes nothing.
pub proof fn useless_hints_change_nothing(trip: Itinerary, named: NodeId)
    requires
        0 <= trip.asked < trip.order.len(),
        forall|i: int| trip.asked < i < trip.order.len() ==> (#[trigger] trip.order[i]).0 != named,
    ensures
        trip.answered(false, Some(named)) == (Itinerary {
            order: trip.order,
            asked: trip.asked + 1,
        }),
{
    lemma_position(trip.order, trip.asked + 1, named);
}

/// A hint moves one node ahead and leaves the others in the order they were.
pub proof fn hints_move_one_node(trip: Itinerary, named: NodeId, at: int)
    requires
        0 <= trip.asked < at < trip.order.len(),
        trip.order[at].0 == named,
        forall|i: int| trip.asked < i < at ==> (#[trigger] trip.order[i]).0 != named,
    ensures
        ({
            let next = trip.answered(false, Some(named)).order;
            let from = trip.asked + 1;
            &&& next.take(from) == trip.order.take(from)
            &&& next[from] == trip.order[at]
            &&& next.subrange(from + 1, at + 1) == trip.order.subrange(from, at)
            &&& next.skip(at + 1) == trip.order.skip(at + 1)
        }),
{
    let next = trip.answered(false, Some(named)).order;
    let from = trip.asked + 1;
    lemma_position(trip.order, from, named);
    let k = position(trip.order, from, named);
    if k < at {
        assert(trip.order[k].0 == named);
    }
    assert(k == at);
    assert(next.take(from) =~= trip.order.take(from));
    assert(next.subrange(from + 1, at + 1) =~= trip.order.subrange(from, at));
    assert(next.skip(at + 1) =~= trip.order.skip(at + 1));
}

/// A guess that is a node of the cluster comes first, and the others follow from
/// the lowest id up.
pub proof fn plans_start_with_the_guess(
    nodes: Map<NodeId, Seq<char>>,
    guess: NodeId,
    order: Seq<Contact>,
)
    requires
        nodes.contains_key(guess),
        is_plan((Belief { nodes, guess: Some(guess) }), order),
    ensures
        order.len() > 0,
        order[0] == (guess, nodes[guess]),
        forall|i: int, j: int| 1 <= i < j < order.len() ==> order[i].0 < order[j].0,
{
    let rest = order.skip(1);
    assert forall|i: int, j: int| 1 <= i < j < order.len() implies order[i].0 < order[j].0 by {
        assert(rest[i - 1] == order[i]);
        assert(rest[j - 1] == order[j]);
    }
}

/// Without a guess, or with a stranger for one, a client goes through the whole
/// cluster from the lowest id up.
pub proof fn plans_without_a_guess_go_up_by_id(
    nodes: Map<NodeId, Seq<char>>,
    guess: Option<NodeId>,
    order: Seq<Contact>,
    id: NodeId,
) -> (at: int)
    requires
        nodes.contains_key(id),
        guess matches Some(stranger) ==> !nodes.contains_key(stranger),
        is_plan((Belief { nodes, guess }), order),
    ensures
        0 <= at < order.len(),
        order[at] == (id, nodes[id]),
        forall|i: int| 0 <= i < at ==> (#[trigger] order[i]).0 < id,
{
    leader_tracking::fallbacks_go_up_by_id((Belief { nodes, guess }), None, order, id)
}

/// A key is asked for under the path of the store, at the node's own address.
pub proof fn keys_live_under_their_node(addr: Seq<char>, key: Seq<char>)
    ensures
        url(addr, key).len() == "http://"@.len() + addr.len() + "/kv/"@.len() + key.len(),
        url(addr, key).take("http://"@.len() as int) == "http://"@,
        url(addr, key).subrange(
            "http://"@.len() as int,
            ("http://"@.len() + addr.len()) as int,
        ) == addr,
        url(addr, key).subrange(
            ("http://"@.len() + addr.len()) as int,
            ("http://"@.len() + addr.len() + "/kv/"@.len()) as int,
        ) == "/kv/"@,
        url(addr, key).skip(("http://"@.len() + addr.len() + "/kv/"@.len()) as int) == key,
{
    let whole = url(addr, key);
    let a = "http://"@.len() as int;
    let b = a + addr.len();
    let c = b + "/kv/"@.len();
    assert(whole.take(a) =~= "http://"@);
    assert(whole.subrange(a, b) =~= addr);
    assert(whole.subrange(b, c) =~= "/kv/"@);
    assert(whole.skip(c) =~= key);
}

/// Only the leader's answer counts: its value is what was asked for, or that
/// there is none, and what anyone else says is no answer.
pub proof fn only_leaders_are_listened_to(
    value: Option<String>,
    hint: Option<NodeId>,
    applied: bool,
)
    ensures
        found((GetResponse { is_leader: true, value, leader_hint: hint })) == Some(value),
        found((GetResponse { is_leader: false, value, leader_hint: hint })) is None,
        took((WriteResponse { is_leader: true, applied, leader_hint: hint })),
        !took((WriteResponse { is_leader: false, applied, leader_hint: hint })),
{
}

/// A client asks the nodes of its order one by one, the first first, and gives
/// up after the last.
pub proof fn searches_ask_one_by_one(order: Seq<Contact>, asked: int)
    requires
        0 <= asked <= order.len(),
    ensures
        asked < order.len() ==> (Itinerary { order, asked }).current() == Some(order[asked]),
        asked == order.len() ==> (Itinerary { order, asked }).current() is None,
{
}

} // verus!
