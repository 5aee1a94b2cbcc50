//! What a client believes about who the leader is.
use std::collections::HashMap;
use vstd::prelude::*;

use crate::config;
use crate::state::NodeId;

verus! {

/// The nodes a client can ask, and its best guess at the leader among them.
#[derive(Debug)]
pub struct LeaderTracker {
    /// The address of each node's HTTP API, such as "127.0.0.1:8000".
    nodes: HashMap<NodeId, String>,
    current_guess: Option<NodeId>,
}

/// The content of a [`LeaderTracker`].
pub struct Belief {
    pub nodes: Map<NodeId, Seq<char>>,
    pub guess: Option<NodeId>,
}

impl View for LeaderTracker {
    type V = Belief;

    closed spec fn view(&self) -> Belief {
        Belief { nodes: config::addresses(self.nodes@), guess: self.current_guess }
    }
}

/// A node and its address.
pub type Contact = (NodeId, Seq<char>);

/// The contents of a list of nodes with their addresses.
pub open spec fn contacts(items: Seq<(NodeId, String)>) -> Seq<Contact> {
    Seq::new(items.len(), |i: int| (items[i].0, items[i].1@))
}

impl Belief {
    /// The node to ask first: the guess, if it is a node of the cluster.
    pub open spec fn favourite(self) -> Option<Contact> {
        match self.guess {
            Some(id) => if self.nodes.contains_key(id) {
                Some((id, self.nodes[id]))
            } else {
                None
            },
            None => None,
        }
    }

    /// `order` lists every node but `exclude` once, lowest id first.
    pub open spec fn is_fallback(self, exclude: Option<NodeId>, order: Seq<Contact>) -> bool {
        &&& forall|i: int, j: int| 0 <= i < j < order.len() ==> order[i].0 < order[j].0
        &&& forall|i: int|
            0 <= i < order.len() ==> {
                &&& self.nodes.contains_key((#[trigger] order[i]).0)
                &&& self.nodes[order[i].0] == order[i].1
                &&& Some(order[i].0) != exclude
            }
        &&& forall|id: NodeId| #[trigger]
            self.nodes.contains_key(id) && Some(id) != exclude ==> lists_node(order, id)
    }
}

/// A node is somewhere in a list.
pub open spec fn lists_node(order: Seq<Contact>, id: NodeId) -> bool {
    exists|i: int| 0 <= i < order.len() && (#[trigger] order[i]).0 == id
}

impl LeaderTracker {
    pub fn new(nodes: HashMap<NodeId, String>) -> (r: Self)
        ensures
            r@ == (Belief { nodes: config::addresses(nodes@), guess: None }),
    {
        LeaderTracker { nodes, current_guess: None }
    }

    /// The node to try first, if there is a guess.
    pub fn best_guess(&self) -> (r: Option<(NodeId, String)>)
        ensures
            match r {
                Some((id, addr)) => self@.favourite() == Some((id, addr@)),
                None => self@.favourite() is None,
            },
    {
        match self.current_guess {
            Some(id) => match self.nodes.get(&id) {
                Some(addr) => Some((id, addr.clone())),
                None => None,
            },
            None => None,
        }
    }

    /// Every node but the one just tried, lowest id first.
    pub fn fallback_order(&self, exclude: Option<NodeId>) -> (r: Vec<(NodeId, String)>)
        ensures
            self@.is_fallback(exclude, contacts(r@)),
    {
        let ids = self.sorted_ids();
        let mut order: Vec<(NodeId, String)> = Vec::new();
        for i in 0..ids.len()
            invariant
                sorted(ids@),
                ids@.to_set() == self.nodes@.dom(),
                forall|a: int, b: int| 0 <= a < b < order.len() ==> order@[a].0 < order@[b].0,
                forall|a: int|
                    0 <= a < order.len() ==> {
                        &&& exists|j: int| 0 <= j < i && ids@[j] == (#[trigger] order@[a]).0
                        &&& self@.nodes.contains_key(order@[a].0)
                        &&& self@.nodes[order@[a].0] == order@[a].1@
                        &&& Some(order@[a].0) != exclude
                    },
                forall|j: int|
                    0 <= j < i && Some(#[trigger] ids@[j]) != exclude ==> lists_node(
                        contacts(order@),
                        ids@[j],
                    ),
        {
            let id = ids[i];
            let skipped = match exclude {
                Some(other) => other == id,
                None => false,
            };
            assert(ids@.contains(id));
            let ghost before = order@;
            if !skipped {
                if let Some(addr) = self.nodes.get(&id) {
                    order.push((id, addr.clone()));
                }
                proof {
                    assert(contacts(order@)[before.len() as int].0 == id);
                    assert(lists_node(contacts(order@), id));
                    assert forall|j: int| 0 <= j < i && Some(
                        #[trigger] ids@[j],
                    ) != exclude implies lists_node(contacts(order@), ids@[j]) by {
                        let a = choose|a: int|
                            0 <= a < contacts(before).len() && (#[trigger] contacts(before)[a]).0
                                == ids@[j];
                        assert(contacts(order@)[a].0 == ids@[j]);
                    }
                }
            }
        }
        proof {
            assert forall|id: NodeId| #[trigger]
                self@.nodes.contains_key(id) && Some(id) != exclude implies lists_node(
                contacts(order@),
                id,
            ) by {
                assert(ids@.to_set().contains(id));
                let j = choose|j: int| 0 <= j < ids@.len() && ids@[j] == id;
                assert(ids@[j] == id);
            }
        }
        order
    }

    /// All node ids, lowest first.
    fn sorted_ids(&self) -> (r: Vec<NodeId>)
        ensures
            sorted(r@),
            r@.to_set() == self.nodes@.dom(),
    {
        let mut ids: Vec<NodeId> = Vec::new();
        let keys = self.nodes.keys();
        let ghost listed = vstd::std_specs::iter::IteratorSpec::remaining(&keys).unref();
        assert(ids@.to_set() =~= listed.take(0).to_set());
        for id in it: keys
            invariant
                it.seq().unref() == listed,
                listed.no_duplicates(),
                sorted(ids@),
                ids@.to_set() == listed.take(it.index()).to_set(),
        {
            let ghost seen = listed.take(it.index());
            proof {
                assert(listed.take(it.index() + 1) =~= seen.push(*id));
                seen.lemma_push_to_set_commute(*id);
                assert(!seen.contains(*id));
                assert(!ids@.to_set().contains(*id));
            }
            insert_sorted(&mut ids, *id);
        }
        assert(listed.take(listed.len() as int) =~= listed);
        ids
    }

    /// A node has answered as the leader.
    pub fn record_confirmed_leader(&mut self, id: NodeId)
        ensures
            final(self)@ == (Belief { guess: Some(id), ..old(self)@ }),
    {
        self.current_guess = Some(id);
    }

    /// A node has said that it is not the leader. A hint at a node of the
    /// cluster becomes the new guess; without one, or with a hint at a
    /// stranger, there is no guess any more.
    pub fn record_not_leader(&mut self, hint: Option<NodeId>)
        ensures
            final(self)@ == (Belief {
                guess: match hint {
                    Some(id) => if old(self)@.nodes.contains_key(id) {
                        Some(id)
                    } else {
                        None
                    },
                    None => None,
                },
                ..old(self)@
            }),
    {
        self.current_guess = match hint {
            Some(id) => if self.nodes.contains_key(&id) {
                Some(id)
            } else {
                None
            },
            None => None,
        };
    }

    pub fn node_count(&self) -> (r: usize)
        ensures
            r == self@.nodes.len(),
    {
        assert(self@.nodes.dom() =~= self.nodes@.dom());
        self.nodes.len()
    }
}

/// Each number is larger than the ones before it.
pub open spec fn sorted(s: Seq<NodeId>) -> bool {
    forall|i: int, j: int| 0 <= i < j < s.len() ==> s[i] < s[j]
}

/// Puts a number where it belongs.
pub(crate) fn insert_sorted(ids: &mut Vec<NodeId>, id: NodeId)
    requires
        sorted(old(ids)@),
        !old(ids)@.to_set().contains(id),
    ensures
        sorted(final(ids)@),
        final(ids)@.to_set() == old(ids)@.to_set().insert(id),
{
    let mut at: usize = ids.len();
    while at > 0 && ids[at - 1] > id
        invariant
            ids@ == old(ids)@,
            sorted(ids@),
            at <= ids.len(),
            forall|j: int| at <= j < ids.len() ==> ids@[j] > id,
        decreases at,
    {
        at = at - 1;
    }
    proof {
        if at > 0 {
            assert(ids@.to_set().contains(ids@[at - 1]));
        }
    }
    ids.insert(at, id);
    proof {
        let before = old(ids)@;
        let after = ids@;
        assert forall|x: NodeId| before.to_set().insert(id).contains(x) implies after.to_set().contains(
            x,
        ) by {
            if x == id {
                assert(after[at as int] == x);
            } else {
                let k = choose|k: int| 0 <= k < before.len() && before[k] == x;
                if k < at {
                    assert(after[k] == x);
                } else {
                    assert(after[k + 1] == x);
                }
            }
        }
        assert forall|x: NodeId| after.to_set().contains(x) implies before.to_set().insert(
            id,
        ).contains(x) by {
            let k = choose|k: int| 0 <= k < after.len() && after[k] == x;
            if k < at {
                assert(before[k] == x);
            } else if k > at {
                assert(before[k - 1] == x);
            }
        }
        assert(after.to_set() =~= before.to_set().insert(id));
    }
}

/// There is only one order to fall back on.
pub proof fn fallback_is_unique(
    belief: Belief,
    exclude: Option<NodeId>,
    a: Seq<Contact>,
    b: Seq<Contact>,
)
    requires
        belief.is_fallback(exclude, a),
        belief.is_fallback(exclude, b),
    ensures
        a == b,
{
    lemma_fallback_prefix(belief, exclude, a, b, a.len() as int);
    lemma_fallback_prefix(belief, exclude, b, a, b.len() as int);
    assert(a =~= b);
}

proof fn lemma_fallback_prefix(
    belief: Belief,
    exclude: Option<NodeId>,
    a: Seq<Contact>,
    b: Seq<Contact>,
    k: int,
)
    requires
        belief.is_fallback(exclude, a),
        belief.is_fallback(exclude, b),
        0 <= k <= a.len(),
    ensures
        k <= b.len(),
        forall|i: int| 0 <= i < k ==> a[i] == b[i],
    decreases k,
{
    if k > 0 {
        lemma_fallback_prefix(belief, exclude, a, b, k - 1);
        let id = a[k - 1].0;
        assert(belief.nodes.contains_key(id));
        assert(lists_node(b, id));
        let j = choose|j: int| 0 <= j < b.len() && (#[trigger] b[j]).0 == id;
        if j < k - 1 {
            assert(a[j].0 == id);
        }
        if j > k - 1 {
            let other = b[k - 1].0;
            assert(belief.nodes.contains_key(other));
            assert(lists_node(a, other));
            let m = choose|m: int| 0 <= m < a.len() && (#[trigger] a[m]).0 == other;
            if m < k - 1 {
                assert(b[m].0 == other);
            }
        }
    }
}

/// Whoever is believed to lead is asked first, at its address, if it is a node
/// of the cluster; without such a belief nobody is.
pub proof fn guesses_are_asked_first(nodes: Map<NodeId, Seq<char>>, id: NodeId)
    ensures
        nodes.contains_key(id) ==> (Belief { nodes, guess: Some(id) }).favourite() == Some(
            (id, nodes[id]),
        ),
        !nodes.contains_key(id) ==> (Belief { nodes, guess: Some(id) }).favourite() is None,
        (Belief { nodes, guess: None }).favourite() is None,
{
}

/// Without a belief to go by, the whole cluster is gone through from the lowest
/// id up: whoever is not left out comes exactly once, with its address, after
/// everyone whose id is lower.
pub proof fn fallbacks_go_up_by_id(
    belief: Belief,
    exclude: Option<NodeId>,
    order: Seq<Contact>,
    id: NodeId,
) -> (at: int)
    requires
        belief.is_fallback(exclude, order),
        belief.nodes.contains_key(id),
        exclude != Some(id),
    ensures
        0 <= at < order.len(),
        order[at] == (id, belief.nodes[id]),
        forall|i: int| 0 <= i < at ==> (#[trigger] order[i]).0 < id,
        forall|i: int| at < i < order.len() ==> (#[trigger] order[i]).0 > id,
{
    assert(lists_node(order, id));
    choose|i: int| 0 <= i < order.len() && (#[trigger] order[i]).0 == id
}

/// Nobody who was left out, and no stranger, is on the way.
pub proof fn fallbacks_leave_out_whom_they_should(
    belief: Belief,
    exclude: Option<NodeId>,
    order: Seq<Contact>,
    i: int,
)
    requires
        belief.is_fallback(exclude, order),
        0 <= i < order.len(),
    ensures
        belief.nodes.contains_key(order[i].0),
        order[i].1 == belief.nodes[order[i].0],
        exclude != Some(order[i].0),
{
}

/// A list of nodes stands for all of them, each with its own address.
pub proof fn lists_stand_for_all_contacts(items: Seq<(NodeId, String)>, i: int)
    requires
        0 <= i < items.len(),
    ensures
        contacts(items).len() == items.len(),
        contacts(items)[i].0 == items[i].0,
        contacts(items)[i].1 == items[i].1@,
{
}

} // verus!
