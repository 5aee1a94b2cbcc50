//! Static configuration of one node.
use std::collections::HashMap;
use vstd::prelude::*;

use crate::state::NodeId;
use crate::text::{self, parse_number, split, split_once};

verus! {

/// Who this node is, where it listens and who its peers are.
#[derive(Debug, Clone)]
pub struct NodeConfig {
    pub id: NodeId,
    pub listen_addr: String,
    pub metrics_addr: String,
    /// Every other node of the cluster, with its address.
    pub peers: HashMap<NodeId, String>,
    pub storage_dir: String,
}

/// The environment variables a node reads; `None` for one that is not set.
#[derive(Debug)]
pub struct Environment {
    /// QUORUM_NODE_ID=1
    pub node_id: Option<String>,
    /// QUORUM_LISTEN_ADDR=0.0.0.0:7000
    pub listen_addr: Option<String>,
    /// QUORUM_METRICS_ADDR=0.0.0.0:8000
    pub metrics_addr: Option<String>,
    /// QUORUM_PEERS=2=node2:7000,3=node3:7000
    pub peers: Option<String>,
    /// QUORUM_STORAGE_DIR=/data
    pub storage_dir: Option<String>,
}

/// Why the environment describes no node.
#[derive(Debug)]
pub enum ConfigError {
    NodeIdNotSet,
    /// The node id is not a number.
    BadNodeId(String),
    /// An entry in the list of peers has no equals sign.
    BadPeerEntry(String),
    /// The part of a peer before the equals sign is not a number.
    BadPeerId(String),
}

/// The content of a [`ConfigError`].
pub enum Problem {
    NodeIdNotSet,
    BadNodeId(Seq<char>),
    BadPeerEntry(Seq<char>),
    BadPeerId(Seq<char>),
}

impl View for ConfigError {
    type V = Problem;

    open spec fn view(&self) -> Problem {
        match self {
            ConfigError::NodeIdNotSet => Problem::NodeIdNotSet,
            ConfigError::BadNodeId(text) => Problem::BadNodeId(text@),
            ConfigError::BadPeerEntry(text) => Problem::BadPeerEntry(text@),
            ConfigError::BadPeerId(text) => Problem::BadPeerId(text@),
        }
    }
}

/// The addresses in a map, as texts.
pub open spec fn addresses(map: Map<NodeId, String>) -> Map<NodeId, Seq<char>> {
    map.map_values(|addr: String| addr@)
}

/// The peers after one more entry, `id=address`. Nothing between two commas
/// is no entry, and of two entries with one id the later counts.
pub open spec fn with_peer(peers: Map<NodeId, Seq<char>>, entry: Seq<char>) -> Result<
    Map<NodeId, Seq<char>>,
    Problem,
> {
    if entry.len() == 0 {
        Ok(peers)
    } else {
        match text::halves(entry, '=') {
            None => Err(Problem::BadPeerEntry(entry)),
            Some((id, addr)) => match text::number(id) {
                None => Err(Problem::BadPeerId(id)),
                Some(id) => Ok(peers.insert(id, addr)),
            },
        }
    }
}

/// The peers that some entries list; the first bad entry is reported.
pub open spec fn listed_peers(entries: Seq<Seq<char>>) -> Result<Map<NodeId, Seq<char>>, Problem>
    decreases entries.len(),
{
    if entries.len() == 0 {
        Ok(Map::empty())
    } else {
        match listed_peers(entries.drop_last()) {
            Err(problem) => Err(problem),
            Ok(peers) => with_peer(peers, entries.last()),
        }
    }
}

/// The value of a variable, or what stands in for it.
pub open spec fn value_or(value: Option<String>, fallback: Seq<char>) -> Seq<char> {
    match value {
        Some(text) => text@,
        None => fallback,
    }
}

/// The content of a [`NodeConfig`].
pub struct Settings {
    pub id: NodeId,
    pub listen_addr: Seq<char>,
    pub metrics_addr: Seq<char>,
    pub peers: Map<NodeId, Seq<char>>,
    pub storage_dir: Seq<char>,
}

impl View for NodeConfig {
    type V = Settings;

    open spec fn view(&self) -> Settings {
        Settings {
            id: self.id,
            listen_addr: self.listen_addr@,
            metrics_addr: self.metrics_addr@,
            peers: addresses(self.peers@),
            storage_dir: self.storage_dir@,
        }
    }
}

/// The settings that an environment describes, or what is wrong with it.
pub open spec fn described(env: Environment) -> Result<Settings, Problem> {
    match env.node_id {
        None => Err(Problem::NodeIdNotSet),
        Some(text) => match text::number(text@) {
            None => Err(Problem::BadNodeId(text@)),
            Some(id) => match listed_peers(text::pieces(value_or(env.peers, Seq::empty()), ',')) {
                Err(problem) => Err(problem),
                Ok(peers) => Ok(
                    Settings {
                        id,
                        listen_addr: value_or(env.listen_addr, "0.0.0.0:7000"@),
                        metrics_addr: value_or(env.metrics_addr, "0.0.0.0:8000"@),
                        peers,
                        storage_dir: value_or(env.storage_dir, "./data"@),
                    },
                ),
            },
        },
    }
}

impl NodeConfig {
    /// The peers can be counted together with this node.
    pub open spec fn countable(&self) -> bool {
        self.peers@.len() < usize::MAX
    }

    /// The number of nodes in the cluster, this one included.
    pub open spec fn size(&self) -> usize {
        (self.peers@.len() + 1) as usize
    }

    pub fn cluster_size(&self) -> (r: usize)
        requires
            self.countable(),
        ensures
            r == self.size(),
            r == self.peers@.len() + 1,
    {
        self.peers.len() + 1
    }

    /// The configuration an environment describes. Only the node's id has to
    /// be set.
    pub fn from_env(env: Environment) -> (r: Result<Self, ConfigError>)
        ensures
            match r {
                Ok(config) => described(env) == Ok::<Settings, Problem>(config@),
                Err(error) => described(env) == Err::<Settings, Problem>(error@),
            },
            match r {
                Ok(config) => {
                    &&& env.node_id matches Some(id) && text::number(id@) == Some(config.id)
                    &&& config.listen_addr@ == value_or(env.listen_addr, "0.0.0.0:7000"@)
                    &&& config.metrics_addr@ == value_or(env.metrics_addr, "0.0.0.0:8000"@)
                    &&& config.storage_dir@ == value_or(env.storage_dir, "./data"@)
                    &&& match env.peers {
                        Some(list) => listed_peers(text::pieces(list@, ',')) == Ok::<
                            Map<NodeId, Seq<char>>,
                            Problem,
                        >(addresses(config.peers@)),
                        None => addresses(config.peers@) == Map::<NodeId, Seq<char>>::empty(),
                    }
                },
                Err(error) => match env.node_id {
                    None => error@ == Problem::NodeIdNotSet,
                    Some(id) => match text::number(id@) {
                        None => error@ == Problem::BadNodeId(id@),
                        Some(_) => env.peers matches Some(list) && listed_peers(
                            text::pieces(list@, ','),
                        ) == Err::<Map<NodeId, Seq<char>>, Problem>(error@),
                    },
                },
            },
    {
        proof {
            no_list_names_nobody();
        }
        let id = match env.node_id {
            None => return Err(ConfigError::NodeIdNotSet),
            Some(text) => match parse_number(text.as_str()) {
                None => return Err(ConfigError::BadNodeId(text)),
                Some(id) => id,
            },
        };
        let listen_addr = or_default(env.listen_addr, "0.0.0.0:7000");
        let metrics_addr = or_default(env.metrics_addr, "0.0.0.0:8000");
        let storage_dir = or_default(env.storage_dir, "./data");
        let peers = match env.peers {
            None => HashMap::new(),
            Some(list) => match parse_peers(&list) {
                Err(error) => return Err(error),
                Ok(peers) => peers,
            },
        };
        assert(env.peers is None ==> addresses(peers@) =~= Map::<NodeId, Seq<char>>::empty());
        Ok(NodeConfig { id, listen_addr, metrics_addr, peers, storage_dir })
    }
}

fn or_default(value: Option<String>, fallback: &str) -> (r: String)
    ensures
        r@ == value_or(value, fallback@),
{
    match value {
        Some(text) => text,
        None => fallback.to_owned(),
    }
}

/// Reads a list of peers.
fn parse_peers(list: &String) -> (r: Result<HashMap<NodeId, String>, ConfigError>)
    ensures
        match r {
            Ok(peers) => listed_peers(text::pieces(list@, ',')) == Ok::<
                Map<NodeId, Seq<char>>,
                Problem,
            >(addresses(peers@)),
            Err(error) => listed_peers(text::pieces(list@, ',')) == Err::<
                Map<NodeId, Seq<char>>,
                Problem,
            >(error@),
        },
{
    let entries = split(list.as_str(), ',');
    let ghost all = text::texts(entries@);
    let mut peers: HashMap<NodeId, String> = HashMap::new();
    assert(addresses(peers@) =~= Map::<NodeId, Seq<char>>::empty());
    for i in 0..entries.len()
        invariant
            all == text::texts(entries@),
            all == text::pieces(list@, ','),
            listed_peers(all.take(i as int)) == Ok::<Map<NodeId, Seq<char>>, Problem>(
                addresses(peers@),
            ),
    {
        let entry = &entries[i];
        let ghost before = peers@;
        proof {
            assert(all.take(i + 1).drop_last() =~= all.take(i as int));
            assert(all.take(i + 1).last() == entry@);
        }
        if !entry.as_str().is_empty() {
            match split_once(entry.as_str(), '=') {
                None => {
                    proof {
                        lemma_first_error(all, i + 1);
                    }
                    return Err(ConfigError::BadPeerEntry(entry.clone()));
                },
                Some((id_text, addr)) => match parse_number(id_text.as_str()) {
                    None => {
                        proof {
                            lemma_first_error(all, i + 1);
                        }
                        return Err(ConfigError::BadPeerId(id_text));
                    },
                    Some(id) => {
                        peers.insert(id, addr);
                        assert(addresses(peers@) =~= addresses(before).insert(id, addr@));
                    },
                },
            }
        }
    }
    assert(all.take(all.len() as int) =~= all);
    Ok(peers)
}

/// What is wrong with some of the entries is wrong with all of them.
proof fn lemma_first_error(entries: Seq<Seq<char>>, k: int)
    requires
        0 <= k <= entries.len(),
        listed_peers(entries.take(k)) is Err,
    ensures
        listed_peers(entries) == listed_peers(entries.take(k)),
    decreases entries.len() - k,
{
    if k < entries.len() {
        assert(entries.take(k + 1).drop_last() =~= entries.take(k));
        lemma_first_error(entries, k + 1);
    } else {
        assert(entries.take(k) =~= entries);
    }
}

/// `entry` names a peer: an id in front of the first equals sign, and an
/// address behind it.
pub open spec fn names(entry: Seq<char>, id: NodeId, addr: Seq<char>) -> bool {
    exists|before: Seq<char>|
        {
            &&& !#[trigger] before.contains('=')
            &&& entry == before + seq!['='] + addr
            &&& text::number(before) == Some(id)
        }
}

/// An entry that names a peer adds that peer.
proof fn lemma_named(peers: Map<NodeId, Seq<char>>, entry: Seq<char>, id: NodeId, addr: Seq<char>)
    requires
        names(entry, id, addr),
    ensures
        with_peer(peers, entry) == Ok::<Map<NodeId, Seq<char>>, Problem>(peers.insert(id, addr)),
{
    let before = choose|before: Seq<char>|
        {
            &&& !#[trigger] before.contains('=')
            &&& entry == before + seq!['='] + addr
            &&& text::number(before) == Some(id)
        };
    text::first_separators_split(before, addr, '=');
}

/// An entry that is taken is empty or names the peer that it adds.
proof fn lemma_taken(peers: Map<NodeId, Seq<char>>, entry: Seq<char>) -> (named: (
    NodeId,
    Seq<char>,
))
    requires
        with_peer(peers, entry) is Ok,
    ensures
        entry.len() > 0 ==> names(entry, named.0, named.1),
{
    if entry.len() > 0 {
        let k = choose|k: int| text::first_at(entry, '=', k);
        let i = choose|i: int| 0 <= i < entry.len() && entry[i] == '=';
        let at = lemma_first(entry, '=', i);
        assert(text::first_at(entry, '=', at));
        let before = entry.take(k);
        let addr = entry.skip(k + 1);
        assert(entry =~= before + seq!['='] + addr);
        assert(!before.contains('='));
        let id = text::number(before)->0;
        assert(names(entry, id, addr));
        (id, addr)
    } else {
        (0, entry)
    }
}

/// A character that occurs occurs somewhere first.
proof fn lemma_first(s: Seq<char>, c: char, i: int) -> (at: int)
    requires
        0 <= i < s.len(),
        s[i] == c,
    ensures
        text::first_at(s, c, at),
    decreases i,
{
    if exists|j: int| 0 <= j < i && s[j] == c {
        let j = choose|j: int| 0 <= j < i && s[j] == c;
        lemma_first(s, c, j)
    } else {
        i
    }
}

/// Every entry of the list is a peer: whoever is named is known, at the address
/// of the last entry that names it.
pub proof fn every_listed_peer_is_known(
    entries: Seq<Seq<char>>,
    i: int,
    id: NodeId,
    addr: Seq<char>,
)
    requires
        0 <= i < entries.len(),
        names(entries[i], id, addr),
        listed_peers(entries) is Ok,
    ensures
        listed_peers(entries)->Ok_0.contains_key(id),
        (forall|j: int, other: Seq<char>|
            i < j < entries.len() ==> !#[trigger] names(entries[j], id, other))
            ==> listed_peers(entries)->Ok_0[id] == addr,
    decreases entries.len(),
{
    let fewer = entries.drop_last();
    let peers = listed_peers(fewer)->Ok_0;
    if i == entries.len() - 1 {
        lemma_named(peers, entries.last(), id, addr);
    } else {
        assert(fewer[i] == entries[i]);
        every_listed_peer_is_known(fewer, i, id, addr);
        let (last, at) = lemma_taken(peers, entries.last());
        if entries.last().len() > 0 {
            lemma_named(peers, entries.last(), last, at);
            assert(entries[entries.len() - 1] == entries.last());
        }
        if forall|j: int, other: Seq<char>|
            i < j < entries.len() ==> !#[trigger] names(entries[j], id, other) {
            assert forall|j: int, other: Seq<char>| i < j < fewer.len() implies !#[trigger] names(
                fewer[j],
                id,
                other,
            ) by {
                assert(!names(entries[j], id, other));
            }
        }
    }
}

/// Nobody is a peer that the list does not name, and no address is made up.
pub proof fn only_listed_peers_are_known(entries: Seq<Seq<char>>, id: NodeId) -> (i: int)
    requires
        listed_peers(entries) is Ok,
        listed_peers(entries)->Ok_0.contains_key(id),
    ensures
        0 <= i < entries.len(),
        names(entries[i], id, listed_peers(entries)->Ok_0[id]),
    decreases entries.len(),
{
    let fewer = entries.drop_last();
    let peers = listed_peers(fewer)->Ok_0;
    let (last, at) = lemma_taken(peers, entries.last());
    if entries.last().len() > 0 {
        lemma_named(peers, entries.last(), last, at);
    }
    if entries.last().len() > 0 && last == id {
        entries.len() - 1
    } else {
        let i = only_listed_peers_are_known(fewer, id);
        assert(fewer[i] == entries[i]);
        i
    }
}

/// A list is taken whenever each of its entries is empty or names a peer.
pub proof fn well_formed_lists_are_taken(entries: Seq<Seq<char>>)
    requires
        forall|i: int|
            0 <= i < entries.len() && (#[trigger] entries[i]).len() > 0 ==> exists|
                id: NodeId,
                addr: Seq<char>,
            |
                names(entries[i], id, addr),
    ensures
        listed_peers(entries) is Ok,
    decreases entries.len(),
{
    if entries.len() > 0 {
        let fewer = entries.drop_last();
        assert forall|i: int| 0 <= i < fewer.len() && (#[trigger] fewer[i]).len() > 0 implies exists|
            id: NodeId,
            addr: Seq<char>,
        |
            names(fewer[i], id, addr) by {
            assert(fewer[i] == entries[i]);
        }
        well_formed_lists_are_taken(fewer);
        let last = entries[entries.len() - 1];
        if last.len() > 0 {
            let (id, addr) = choose|id: NodeId, addr: Seq<char>| names(last, id, addr);
            lemma_named(listed_peers(fewer)->Ok_0, last, id, addr);
        }
    }
}

/// The first entry that is no peer is what is reported: the whole of it if it
/// has no equals sign, and else what stands in front of the first one.
pub proof fn the_first_bad_entry_is_reported(
    good: Seq<Seq<char>>,
    before: Seq<char>,
    after: Seq<char>,
    rest: Seq<Seq<char>>,
)
    requires
        listed_peers(good) is Ok,
        !before.contains('='),
    ensures
        before.len() > 0 ==> listed_peers(good.push(before) + rest) == Err::<
            Map<NodeId, Seq<char>>,
            Problem,
        >(Problem::BadPeerEntry(before)),
        text::number(before) is None ==> listed_peers(
            good.push(before + seq!['='] + after) + rest,
        ) == Err::<Map<NodeId, Seq<char>>, Problem>(Problem::BadPeerId(before)),
{
    text::first_separators_split(before, after, '=');
    let first = good.push(before);
    let second = good.push(before + seq!['='] + after);
    assert(first.drop_last() =~= good);
    assert(second.drop_last() =~= good);
    assert((first + rest).take(first.len() as int) =~= first);
    assert((second + rest).take(second.len() as int) =~= second);
    if before.len() > 0 {
        lemma_first_error(first + rest, first.len() as int);
    }
    if text::number(before) is None {
        lemma_first_error(second + rest, second.len() as int);
    }
}

/// A cluster is as large as its list says: with one entry for each of the other
/// nodes there are as many peers as entries.
pub proof fn clusters_are_as_large_as_their_list(
    entries: Seq<Seq<char>>,
    ids: Seq<NodeId>,
    addrs: Seq<Seq<char>>,
)
    requires
        ids.len() == entries.len(),
        addrs.len() == entries.len(),
        ids.no_duplicates(),
        forall|i: int| 0 <= i < entries.len() ==> names(#[trigger] entries[i], ids[i], addrs[i]),
    ensures
        listed_peers(entries) matches Ok(peers) && {
            &&& peers.len() == entries.len()
            &&& peers.dom() == ids.to_set()
            &&& peers.dom().finite()
        },
    decreases entries.len(),
{
    if entries.len() == 0 {
        assert(Map::<NodeId, Seq<char>>::empty().dom() =~= ids.to_set());
    } else {
        let fewer = entries.drop_last();
        let known = ids.drop_last();
        assert forall|i: int| 0 <= i < fewer.len() implies names(
            #[trigger] fewer[i],
            known[i],
            addrs.drop_last()[i],
        ) by {
            assert(fewer[i] == entries[i]);
        }
        clusters_are_as_large_as_their_list(fewer, known, addrs.drop_last());
        let last = entries.len() - 1;
        assert(names(entries[last], ids[last], addrs[last]));
        let peers = listed_peers(fewer)->Ok_0;
        lemma_named(peers, entries.last(), ids.last(), addrs.last());
        assert(!known.contains(ids.last()));
        assert(known.push(ids.last()) =~= ids);
        known.lemma_push_to_set_commute(ids.last());
        assert(peers.insert(ids.last(), addrs.last()).dom() =~= ids.to_set());
    }
}

/// A node counts itself and each of its peers.
pub proof fn nodes_count_themselves(config: NodeConfig)
    requires
        config.peers@.len() < usize::MAX,
    ensures
        config.countable(),
        config.size() == config.peers@.len() + 1,
{
}

/// A variable that is set counts as it is; only one that is not set is
/// replaced.
pub proof fn settings_override_defaults(value: String, fallback: Seq<char>)
    ensures
        value_or(Some(value), fallback) == value@,
        value_or(None, fallback) == fallback,
{
}

/// Every node keeps its address.
pub proof fn addresses_keep_every_node(map: Map<NodeId, String>, id: NodeId)
    ensures
        addresses(map).dom() == map.dom(),
        map.contains_key(id) ==> addresses(map)[id] == map[id]@,
{
    assert(addresses(map).dom() =~= map.dom());
}

/// A problem stands for the text that causes it.
pub proof fn problems_show_their_cause(text: String)
    ensures
        ConfigError::NodeIdNotSet@ == Problem::NodeIdNotSet,
        ConfigError::BadNodeId(text)@ == Problem::BadNodeId(text@),
        ConfigError::BadPeerEntry(text)@ == Problem::BadPeerEntry(text@),
        ConfigError::BadPeerId(text)@ == Problem::BadPeerId(text@),
{
}

/// An empty list names nobody.
pub proof fn no_list_names_nobody()
    ensures
        listed_peers(text::pieces(Seq::empty(), ',')) == Ok::<Map<NodeId, Seq<char>>, Problem>(
            Map::empty(),
        ),
{
    let entries = text::pieces(Seq::empty(), ',');
    assert(entries == seq![Seq::<char>::empty()]);
    assert(entries.drop_last() =~= Seq::<Seq<char>>::empty());
    assert(listed_peers(entries.drop_last()) == Ok::<Map<NodeId, Seq<char>>, Problem>(
        Map::empty(),
    ));
}

/// A node needs its id and nothing else: without one, or with one that is no
/// number, there is no configuration, whatever else is set.
pub proof fn nodes_need_an_id(env: Environment, id: String)
    ensures
        env.node_id is None ==> described(env) == Err::<Settings, Problem>(Problem::NodeIdNotSet),
        env.node_id == Some(id) && text::number(id@) is None ==> described(env) == Err::<
            Settings,
            Problem,
        >(Problem::BadNodeId(id@)),
{
}

/// With an id there is a configuration whose peers are those of the list. What
/// is wrong with the list is wrong with the configuration.
pub proof fn peers_are_those_of_the_list(env: Environment, id: String, list: String)
    requires
        env.node_id == Some(id),
        text::number(id@) is Some,
        env.peers == Some(list),
    ensures
        match listed_peers(text::pieces(list@, ',')) {
            Ok(peers) => described(env) matches Ok(settings) && {
                &&& Some(settings.id) == text::number(id@)
                &&& settings.peers == peers
            },
            Err(problem) => described(env) == Err::<Settings, Problem>(problem),
        },
{
}

/// Each setting is what its variable says, whatever the others are. What is not
/// set has a default: every address of the machine on port 7000 for
/// peers and 8000 for clients, a directory next to the program, and nobody else
/// in the cluster.
pub proof fn settings_are_what_the_environment_says(env: Environment, id: String)
    requires
        env.node_id == Some(id),
        text::number(id@) is Some,
    ensures
        env.peers is None ==> described(env) is Ok,
        described(env) matches Ok(settings) ==> {
            &&& Some(settings.id) == text::number(id@)
            &&& env.peers is None ==> settings.peers == Map::<NodeId, Seq<char>>::empty()
            &&& env.listen_addr matches Some(addr) ==> settings.listen_addr == addr@
            &&& env.metrics_addr matches Some(addr) ==> settings.metrics_addr == addr@
            &&& env.storage_dir matches Some(dir) ==> settings.storage_dir == dir@
            &&& env.listen_addr is None ==> settings.listen_addr == "0.0.0.0:7000"@
            &&& env.metrics_addr is None ==> settings.metrics_addr == "0.0.0.0:8000"@
            &&& env.storage_dir is None ==> settings.storage_dir == "./data"@
        },
{
    no_list_names_nobody();
}

/// A configuration stands for all that it says.
pub proof fn configurations_stand_for_all_they_say(config: NodeConfig)
    ensures
        config@.id == config.id,
        config@.listen_addr == config.listen_addr@,
        config@.metrics_addr == config.metrics_addr@,
        config@.peers == addresses(config.peers@),
        config@.storage_dir == config.storage_dir@,
{
}

} // verus!
