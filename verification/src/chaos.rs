//! Breaking a local cluster on purpose: which programs to run, with which
//! arguments, and what to tell the user.
use std::collections::HashMap;
use vstd::prelude::*;
use vstd::string::StringExecFns;

use crate::text::{self, decimal_of};

verus! {

/// The ports of a node of the local cluster.
#[derive(Debug, Clone, Copy, PartialEq, Eq, Structural)]
pub struct NodeInfo {
    pub metrics_port: u16,
    pub raft_port: u16,
}

/// The three nodes of the local cluster.
pub open spec fn registry() -> Map<u32, NodeInfo> {
    map![
        1u32 => NodeInfo { metrics_port: 8001, raft_port: 7001 },
        2u32 => NodeInfo { metrics_port: 8002, raft_port: 7002 },
        3u32 => NodeInfo { metrics_port: 8003, raft_port: 7003 }
    ]
}

pub fn node_registry() -> (r: HashMap<u32, NodeInfo>)
    ensures
        r@ == registry(),
{
    let mut nodes: HashMap<u32, NodeInfo> = HashMap::new();
    nodes.insert(1, NodeInfo { metrics_port: 8001, raft_port: 7001 });
    nodes.insert(2, NodeInfo { metrics_port: 8002, raft_port: 7002 });
    nodes.insert(3, NodeInfo { metrics_port: 8003, raft_port: 7003 });
    assert(nodes@ =~= registry());
    nodes
}

/// A program to run.
#[derive(Debug)]
pub struct Invocation {
    pub program: String,
    pub args: Vec<String>,
    /// What to say when it cannot be started.
    pub not_started: String,
    /// What to add when it fails.
    pub hint: String,
    /// What to say when it succeeds.
    pub done: String,
}

/// The content of an [`Invocation`].
pub struct Plan {
    pub program: Seq<char>,
    pub args: Seq<Seq<char>>,
    pub not_started: Seq<char>,
    pub hint: Seq<char>,
    pub done: Seq<char>,
}

impl View for Invocation {
    type V = Plan;

    open spec fn view(&self) -> Plan {
        Plan {
            program: self.program@,
            args: text::texts(self.args@),
            not_started: self.not_started@,
            hint: self.hint@,
            done: self.done@,
        }
    }
}

fn join3(a: &str, b: &str, c: &str) -> (r: String)
    ensures
        r@ == a@ + b@ + c@,
{
    let mut text = a.to_owned();
    text.append(b);
    text.append(c);
    text
}

fn push_arg(args: &mut Vec<String>, arg: String)
    ensures
        text::texts(final(args)@) == text::texts(old(args)@).push(arg@),
{
    args.push(arg);
    assert(text::texts(args@) =~= text::texts(old(args)@).push(arg@));
}

/// Ends a process for good, as a power loss would.
pub open spec fn killing(pid: u32) -> Plan {
    let number = text::decimal(pid as nat);
    Plan {
        program: "taskkill"@,
        args: seq!["/F"@, "/PID"@, number],
        not_started: "failed to invoke taskkill"@,
        hint: " - is PID "@ + number + " actually running?"@,
        done: "Killed process "@ + number
            + ". Watch the dashboard/logs for the remaining nodes to elect a new leader."@,
    }
}

/// How to kill the process of a node.
pub fn kill_node(pid: u32) -> (r: Invocation)
    ensures
        r@ == killing(pid),
{
    let number = decimal_of(pid as u64);
    let mut args: Vec<String> = Vec::new();
    assert(text::texts(args@) =~= Seq::<Seq<char>>::empty());
    push_arg(&mut args, "/F".to_owned());
    push_arg(&mut args, "/PID".to_owned());
    push_arg(&mut args, number.clone());
    assert(text::texts(args@) =~= seq!["/F"@, "/PID"@, number@]);
    Invocation {
        program: "taskkill".to_owned(),
        args,
        not_started: "failed to invoke taskkill".to_owned(),
        hint: join3(" - is PID ", number.as_str(), " actually running?"),
        done: join3(
            "Killed process ",
            number.as_str(),
            ". Watch the dashboard/logs for the remaining nodes to elect a new leader.",
        ),
    }
}

/// The name of the firewall rule that cuts a node off.
pub open spec fn rule(node_id: u32) -> Seq<char> {
    "quorum-partition-node"@ + text::decimal(node_id as nat)
}

/// The argument that names a node's rule.
fn rule_arg(number: &String) -> (r: String)
    ensures
        r@ == "name="@ + ("quorum-partition-node"@ + number@),
{
    let text = join3("name=", "quorum-partition-node", number.as_str());
    assert(text@ =~= "name="@ + ("quorum-partition-node"@ + number@));
    text
}

/// The two ways a rule can block traffic.
pub open spec fn directions() -> Seq<Seq<char>> {
    seq!["dir=in"@, "dir=out"@]
}

/// Blocks the port a node talks to its peers on, in one direction.
pub open spec fn blocking(node_id: u32, raft_port: u16, direction: Seq<char>) -> Plan {
    let port = text::decimal(raft_port as nat);
    Plan {
        program: "netsh"@,
        args: seq![
            "advfirewall"@,
            "firewall"@,
            "add"@,
            "rule"@,
            "name="@ + rule(node_id),
            direction,
            "action=block"@,
            "protocol=TCP"@,
            "localport="@ + port,
        ],
        not_started: "failed to invoke netsh - is this terminal running as Administrator?"@,
        hint: ""@,
        done: "Partitioned node "@ + text::decimal(node_id as nat)
            + " (blocked inbound and outbound TCP :"@ + port
            + "). It can no longer send/receive Raft RPCs."@,
    }
}

/// Blocks the port a node talks to its peers on, inbound and outbound: one
/// rule for each direction, both of the same name.
pub open spec fn partitioning(node_id: u32, raft_port: u16) -> Seq<Plan> {
    Seq::new(2, |i: int| blocking(node_id, raft_port, directions()[i]))
}

/// What is said of a node that is not in the registry.
pub open spec fn stranger(node_id: u32) -> Seq<char> {
    "unknown node id "@ + text::decimal(node_id as nat) + " - expected 1, 2, or 3"@
}

/// The contents of a list of invocations.
pub open spec fn plans(invocations: Seq<Invocation>) -> Seq<Plan> {
    Seq::new(invocations.len(), |i: int| invocations[i]@)
}

/// What cutting a node off takes, or what is said of a node that is not there.
pub open spec fn cutting_off(node_id: u32) -> Result<Seq<Plan>, Seq<char>> {
    if registry().contains_key(node_id) {
        Ok(partitioning(node_id, registry()[node_id].raft_port))
    } else {
        Err(stranger(node_id))
    }
}

/// Whom to ask for a summary, and where.
pub open spec fn targets() -> Seq<(u32, Seq<char>)> {
    Seq::new(
        registry().len(),
        |i: int| ((i + 1) as u32, health(registry()[(i + 1) as u32].metrics_port)),
    )
}

/// The contents of a list of nodes and addresses.
pub open spec fn addressed(items: Seq<(u32, String)>) -> Seq<(u32, Seq<char>)> {
    Seq::new(items.len(), |i: int| (items[i].0, items[i].1@))
}

/// How to cut a node off from its peers; an error message if there is no such
/// node. The node is cut off once both invocations have succeeded.
pub fn partition_node(node_id: u32) -> (r: Result<Vec<Invocation>, String>)
    ensures
        match r {
            Ok(both) => registry().contains_key(node_id) && plans(both@) == partitioning(
                node_id,
                registry()[node_id].raft_port,
            ),
            Err(message) => !registry().contains_key(node_id) && message@ == stranger(node_id),
        },
        match r {
            Ok(both) => cutting_off(node_id) == Ok::<Seq<Plan>, Seq<char>>(plans(both@)),
            Err(message) => cutting_off(node_id) == Err::<Seq<Plan>, Seq<char>>(message@),
        },
{
    let nodes = node_registry();
    let info = match nodes.get(&node_id) {
        Some(info) => *info,
        None => {
            let number = decimal_of(node_id as u64);
            return Err(join3("unknown node id ", number.as_str(), " - expected 1, 2, or 3"));
        },
    };
    let mut both: Vec<Invocation> = Vec::new();
    both.push(block(node_id, info.raft_port, "dir=in"));
    both.push(block(node_id, info.raft_port, "dir=out"));
    assert(plans(both@) =~= partitioning(node_id, info.raft_port));
    Ok(both)
}

/// How to block a node's port in one direction.
fn block(node_id: u32, raft_port: u16, direction: &str) -> (r: Invocation)
    ensures
        r@ == blocking(node_id, raft_port, direction@),
{
    let number = decimal_of(node_id as u64);
    let port = decimal_of(raft_port as u64);
    let mut args: Vec<String> = Vec::new();
    assert(text::texts(args@) =~= Seq::<Seq<char>>::empty());
    push_arg(&mut args, "advfirewall".to_owned());
    push_arg(&mut args, "firewall".to_owned());
    push_arg(&mut args, "add".to_owned());
    push_arg(&mut args, "rule".to_owned());
    push_arg(&mut args, rule_arg(&number));
    push_arg(&mut args, direction.to_owned());
    push_arg(&mut args, "action=block".to_owned());
    push_arg(&mut args, "protocol=TCP".to_owned());
    let mut local_port = "localport=".to_owned();
    local_port.append(port.as_str());
    push_arg(&mut args, local_port);
    let mut done = join3(
        "Partitioned node ",
        number.as_str(),
        " (blocked inbound and outbound TCP :",
    );
    done.append(port.as_str());
    done.append("). It can no longer send/receive Raft RPCs.");
    let plan = Invocation {
        program: "netsh".to_owned(),
        args,
        not_started: "failed to invoke netsh - is this terminal running as Administrator?".to_owned(),
        hint: "".to_owned(),
        done,
    };
    assert(plan@.args =~= blocking(node_id, raft_port, direction@).args);
    plan
}

/// Takes the block away again: `netsh` deletes every rule of that name, in both
/// directions.
pub open spec fn healing(node_id: u32) -> Plan {
    let number = text::decimal(node_id as nat);
    Plan {
        program: "netsh"@,
        args: seq![
            "advfirewall"@,
            "firewall"@,
            "delete"@,
            "rule"@,
            "name="@ + rule(node_id),
        ],
        not_started: "failed to invoke netsh - is this terminal running as Administrator?"@,
        hint: " - was node "@ + number + " actually partitioned?"@,
        done: "Healed node "@ + number
            + ". It should reconnect and catch up on the next heartbeat."@,
    }
}

/// How to reconnect a node.
pub fn heal_node(node_id: u32) -> (r: Invocation)
    ensures
        r@ == healing(node_id),
{
    let number = decimal_of(node_id as u64);
    let mut args: Vec<String> = Vec::new();
    assert(text::texts(args@) =~= Seq::<Seq<char>>::empty());
    push_arg(&mut args, "advfirewall".to_owned());
    push_arg(&mut args, "firewall".to_owned());
    push_arg(&mut args, "delete".to_owned());
    push_arg(&mut args, "rule".to_owned());
    push_arg(&mut args, rule_arg(&number));
    assert(text::texts(args@) =~= healing(node_id).args);
    Invocation {
        program: "netsh".to_owned(),
        args,
        not_started: "failed to invoke netsh - is this terminal running as Administrator?".to_owned(),
        hint: join3(" - was node ", number.as_str(), " actually partitioned?"),
        done: join3(
            "Healed node ",
            number.as_str(),
            ". It should reconnect and catch up on the next heartbeat.",
        ),
    }
}

/// Partitioning blocks both directions, and healing names the rules that
/// partitioning added, all of them and no other node's.
pub proof fn healing_undoes_partitioning(
    partitioned: u32,
    healed: u32,
    raft_port: u16,
    i: int,
)
    requires
        0 <= i < 2,
    ensures
        partitioning(partitioned, raft_port).len() == 2,
        partitioning(partitioned, raft_port)[0].args[5] == "dir=in"@,
        partitioning(partitioned, raft_port)[1].args[5] == "dir=out"@,
        (partitioning(partitioned, raft_port)[i].args[4] == healing(healed).args[4]) == (partitioned
            == healed),
{
    let a = "name="@ + rule(partitioned);
    let b = "name="@ + rule(healed);
    if a == b {
        let skip = ("name="@ + "quorum-partition-node"@).len() as int;
        assert(a.skip(skip) =~= text::decimal(partitioned as nat));
        assert(b.skip(skip) =~= text::decimal(healed as nat));
        text::numbers_round_trip(partitioned);
        text::numbers_round_trip(healed);
    }
}

/// What a node said when asked for its health, each part as JSON shows it.
#[derive(Debug)]
pub enum Probe {
    Healthy {
        role: String,
        current_term: String,
        commit_index: String,
        last_applied: String,
        log_len: String,
    },
    InvalidJson,
    Unreachable,
}

/// Where to ask a node for its health.
pub open spec fn health(metrics_port: u16) -> Seq<char> {
    "http://127.0.0.1:"@ + text::decimal(metrics_port as nat) + "/health"@
}

pub fn health_url(metrics_port: u16) -> (r: String)
    ensures
        r@ == health(metrics_port),
{
    join3("http://127.0.0.1:", decimal_of(metrics_port as u64).as_str(), "/health")
}

/// Whom to ask for a summary of the cluster, and where, lowest id first.
pub fn status() -> (r: Vec<(u32, String)>)
    ensures
        addressed(r@) == targets(),
        r@.len() == registry().len(),
        forall|i: int|
            0 <= i < r@.len() ==> {
                &&& (#[trigger] r@[i]).0 == i + 1
                &&& registry().contains_key(r@[i].0)
                &&& r@[i].1@ == health(registry()[r@[i].0].metrics_port)
            },
{
    let nodes = node_registry();
    let mut targets: Vec<(u32, String)> = Vec::new();
    for id in 1u32..4
        invariant
            nodes@ == registry(),
            targets.len() == id - 1,
            forall|i: int|
                0 <= i < targets.len() ==> {
                    &&& (#[trigger] targets@[i]).0 == i + 1
                    &&& registry().contains_key(targets@[i].0)
                    &&& targets@[i].1@ == health(registry()[targets@[i].0].metrics_port)
                },
    {
        if let Some(info) = nodes.get(&id) {
            targets.push((id, health_url(info.metrics_port)));
        }
    }
    assert(registry().dom() =~= set![1u32, 2u32, 3u32]);
    assert(addressed(targets@) =~= self::targets());
    targets
}

/// One line of the status summary.
pub open spec fn line(node_id: u32, probe: Probe) -> Seq<char> {
    "node "@ + text::decimal(node_id as nat) + match probe {
        Probe::Healthy { role, current_term, commit_index, last_applied, log_len } => ": role="@
            + role@ + " term="@ + current_term@ + " commit_index="@ + commit_index@
            + " last_applied="@ + last_applied@ + " log_len="@ + log_len@,
        Probe::InvalidJson => ": reachable but returned invalid JSON"@,
        Probe::Unreachable => ": UNREACHABLE"@,
    }
}

pub fn status_line(node_id: u32, probe: &Probe) -> (r: String)
    ensures
        r@ == line(node_id, *probe),
{
    let rest = match probe {
        Probe::Healthy { role, current_term, commit_index, last_applied, log_len } => {
            let mut text = join3(": role=", role.as_str(), " term=");
            text.append(current_term.as_str());
            text.append(" commit_index=");
            text.append(commit_index.as_str());
            text.append(" last_applied=");
            text.append(last_applied.as_str());
            text.append(" log_len=");
            text.append(log_len.as_str());
            text
        },
        Probe::InvalidJson => ": reachable but returned invalid JSON".to_owned(),
        Probe::Unreachable => ": UNREACHABLE".to_owned(),
    };
    join3("node ", decimal_of(node_id as u64).as_str(), rest.as_str())
}

/// The local cluster is nodes 1 to 3, each with its own number at the end of
/// both of its ports.
pub proof fn ports_end_in_the_node(id: u32)
    ensures
        registry().contains_key(id) <==> 1 <= id <= 3,
        1 <= id <= 3 ==> {
            &&& registry()[id].metrics_port == 8000 + id
            &&& registry()[id].raft_port == 7000 + id
        },
        registry().dom().finite(),
        registry().len() == 3,
{
    assert(registry().dom() =~= set![1u32, 2u32, 3u32]);
}

/// Killing ends the process that was named and no other, by force.
pub proof fn killing_names_its_process(pid: u32, other: u32)
    ensures
        killing(pid).program == "taskkill"@,
        killing(pid).args.len() == 3,
        killing(pid).args[0] == "/F"@,
        killing(pid).args[1] == "/PID"@,
        text::number(killing(pid).args[2]) == Some(pid),
        killing(pid).args[2] == killing(other).args[2] ==> pid == other,
{
    text::numbers_round_trip(pid);
    text::numbers_round_trip(other);
}

/// Partitioning blocks the TCP port that the node talks to its peers on, by a
/// rule of its own.
pub proof fn partitioning_blocks_the_port(node_id: u32, raft_port: u16, i: int)
    requires
        0 <= i < 2,
    ensures
        ({
            let plan = partitioning(node_id, raft_port)[i];
            &&& plan.program == "netsh"@
            &&& plan.args.len() == 9
            &&& plan.args[0] == "advfirewall"@
            &&& plan.args[1] == "firewall"@
            &&& plan.args[2] == "add"@
            &&& plan.args[3] == "rule"@
            &&& plan.args[4] == "name="@ + ("quorum-partition-node"@ + text::decimal(
                node_id as nat,
            ))
            &&& plan.args[6] == "action=block"@
            &&& plan.args[7] == "protocol=TCP"@
            &&& plan.args[8] == "localport="@ + text::decimal(raft_port as nat)
            &&& plan.hint == ""@
            &&& plan.done == "Partitioned node "@ + text::decimal(node_id as nat)
                + " (blocked inbound and outbound TCP :"@ + text::decimal(raft_port as nat)
                + "). It can no longer send/receive Raft RPCs."@
        }),
{
}

/// Healing deletes rules by their name alone.
pub proof fn healing_deletes_the_rules(node_id: u32)
    ensures
        healing(node_id).program == "netsh"@,
        healing(node_id).args.len() == 5,
        healing(node_id).args[0] == "advfirewall"@,
        healing(node_id).args[1] == "firewall"@,
        healing(node_id).args[2] == "delete"@,
        healing(node_id).args[3] == "rule"@,
        healing(node_id).args[4] == "name="@ + ("quorum-partition-node"@ + text::decimal(
            node_id as nat,
        )),
{
}

/// What the user is told names the process or the node in question.
pub proof fn messages_name_their_subject(id: u32)
    ensures
        ({
            let number = text::decimal(id as nat);
            &&& killing(id).not_started == "failed to invoke taskkill"@
            &&& killing(id).hint == " - is PID "@ + number + " actually running?"@
            &&& killing(id).done == "Killed process "@ + number
                + ". Watch the dashboard/logs for the remaining nodes to elect a new leader."@
            &&& healing(id).hint == " - was node "@ + number + " actually partitioned?"@
            &&& healing(id).done == "Healed node "@ + number
                + ". It should reconnect and catch up on the next heartbeat."@
            &&& stranger(id) == "unknown node id "@ + number + " - expected 1, 2, or 3"@
            &&& healing(id).not_started
                == "failed to invoke netsh - is this terminal running as Administrator?"@
        }),
{
}

/// A node is asked for its health on its own port, under one path.
pub proof fn health_is_asked_on_the_own_port(port: u16, other: u16)
    ensures
        health(port) == "http://127.0.0.1:"@ + text::decimal(port as nat) + "/health"@,
        health(port) == health(other) ==> port == other,
{
    if health(port) == health(other) {
        let skip = "http://127.0.0.1:"@.len() as int;
        let tail = "/health"@.len() as int;
        let a = health(port);
        assert(a.subrange(skip, a.len() - tail) =~= text::decimal(port as nat));
        assert(a.subrange(skip, a.len() - tail) =~= text::decimal(other as nat));
        text::numbers_round_trip(port as u32);
        text::numbers_round_trip(other as u32);
    }
}

/// A status line shows every part of what a healthy node says under its name,
/// and tells a node that makes no sense from one that cannot be reached.
pub proof fn status_lines_show_everything(
    node_id: u32,
    role: String,
    current_term: String,
    commit_index: String,
    last_applied: String,
    log_len: String,
)
    ensures
        line(
            node_id,
            Probe::Healthy { role, current_term, commit_index, last_applied, log_len },
        ) == "node "@ + text::decimal(node_id as nat) + (": role="@ + role@ + " term="@
            + current_term@ + " commit_index="@ + commit_index@ + " last_applied="@ + last_applied@
            + " log_len="@ + log_len@),
        line(node_id, Probe::InvalidJson) == "node "@ + text::decimal(node_id as nat)
            + ": reachable but returned invalid JSON"@,
        line(node_id, Probe::Unreachable) == "node "@ + text::decimal(node_id as nat)
            + ": UNREACHABLE"@,
{
}

/// A list of invocations stands for all of them, each with all that it says.
pub proof fn lists_stand_for_all_invocations(invocations: Seq<Invocation>, i: int)
    requires
        0 <= i < invocations.len(),
    ensures
        plans(invocations).len() == invocations.len(),
        plans(invocations)[i].program == invocations[i].program@,
        plans(invocations)[i].args == text::texts(invocations[i].args@),
        plans(invocations)[i].not_started == invocations[i].not_started@,
        plans(invocations)[i].hint == invocations[i].hint@,
        plans(invocations)[i].done == invocations[i].done@,
{
}

/// Any of the three nodes can be cut off, on its own port; nobody else can, and
/// the message names who was asked for.
pub proof fn known_nodes_can_be_cut_off(node_id: u32)
    ensures
        1 <= node_id <= 3 ==> cutting_off(node_id) == Ok::<Seq<Plan>, Seq<char>>(
            partitioning(node_id, (7000 + node_id) as u16),
        ),
        !(1 <= node_id <= 3) ==> cutting_off(node_id) == Err::<Seq<Plan>, Seq<char>>(
            "unknown node id "@ + text::decimal(node_id as nat) + " - expected 1, 2, or 3"@,
        ),
{
}

/// A summary asks each of the three nodes once, from the lowest id up, on its
/// own port.
pub proof fn summaries_ask_every_node(i: int)
    requires
        0 <= i < 3,
    ensures
        targets().len() == 3,
        targets()[i].0 == i + 1,
        targets()[i].1 == health((8001 + i) as u16),
{
    ports_end_in_the_node((i + 1) as u32);
}

/// A list of nodes and addresses stands for all of them.
pub proof fn lists_stand_for_all_addresses(items: Seq<(u32, String)>, i: int)
    requires
        0 <= i < items.len(),
    ensures
        addressed(items).len() == items.len(),
        addressed(items)[i] == (items[i].0, items[i].1@),
{
}

} // verus!
