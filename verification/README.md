# quorum

A strongly consistent, replicated key-value store on the Raft consensus
algorithm, written in Rust and verified with Verus.

Every node runs the same deterministic state machine. It takes events (a
message from a peer, a client's request, a timer), says what has to be on disk
before it deals with one, and gives back actions (messages to send, answers for
clients). The state machine, the byte formats it relies on and the client's
search for the leader are verified; sockets, files and HTTP live around it.

## Layout

- `src/` is the verified library.
  - `state`, `log`, `messages`, `election`, `replication`: the algorithm.
  - `cluster`: one node as a state machine. `safety`: what holds of it.
    `durability`: what holds of its disk. `system`: what holds of all nodes
    together.
  - `kv_store`, `wal`, `snapshot`: commands, the store, and what is on disk.
  - `wire`, `codec`, `network`: bytes, frames and greetings between nodes.
  - `leader_tracking`, `client`: how a client finds the leader.
  - `config`, `metrics_api`, `errors`, `chaos`, `text`, `clock`: the rest.
- `app/` is the program: a node, its HTTP API and a few commands that break a
  local cluster on purpose.
- `tests/` runs the library.

## Running a node

    QUORUM_NODE_ID=1 QUORUM_LISTEN_ADDR=127.0.0.1:7000 \
    QUORUM_METRICS_ADDR=127.0.0.1:8000 QUORUM_STORAGE_DIR=./data/node1 quorum

A node without peers elects itself. `QUORUM_PEERS=2=node2:7000,3=node3:7000`
names the other nodes of a larger cluster.

| Method | Path | |
|---|---|---|
| `GET` | `/health` | role, term, commit index, log length, leader |
| `GET` | `/kv/{key}` | read a value |
| `PUT` | `/kv/{key}` | write a value, body `{"value": "..."}` |
| `DELETE` | `/kv/{key}` | delete a key |
| `GET` | `/ws` | a stream of what `/health` shows |

A node that is not the leader answers with `is_leader: false` and names the
leader it knows of.

## What holds of a cluster

The theorems about all nodes together are at the end of `system`: at most one
leader in a term, logs that agree, and no acknowledged write lost with a leader.
They rest on links that hand messages over in the order in which they were sent,
each at most once. A link may delay messages for as long as it likes and may
lose any of them. A leader counts a follower's answer for the oldest request
that the follower has not answered, so after a loss it knows a little less than
it could, never more.

Writes to a write-ahead log may fail. The node then goes on: it votes, stands
for election, leads and answers. But it acknowledges no entry to a leader that is
not on its disk, and as a leader it does not count itself for such an entry. What
is missing is written again before the next event.

## Limits

Reads are served from the leader's applied state without asking the followers
first. The current term and vote are not kept over a restart. Snapshots can be
written and read, but nothing triggers them yet.
