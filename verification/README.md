# pegaflow

The logic of an external KV-cache store for LLM inference, verified with
[Verus](https://github.com/verus-lang/verus): which blocks are kept in pinned
host memory, how slots become sealed blocks, which node a missing prefix is
fetched from and by which transfers, what the metadata server is told, how
queue pairs are set up and shared, and how a router hands requests from nodes
that prefill to nodes that decode.

## Layout

| Module | What it holds |
| --- | --- |
| `block`, `read_cache`, `write_path` | blocks and their slots, the cache in LRU order, sealing and publishing |
| `range_alloc`, `pinned_pool` | ranges of pinned memory, sharded pools, pools by NUMA node |
| `storage` | configuration, eviction under memory pressure, locks for transfers |
| `metaserver` | grouping and netting of commands, calls of bounded size, heartbeats, barriers |
| `rdma_fetch` | staging remote blocks in slabs, bundles of operations, rebuilding, the steps of a fetch |
| `transfer` | NICs and their turns, registered memory, handshakes, batches, sessions, metrics |
| `issue23` | frozen transfer plans: validation, identity, hidden snapshots, cohorts |
| `tailguard`, `topology` | admission of remote reads, the device scope of a process |
| `engine`, `server` | instances and layers, requests and their answers, options |
| `router` | prefill and decode requests, visibility markers, turns of nodes |

Contracts are stated over mathematical views: sequences, maps and spec functions
of plain values. Functions whose names begin with `law_` relate several
operations, such as that a sealed block has every slot filled once, that freeing
a range undoes handing it out, or that a request is back where it started after
its node has finished it.

Time is a number of nanoseconds (milliseconds for heartbeats) that callers pass
in, and addresses are plain integers. What runs in turns with the network or a
device is a state machine: it says what to do next and is told what happened.

## What is believed without proof

- `String::push` and the quoting of `format!("{:?}", ..)` (`text`)
- `Arc::clone`, `Arc::into_inner` and `Arc::strong_count` (`shared`)
- `uuid::Uuid::new_v4` (`ids`)
- `bincode`'s encoding and decoding of handshake metadata (`transfer::handshake`)

Each of these items says in its documentation what is claimed of the outside
function.

`app/` is the program around the library: command lines, HTTP, metrics export
and traces. `tests/` runs the library on concrete
values.
