# Bohime

The logic of a sharded, Raft-replicated key-value store, written in Verus: every
public function of the library states what it returns and what it changes, and
Verus proves it.

The library holds no socket, no file and no clock. What reaches outside a
process is handed to it as plain values and taken from it as plain values:

- A group's Raft core says what it is (`driver::NodeView`) and what it has ready
  (`drain::Ready`); the library says what to propose, what to send and what to
  answer.
- A store on disk follows the library's copy of it (`engine::Engine`): the copy
  lists the writes to carry out, flushes among them, in order, and notes whether
  one of them is not durable yet and whether one is not visible to readers yet.
- Moments and spans are nanoseconds on the process's clock.
- The shard of a key is the ring's to say: whoever asks about a key hands its
  shard in with the map or the placement that it was taken from.

`app/` is the process around it: the loops, the services, the client's
connections, the read path's ring. It is built over the ports in `app/ports.rs`,
which `app/backend.rs` fills from the workspace's crates.

## Layout

| module | what it is about |
|---|---|
| `types`, `bytes`, `text`, `ids`, `codec` | values, byte order, decimal text, ordered ids, and the stored form of plain values |
| `engine` | a store's copy in memory, and the writes its disk copy owes |
| `storage` | a group's log over a store |
| `command`, `session` | what a log entry means, and which requests were answered already |
| `membership` | the address book that membership changes carry |
| `snapshot` | state images |
| `driver`, `drain`, `replay` | one group: requests in, a drain's order, and what a restart does |
| `hosting` | the groups of a process and the links they share |
| `read_view`, `read_engine` | confirmed reads, on their way to the disk |
| `group`, `shard_map`, `router` | who holds a shard, and where its keys are served |
| `config`, `placement`, `shards` | a node's flags, the files it leaves, and the shards it hosts |
| `meta`, `migrate` | keeping the map current, and moving shards to where it says |
| `kv_service`, `admin_service` | answers in the services' words |
| `client`, `cli` | the client's search for whoever can answer |

A function named `law_..` states something that holds across functions, such as
that a retried request is applied once, that a read never misses a write that was
answered before it, that a vote is durable before a message leaves, that a
snapshot restores what it was taken of, that an image with a changed byte is
refused, or that a replica is not removed before its replacement votes.

What the library takes from outside crates stands behind functions marked
`external_body`: `bincode` for the stored form of integers, flags and byte
strings, `crc32fast` for the checksum of an image, `rand` for a client's name,
and a few calls of the standard library on text. Each says above it what is
claimed of the call.
