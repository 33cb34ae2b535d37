# Interactive Raft

The Raft protocol as a transition system that is driven step by step, written and
proved in Verus.

A world holds Raft nodes and the messages between them. It lists the steps that can
happen next: crashes, restarts, timeouts, requests of clients, messages sent and
received. The user picks one, by its number or by a command, and the world takes it.

## Commands

| command | step |
|---|---|
| `crash <id>`, `restart <id>` | a node crashes or comes back |
| `timeout <id>` | a node stands for election |
| `client <id>` | a client's request reaches a leader |
| `rv <id> <dest>`, `requestvote <id> <dest>` | a candidate asks for a vote |
| `ae <id> <dest>`, `appendentries <id> <dest>` | a leader sends entries |
| `recv <k>` | the message at position `k` arrives |

## Layout

- `src/message.rs`, `src/network.rs`: log entries, messages, and the network.
- `src/node_model.rs`, `src/node.rs`: the model of a node, and the node.
- `src/step.rs`, `src/world_model.rs`, `src/world.rs`: steps, the model of the world,
  and the world.
- `src/lists.rs`, `src/quorum.rs`: integers in vectors, and majorities.
- `src/command.rs`, `src/text.rs`: what is typed, and what is shown.
- `src/ledger.rs`, `src/safety.rs`, `src/laws.rs`, `src/text_laws.rs`: what is proved
  of runs of any length, among it that a term has at most one leader and that logs
  which share an entry agree up to it.
- `app/main.rs`: the program.

An entry is not safe once a majority holds it: a later leader can overwrite it.
`tests/worlds.rs` walks through such a run.
