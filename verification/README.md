# raft_kv

A key-value store replicated with the Raft consensus protocol, written in
Verus. The library under `src/` holds the logic, each function with a
contract that Verus proves:

- `raft` — the protocol's steps on a node's state (`NodeState`): term checks,
  appending entries, voting, elections, replication and commit, with the laws
  that terms never go back and a vote once given is kept for its term.
- `node`, `log` — a node's state and the in-memory replicated log.
- `membership` — voting members, learners, quorums, and the proof that two
  majorities always share a member.
- `store` — the key-value state machine and its snapshot format, with the
  proof that a snapshot reads back as the data it was taken from.
- `wal`, `snapshot` — the write-ahead log's record format and file names,
  and snapshot file names, with their read-back proofs.
- `wire`, `decimal`, `text` — byte, number and text building blocks.
- `config`, `runtime`, `network`, `message`, `error`, `types` — configuration,
  start-up decisions, protocol messages and errors.

`app/` is the node program around the library: files, sockets, async tasks,
command-line parsing and serialization.

Two choices of representation follow from what Verus can prove:

- The key-value store keeps its pairs in a `Vec` with distinct keys rather
  than in a `HashMap<String, String>`. Verus's specification of `HashMap`
  holds only for key types known to follow its key model, and `String` is
  not among them, so no lookup, insert or remove on a string-keyed map could
  be proved. Each operation is therefore a linear scan.
- The CRC-32 checksum of a write-ahead-log record is computed by `crc32fast`
  and is named, not written out as a specification of the algorithm.
