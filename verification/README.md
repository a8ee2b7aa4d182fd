# ferrite

A key-value store replicated with Raft, written in Verus. `src/` is the library:
everything in it is verified. `app/` holds what touches the world: arguments,
files, clocks and connections. `tests/` runs the library on concrete values.

## What is in the library

| Module | What it does |
|---|---|
| `raft` | The consensus core. A node takes an input (a tick, a message, client commands, word of a snapshot) and returns what its driver owes, in order. No I/O. |
| `raft::log`, `election`, `replication`, `snapshot` | Its parts: the log with compaction, votes and timeouts, AppendEntries and commitment, InstallSnapshot. |
| `raft::storage` | What survives a restart: record framing with checksums, replay, a store in memory, and the decisions of the segment-file store. |
| `raft::invariants` | A checker for the safety properties, for use while a cluster runs. |
| `kv` | The state machine: versioned keys, compare-and-swap, exactly-once requests by client session, snapshots. |
| `sim` | A deterministic simulator: clock, network, crashes and restarts, traces, and three scenarios. |
| `config`, `validation`, `issue`, `cli` | Configuration: merging flags and files, every rule with its report, and generated cluster files. |
| `codec`, `rng`, `text`, `maps`, `seqs` | Encoding, random streams, text and small lemmas. |

Every type has a view, and the contract of an executable function says which
function of views it computes. `NodeView::step`, for example, is the whole of
what a node does on an input.

## What is proved of it as a whole

Laws are public proof functions whose names start with `law_`.

- `raft::safety` — for every history of a cluster, with messages lost, repeated
  and reordered, nodes that crash and come back, and logs that are compacted:
  one leader in a term, one vote in a term, terms and commitment that do not
  fall, logs that match, leaders that hold what is committed, committed entries
  that stay, and state machines that apply the same entries. Stores are equal
  wherever as much was applied, as long as no node installs a snapshot of less
  than it has applied itself. These histories are limited only in that terms and
  indices stay below the largest `u64`, and that a node is told of snapshots of
  its own log. The proof goes through a protocol of small
  steps (`protocol`, `consistency`, `steps`); `refinement` and `handlers` show
  that a node's inputs are sequences of such steps.
- `raft::laws` — what holds of a single node on any input: for one, every write
  comes before anything that can be seen of it, commitment never falls, and the
  log never has a gap.
- `raft::chunks` — a snapshot that comes in chunks is installed as it was sent,
  whatever comes twice or at the wrong place.
- `raft::storage::durability`, `disk_laws`, `record`, `memory` — what a node asks
  to have written is enough to find it again, in memory and on disk, after a
  crash at any step, also while a snapshot is written and the log not trimmed
  yet. Both backends recover the same, and a segment's number is never used again.
- `raft::storage::crc`, `record` — a changed byte changes the checksum, so it is
  found in a record, in a snapshot file and in an election state file.
- `kv::laws` — writes are read back, retries within the time to live get the same
  answer and change nothing, snapshots stand for the entries they cover, and a key
  that is there has a version above zero.
- `sim::laws`, `sim::schedules` — whatever is crashed, restarted, cut off or
  proposed, and whenever logs are compacted, a simulation never finds safety
  broken.
- `sim::votes` — the crash and restart scenario finds no node that voted twice in
  a term.
- `sim::roster` — a simulation keeps its nodes, and an election scenario stops at
  the first tick with one leader.
- `config_laws` — what is accepted is sound, and what `init` generates is
  accepted.

## What is believed

Calls into other crates stand behind small functions marked
`#[verifier::external_body]`, each with a comment that says what is believed of
it: `bincode` for integers and byte strings (`codec`), `crc32c` (`crc`),
`rand` and `rand_chacha` (`rng`), and the standard library's debug quoting
(`text`).
