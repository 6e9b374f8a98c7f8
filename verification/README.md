# mentat

The rules a small GPU cluster runs on, as a library proved by Verus. A few small
functions call std, serde_json and getifaddrs; what those return is taken on trust,
as their doc comments say, and every other function is proved.

A daemon on each node places actors on GPUs and watches their liveness. The
daemons form a mesh, elect a head, and probe which of their addresses reach
which. A router watches the daemons and puts one endpoint in front of every
model they serve.

## Layout

- `src/common/` holds what both programs need: texts, ordered maps, JSON values,
  IP addresses, bytes, versions, log lines.
- `src/daemon/` holds the daemon: its state and snapshot, placement
  (`place.rs`), claims and their solver (`claim.rs`, `claims.rs`), actors and
  calls, sessions, agents, sweeps, the mesh, elections and probes, announcements,
  frames, and what becomes of each message. Files whose
  names end in `laws.rs` state what holds of the operations together.
- `src/serve/` holds the router: the allowlist, groups and their endpoints, the
  table of models, watches, event streams, probes, requests and tools.
  `stream_laws.rs` and `landing_laws.rs` tie the daemon's events to its snapshot.
- `tests/` run the library on concrete values.
- `app/` is the ordinary Rust around it: sockets, HTTP, threads and serde.

## How it is stated

Every data type has a mathematical counterpart, named with a `V` at its end. An
operation is a pure function on those counterparts, and the executable function
of the same step ensures that it computes it. Times are milliseconds and are
passed in; connections are numbers; effects on the outside come back as values.
What the outside decides (the interfaces of the box, the JSON a run of bytes
writes) comes in through a few declared functions, each with a doc comment that
says what is taken on trust.
