# tellus

Typed actors on Tokio, with supervision, death watch, event-sourced persistence and clustered
remoting, whose decisions are verified with Verus.

- `src/` is the library. It holds the logic: mailboxes, supervision, death watch, recovery from stored
  events, the wire format, and everything a node of a cluster decides, from membership and
  reachability to downing, joining, bootstrap and discovery. Time, addresses and identities are plain
  numbers, and nothing in it waits: a loop is a state machine which takes what happened and says what
  to do next. Every function states what it does, and the laws the whole keeps are proved beside them.
- `app/` is the runtime: tasks, timers, QUIC connections, serde, and the weighing of an accrual
  failure detector, which is floating point. It feeds the library and carries out what it decides.
- `tests/` runs the library.

What is not proved is stated where it enters: `src/ids.rs` takes fresh identities from `uuid`,
`src/wire.rs` its integers from `postcard` and UTF-8 from the standard library, and
`src/cluster/transport.rs` the names of a certificate from `x509-parser`.
