# ssh_agent_mux

An SSH agent multiplexer: one agent socket that serves its clients out of
several upstream agents. Each client has its own upstream connections, so that
a session-bind and the signature that follows it go over the same one.

- `src/` is the library, verified with Verus. It holds what the multiplexer
  decides and computes, and performs no I/O: an operation takes an event and
  answers with the next step. `src/laws/` states what holds of whole
  operations.
- `app/` is the server around it: sockets, tasks, timeouts, `/proc` and
  `notify-send`.
- `tests/` runs the library.
