# tcp-sans-io

A user-space TCP stack without I/O, verified with Verus. The host hands a
connection inbound IPv4 datagrams and the time, and takes the datagrams that the
connection wants sent; there is no clock, socket or thread inside.

* `src/tcb` holds a connection. `src/tcb/model.rs` says what every step of it does,
  over `TcbView`; the other modules there do it; `src/tcb/laws` holds what follows
  for connections as a whole: that they stay consistent whatever arrives, that the
  byte stream comes across unchanged and in order, that state changes follow the
  diagram, that round trips make progress, and more.
* `src/wire` parses and emits datagrams. `src/ring.rs`, `src/tx_ring.rs`,
  `src/reassembly.rs`, `src/scoreboard.rs`, `src/send_queue.rs`, `src/rack.rs` and
  `src/congestion.rs` are the parts that a connection is made of.
* `src/handle.rs` is a connection as foreign hosts see it.
* `src/sim` and `src/selftest.rs` let two connections transfer data over links that
  lose, repeat and reorder packets.
* `src/server` is an echo server over many connections.
* `app` holds what does I/O: the C interface, the self-check program and the server's
  loop over a UDP socket.
