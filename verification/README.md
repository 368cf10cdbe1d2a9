# easytier

Multipath scheduling of packets over the connections to a peer, verified with Verus.

- `src/multipath_scheduler` turns snapshots of the paths into a plan for an epoch: weights that
  the load is spread by, and a pair of paths for second copies. `least` grants every path its
  least share, `pick` decides for one packet, and `weights`, `factors`, `losses` and `laws` hold
  what is proved of every plan.
- `src/stats` keeps the statistics that snapshots are made of: bandwidth, latency, bytes in
  flight, and traffic counters.
- `src/peer` knows the connections to a peer, turns plans into routes and chooses the
  connections for a packet.
- `src/tcp.rs` decides what to do with what the sockets of a tunnel report.
- `src/num` computes with numbers of the binary interchange formats on their bit patterns. Every
  operation is proved to be correctly rounded, so what the scheduler computes is fixed to the
  last bit.
- `src/clock.rs` reads the monotonic clock. Each operation that reads it stands beside one that
  takes the time as an argument.

`app` holds the tasks and sockets around the library. The exponential that damps late paths is
taken there: `Scheduler::blest_exponents` gives the exponents, and `Scheduler::compute_plan`
takes the results.
