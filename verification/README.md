# agv_scheduler

Scheduling core for a fleet of AGV/AMR robots, verified with Verus.

The library takes tasks and heartbeats in, and at every tick takes back tasks that hang, gives
waiting tasks to the nearest free robots along planned routes, and resolves deadlocks between
robots that wait for each other.

## Layout

* `src/domain` – road network, robots and tasks. Coordinates and costs are fixed-point numbers
  with sixteen fractional bits.
* `src/engine` – A* route planning, conflict analysis, matching, the scheduler with its outbox,
  and the laws that hold of every round.
* `src/storage` – the state of robots, tasks and trails, and the laws that its operations keep.
* `src/transport` – frames, messages and the course of a connection.
* `src/service.rs`, `src/simulator.rs` – the site with its chargers; virtual robots.
* `src/metrics.rs`, `src/dashboard.rs` – what is measured and shown.
* `tests` – tests of the compiled library.
* `app` – a program around the library: TCP server, virtual fleet, clock and log output.

What the library asks of other crates (`dashmap`, `smallvec`, `bytes`, `flume`, `rand`) stands
behind small functions whose doc comments say what is relied on.
