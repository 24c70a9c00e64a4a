# queueing_system

A discrete-event model of a queueing system with several request sources, a
bounded buffer and a pool of service devices, with its behaviour proved in
Verus.

- `src/types.rs`: the simulation's data and its mathematical model.
- `src/model.rs`: the specification of one step of the simulation and of a
  well-formed simulation.
- `src/simulation.rs`: `simulator`, which advances a simulation by one event,
  and checks that a step can be taken.
- `src/analytics.rs`: `base_simulation`, the starting point of a run.
- `src/confidence.rs`: confidence levels and their names.
- `src/laws.rs`: properties of every step (well-formedness is kept, time never
  goes back, requests are conserved, statistics stay consistent, every run
  stops).
- `app/`: the GTK front end, random draws, floating-point statistics and the
  estimate of how many requests a run needs.
