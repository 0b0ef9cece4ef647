# gazflow

Verified core of the GazFlow gas-network simulator, written in Verus.

The library (`src/`) holds the decisions of the simulator that do not compute
in floating point, each with a contract proved by Verus:

- `network` — the topology model: nodes, connections, their kinds and states.
- `contingency` — N-1 case generation, application of a case to a network, the
  nodes a study monitors, and the red/green verdict of a study.
- `capacity` — the sinks a NoVa capacity study covers and the exact dyadic
  bisection that searches the largest feasible fraction of a nomination.
- `reach` — breadth-first reachability over identifier edges.
- `steady` — index bookkeeping of the steady-state solver: alias roots, free
  unknowns, the Jacobian sparsity pattern, regulator outlets, upstream traces.
- `components` — connected components of the solver's index graph and the
  floating components that need a pressure anchor.
- `order` — byte order on strings and a stable sort.
- `transient` — transient configuration and event checks, event application,
  and the PDE topology of a network.

`app/` is the unverified glue: serialisable copies of the library types, the
floating-point hydraulics and linear solves (faer), the parallel contingency
driver (rayon), the capacity bisection driver, the solver's index set-up,
post-solve reports and the floating-component anchoring. The numerical engine
itself (the steady-state Newton, Jacobi and NLP solvers, the transient
time integration, the mass-balance report and the compressor and gas-property
models) is not carried: the drivers take the hydraulic solve as a closure.
`tests/` exercises the library from outside.
