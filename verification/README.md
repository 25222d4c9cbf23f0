# net_world

The rules of a traffic simulator on a road network, verified with Verus: who may
go, when, on which lane and behind whom.

The rules never do arithmetic on measured numbers. Positions, speeds, gaps and
times are doubles, and a rule only compares them; in the library each is a
`Quantity`, its place in the total order of doubles. Whatever has to be added,
multiplied or drawn at random is measured outside and handed in as a view: a
plain struct or table of quantities. A contract then says exactly which decision
follows from which measurements.

## Layout

- `src/` is the library.
  - `quantity`, `search`, `sorting`, `groups`, `queue`, `backend`: vocabulary and
    tools. `backend` spreads work over threads without changing its result.
  - `network`, `validate`, `topology`, `corridor`, `solver`, `router`: the road
    graph, what is derived from it, and shortest routes, worked out a little at a
    time.
  - `fleet`, `world`, `control`: the vehicles, the world, its switches and
    counters.
  - `paths`, `lanes`, `neighbors`, `leading`, `crossing`, `boxes`, `rooms`,
    `yielding`, `intent`, `context`: what a vehicle decides.
  - `occupancy`, `boundary`, `resolution`, `crashes`, `step`, `tick`: how a tick
    moves the vehicles on.
  - `sideways`, `stride`: the lane changes of a tick, and the whole step, phase by
    phase.
  - `infrastructure`, `spawning`, `shards`, `regions`: meters, trains, buses,
    demand, and splitting the work.
  - `agreement`, `concord`: what comes of a step does not depend on how its work is
    run.
- `tests/` runs the library on concrete values.
- `app/` is the floating-point side: it measures, asks the library, and moves the
  world on. Geometry, driver models, signal timing and random draws come from a
  `Surroundings` that the simulation is built with.

Public `proof fn`s state what holds of the whole: no vehicle with a way on is ever
lost at a node, no two vehicles enter crossing paths in one tick unless the second
cannot stop, turn-taking at a stop never blocks everyone, the old routes serve until
the new ones are complete, a step loses nobody and comes out the same on every
backend, and so on.
