# lb

Discrete-event simulators of load balancing, with the rules of the simulation verified by
Verus.

* `lb` simulates clients whose balancers send tasks to servers: push policies, central and
  decentralized pull queues, probing, express lanes and work shedding.
* `ms` simulates requests that run through a call graph of microservices, each with several
  replicas: balancers per replica or shared, bounded pull, pull intents, sidecars.

## Layout

* `src/` is the verified library: policies, subsets, queues, servers, balancers, replicas,
  sidecars, the checks of command-line flags and call graphs, the audits of recorded traces,
  and the statistics of a run.
* `src/microservice/` is the part that only `ms` uses.
* `app/` runs the library: the event loop with `nexosim`, the command line, files, random
  service times and floating-point reports.
* `tests/` holds the tests of the library, among them whole runs on a plain event queue
  (`lb_run.rs`, `ms_run.rs`).

## How the library is written

A part of the simulation is a state machine. A method takes an event and the current time,
changes the state, and returns what has to be sent or scheduled; `app/` sends and schedules
it. Points in time and durations are nanoseconds. Where a rule needs a time in milliseconds,
or a share of a whole, `app/` reads it off in floating point and hands over whole numbers; the
rule holds whatever was read.

Each such type has a view, a plain struct of mathematical values with its transitions as
spec functions. Contracts say that a method makes exactly that transition. Facts that span
several methods are public proof functions whose names start with `law_`.

A draw is a function of the generator and of what is asked of it, so a seed decides a run:
two runs with one seed make the same draws and the same picks. Without a seed, and outside a
run, draws are left open, and what is proved holds for every draw.

The outside functions that the library believes without proof are wrappers in `rng.rs`
(`rand`), `microservice/histogram.rs` (`hdrhistogram`), `samples.rs` and `text.rs` (std).
