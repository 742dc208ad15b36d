# ce-sched

Job placement for the CE compute fabric: given a job and a map of the live fabric, which hosts
should run it? The library is written in Rust and verified with Verus. Every public function states
what it returns, and the proofs show that it does.

A plan is advice. Making one reads nothing and starts nothing: the same job, map and seed give the
same plan, so anyone who holds the three can compute it again. Dispatch is a separate step that the
caller owns.

## How a plan is made

1. `feasibility` drops the hosts that cannot run the job: stale, too small, a missing tag.
2. `redundancy` decides how many hosts the job needs, from the policy and the candidates' trust.
3. `scorer` rates each candidate on latency, hardware fit, trust and price.
4. `vendor` and `selection` pick hosts one by one under concentration caps per operator, network,
   region and cluster. A cap that cannot be met is loosened in a fixed order, and the plan says so.
5. `placer` puts these together and reports what was chosen, what was passed over, and why.

`assembly` builds the map from what a node reports, `graph` answers latency queries over it,
`dispatch` frames the requests around a plan, and `seed` derives the seed from the chain's beacon.

## Where the guarantees stand

- `guarantees`: what holds of every selection, such as that its targets are distinct and that no
  group exceeds its cap unless the plan reports it.
- `placer`: what holds of every plan.
- `preferences`: what the scores prefer.
- `correlation`: the groups, caps and penalties behind diversity.
- `topology`: symmetry, regions and minimum-latency paths.
- `reach`: a predicted latency is finite exactly where a path leads, for pairs for which no sum or
  square overflows and whose key no other pair shares.
- `symmetry`: the order of the candidates does not matter.

## Numbers

Money is integer base units in decimal strings. Measurements and scores are doubles, held as
`Binary64`: IEEE-754 arithmetic on bit patterns, rounded to nearest with ties to even and proved so
in `rounding`. The logarithm, the exponential and integer powers come from the caller as one function,
which must answer the same question the same way each time; see `elementary`.

## Layout

- `src/` the verified library
- `tests/` its tests
- `app/` the daemon, its wire format and an HTTP client for it
