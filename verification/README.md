# exit_analysis

Analysis of relay exit policies, each a set of TCP ports held as a bit
array. The library reads the "p accept ..." / "p reject ..." lines of a
microdescriptor file, computes the coarsest partition of ports 1-65535 that
the policies induce (with, for each part, the number of policies that accept
all of it), and merges parts greedily by the number of relay-port pairs the
merge loses.

Layout:

- `src/bits.rs`: bits of 64-bit words and counting lemmas.
- `src/bitarray.rs`: `BitArray`, a bit array in `u64` words.
- `src/policy.rs`: `Policy`, one bit per port.
- `src/parse.rs`: reading policy lines.
- `src/display.rs`: a policy as comma-separated port ranges.
- `src/readback.rs`: that text, after "p accept ", reads back as the policy.
- `src/cover.rs`: the covering partition and its laws.
- `src/supporters.rs`: a port set with its supporting relays; merge costs.
- `src/analysis.rs`: per-port counts.
- `src/greedy.rs`: the greedy merge.
- `src/coverage.rs`: which merges lose at most 5% of relays.
- `app/main.rs`: the command-line program (`portcount`, `cover`,
  `cover-loss`, `greedy-16`, `greedy-8`).
