# cta_bench

Tooling for a benchmark of classical algorithm tasks (arrays, sorting,
graphs, greedy, dynamic programming, trees), written in Verus: the
reference algorithms, the behavioural harness that checks them, and the
rules the benchmark's release, annotation and generation pipelines follow,
each with a contract that Verus proves.

- `src/` — the verified library.
  - `algorithms/`: binary search, sorting, Dijkstra, Bellman–Ford, BFS,
    Floyd–Warshall, greedy interval scheduling and coin change, knapsack,
    LCS, BST insertion and lowest common ancestor, with their laws (for
    example, Dijkstra and Bellman–Ford agree).
  - `pilot/`: the harness adapters of the twelve families and the registry
    of their 84 instances.
  - `json.rs`, `normalize.rs`, `providers.rs`, `generation.rs`: reading a
    model's reply leniently, normalising its obligations, and packaging a
    generation.
  - `lint.rs`, `authoring.rs`, `release.rs`, `splits.rs`, `manifest.rs`:
    benchmark checks and release rules.
  - `adjudication.rs`, `annotations.rs`, `quality.rs`, `packet_check.rs`,
    `dashboard.rs`, `proof_plan.rs`: annotation and review-packet rules.
  - Calls into `rand`, `rand_chacha`, `sha2`, `hex` and `serde_json` stand
    behind small trusted wrappers whose contracts say what those crates
    document.
- `tests/` — tests of the library on concrete values.
- `app/` — the `cta` command line: argument handling, file I/O and JSON
  (de)serialisation around the library.

Verify with Verus from this directory, e.g. `verus --crate-type lib src/lib.rs`
with the outside crates on the library path.
