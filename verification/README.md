# dual_optimistic

Verified core of a dual-optimistic layer-2 pipeline: a DAG consensus with waves of three
rounds whose soft commits let execution start one message delay before the hard commit.

- `src/` is the library. Every item in it is verified with Verus.
  - Blocks and their digests: `types`, `commit`, `hashing`, `text`
  - Committee and votes: `committee`, `stake_aggregator`, `threshold_clock`, `soft_commit`
  - The DAG: `ordered`, `causal`, `dag_state`, `dag_laws`, `block_manager`
  - Deciding leaders: `base_committer`, `universal_committer`, `linearizer`, `agreement`
  - One validator: `context`, `node`, `node_laws`, `replay`, `node_config`
  - Between consensus and execution: `shared`, `scheduler`, `executor`, `commit_log`,
    `shadow_state`
  - Simulation and measurement: `sim`, `testkit`, `latency`
- `tests/` runs the library.
- `app/` wires it to channels, tasks, clocks and the environment.

Proof functions named `law_*` state what holds across functions and calls.
