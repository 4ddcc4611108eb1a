# fusiongraph

A graph kernel for query engines, written in Verus: CSR storage with
micro-sharding, a delta layer for live edge mutations, breadth-first and
direction-optimizing traversals, ontology schemas, a circuit breaker, and the
decision logic of the DataFusion operators built on top of them. Verus
checks every function under `src/` against its `requires`/`ensures`
contract; the two functions that return a boxed `dyn SimdBackend`
(`select_backend_for`, `select_backend`) carry none, because Verus accepts
no `ensures` on such a result. The backends they return each state their
name and block size.

## Layout

- `src/` — the verified library.
  - `csr`, `compaction`, `delta`: graph storage, building, transposition and
    compaction of pending edits.
  - `bitset`, `simd`, `bfs`, `dobfs`, `traversal`: visited sets, frontier
    filtering kernels and the traversals.
  - `ontology`, `dictionary`, `gen`, `circuit_breaker`: schema validation,
    string interning, synthetic graphs, failure isolation.
  - `engine`, `build_exec`, `traversal_exec`, `catalog`, `provider`,
    `loader`, `ffi`: what the query-engine operators decide, over plain
    values.
- `tests/` — scenario tests and concrete instances of the proved laws.
- `app/` — the DataFusion and Arrow glue: execution plans, table providers,
  table functions, ontology file parsing, Arrow C data interface, CPU feature
  detection (std's detection macro cannot stand in `src/`, so the library's
  own `select_backend` is the portable scalar default and `app/` picks by
  CPU through `select_backend_for`).

Calls into outside crates (`dashmap`, `num_cpus`, std's clock) go through a
small set of trusted wrappers whose doc comments say what is assumed of them.
