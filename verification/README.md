# neurofinance

The verified core of a research platform that asks whether a dynamically
learned topology of financial entities carries predictive information.
Everything in `src/` is checked by Verus against its `requires`/`ensures`
contracts; the proofs of the library's laws stand beside the functions they
speak of.

## Layout

- `src/` — the verified library:
  - `point_in_time` — the point-in-time dataset: records sorted by
    availability and readable only "as of" a time, never past it.
  - `graph` — the sparse multi-relational graph over entities, with its
    well-formedness invariant; `components`, `sector`, `topk`,
    `correlation`, `regularization` build and analyse such graphs.
  - `persistence` — entity-keyed edge identities, topology diffs, and the
    bookkeeping of persisted topologies across updates.
  - `walk_forward`, `rolling`, `series`, `training` — time-ordered
    evaluation splits, causal trailing windows, per-symbol series order and
    mini-batch boundaries.
  - `baseline`, `metrics`, `mlp`, `regime`, `synthetic` — class-index
    baselines, classification tallies, model capacity arithmetic, market
    regimes and the integer shape of the synthetic universe.
  - `identifiers`, `timestamp`, `config` — identities, UTC instants and
    plain configuration records.
- `tests/` — tests of the library on concrete values.
- `app/` — the program around the library: configuration loading, the
  command line, record types with real-valued fields, floating-point
  features and metrics, the random synthetic market generator, and the
  neural model on the `burn` tensor library.
