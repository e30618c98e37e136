# semcode

The rules of a source-code index, verified with Verus: what is kept of functions, types,
commits and archived mail, how it is looked up again, and how the tables that hold it are
laid out and kept healthy.

- `src/` is the library. Each function states in its contract what it returns; functions
  named `law_...` state what holds of several of them together.
- `app/` drives the library: it reads repositories with `gix`, keeps the tables in LanceDB,
  runs the worker threads and prints reports. Where a decision alternates with reading or
  writing, the library holds a small state machine (`GitLookup`, `CallChain`, `CallerSearch`,
  `LoreSearch`, `CommitPipeline`, `LorePipeline`, `OptimizationCheck`, `Recreation`) and `app/` carries out its steps.
- `tests/` runs the library on concrete values.

What is not proved is said where it stands: the wrappers round `regex`, `chrono`,
`serde_json` and a few functions of the standard library, each with a comment on what its
contract claims.
