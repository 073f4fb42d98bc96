# arroyo_control

Verified planning and control logic for a stream-processing platform with
its own topic store, written in Verus. Every function under `src/` carries a
contract that Verus proves; the few calls into other crates (regular
expressions, the PRQL compiler, UUIDs, the clock, Unicode case mapping) sit
behind small trusted wrappers whose contracts say what those crates promise.

Layout:

- `src/` — the library.
  - `scaling`, `rescaling`: rescaling plans for a job's operators and the
    state machine that drives a rescale through its phases.
  - `partition`, `quota`, `health`, `alert`, `migrate`, `permission`,
    `topic_admin`, `topic_ddl`: topic administration — partition placement
    (round robin, rack aware, load based) and migration plans, quotas,
    health judgements, alert rules and queries, topic migration progress,
    access levels, and the `CREATE/ALTER/DROP TOPIC` statements.
  - `source`, `sink`: the decisions of the topic source and sink operators
    (start offsets, record routing, transactions) as step functions.
  - `logical_plan`, `optimizers`: a model of logical query plans and the
    join, predicate-pushdown and projection-pushdown optimizers over it.
  - `cep`, `operators`, `decimal`: complex-event pattern matching, operator
    settings, and exact comparison of decimal numbers.
  - `queue_dml`: `PRODUCE` and `CONSUME` statements written as common table
    expressions, and the messages a `PRODUCE` makes.
  - `prql`, `prql_syntax`: recognizing PRQL queries, taking out their
    extensions, and putting connectors into the compiled SQL.
  - `text`, `strmap`, `charclass`, `clock`: shared helpers and wrappers.
- `tests/` — tests of the library's public functions.
- `app/` — unverified services around the library: registries that keep
  floating-point figures (alert rules and events, load figures, client
  quotas), a health service that fetches metadata, and drivers that run
  topic statements, queue statements and rescalings. The source and sink
  step functions have no driver here.
