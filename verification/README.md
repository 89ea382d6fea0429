# policy_transform

A pipeline transform that lets a policy engine decide which log records, metrics and spans are
kept, dropped, sampled or rate-limited, and change their fields on the way. The rules around the
engine are verified with Verus.

- `flat` mode takes an event as one log record; a field mapping says where its fields are.
- `otel` mode takes an event as an OTLP envelope and walks its records one by one. Scopes and
  resources that lose all their records are pruned. A logs envelope that loses all its records
  is dropped, and so is any envelope with no resources left.

A failed evaluation never drops a record.

## Layout

- `src/value.rs`, `src/path.rs`, `src/text.rs`: the data model, paths into it, and text.
- `src/vrl_bridge.rs`: the calls into `vrl`, with the contracts that are taken on trust.
- `src/adapter.rs`, `src/field_mapping.rs`, `src/log_event.rs`: flat log events.
- `src/otlp_common.rs`, `src/otlp_log_adapter.rs`, `src/otlp_adapter.rs`,
  `src/otlp_metric_adapter.rs`, `src/otlp_trace_adapter.rs`, `src/tracestate.rs`: what policies
  read and change of a record in an envelope.
- `src/envelope.rs`: the walk through an envelope; `src/envelope_laws.rs`,
  `src/surroundings_laws.rs` and `src/record_laws.rs`: what holds of it as a whole.
- `src/otlp.rs`: trace and span identifiers between raw bytes and hex.
- `src/config.rs`, `src/transform.rs`, `src/verdict.rs`, `src/internal_events.rs`: settings,
  routing, verdicts and reports.
- `app/`: the configuration format, the policy engine and the stream of events.
