pub mod adapter;
pub mod change_laws;
pub mod config;
pub mod envelope;
pub mod envelope_laws;
pub mod field_mapping;
pub mod internal_events;
pub mod log_event;
pub mod matching_laws;
pub mod otlp;
pub mod otlp_adapter;
pub mod otlp_common;
pub mod otlp_log_adapter;
pub mod otlp_metric_adapter;
pub mod otlp_trace_adapter;
pub mod path;
pub mod record_laws;
pub mod selector;
pub mod surroundings_laws;
pub mod text;
pub mod tracestate;
pub mod transform;
pub mod value;
pub mod verdict;
pub mod vrl_bridge;
pub mod walk_laws;
