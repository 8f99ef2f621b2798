pub mod diagnostics;
pub mod status;
pub mod cost_trace;
