pub mod options;
pub mod pipeline;
