pub mod semantic;
pub mod context;
pub mod input;
pub mod validate;
pub mod canonicalize;
