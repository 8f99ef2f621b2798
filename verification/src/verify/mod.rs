pub mod certificates;
pub mod run_certificate;
