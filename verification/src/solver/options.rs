//! Solver options.
use vstd::prelude::*;

verus! {

#[derive(Debug, Clone, PartialEq, Eq)]
pub struct SolverOptions {
    pub exact_image_mode: bool,
    pub max_memory_bytes: Option<u64>,
    pub max_matrix_rows: Option<usize>,
    pub max_matrix_cols: Option<usize>,
    pub max_coefficient_height_bits: Option<usize>,
    pub max_relation_search_export_degree: Option<usize>,
    pub root_isolation_method: RootIsolationMethod,
    pub certificate_level: CertificateLevel,
}

#[derive(Debug, Clone, Copy, PartialEq, Eq, Structural)]
pub enum RootIsolationMethod {
    Sturm,
    Descartes,
}

#[derive(Debug, Clone, Copy, PartialEq, Eq, Structural)]
pub enum CertificateLevel {
    Minimal,
    Full,
}

impl Default for SolverOptions {
    fn default() -> (o: Self)
        ensures
            !o.exact_image_mode,
            o.max_memory_bytes is None,
            o.max_matrix_rows is None,
            o.max_matrix_cols is None,
            o.max_coefficient_height_bits is None,
            o.max_relation_search_export_degree is None,
            o.root_isolation_method == RootIsolationMethod::Sturm,
            o.certificate_level == CertificateLevel::Minimal,
    {
        SolverOptions {
            exact_image_mode: false,
            max_memory_bytes: None,
            max_matrix_rows: None,
            max_matrix_cols: None,
            max_coefficient_height_bits: None,
            max_relation_search_export_degree: None,
            root_isolation_method: RootIsolationMethod::Sturm,
            certificate_level: CertificateLevel::Minimal,
        }
    }
}

} // verus!
