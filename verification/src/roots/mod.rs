pub mod algebraic_number;
pub mod decode;
pub mod isolate;
pub mod squarefree;
