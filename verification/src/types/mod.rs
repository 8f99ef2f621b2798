pub mod arith;
pub mod bigint;
pub mod bytes;
pub mod chunks;
pub mod hash;
pub mod id_set;
pub mod ids;
pub mod interval;
pub mod monomial;
pub mod polynomial;
pub mod rational;
pub mod text;
pub mod univariate;
pub mod matrix;
pub mod uni_values;
