//! An interpreter for a small Racket-like expression language.

pub mod text;
pub mod parsing;
pub mod table;
pub mod evaluation;
pub mod session;
pub mod operator_laws;
pub mod expression_laws;
pub mod program_laws;
