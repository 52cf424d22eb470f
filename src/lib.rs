//! Normalisation of untyped lambda-calculus terms.
pub mod canon;
pub mod machine;
pub mod name_gen;
pub mod parser;
pub mod subst;
pub mod term;
mod text;
