//! Semantic analysis for LMNtal documents: link linearity checking, semantic
//! tokens, a document outline and a position-indexed reference table.

pub mod analysis;
pub mod config;
pub mod diagnostic;
pub mod reference;
pub mod span;
pub mod symbol;
pub mod syntax;
