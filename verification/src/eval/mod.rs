//! Evaluation of pooled expressions.
pub mod hoas;
