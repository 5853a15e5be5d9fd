//! Normalization by evaluation for a closed untyped lambda calculus.
//!
//! A term is evaluated into a semantic value domain in which un-reduced
//! beta-redexes cannot be represented, and the resulting value is quoted
//! back into syntax; the composite is the term's beta-normal form. Two
//! evaluator backends realize the same algorithm under different memory
//! ownership regimes: one keeps all values in a growing arena addressed
//! by handles, the other shares individually allocated values through
//! reference counting. Both are verified against one mathematical
//! semantics, so they agree on every input.

pub mod domain;
pub mod domain_rc;
pub mod index;
pub mod laws;
pub mod semantics;
pub mod syntax;
