//! Detection of dangling references: references to scope-bound values that are
//! returned from a function or stored into a longer-lived binding.
//!
//! The pipeline has three stages. [`scope`] turns a function's statement
//! sequence into a tree of lexical scopes, [`escape`] checks every point where
//! a reference leaves a scope against that tree, and [`report`] turns the
//! resulting findings into a verdict and into messages. [`analysis::analyze`]
//! runs all three.
pub mod ast;
pub mod scope;
pub mod escape;
pub mod report;
pub mod analysis;
pub mod samples;
pub mod laws;
