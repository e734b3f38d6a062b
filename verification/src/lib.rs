//! Drives external command-line debuggers through textual scripts and checks
//! their console output against expected patterns.
//!
//! The crate synthesizes one batch script per debugger backend from an
//! abstract sequence of directives, brackets the output of each command group
//! with correlation markers, partitions the captured output back into spans by
//! those markers, and matches each span against its checks to build a
//! pass/fail/error verdict.

use vstd::prelude::*;

pub mod debugger;
pub mod directive;
pub mod kind;
pub mod laws;
pub mod outcome;
pub mod setup;
pub mod text;
pub mod version;

verus! {

} // verus!
