//! Tools for working on the editor itself.

pub mod git;
