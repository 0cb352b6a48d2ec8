//! Finds the third-party modules a Python script imports, checks them against a
//! package index, and renders a container build file for the script.
//!
//! Everything here is pure computation over strings; reading files, querying the
//! index and running the container toolchain is left to the caller.
pub mod text;
pub mod imports;
pub mod modules;
pub mod registry;
pub mod template;
pub mod container;
