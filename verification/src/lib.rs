//! A version solver built on the PubGrub algorithm.
//!
//! Given a root package and a source of dependency information, the solver
//! either selects one version for every package that is transitively needed,
//! or explains through a derivation tree why no such selection exists.
//!
//! The entry point is [solver::resolve]. Dependencies come from an
//! implementation of [solver::DependencyProvider], such as
//! [solver::OfflineDependencyProvider]. Sets of versions are [range::Range]s,
//! and what is asserted of the version of a package is a [term::Term].
//!
//! Every function has a contract that says what it returns, in terms of the
//! views of its arguments: a set of positions for a range, a sequence of
//! dated assignments for a partial solution, and so on. The functions are
//! verified against their contracts with Verus.

pub mod error;
pub mod internal;
pub mod package;
pub mod range;
pub mod report;
pub mod solver;
pub mod term;
pub mod version;
