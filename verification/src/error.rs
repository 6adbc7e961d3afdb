//! Handling pubgrub errors.

use crate::package::Package;
use crate::report::{DerivationTree, TreeView};
use crate::version::Version;
use vstd::prelude::*;

verus! {

/// What went wrong when the solver had to give up for a reason of its own.
#[derive(Clone, Copy, Debug, PartialEq, Eq, Structural)]
pub enum Failure {
    /// A loop of the solver took more rounds than the step limit allows.
    StepLimit,
    /// The partial solution does not satisfy an incompatibility that was
    /// taken for a conflict.
    NoSatisfier,
    /// A version was chosen that has no successor, so that the range of
    /// exactly that version cannot be built.
    NoSuccessor,
    /// A version was chosen outside of the range that was allowed for it, or
    /// for a package that was not proposed.
    BadChoice,
}

/// Errors that may occur while solving dependencies.
pub enum PubGrubError<P: Package, V: Version> {
    /// There is no solution for this set of dependencies.
    NoSolution(DerivationTree<P, V>),
    /// Error arising when the implementer of the dependency provider
    /// returned an error when asked for the dependencies of a package.
    ErrorRetrievingDependencies {
        /// Package whose dependencies we want.
        package: P,
        /// Version of the package for which we want the dependencies.
        version: V,
        /// Error raised by the implementer of the dependency provider.
        source: String,
    },
    /// Error arising when the implementer of the dependency provider
    /// returned an error when asked to choose a package and a version.
    ErrorChoosingPackageVersion(String),
    /// Something unexpected happened.
    Failure(Failure),
}

/// What an error says.
pub ghost enum ErrorView<K> {
    NoSolution(TreeView<K>),
    ErrorRetrievingDependencies { package: K, version: nat, source: Seq<char> },
    ErrorChoosingPackageVersion(Seq<char>),
    Failure(Failure),
}

impl<P: Package, V: Version> View for PubGrubError<P, V> {
    type V = ErrorView<P::V>;

    open spec fn view(&self) -> ErrorView<P::V> {
        match self {
            PubGrubError::NoSolution(tree) => ErrorView::NoSolution(tree@),
            PubGrubError::ErrorRetrievingDependencies { package, version, source } => {
                ErrorView::ErrorRetrievingDependencies {
                    package: package@,
                    version: version@,
                    source: source@,
                }
            },
            PubGrubError::ErrorChoosingPackageVersion(source) => {
                ErrorView::ErrorChoosingPackageVersion(source@)
            },
            PubGrubError::Failure(f) => ErrorView::Failure(*f),
        }
    }
}

} // verus!
