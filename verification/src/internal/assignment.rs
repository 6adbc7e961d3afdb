//! Assignments are the building blocks of a PubGrub partial solution.
//! (partial solution = the current state of the solution we are building in the algorithm).

use crate::internal::incompatibility::{IncompId, Incompatibility, IncompatibilityView, store_view};
use crate::package::Package;
use crate::term::{Term, TermView};
use crate::version::Version;
use vstd::prelude::*;

verus! {

/// An assignment is either a decision: a chosen version for a package,
/// or a derivation : a term specifying compatible versions for a package.
/// We also record the incompatibility at the origin of a derivation, called its cause.
pub enum Assignment<P: Package, V: Version> {
    /// The decision.
    Decision {
        /// The package corresponding to the decision.
        package: P,
        /// The decided version.
        version: V,
    },
    /// The derivation.
    Derivation {
        /// The package corresponding to the derivation.
        package: P,
        /// Incompatibility cause of the derivation.
        cause: IncompId,
    },
}

/// What an assignment says, over the identity of its package.
pub ghost enum AssignmentView<K> {
    Decision { package: K, version: nat },
    Derivation { package: K, cause: nat },
}

impl<K> AssignmentView<K> {
    /// The package of the assignment.
    pub open spec fn package(self) -> K {
        match self {
            AssignmentView::Decision { package, .. } => package,
            AssignmentView::Derivation { package, .. } => package,
        }
    }

    /// Whether the cause of a derivation stands in the store and speaks of
    /// the package.
    pub open spec fn grounded(self, store: Seq<IncompatibilityView<K>>) -> bool {
        self matches AssignmentView::Derivation { package, cause } ==> cause < store.len()
            && store[cause as int].has(package)
    }

    /// The term that the assignment asserts: exactly the decided version, or
    /// the negation of the term that the cause has for the package.
    pub open spec fn as_term(self, store: Seq<IncompatibilityView<K>>) -> TermView {
        match self {
            AssignmentView::Decision { version, .. } => TermView::exact(version),
            AssignmentView::Derivation { package, cause } => store[cause as int].term(
                package,
            ).negate(),
        }
    }
}

impl<P: Package, V: Version> View for Assignment<P, V> {
    type V = AssignmentView<P::V>;

    open spec fn view(&self) -> AssignmentView<P::V> {
        match self {
            Assignment::Decision { package, version } => AssignmentView::Decision {
                package: package@,
                version: version@,
            },
            Assignment::Derivation { package, cause } => AssignmentView::Derivation {
                package: package@,
                cause: *cause as nat,
            },
        }
    }
}

impl<P: Package, V: Version> Clone for Assignment<P, V> {
    fn clone(&self) -> (a: Self)
        ensures
            a@ == self@,
            a.usable() == self.usable(),
    {
        match self {
            Assignment::Decision { package, version } => Assignment::Decision {
                package: package.duplicate(),
                version: *version,
            },
            Assignment::Derivation { package, cause } => Assignment::Derivation {
                package: package.duplicate(),
                cause: *cause,
            },
        }
    }
}

impl<P: Package, V: Version> Assignment<P, V> {
    /// Whether the term of the assignment can be built: the version of a
    /// decision must have a successor.
    pub open spec fn usable(&self) -> bool {
        self matches Assignment::Decision { version, .. } ==> version.has_successor()
    }

    /// Return the package for this assignment
    pub fn package(&self) -> (p: &P)
        ensures
            p@ == self@.package(),
    {
        match self {
            Assignment::Decision { package, .. } => package,
            Assignment::Derivation { package, .. } => package,
        }
    }

    /// Retrieve the current assignment as a [Term].
    /// If this is decision, it returns a positive term with that exact version.
    /// Otherwise, if this is a derivation, just returns its term.
    pub fn as_term(&self, store: &Vec<Incompatibility<P, V>>) -> (t: Term<V>)
        requires
            self.usable(),
            self@.grounded(store_view(store@)),
        ensures
            t@ == self@.as_term(store_view(store@)),
    {
        match self {
            Assignment::Decision { version, .. } => Term::exact(*version),
            Assignment::Derivation { package, cause } => {
                assert(store_view(store@)[*cause as int] == store@[*cause as int]@);
                match store[*cause].get(package) {
                    Some(term) => term.negate(),
                    None => {
                        proof {
                            assert(false);
                        }
                        Term::any()
                    },
                }
            },
        }
    }
}

} // verus!
