//! Build a report as clear as possible as to why
//! dependency solving failed.

use crate::internal::incompatibility::{IncompatibilityView, KindView, all_hold, terms_view};
use crate::package::Package;
use crate::range::Range;
use crate::term::{Term, TermView};
use crate::version::Version;
use vstd::prelude::*;

verus! {

/// Derivation tree resulting in the impossibility
/// to solve the dependencies of our root package.
pub enum DerivationTree<P: Package, V: Version> {
    /// External incompatibility.
    External(External<P, V>),
    /// Incompatibility derived from two others.
    Derived(Derived<P, V>),
}

/// Incompatibilities that are not derived from others,
/// they have their own reason.
pub enum External<P: Package, V: Version> {
    /// Initial incompatibility aiming at picking the root package for the first decision.
    NotRoot(P, V),
    /// There are no versions in the given range for this package.
    NoVersions(P, Range<V>),
    /// Dependencies of the package are unavailable for versions in that range.
    UnavailableDependencies(P, Range<V>),
    /// Incompatibility coming from the dependencies of a given package.
    FromDependencyOf(P, Range<V>, P, Range<V>),
}

/// Incompatibility derived from two others.
pub struct Derived<P: Package, V: Version> {
    /// Terms of the incompatibility.
    pub terms: Vec<(P, Term<V>)>,
    /// Indicate if that incompatibility is present multiple times
    /// in the derivation tree.
    /// If that is the case, it has a unique id, provided in that option.
    /// Then, we may want to only explain it once,
    /// and refer to the explanation for the other times.
    pub shared_id: Option<usize>,
    /// First cause.
    pub cause1: Box<DerivationTree<P, V>>,
    /// Second cause.
    pub cause2: Box<DerivationTree<P, V>>,
}

/// What an external incompatibility says.
pub ghost enum ExternalView<K> {
    NotRoot(K, nat),
    NoVersions(K, Set<nat>),
    UnavailableDependencies(K, Set<nat>),
    FromDependencyOf(K, Set<nat>, K, Set<nat>),
}

/// What a derivation tree says.
pub ghost enum TreeView<K> {
    External(ExternalView<K>),
    Derived {
        terms: Seq<(K, TermView)>,
        shared_id: Option<nat>,
        cause1: Box<TreeView<K>>,
        cause2: Box<TreeView<K>>,
    },
}

impl<P: Package, V: Version> View for External<P, V> {
    type V = ExternalView<P::V>;

    open spec fn view(&self) -> ExternalView<P::V> {
        match self {
            External::NotRoot(p, v) => ExternalView::NotRoot(p@, v@),
            External::NoVersions(p, r) => ExternalView::NoVersions(p@, r@),
            External::UnavailableDependencies(p, r) => ExternalView::UnavailableDependencies(
                p@,
                r@,
            ),
            External::FromDependencyOf(p, r, d, dr) => ExternalView::FromDependencyOf(
                p@,
                r@,
                d@,
                dr@,
            ),
        }
    }
}

impl<P: Package, V: Version> DerivationTree<P, V> {
    /// What the tree says, node by node.
    pub open spec fn shape(&self) -> TreeView<P::V>
        decreases self,
    {
        match self {
            DerivationTree::External(e) => TreeView::External(e@),
            DerivationTree::Derived(d) => TreeView::Derived {
                terms: terms_view(d.terms@),
                shared_id: match d.shared_id {
                    Some(id) => Some(id as nat),
                    None => None,
                },
                cause1: Box::new(d.cause1.shape()),
                cause2: Box::new(d.cause2.shape()),
            },
        }
    }
}

impl<P: Package, V: Version> View for DerivationTree<P, V> {
    type V = TreeView<P::V>;

    open spec fn view(&self) -> TreeView<P::V> {
        self.shape()
    }
}

/// The external incompatibility that a kind stands for, if it is not derived.
pub open spec fn external_of<K>(kind: KindView<K>) -> Option<ExternalView<K>> {
    match kind {
        KindView::NotRoot(p, v) => Some(ExternalView::NotRoot(p, v)),
        KindView::NoVersions(p, r) => Some(ExternalView::NoVersions(p, r)),
        KindView::UnavailableDependencies(p, r) => Some(
            ExternalView::UnavailableDependencies(p, r),
        ),
        KindView::FromDependencyOf(p, r, d, dr) => Some(
            ExternalView::FromDependencyOf(p, r, d, dr),
        ),
        KindView::DerivedFrom(_, _) => None,
    }
}

/// The terms of an external incompatibility. That a package is not the root
/// at its version; that a package is in a range without versions, or in a
/// range of versions without known dependencies; that a package is in a range
/// and its dependency is not in the range that is needed. Of a dependency, a
/// term that would always be true is left out, and a package that depends on
/// itself gets the intersection of the two terms.
pub open spec fn leaf_terms<K>(external: ExternalView<K>) -> Seq<(K, TermView)> {
    match external {
        ExternalView::NotRoot(p, v) => seq![(p, TermView::Negative(set![v]))],
        ExternalView::NoVersions(p, r) => seq![(p, TermView::Positive(r))],
        ExternalView::UnavailableDependencies(p, r) => seq![(p, TermView::Positive(r))],
        ExternalView::FromDependencyOf(p, r, d, dr) => if d == p {
            seq![(p, TermView::Positive(r).intersect(TermView::Negative(dr)))]
        } else if dr == Set::<nat>::empty() {
            seq![(p, TermView::Positive(r))]
        } else {
            seq![(p, TermView::Positive(r)), (d, TermView::Negative(dr))]
        },
    }
}

/// Whether a selection breaks one of the external incompatibilities at the
/// leaves of a tree.
pub open spec fn breaks_a_leaf<K>(tree: TreeView<K>, selection: Map<K, nat>) -> bool
    decreases tree,
{
    match tree {
        TreeView::External(external) => all_hold(leaf_terms(external), selection),
        TreeView::Derived { cause1, cause2, .. } => breaks_a_leaf(*cause1, selection)
            || breaks_a_leaf(*cause2, selection),
    }
}

/// Whether the incompatibility at `i` is what the rule of resolution on
/// package `p` gives from those at `a` and `b`.
pub open spec fn is_resolution<K>(
    store: Seq<IncompatibilityView<K>>,
    i: int,
    a: nat,
    b: nat,
    p: K,
) -> bool {
    &&& store[a as int].has(p)
    &&& store[b as int].has(p)
    &&& store[i].terms == store[a as int].resolved_with(store[b as int], p)
}

/// Whether the incompatibility at `i` has no package twice, and has the
/// terms that its origin gives: those of an external incompatibility, or
/// those that the rule of resolution gives from its two causes, which stand
/// before it.
pub open spec fn sound_at<K>(store: Seq<IncompatibilityView<K>>, i: int) -> bool {
    &&& store[i].distinct()
    &&& match store[i].kind {
        KindView::DerivedFrom(a, b) => a < i && b < i && exists|p: K| #[trigger]
            is_resolution(store, i, a, b, p),
        kind => store[i].terms == leaf_terms(external_of(kind)->0),
    }
}

/// Whether every incompatibility of the store has the terms that its origin
/// gives.
pub open spec fn sound<K>(store: Seq<IncompatibilityView<K>>) -> bool {
    forall|i: int| 0 <= i < store.len() ==> #[trigger] sound_at(store, i)
}

/// One more incompatibility with the terms that its origin gives keeps the
/// store sound.
pub proof fn lemma_sound_push<K>(store: Seq<IncompatibilityView<K>>, incompat: IncompatibilityView<K>)
    requires
        sound(store),
        sound_at(store.push(incompat), store.len() as int),
    ensures
        sound(store.push(incompat)),
{
    let more = store.push(incompat);
    assert forall|i: int| 0 <= i < more.len() implies #[trigger] sound_at(more, i) by {
        if i < store.len() {
            assert(sound_at(store, i));
            if let KindView::DerivedFrom(a, b) = store[i].kind {
                let p = choose|p: K| #[trigger] is_resolution(store, i, a, b, p);
                assert(is_resolution(more, i, a, b, p));
            }
        }
    }
}

/// The derivation tree of an incompatibility explains it: a selection that
/// breaks the incompatibility breaks one of the external incompatibilities at
/// the leaves of its tree.
pub proof fn law_tree_explains<K>(
    store: Seq<IncompatibilityView<K>>,
    id: nat,
    shared: Set<nat>,
    selection: Map<K, nat>,
)
    requires
        sound(store),
        id < store.len(),
        all_hold(store[id as int].terms, selection),
    ensures
        breaks_a_leaf(tree_of(store, id, shared), selection),
    decreases id,
{
    assert(sound_at(store, id as int));
    match store[id as int].kind {
        KindView::DerivedFrom(a, b) => {
            let p = choose|p: K| #[trigger] is_resolution(store, id as int, a, b, p);
            assert(sound_at(store, a as int));
            assert(sound_at(store, b as int));
            store[a as int].law_resolution_sound(store[b as int], p, selection);
            if all_hold(store[a as int].terms, selection) {
                law_tree_explains(store, a, shared, selection);
            } else {
                law_tree_explains(store, b, shared, selection);
            }
        },
        _ => {},
    }
}

/// The derivation tree of a terminal incompatibility explains why there is
/// no solution: whatever is selected with the root package at the root
/// version breaks one of the external incompatibilities at its leaves.
pub proof fn law_terminal_explained<K>(
    store: Seq<IncompatibilityView<K>>,
    id: nat,
    shared: Set<nat>,
    root_package: K,
    root_version: nat,
)
    requires
        sound(store),
        id < store.len(),
        store[id as int].is_terminal(root_package, root_version),
    ensures
        forall|selection: Map<K, nat>|
            crate::internal::incompatibility::chosen(selection, root_package) == Some(
                root_version,
            ) ==> #[trigger] breaks_a_leaf(tree_of(store, id, shared), selection),
{
    let terms = store[id as int].terms;
    assert forall|selection: Map<K, nat>|
        crate::internal::incompatibility::chosen(selection, root_package) == Some(
            root_version,
        ) implies #[trigger] breaks_a_leaf(tree_of(store, id, shared), selection) by {
        assert forall|i: int| 0 <= i < terms.len() implies #[trigger]
            crate::internal::incompatibility::holds(terms[i], selection) by {}
        law_tree_explains(store, id, shared, selection);
    }
}

/// Whether the causes of every derived incompatibility of the store stand
/// before it.
pub open spec fn causes_precede<K>(store: Seq<IncompatibilityView<K>>) -> bool {
    forall|i: int|
        0 <= i < store.len() ==> ((#[trigger] store[i]).kind matches KindView::DerivedFrom(a, b)
            ==> a < i && b < i)
}

/// The derivation tree of the incompatibility at `id`: a leaf for an
/// external incompatibility; for a derived one a node with its terms, its
/// identifier if it is among the shared ones, and the trees of its two
/// causes.
pub open spec fn tree_of<K>(store: Seq<IncompatibilityView<K>>, id: nat, shared: Set<nat>) -> TreeView<
    K,
>
    decreases id,
{
    match store[id as int].kind {
        KindView::DerivedFrom(a, b) => {
            if a < id && b < id {
                TreeView::Derived {
                    terms: store[id as int].terms,
                    shared_id: if shared.contains(id) {
                        Some(id)
                    } else {
                        None
                    },
                    cause1: Box::new(tree_of(store, a, shared)),
                    cause2: Box::new(tree_of(store, b, shared)),
                }
            } else {
                arbitrary()
            }
        },
        kind => TreeView::External(external_of(kind)->0),
    }
}

/// Whether the incompatibility at `x` is the one at `root` or one of the
/// causes, near or far, from which that one was derived.
pub open spec fn reaches<K>(store: Seq<IncompatibilityView<K>>, root: nat, x: nat) -> bool
    decreases root,
{
    root == x || (store[root as int].kind matches KindView::DerivedFrom(a, b) && a < root && b
        < root && (reaches(store, a, x) || reaches(store, b, x)))
}

/// The incompatibilities that the one at `root` comes from, itself included.
pub open spec fn reached<K>(store: Seq<IncompatibilityView<K>>, root: nat) -> Set<nat> {
    Set::new(|q: nat| reaches(store, root, q))
}

/// How many times an incompatibility names the one at `x` as a cause.
pub open spec fn names<K>(incompat: IncompatibilityView<K>, x: nat) -> nat {
    match incompat.kind {
        KindView::DerivedFrom(a, b) => (if a == x {
            1nat
        } else {
            0nat
        }) + (if b == x {
            1nat
        } else {
            0nat
        }),
        _ => 0,
    }
}

/// How many times the incompatibilities of a set that stand below index `m`
/// name the one at `x` as a cause.
pub open spec fn named<K>(store: Seq<IncompatibilityView<K>>, among: Set<nat>, x: nat, m: nat) -> nat
    decreases m,
{
    if m == 0 {
        0
    } else {
        named(store, among, x, (m - 1) as nat) + if among.contains((m - 1) as nat) {
            names(store[m - 1], x)
        } else {
            0
        }
    }
}

/// The derived incompatibilities that are named as a cause more than once
/// among those that the incompatibility at `root` comes from.
pub open spec fn shared_causes<K>(store: Seq<IncompatibilityView<K>>, root: nat) -> Set<nat> {
    Set::new(
        |x: nat|
            x < store.len() && store[x as int].kind is DerivedFrom && named(
                store,
                reached(store, root),
                x,
                store.len(),
            ) >= 2,
    )
}

/// The identifiers of a set, as numbers.
pub open spec fn ids(set: Set<usize>) -> Set<nat> {
    Set::new(|n: nat| n <= usize::MAX && set.contains(n as usize))
}

} // verus!
