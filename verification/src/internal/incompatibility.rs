//! An incompatibility is a set of terms for different packages
//! that should never be satisfied all together.

use crate::package::Package;
use crate::range::Range;
use crate::report::{
    DerivationTree, Derived, External, causes_precede, external_of, ids, leaf_terms, tree_of,
};
use crate::term;
use crate::term::{Term, TermView};
use crate::version::Version;
use std::collections::HashSet;
use vstd::prelude::*;

verus! {

/// Unique identifier of an incompatibility: its position in the store that
/// holds all of them.
pub type IncompId = usize;

/// An incompatibility is a set of terms for different packages
/// that should never be satisfied all together.
/// An incompatibility usually originates from a package dependency.
/// For example, if package A at version 1 depends on package B
/// at version 2, you can never have both terms `A = 1`
/// and `not B = 2` satisfied at the same time in a partial solution.
/// This would mean that we found a solution with package A at version 1
/// but not with package B at version 2.
/// Yet A at version 1 depends on B at version 2 so this is not possible.
/// Therefore, the set `{ A = 1, not B = 2 }` is an incompatibility,
/// defined from dependencies of A at version 1.
///
/// Incompatibilities can also be derived from two other incompatibilities
/// during conflict resolution.
pub struct Incompatibility<P: Package, V: Version> {
    package_terms: Vec<(P, Term<V>)>,
    kind: Kind<P, V>,
}

/// Where an incompatibility comes from.
pub enum Kind<P: Package, V: Version> {
    /// Initial incompatibility aiming at picking the root package for the first decision.
    NotRoot(P, V),
    /// There are no versions in the given range for this package.
    NoVersions(P, Range<V>),
    /// Dependencies of the package are unavailable for versions in that range.
    UnavailableDependencies(P, Range<V>),
    /// Incompatibility coming from the dependencies of a given package.
    FromDependencyOf(P, Range<V>, P, Range<V>),
    /// Derived from two causes. Stores cause ids.
    DerivedFrom(IncompId, IncompId),
}

/// What a kind says, over the identities of packages and the positions of
/// versions.
pub ghost enum KindView<K> {
    NotRoot(K, nat),
    NoVersions(K, Set<nat>),
    UnavailableDependencies(K, Set<nat>),
    FromDependencyOf(K, Set<nat>, K, Set<nat>),
    DerivedFrom(nat, nat),
}

/// What an incompatibility says: its terms, package by package, and its
/// origin.
pub ghost struct IncompatibilityView<K> {
    pub terms: Seq<(K, TermView)>,
    pub kind: KindView<K>,
}

/// A type alias for a pair of [Package] and a corresponding [Term].
pub type PackageTerm<P, V> = (P, Term<V>);

/// A Relation describes how a set of terms can be compared to an incompatibility.
/// Typically, the set of terms comes from the partial solution.
pub enum Relation<P: Package, V: Version> {
    /// We say that a set of terms S satisfies an incompatibility I
    /// if S satisfies every term in I.
    Satisfied,
    /// We say that S contradicts I
    /// if S contradicts at least one term in I.
    /// It comes with the first term of I that S contradicts, and its package.
    Contradicted(PackageTerm<P, V>),
    /// If S satisfies all but one of I's terms and is inconclusive for the remaining term,
    /// we say S "almost satisfies" I and we call the remaining term the "unsatisfied term".
    AlmostSatisfied(P),
    /// Otherwise, we say that their relation is inconclusive.
    Inconclusive,
}

/// A relation over the identity of the package.
pub ghost enum RelationView<K> {
    Satisfied,
    Contradicted((K, TermView)),
    AlmostSatisfied(K),
    Inconclusive,
}

impl<P: Package, V: Version> View for Relation<P, V> {
    type V = RelationView<P::V>;

    open spec fn view(&self) -> RelationView<P::V> {
        match self {
            Relation::Satisfied => RelationView::Satisfied,
            Relation::Contradicted(pt) => RelationView::Contradicted((pt.0@, pt.1@)),
            Relation::AlmostSatisfied(p) => RelationView::AlmostSatisfied(p@),
            Relation::Inconclusive => RelationView::Inconclusive,
        }
    }
}

impl<P: Package, V: Version> View for Kind<P, V> {
    type V = KindView<P::V>;

    open spec fn view(&self) -> KindView<P::V> {
        match self {
            Kind::NotRoot(p, v) => KindView::NotRoot(p@, v@),
            Kind::NoVersions(p, r) => KindView::NoVersions(p@, r@),
            Kind::UnavailableDependencies(p, r) => KindView::UnavailableDependencies(p@, r@),
            Kind::FromDependencyOf(p, r, d, dr) => KindView::FromDependencyOf(p@, r@, d@, dr@),
            Kind::DerivedFrom(a, b) => KindView::DerivedFrom(*a as nat, *b as nat),
        }
    }
}

/// The rule of resolution on the terms of two incompatibilities that both
/// speak of package `p`. For every other package the result holds its term,
/// or the intersection of its two terms where both speak of it. For `p` it
/// holds the union of the two terms, unless that union is always true.
pub open spec fn resolution<K>(a: Map<K, TermView>, b: Map<K, TermView>, p: K) -> Map<
    K,
    TermView,
> {
    let others = Map::new(
        |q: K| q != p && (a.dom().contains(q) || b.dom().contains(q)),
        |q: K|
            if a.dom().contains(q) && b.dom().contains(q) {
                a[q].intersect(b[q])
            } else if a.dom().contains(q) {
                a[q]
            } else {
                b[q]
            },
    );
    let t = a[p].union(b[p]);
    if t == TermView::any() {
        others
    } else {
        others.insert(p, t)
    }
}

/// The incompatibility that says that a package at a version depends on
/// another one in a range: the package at that version, and not the
/// dependency in that range. A term that would always be true is left out,
/// and a package that depends on itself gets the intersection of the two
/// terms.
pub open spec fn from_dependency_view<K>(package: K, version: nat, dep: K, range: Set<nat>) -> IncompatibilityView<
    K,
> {
    IncompatibilityView {
        terms: if dep == package {
            seq![
                (
                    package,
                    TermView::Positive(set![version]).intersect(TermView::Negative(range)),
                ),
            ]
        } else if range == Set::<nat>::empty() {
            seq![(package, TermView::Positive(set![version]))]
        } else {
            seq![(package, TermView::Positive(set![version])), (dep, TermView::Negative(range))]
        },
        kind: KindView::FromDependencyOf(package, set![version], dep, range),
    }
}

/// The version selected for a package, if one is. A selection holds a
/// version for each package that is selected, and nothing for the others.
pub open spec fn chosen<K>(selection: Map<K, nat>, p: K) -> Option<nat> {
    if selection.dom().contains(p) {
        Some(selection[p])
    } else {
        None
    }
}

/// Whether the term of a package is true of a selection.
pub open spec fn holds<K>(term: (K, TermView), selection: Map<K, nat>) -> bool {
    term.1.accepts(chosen(selection, term.0))
}

/// Whether all terms are true of a selection. An incompatibility is broken
/// by a selection of which all its terms are true.
pub open spec fn all_hold<K>(terms: Seq<(K, TermView)>, selection: Map<K, nat>) -> bool {
    forall|i: int| 0 <= i < terms.len() ==> #[trigger] holds(terms[i], selection)
}

/// What is known for each term of a list: nothing, or a term.
pub open spec fn found_view<V: Version>(found: Seq<Option<Term<V>>>) -> Seq<Option<TermView>> {
    found.map_values(
        |o: Option<Term<V>>|
            match o {
                Some(t) => Some(t@),
                None => None,
            },
    )
}

/// The term that the rule of resolution gives to a package other than the
/// one it is applied on.
pub open spec fn merged_term<K>(a: Map<K, TermView>, b: Map<K, TermView>, q: K) -> TermView {
    if a.dom().contains(q) && b.dom().contains(q) {
        a[q].intersect(b[q])
    } else if a.dom().contains(q) {
        a[q]
    } else {
        b[q]
    }
}

/// Whether a package and its term are as the rule of resolution on `p` wants
/// them for another package.
spec fn merged_entry<K>(a: Map<K, TermView>, b: Map<K, TermView>, p: K, e: (K, TermView)) -> bool {
    &&& e.0 != p
    &&& a.dom().contains(e.0) || b.dom().contains(e.0)
    &&& e.1 == merged_term(a, b, e.0)
    &&& e.1 != TermView::any()
}

/// Whether the package stands in the list.
spec fn listed<K>(terms: Seq<(K, TermView)>, q: K) -> bool {
    exists|k: int| 0 <= k < terms.len() && (#[trigger] terms[k]).0 == q
}

/// Whether the package stands in the list below index `n`.
spec fn listed_below<K>(terms: Seq<(K, TermView)>, n: int, q: K) -> bool {
    exists|k: int| 0 <= k < n && k < terms.len() && (#[trigger] terms[k]).0 == q
}

/// Whether a package of the list stands below index `n` of the first list or
/// below index `m` of the second.
spec fn came_from<K>(
    a: Seq<(K, TermView)>,
    n: int,
    b: Seq<(K, TermView)>,
    m: int,
    e: (K, TermView),
) -> bool {
    listed_below(a, n, e.0) || listed_below(b, m, e.0)
}

/// The intersection of two terms is always true only if both are.
proof fn lemma_intersect_any(s: TermView, t: TermView)
    requires
        s.intersect(t) == TermView::any(),
    ensures
        s == TermView::any(),
        t == TermView::any(),
{
    match (s, t) {
        (TermView::Negative(a), TermView::Negative(b)) => {
            assert(a.union(b) == Set::<nat>::empty());
            assert forall|v: nat| !a.contains(v) && !b.contains(v) by {
                assert(!a.union(b).contains(v));
            }
            assert(a =~= Set::<nat>::empty());
            assert(b =~= Set::<nat>::empty());
        },
        _ => {},
    }
}

/// The rule of resolution on two incompatibilities of two terms each. For
/// any three different packages p1, p2 and p3, and any three terms t1, t2
/// and t3, the incompatibilities { p1: t1, p2: not t2 } and { p2: t2, p3: t3 }
/// give, resolved on p2, the incompatibility { p1: t1, p3: t3 }.
pub proof fn law_rule_of_resolution<K>(p1: K, p2: K, p3: K, t1: TermView, t2: TermView, t3: TermView)
    requires
        p1 != p2,
        p2 != p3,
        p1 != p3,
    ensures
        resolution(map![p1 => t1, p2 => t2.negate()], map![p2 => t2, p3 => t3], p2) == map![p1 => t1, p3 => t3],
{
    let a = map![p1 => t1, p2 => t2.negate()];
    let b = map![p2 => t2, p3 => t3];
    let r = resolution(a, b, p2);
    let u = a[p2].union(b[p2]);
    match t2 {
        TermView::Positive(x) => {
            assert(x.intersect(x.complement()) =~= Set::<nat>::empty());
        },
        TermView::Negative(x) => {
            assert(x.complement().intersect(x) =~= Set::<nat>::empty());
        },
    }
    assert(u == TermView::any());
    assert(r =~= map![p1 => t1, p3 => t3]);
}

impl<K> IncompatibilityView<K> {
    /// Whether the incompatibility has a term for the package.
    pub open spec fn has(self, p: K) -> bool {
        exists|i: int| 0 <= i < self.terms.len() && (#[trigger] self.terms[i]).0 == p
    }

    /// An index at which the term for the package stands.
    pub open spec fn position(self, p: K) -> int {
        choose|i: int| 0 <= i < self.terms.len() && (#[trigger] self.terms[i]).0 == p
    }

    /// The term for the package.
    pub open spec fn term(self, p: K) -> TermView {
        self.terms[self.position(p)].1
    }

    /// The terms as a map from packages.
    pub open spec fn as_map(self) -> Map<K, TermView> {
        Map::new(|p: K| self.has(p), |p: K| self.term(p))
    }

    /// No package has two terms.
    pub open spec fn distinct(self) -> bool {
        forall|i: int, j: int|
            #![trigger self.terms[i], self.terms[j]]
            0 <= i < j < self.terms.len() ==> self.terms[i].0 != self.terms[j].0
    }

    /// An incompatibility that is not derived has the terms that its origin
    /// gives.
    pub open spec fn by_kind(self) -> bool {
        external_of(self.kind) matches Some(external) ==> self.terms == leaf_terms(external)
    }

    /// No term is the one that is always true.
    pub open spec fn informative(self) -> bool {
        forall|i: int| 0 <= i < self.terms.len() ==> (#[trigger] self.terms[i]).1 != TermView::any()
    }

    /// How the term at index `k` relates to what was found for its package:
    /// nothing, or the intersection of the terms known for it.
    pub open spec fn relation_at(self, found: Seq<Option<TermView>>, k: int) -> term::Relation {
        match found[k] {
            Some(t) => self.terms[k].1.relation_with(t),
            None => term::Relation::Inconclusive,
        }
    }

    /// Whether all terms but the one at index `k` are satisfied, and that
    /// one is not.
    pub open spec fn lacks_only(self, found: Seq<Option<TermView>>, k: int) -> bool {
        &&& 0 <= k < self.terms.len()
        &&& self.relation_at(found, k) != term::Relation::Satisfied
        &&& forall|j: int|
            0 <= j < self.terms.len() && j != k ==> #[trigger] self.relation_at(found, j)
                == term::Relation::Satisfied
    }

    /// Whether the term at index `k` is contradicted, and none before it is.
    pub open spec fn first_contradicted(self, found: Seq<Option<TermView>>, k: int) -> bool {
        &&& 0 <= k < self.terms.len()
        &&& self.relation_at(found, k) == term::Relation::Contradicted
        &&& forall|j: int|
            0 <= j < k ==> #[trigger] self.relation_at(found, j) != term::Relation::Contradicted
    }

    /// The relation of the incompatibility with a set of terms, of which
    /// `found` gives for each term of the incompatibility what is known of
    /// its package. Contradicted if one term is, with the first such term in
    /// the order of the terms, and its package; satisfied if all are; almost
    /// satisfied if all but one are; else inconclusive.
    pub open spec fn relation(self, found: Seq<Option<TermView>>) -> RelationView<K> {
        if exists|k: int|
            0 <= k < self.terms.len() && #[trigger] self.relation_at(found, k)
                == term::Relation::Contradicted {
            RelationView::Contradicted(
                self.terms[choose|k: int| #[trigger] self.first_contradicted(found, k)],
            )
        } else if forall|k: int|
            0 <= k < self.terms.len() ==> #[trigger] self.relation_at(found, k)
                == term::Relation::Satisfied {
            RelationView::Satisfied
        } else if exists|k: int| #[trigger] self.lacks_only(found, k) {
            RelationView::AlmostSatisfied(
                self.terms[choose|k: int| #[trigger] self.lacks_only(found, k)].0,
            )
        } else {
            RelationView::Inconclusive
        }
    }

    /// Of the first `n` terms, those on other packages than `p`, each
    /// intersected with the term that `other` has for the same package where
    /// it has one.
    pub open spec fn merged_with(self, other: Self, p: K, n: nat) -> Seq<(K, TermView)>
        decreases n,
    {
        if n == 0 || n > self.terms.len() {
            Seq::empty()
        } else {
            let rest = self.merged_with(other, p, (n - 1) as nat);
            let e = self.terms[n - 1];
            if e.0 == p {
                rest
            } else if other.has(e.0) {
                rest.push((e.0, e.1.intersect(other.term(e.0))))
            } else {
                rest.push(e)
            }
        }
    }

    /// Of the first `n` terms, those on other packages than `p` for which
    /// `other` has no term.
    pub open spec fn lacking_in(self, other: Self, p: K, n: nat) -> Seq<(K, TermView)>
        decreases n,
    {
        if n == 0 || n > self.terms.len() {
            Seq::empty()
        } else {
            let rest = self.lacking_in(other, p, (n - 1) as nat);
            let e = self.terms[n - 1];
            if e.0 == p || other.has(e.0) {
                rest
            } else {
                rest.push(e)
            }
        }
    }

    /// The terms that the rule of resolution on package `p` gives from this
    /// incompatibility and another one: first those of this one, merged with
    /// those of the other; then those that only the other has; last the
    /// union of the two terms on `p`, unless it is always true.
    pub open spec fn resolved_with(self, other: Self, p: K) -> Seq<(K, TermView)> {
        let others = self.merged_with(other, p, self.terms.len()) + other.lacking_in(
            self,
            p,
            other.terms.len(),
        );
        let t = self.term(p).union(other.term(p));
        if t == TermView::any() {
            others
        } else {
            others.push((p, t))
        }
    }

    /// What a term becomes when merged with the terms of another
    /// incompatibility.
    pub open spec fn merged_entry(self, e: (K, TermView)) -> (K, TermView) {
        if self.has(e.0) {
            (e.0, e.1.intersect(self.term(e.0)))
        } else {
            e
        }
    }

    /// Each of the first `n` terms on another package than `p` stands
    /// merged among the merged terms.
    pub proof fn lemma_merged_has(self, other: Self, p: K, n: nat, i: int)
        requires
            0 <= i < n <= self.terms.len(),
            self.terms[i].0 != p,
        ensures
            self.merged_with(other, p, n).contains(other.merged_entry(self.terms[i])),
        decreases n,
    {
        let rest = self.merged_with(other, p, (n - 1) as nat);
        let all = self.merged_with(other, p, n);
        let e = other.merged_entry(self.terms[i]);
        if i == n - 1 {
            assert(all[all.len() - 1] == e);
        } else {
            self.lemma_merged_has(other, p, (n - 1) as nat, i);
            let k = choose|k: int| 0 <= k < rest.len() && rest[k] == e;
            assert(all[k] == e);
        }
    }

    /// Each of the first `n` terms on another package than `p`, for which
    /// `other` has no term, stands among the lacking terms.
    pub proof fn lemma_lacking_has(self, other: Self, p: K, n: nat, i: int)
        requires
            0 <= i < n <= self.terms.len(),
            self.terms[i].0 != p,
            !other.has(self.terms[i].0),
        ensures
            self.lacking_in(other, p, n).contains(self.terms[i]),
        decreases n,
    {
        let rest = self.lacking_in(other, p, (n - 1) as nat);
        let all = self.lacking_in(other, p, n);
        let e = self.terms[i];
        if i == n - 1 {
            assert(all[all.len() - 1] == e);
        } else {
            self.lemma_lacking_has(other, p, (n - 1) as nat, i);
            let k = choose|k: int| 0 <= k < rest.len() && rest[k] == e;
            assert(all[k] == e);
        }
    }

    /// The rule of resolution is sound: a selection that breaks what the rule
    /// gives from two incompatibilities breaks one of the two.
    #[verifier::rlimit(50)]
    pub proof fn law_resolution_sound(self, other: Self, p: K, selection: Map<K, nat>)
        requires
            self.distinct(),
            other.distinct(),
            self.has(p),
            other.has(p),
            all_hold(self.resolved_with(other, p), selection),
        ensures
            all_hold(self.terms, selection) || all_hold(other.terms, selection),
    {
        let resolved = self.resolved_with(other, p);
        let merged = self.merged_with(other, p, self.terms.len());
        let lacking = other.lacking_in(self, p, other.terms.len());
        let others = merged + lacking;
        let union = self.term(p).union(other.term(p));
        let choice = chosen(selection, p);
        TermView::law_accepts(self.term(p), other.term(p), choice);
        assert(union.accepts(choice)) by {
            if union != TermView::any() {
                assert(resolved[others.len() as int] == (p, union));
                assert(holds(resolved[others.len() as int], selection));
            }
        }
        assert forall|k: int| 0 <= k < others.len() implies holds(others[k], selection) by {
            assert(resolved[k] == others[k]);
            assert(holds(resolved[k], selection));
        }
        if self.term(p).accepts(choice) {
            assert forall|i: int| 0 <= i < self.terms.len() implies #[trigger] holds(
                self.terms[i],
                selection,
            ) by {
                let e = self.terms[i];
                self.lemma_term_at(i);
                if e.0 != p {
                    self.lemma_merged_has(other, p, self.terms.len(), i);
                    let m = other.merged_entry(e);
                    let k = choose|k: int| 0 <= k < merged.len() && merged[k] == m;
                    assert(others[k] == m);
                    assert(holds(others[k], selection));
                    if other.has(e.0) {
                        TermView::law_accepts(e.1, other.term(e.0), chosen(selection, e.0));
                    }
                }
            }
        } else {
            assert forall|j: int| 0 <= j < other.terms.len() implies #[trigger] holds(
                other.terms[j],
                selection,
            ) by {
                let e = other.terms[j];
                other.lemma_term_at(j);
                if e.0 != p {
                    if self.has(e.0) {
                        let i = self.position(e.0);
                        self.lemma_term_at(i);
                        self.lemma_merged_has(other, p, self.terms.len(), i);
                        let m = other.merged_entry(self.terms[i]);
                        let k = choose|k: int| 0 <= k < merged.len() && merged[k] == m;
                        assert(others[k] == m);
                        assert(holds(others[k], selection));
                        TermView::law_accepts(
                            self.terms[i].1,
                            other.term(e.0),
                            chosen(selection, e.0),
                        );
                    } else {
                        other.lemma_lacking_has(self, p, other.terms.len(), j);
                        let k = choose|k: int| 0 <= k < lacking.len() && lacking[k] == e;
                        assert(others[merged.len() + k] == e);
                        assert(holds(others[merged.len() + k], selection));
                    }
                }
            }
        }
    }

    /// In an incompatibility without repeated packages, the term of a
    /// package is the one that stands beside it.
    pub proof fn lemma_term_at(self, i: int)
        requires
            self.distinct(),
            0 <= i < self.terms.len(),
        ensures
            self.has(self.terms[i].0),
            self.position(self.terms[i].0) == i,
            self.term(self.terms[i].0) == self.terms[i].1,
            self.as_map().dom().contains(self.terms[i].0),
            self.as_map()[self.terms[i].0] == self.terms[i].1,
    {
        let q = self.terms[i].0;
        assert(self.has(q));
        let pos = self.position(q);
        let at = self.terms[pos];
    }

    /// Where a term is contradicted, one is the first.
    pub proof fn lemma_first_contradicted(self, found: Seq<Option<TermView>>, k: int)
        requires
            0 <= k < self.terms.len(),
            self.relation_at(found, k) == term::Relation::Contradicted,
        ensures
            exists|j: int| 0 <= j <= k && #[trigger] self.first_contradicted(found, j),
        decreases k,
    {
        if exists|j: int|
            0 <= j < k && #[trigger] self.relation_at(found, j) == term::Relation::Contradicted {
            let j = choose|j: int|
                0 <= j < k && #[trigger] self.relation_at(found, j)
                    == term::Relation::Contradicted;
            self.lemma_first_contradicted(found, j);
        } else {
            assert(self.first_contradicted(found, k));
        }
    }

    /// An incompatibility is contradicted exactly when one of its terms is:
    /// then the relation names a term of the incompatibility that is
    /// contradicted, before which none is.
    pub proof fn law_contradicted(self, found: Seq<Option<TermView>>)
        ensures
            self.relation(found) is Contradicted <==> exists|k: int|
                0 <= k < self.terms.len() && #[trigger] self.relation_at(found, k)
                    == term::Relation::Contradicted,
            self.relation(found) matches RelationView::Contradicted(pt) ==> exists|k: int|
                #[trigger] self.first_contradicted(found, k) && pt == self.terms[k],
    {
        if exists|k: int|
            0 <= k < self.terms.len() && #[trigger] self.relation_at(found, k)
                == term::Relation::Contradicted {
            let k = choose|k: int|
                0 <= k < self.terms.len() && #[trigger] self.relation_at(found, k)
                    == term::Relation::Contradicted;
            self.lemma_first_contradicted(found, k);
            let c = choose|c: int| #[trigger] self.first_contradicted(found, c);
            assert(self.first_contradicted(found, c));
        }
    }

    /// An incompatibility that is almost satisfied has a term for the
    /// package that it names.
    pub proof fn lemma_almost_has(self, found: Seq<Option<TermView>>)
        ensures
            self.relation(found) matches RelationView::AlmostSatisfied(p) ==> self.has(p),
    {
        if self.relation(found) is AlmostSatisfied {
            let k = choose|k: int| #[trigger] self.lacks_only(found, k);
            assert(self.lacks_only(found, k));
            let e = self.terms[k];
        }
    }

    /// Whether the incompatibility marks the end of the algorithm: it has no
    /// term, or one term only, which is about the root package and true of
    /// the root version.
    pub open spec fn is_terminal(self, root_package: K, root_version: nat) -> bool {
        self.terms.len() == 0 || (self.terms.len() == 1 && self.terms[0].0 == root_package
            && self.terms[0].1.contains(root_version))
    }
}

/// What a store of incompatibilities says, one after the other.
pub open spec fn store_view<P: Package, V: Version>(store: Seq<Incompatibility<P, V>>) -> Seq<
    IncompatibilityView<P::V>,
> {
    store.map_values(|i: Incompatibility<P, V>| i@)
}

/// The terms of a list of packages and terms.
pub open spec fn terms_view<P: Package, V: Version>(terms: Seq<(P, Term<V>)>) -> Seq<
    (P::V, TermView),
> {
    terms.map_values(|pt: (P, Term<V>)| (pt.0@, pt.1@))
}

impl<P: Package, V: Version> View for Incompatibility<P, V> {
    type V = IncompatibilityView<P::V>;

    closed spec fn view(&self) -> IncompatibilityView<P::V> {
        IncompatibilityView { terms: terms_view(self.package_terms@), kind: self.kind@ }
    }
}

impl<P: Package, V: Version> Incompatibility<P, V> {
    /// No package has two terms and no term is always true.
    #[verifier::type_invariant]
    pub closed spec fn wf(&self) -> bool {
        &&& self@.distinct()
        &&& self@.informative()
        &&& self@.by_kind()
    }

    /// Puts terms and origin together.
    fn assemble(package_terms: Vec<(P, Term<V>)>, kind: Kind<P, V>) -> (r: Self)
        requires
            (IncompatibilityView { terms: terms_view(package_terms@), kind: kind@ }).distinct(),
            (IncompatibilityView { terms: terms_view(package_terms@), kind: kind@ }).informative(),
            (IncompatibilityView { terms: terms_view(package_terms@), kind: kind@ }).by_kind(),
        ensures
            r.wf(),
            r@.terms == terms_view(package_terms@),
            r@.kind == kind@,
    {
        Self { package_terms, kind }
    }

    /// Create the initial "not Root" incompatibility.
    pub fn not_root(package: P, version: V) -> (r: Self)
        requires
            version.has_successor(),
        ensures
            r.wf(),
            r@.terms == seq![(package@, TermView::Negative(set![version@]))],
            r@.kind == KindView::NotRoot(package@, version@),
    {
        let mut package_terms: Vec<(P, Term<V>)> = Vec::new();
        package_terms.push((package.duplicate(), Term::Negative(Range::exact(version))));
        proof {
            assert(set![version@].contains(version@));
            assert(terms_view(package_terms@) =~= seq![
                (package@, TermView::Negative(set![version@])),
            ]);
        }
        Self::assemble(package_terms, Kind::NotRoot(package, version))
    }

    /// Create an incompatibility to remember
    /// that a given range does not contain any version.
    pub fn no_versions(package: P, term: Term<V>) -> (r: Self)
        requires
            term@.is_positive(),
        ensures
            r.wf(),
            r@.terms == seq![(package@, term@)],
            term@ matches TermView::Positive(range) && r@.kind == KindView::NoVersions(
                package@,
                range,
            ),
    {
        let range = match &term {
            Term::Positive(range) => range.clone(),
            Term::Negative(range) => range.clone(),
        };
        let mut package_terms: Vec<(P, Term<V>)> = Vec::new();
        package_terms.push((package.duplicate(), term));
        proof {
            assert(terms_view(package_terms@) =~= seq![(package@, term@)]);
        }
        Self::assemble(package_terms, Kind::NoVersions(package, range))
    }

    /// Create an incompatibility to remember
    /// that a package version is not selectable
    /// because its list of dependencies is unavailable.
    pub fn unavailable_dependencies(package: P, version: V) -> (r: Self)
        requires
            version.has_successor(),
        ensures
            r.wf(),
            r@.terms == seq![(package@, TermView::Positive(set![version@]))],
            r@.kind == KindView::UnavailableDependencies(package@, set![version@]),
    {
        let range = Range::exact(version);
        let mut package_terms: Vec<(P, Term<V>)> = Vec::new();
        package_terms.push((package.duplicate(), Term::Positive(range.clone())));
        proof {
            assert(terms_view(package_terms@) =~= seq![
                (package@, TermView::Positive(set![version@])),
            ]);
        }
        Self::assemble(package_terms, Kind::UnavailableDependencies(package, range))
    }

    /// Build an incompatibility from a given dependency: the package at that
    /// version, and not the dependency in that range. A term that would
    /// always be true is left out, and a package that depends on itself gets
    /// the intersection of the two terms.
    pub fn from_dependency(package: P, version: V, dep: (&P, &Range<V>)) -> (r: Self)
        requires
            version.has_successor(),
        ensures
            r.wf(),
            r@ == from_dependency_view(package@, version@, dep.0@, dep.1@),
    {
        let range1 = Range::exact(version);
        let (p2, range2) = dep;
        let term1 = Term::Positive(range1.clone());
        let term2 = Term::Negative(range2.clone());
        let mut package_terms: Vec<(P, Term<V>)> = Vec::new();
        if p2.same(&package) {
            package_terms.push((package.duplicate(), term1.intersection(&term2)));
        } else if range2.eq(&Range::none()) {
            package_terms.push((package.duplicate(), term1));
        } else {
            package_terms.push((package.duplicate(), term1));
            package_terms.push((p2.duplicate(), term2));
        }
        proof {
            let terms = terms_view(package_terms@);
            if dep.0@ == package@ {
                assert(terms =~= seq![
                    (
                        package@,
                        TermView::Positive(set![version@]).intersect(TermView::Negative(dep.1@)),
                    ),
                ]);
            } else if dep.1@ == Set::<nat>::empty() {
                assert(terms =~= seq![(package@, TermView::Positive(set![version@]))]);
            } else {
                assert(terms =~= seq![
                    (package@, TermView::Positive(set![version@])),
                    (dep.0@, TermView::Negative(dep.1@)),
                ]);
            }
        }
        Self::assemble(
            package_terms,
            Kind::FromDependencyOf(package, range1, p2.duplicate(), range2.clone()),
        )
    }

    /// Add this incompatibility into the set of all incompatibilities.
    ///
    /// Pub collapses identical dependencies from adjacent package versions
    /// into individual incompatibilities. Here we do the simple thing of just
    /// growing the list.
    pub fn merge_into(id: IncompId, incompatibilities: &mut Vec<IncompId>)
        ensures
            final(incompatibilities)@ == old(incompatibilities)@.push(id),
    {
        incompatibilities.push(id);
    }

    /// The index of the term of a package (if it exists).
    pub fn index_of(&self, package: &P) -> (r: Option<usize>)
        ensures
            match r {
                Some(i) => i < self@.terms.len() && self@.terms[i as int].0 == package@
                    && self@.position(package@) == i && self@.has(package@),
                None => !self@.has(package@),
            },
    {
        proof {
            use_type_invariant(self);
        }
        let n = self.package_terms.len();
        let mut i: usize = 0;
        while i < n
            invariant
                i <= n,
                n == self.package_terms.len(),
                self@.distinct(),
                forall|k: int| 0 <= k < i ==> (#[trigger] self@.terms[k]).0 != package@,
            decreases n - i,
        {
            if self.package_terms[i].0.same(package) {
                proof {
                    let w = self@.terms[i as int];
                    assert(self@.has(package@));
                    let pos = self@.position(package@);
                    let at = self@.terms[pos];
                }
                return Some(i);
            }
            i += 1;
        }
        None
    }

    /// Get the term related to a given package (if it exists).
    pub fn get(&self, package: &P) -> (r: Option<&Term<V>>)
        ensures
            match r {
                Some(t) => self@.has(package@) && t@ == self@.term(package@),
                None => !self@.has(package@),
            },
    {
        match self.index_of(package) {
            Some(i) => Some(&self.package_terms[i].1),
            None => None,
        }
    }

    /// The packages and their terms.
    pub fn iter(&self) -> (r: &Vec<(P, Term<V>)>)
        ensures
            terms_view(r@) == self@.terms,
    {
        &self.package_terms
    }

    /// The number of packages.
    pub fn len(&self) -> (n: usize)
        ensures
            n == self@.terms.len(),
    {
        self.package_terms.len()
    }

    /// Retrieve parent causes if of type DerivedFrom.
    pub fn causes(&self) -> (r: Option<(IncompId, IncompId)>)
        ensures
            match r {
                Some((a, b)) => self@.kind == KindView::<P::V>::DerivedFrom(a as nat, b as nat),
                None => !(self@.kind is DerivedFrom),
            },
    {
        match self.kind {
            Kind::DerivedFrom(id1, id2) => Some((id1, id2)),
            _ => None,
        }
    }

    /// What the type promises of every incompatibility.
    pub proof fn lemma_wf(self)
        requires
            self.wf(),
        ensures
            self@.distinct(),
            self@.informative(),
            self@.by_kind(),
    {
    }

    /// Prior cause of two incompatibilities using the rule of resolution.
    #[verifier::rlimit(50)]
    pub fn prior_cause(
        incompat: IncompId,
        satisfier_cause: IncompId,
        package: &P,
        incompatibility_store: &Vec<Self>,
    ) -> (r: Self)
        requires
            incompat < incompatibility_store.len(),
            satisfier_cause < incompatibility_store.len(),
            incompatibility_store[incompat as int]@.has(package@),
            incompatibility_store[satisfier_cause as int]@.has(package@),
        ensures
            r.wf(),
            r@.distinct(),
            r@.informative(),
            r@.kind == KindView::<P::V>::DerivedFrom(incompat as nat, satisfier_cause as nat),
            r@.terms == incompatibility_store[incompat as int]@.resolved_with(
                incompatibility_store[satisfier_cause as int]@,
                package@,
            ),
            r@.as_map() == resolution(
                incompatibility_store[incompat as int]@.as_map(),
                incompatibility_store[satisfier_cause as int]@.as_map(),
                package@,
            ),
    {
        let first = &incompatibility_store[incompat];
        let second = &incompatibility_store[satisfier_cause];
        proof {
            use_type_invariant(first);
            use_type_invariant(second);
        }
        let ghost av = first@.terms;
        let ghost bv = second@.terms;
        let ghost am = first@.as_map();
        let ghost bm = second@.as_map();
        let ghost p = package@;
        let mut package_terms: Vec<(P, Term<V>)> = Vec::new();
        let n1 = first.package_terms.len();
        let mut i: usize = 0;
        while i < n1
            invariant
                i <= n1,
                n1 == first.package_terms.len(),
                av == first@.terms,
                bv == second@.terms,
                am == first@.as_map(),
                bm == second@.as_map(),
                p == package@,
                first@.distinct(),
                second@.distinct(),
                first@.informative(),
                second@.informative(),
                forall|k: int|
                    0 <= k < package_terms.len() ==> #[trigger] merged_entry(
                        am,
                        bm,
                        p,
                        terms_view(package_terms@)[k],
                    ),
                forall|k: int|
                    0 <= k < package_terms.len() ==> #[trigger] listed_below(
                        av,
                        i as int,
                        terms_view(package_terms@)[k].0,
                    ),
                forall|k: int, l: int|
                    #![trigger terms_view(package_terms@)[k], terms_view(package_terms@)[l]]
                    0 <= k < l < package_terms.len() ==> terms_view(package_terms@)[k].0
                        != terms_view(package_terms@)[l].0,
                forall|j: int|
                    0 <= j < i && (#[trigger] av[j]).0 != p ==> listed(
                        terms_view(package_terms@),
                        av[j].0,
                    ),
                terms_view(package_terms@) == first@.merged_with(second@, p, i as nat),
            decreases n1 - i,
        {
            let q = &first.package_terms[i].0;
            let t = &first.package_terms[i].1;
            let ghost before = terms_view(package_terms@);
            proof {
                first@.lemma_term_at(i as int);
            }
            if !q.same(package) {
                let merged = match second.get(q) {
                    Some(t2) => t.intersection(t2),
                    None => t.clone(),
                };
                proof {
                    assert(av[i as int].1 != TermView::any());
                    if bm.dom().contains(q@) {
                        if merged@ == TermView::any() {
                            lemma_intersect_any(am[q@], bm[q@]);
                        }
                    }
                }
                package_terms.push((q.duplicate(), merged));
                proof {
                    let after = terms_view(package_terms@);
                    let e = (q@, merged@);
                    assert(after =~= before.push(e));
                    assert(merged_entry(am, bm, p, e));
                    assert forall|k: int| 0 <= k < after.len() implies #[trigger] listed_below(
                        av,
                        i + 1,
                        after[k].0,
                    ) by {
                        if k < before.len() {
                            assert(listed_below(av, i as int, before[k].0));
                            let w = choose|w: int|
                                0 <= w < i && w < av.len() && (#[trigger] av[w]).0 == before[k].0;
                            assert(av[w].0 == after[k].0);
                        } else {
                            assert(av[i as int].0 == after[k].0);
                        }
                    }
                    assert forall|k: int, l: int|
                        #![trigger after[k], after[l]]
                        0 <= k < l < after.len() implies after[k].0 != after[l].0 by {
                        if l == before.len() {
                            assert(listed_below(av, i as int, before[k].0));
                            let w = choose|w: int|
                                0 <= w < i && w < av.len() && (#[trigger] av[w]).0 == before[k].0;
                            let x = av[i as int];
                        } else {
                            assert(after[k] == before[k] && after[l] == before[l]);
                        }
                    }
                    assert forall|j: int| 0 <= j < i + 1 && (#[trigger] av[j]).0 != p implies listed(
                        after,
                        av[j].0,
                    ) by {
                        if j < i {
                            assert(listed(before, av[j].0));
                            let w = choose|w: int|
                                0 <= w < before.len() && (#[trigger] before[w]).0 == av[j].0;
                            assert(after[w].0 == av[j].0);
                        } else {
                            assert(after[before.len() as int].0 == av[j].0);
                        }
                    }
                }
            } else {
                proof {
                    assert forall|k: int| 0 <= k < before.len() implies #[trigger] listed_below(
                        av,
                        i + 1,
                        before[k].0,
                    ) by {
                        assert(listed_below(av, i as int, before[k].0));
                        let w = choose|w: int|
                            0 <= w < i && w < av.len() && (#[trigger] av[w]).0 == before[k].0;
                        assert(av[w].0 == before[k].0);
                    }
                }
            }
            i += 1;
        }
        let n2 = second.package_terms.len();
        let mut j: usize = 0;
        assert(terms_view(package_terms@) =~= first@.merged_with(second@, p, av.len())
            + second@.lacking_in(first@, p, 0));
        while j < n2
            invariant
                j <= n2,
                n2 == second.package_terms.len(),
                av == first@.terms,
                bv == second@.terms,
                am == first@.as_map(),
                bm == second@.as_map(),
                p == package@,
                first@.distinct(),
                second@.distinct(),
                first@.informative(),
                second@.informative(),
                forall|k: int|
                    0 <= k < package_terms.len() ==> #[trigger] merged_entry(
                        am,
                        bm,
                        p,
                        terms_view(package_terms@)[k],
                    ),
                forall|k: int|
                    0 <= k < package_terms.len() ==> #[trigger] came_from(
                        av,
                        av.len() as int,
                        bv,
                        j as int,
                        terms_view(package_terms@)[k],
                    ),
                forall|k: int, l: int|
                    #![trigger terms_view(package_terms@)[k], terms_view(package_terms@)[l]]
                    0 <= k < l < package_terms.len() ==> terms_view(package_terms@)[k].0
                        != terms_view(package_terms@)[l].0,
                forall|x: int|
                    0 <= x < av.len() && (#[trigger] av[x]).0 != p ==> listed(
                        terms_view(package_terms@),
                        av[x].0,
                    ),
                forall|x: int|
                    0 <= x < j && (#[trigger] bv[x]).0 != p && !first@.has(bv[x].0) ==> listed(
                        terms_view(package_terms@),
                        bv[x].0,
                    ),
                terms_view(package_terms@) == first@.merged_with(second@, p, av.len())
                    + second@.lacking_in(first@, p, j as nat),
            decreases n2 - j,
        {
            let q = &second.package_terms[j].0;
            let t = &second.package_terms[j].1;
            let ghost before = terms_view(package_terms@);
            proof {
                second@.lemma_term_at(j as int);
            }
            let absent = first.get(q).is_none();
            if !q.same(package) && absent {
                package_terms.push((q.duplicate(), t.clone()));
                proof {
                    let after = terms_view(package_terms@);
                    let e = (q@, t@);
                    assert(after =~= before.push(e));
                    assert(after =~= first@.merged_with(second@, p, av.len())
                        + second@.lacking_in(first@, p, (j + 1) as nat));
                    assert(bv[j as int].1 != TermView::any());
                    assert(merged_entry(am, bm, p, e));
                    assert forall|k: int| 0 <= k < after.len() implies #[trigger] came_from(
                        av,
                        av.len() as int,
                        bv,
                        j + 1,
                        after[k],
                    ) by {
                        if k < before.len() {
                            assert(came_from(av, av.len() as int, bv, j as int, before[k]));
                            if listed_below(bv, j as int, before[k].0) {
                                let w = choose|w: int|
                                    0 <= w < j && w < bv.len() && (#[trigger] bv[w]).0
                                        == before[k].0;
                                assert(bv[w].0 == after[k].0);
                            }
                        } else {
                            assert(bv[j as int].0 == after[k].0);
                        }
                    }
                    assert forall|k: int, l: int|
                        #![trigger after[k], after[l]]
                        0 <= k < l < after.len() implies after[k].0 != after[l].0 by {
                        if l == before.len() {
                            assert(came_from(av, av.len() as int, bv, j as int, before[k]));
                            if listed_below(av, av.len() as int, before[k].0) {
                                let w = choose|w: int|
                                    0 <= w < av.len() && w < av.len() && (#[trigger] av[w]).0
                                        == before[k].0;
                                assert(first@.has(before[k].0));
                            } else {
                                let w = choose|w: int|
                                    0 <= w < j && w < bv.len() && (#[trigger] bv[w]).0
                                        == before[k].0;
                                let x = bv[j as int];
                            }
                        } else {
                            assert(after[k] == before[k] && after[l] == before[l]);
                        }
                    }
                    assert forall|x: int| 0 <= x < av.len() && (#[trigger] av[x]).0 != p implies listed(
                        after,
                        av[x].0,
                    ) by {
                        assert(listed(before, av[x].0));
                        let w = choose|w: int|
                            0 <= w < before.len() && (#[trigger] before[w]).0 == av[x].0;
                        assert(after[w].0 == av[x].0);
                    }
                    assert forall|x: int|
                        0 <= x < j + 1 && (#[trigger] bv[x]).0 != p && !first@.has(
                            bv[x].0,
                        ) implies listed(after, bv[x].0) by {
                        if x < j {
                            assert(listed(before, bv[x].0));
                            let w = choose|w: int|
                                0 <= w < before.len() && (#[trigger] before[w]).0 == bv[x].0;
                            assert(after[w].0 == bv[x].0);
                        } else {
                            assert(after[before.len() as int].0 == bv[x].0);
                        }
                    }
                }
            } else {
                proof {
                    assert forall|k: int| 0 <= k < before.len() implies #[trigger] came_from(
                        av,
                        av.len() as int,
                        bv,
                        j + 1,
                        before[k],
                    ) by {
                        assert(came_from(av, av.len() as int, bv, j as int, before[k]));
                        if listed_below(bv, j as int, before[k].0) {
                            let w = choose|w: int|
                                0 <= w < j && w < bv.len() && (#[trigger] bv[w]).0 == before[k].0;
                            assert(bv[w].0 == before[k].0);
                        }
                    }
                }
            }
            j += 1;
        }
        let t1 = match first.get(package) {
            Some(t) => t,
            None => {
                proof {
                    assert(false);
                }
                return Self::assemble(package_terms, Kind::DerivedFrom(incompat, satisfier_cause));
            },
        };
        let t2 = match second.get(package) {
            Some(t) => t,
            None => {
                proof {
                    assert(false);
                }
                return Self::assemble(package_terms, Kind::DerivedFrom(incompat, satisfier_cause));
            },
        };
        let term = t1.union(t2);
        let ghost others = terms_view(package_terms@);
        let keep = !term.eq(&Term::any());
        if keep {
            package_terms.push((package.duplicate(), term));
        }
        proof {
            let all = terms_view(package_terms@);
            let u = am[p].union(bm[p]);
            if keep {
                assert(all =~= others.push((p, u)));
            }
            assert forall|k: int| 0 <= k < others.len() implies (#[trigger] all[k]) == others[k]
                && merged_entry(am, bm, p, all[k]) by {
                assert(merged_entry(am, bm, p, others[k]));
            }
            let view = IncompatibilityView::<P::V> {
                terms: all,
                kind: KindView::<P::V>::DerivedFrom(incompat as nat, satisfier_cause as nat),
            };
            assert(view.distinct()) by {
                assert forall|k: int, l: int|
                    #![trigger all[k], all[l]]
                    0 <= k < l < all.len() implies all[k].0 != all[l].0 by {
                    if l < others.len() {
                        assert(others[k].0 != others[l].0);
                    } else {
                        assert(merged_entry(am, bm, p, all[k]));
                    }
                }
            }
            assert(view.informative()) by {
                assert forall|k: int| 0 <= k < all.len() implies (#[trigger] all[k]).1
                    != TermView::any() by {
                    if k < others.len() {
                        assert(merged_entry(am, bm, p, all[k]));
                    }
                }
            }
            let goal = resolution(am, bm, p);
            assert forall|q: P::V| view.as_map().dom().contains(q) <==> goal.dom().contains(
                q,
            ) by {
                if view.has(q) {
                    let k = view.position(q);
                    if k < others.len() {
                        assert(merged_entry(am, bm, p, all[k]));
                    }
                }
                if goal.dom().contains(q) {
                    if q == p {
                        assert(all[others.len() as int].0 == p);
                    } else if am.dom().contains(q) {
                        let x = first@.position(q);
                        assert(listed(others, av[x].0));
                        let w = choose|w: int|
                            0 <= w < others.len() && (#[trigger] others[w]).0 == q;
                        assert(all[w].0 == q);
                    } else {
                        assert(second@.has(q));
                        let x = second@.position(q);
                        assert(listed(others, bv[x].0));
                        let w = choose|w: int|
                            0 <= w < others.len() && (#[trigger] others[w]).0 == q;
                        assert(all[w].0 == q);
                    }
                }
            }
            assert forall|q: P::V| view.as_map().dom().contains(q) implies view.as_map()[q]
                == goal[q] by {
                let k = view.position(q);
                view.lemma_term_at(k);
                if k < others.len() {
                    assert(merged_entry(am, bm, p, all[k]));
                }
            }
            assert(view.as_map() =~= goal);
        }
        Self::assemble(package_terms, Kind::DerivedFrom(incompat, satisfier_cause))
    }

    /// CF definition of Relation enum. `found` gives, for each term of the
    /// incompatibility and in their order, what the set of terms knows of its
    /// package.
    #[verifier::rlimit(50)]
    pub fn relation(&self, found: &Vec<Option<Term<V>>>) -> (r: Relation<P, V>)
        requires
            found.len() == self@.terms.len(),
        ensures
            r@ == self@.relation(found_view(found@)),
    {
        let ghost me = self@;
        let ghost fv = found_view(found@);
        let n = self.package_terms.len();
        let mut lacking: Option<usize> = None;
        let mut several = false;
        let ghost mut one: int = 0;
        let ghost mut two: int = 0;
        let mut i: usize = 0;
        while i < n
            invariant
                i <= n,
                n == self.package_terms.len(),
                n == found.len(),
                me == self@,
                fv == found_view(found@),
                forall|k: int|
                    0 <= k < i ==> #[trigger] me.relation_at(fv, k) != term::Relation::Contradicted,
                !several && lacking is None ==> forall|k: int|
                    0 <= k < i ==> #[trigger] me.relation_at(fv, k) == term::Relation::Satisfied,
                !several ==> (lacking matches Some(l) ==> l < i && me.relation_at(fv, l as int)
                    != term::Relation::Satisfied && forall|k: int|
                    0 <= k < i && k != l ==> #[trigger] me.relation_at(fv, k)
                        == term::Relation::Satisfied),
                several ==> 0 <= one < two < i && me.relation_at(fv, one)
                    != term::Relation::Satisfied && me.relation_at(fv, two)
                    != term::Relation::Satisfied,
            decreases n - i,
        {
            let relation = match &found[i] {
                Some(t) => self.package_terms[i].1.relation_with(t),
                None => term::Relation::Inconclusive,
            };
            assert(relation == me.relation_at(fv, i as int));
            match relation {
                term::Relation::Satisfied => {},
                term::Relation::Contradicted => {
                    proof {
                        assert(me.first_contradicted(fv, i as int));
                        let c = choose|c: int| #[trigger] me.first_contradicted(fv, c);
                        if c < i {
                            assert(me.relation_at(fv, c) != term::Relation::Contradicted);
                        } else if c > i {
                            assert(me.relation_at(fv, i as int) != term::Relation::Contradicted);
                        }
                        assert(me.terms[i as int] == (
                            self.package_terms@[i as int].0@,
                            self.package_terms@[i as int].1@,
                        ));
                    }
                    return Relation::Contradicted(
                        (self.package_terms[i].0.duplicate(), self.package_terms[i].1.clone()),
                    );
                },
                term::Relation::Inconclusive => {
                    // If a package is not present, the intersection is the same as [Term::any].
                    // According to the rules of satisfactions, the relation would be inconclusive.
                    // It could also be satisfied if the incompatibility term was also [Term::any],
                    // but we systematically remove those from incompatibilities
                    // so we're safe on that front.
                    match lacking {
                        None => {
                            if !several {
                                lacking = Some(i);
                            }
                        },
                        Some(l) => {
                            if !several {
                                proof {
                                    one = l as int;
                                    two = i as int;
                                }
                                several = true;
                            }
                        },
                    }
                },
            }
            i += 1;
        }
        if several {
            proof {
                assert forall|k: int| !#[trigger] me.lacks_only(fv, k) by {
                    if me.lacks_only(fv, k) {
                        if k != one {
                            assert(me.relation_at(fv, one) == term::Relation::Satisfied);
                        } else {
                            assert(me.relation_at(fv, two) == term::Relation::Satisfied);
                        }
                    }
                }
                assert(me.relation_at(fv, one) != term::Relation::Satisfied);
            }
            Relation::Inconclusive
        } else {
            match lacking {
                Some(l) => {
                    proof {
                        assert(me.lacks_only(fv, l as int));
                        let c = choose|k: int| #[trigger] me.lacks_only(fv, k);
                        if c != l {
                            assert(me.relation_at(fv, l as int) == term::Relation::Satisfied);
                        }
                    }
                    Relation::AlmostSatisfied(self.package_terms[l].0.duplicate())
                },
                None => Relation::Satisfied,
            }
        }
    }

    /// A copy of the packages and their terms.
    fn copy_terms(&self) -> (terms: Vec<(P, Term<V>)>)
        ensures
            terms_view(terms@) == self@.terms,
    {
        let n = self.package_terms.len();
        let mut terms: Vec<(P, Term<V>)> = Vec::new();
        let mut k: usize = 0;
        while k < n
            invariant
                k <= n,
                n == self.package_terms.len(),
                terms_view(terms@) == self@.terms.take(k as int),
            decreases n - k,
        {
            let ghost before = terms_view(terms@);
            let ghost e = self@.terms[k as int];
            assert(e == (self.package_terms@[k as int].0@, self.package_terms@[k as int].1@));
            terms.push((self.package_terms[k].0.duplicate(), self.package_terms[k].1.clone()));
            k += 1;
            assert(terms_view(terms@) =~= before.push(e));
            assert(self@.terms.take(k as int) =~= self@.terms.take(k - 1).push(e));
        }
        assert(self@.terms.take(n as int) =~= self@.terms);
        terms
    }

    /// Build a derivation tree for error reporting.
    pub fn build_derivation_tree(
        self_id: IncompId,
        shared_ids: &HashSet<IncompId>,
        store: &Vec<Self>,
    ) -> (tree: DerivationTree<P, V>)
        requires
            self_id < store.len(),
            causes_precede(store_view(store@)),
        ensures
            tree@ == tree_of(store_view(store@), self_id as nat, ids(shared_ids@)),
        decreases self_id,
    {
        let ghost sv = store_view(store@);
        let this = &store[self_id];
        assert(sv[self_id as int] == this@);
        match &this.kind {
            Kind::DerivedFrom(id1, id2) => {
                let cause1 = Self::build_derivation_tree(*id1, shared_ids, store);
                let cause2 = Self::build_derivation_tree(*id2, shared_ids, store);
                let derived = Derived {
                    terms: this.copy_terms(),
                    shared_id: if shared_ids.contains(&self_id) {
                        Some(self_id)
                    } else {
                        None
                    },
                    cause1: Box::new(cause1),
                    cause2: Box::new(cause2),
                };
                DerivationTree::Derived(derived)
            },
            Kind::NotRoot(package, version) => DerivationTree::External(
                External::NotRoot(package.duplicate(), *version),
            ),
            Kind::NoVersions(package, range) => DerivationTree::External(
                External::NoVersions(package.duplicate(), range.clone()),
            ),
            Kind::UnavailableDependencies(package, range) => DerivationTree::External(
                External::UnavailableDependencies(package.duplicate(), range.clone()),
            ),
            Kind::FromDependencyOf(package, range, dep_package, dep_range) => {
                DerivationTree::External(
                    External::FromDependencyOf(
                        package.duplicate(),
                        range.clone(),
                        dep_package.duplicate(),
                        dep_range.clone(),
                    ),
                )
            },
        }
    }

    /// Check if an incompatibility should mark the end of the algorithm
    /// because it satisfies the root package.
    pub fn is_terminal(&self, root_package: &P, root_version: &V) -> (b: bool)
        ensures
            b == self@.is_terminal(root_package@, root_version@),
    {
        if self.package_terms.len() == 0 {
            true
        } else if self.package_terms.len() > 1 {
            false
        } else {
            let package = &self.package_terms[0].0;
            let term = &self.package_terms[0].1;
            package.same(root_package) && term.contains(root_version)
        }
    }
}

} // verus!
