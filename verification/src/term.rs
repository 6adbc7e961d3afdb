//! A term is the fundamental unit of operation of the PubGrub algorithm.
//! It is a positive or negative expression regarding a set of versions.

use crate::range::Range;
use crate::version::Version;
use vstd::prelude::*;
use vstd::std_specs::cmp::PartialEqSpecImpl;

verus! {

/// A positive or negative expression regarding a set of versions.
#[derive(Debug)]
pub enum Term<V: Version> {
    /// For example, "1.0.0 <= v < 2.0.0" is a positive expression
    /// that is evaluated true if a version is selected
    /// and comprised between version 1.0.0 and version 2.0.0.
    Positive(Range<V>),
    /// The term "not v < 3.0.0" is a negative expression
    /// that is evaluated true if a version is selected >= 3.0.0
    /// or if no version is selected at all.
    Negative(Range<V>),
}

/// What a term says: the tag, and the positions of the versions of its range.
pub ghost enum TermView {
    Positive(Set<nat>),
    Negative(Set<nat>),
}

/// Describe a relation between a set of terms S and another term t.
///
/// As a shorthand, we say that a term v
/// satisfies or contradicts a term t if {v} satisfies or contradicts it.
#[derive(Clone, Copy, Debug, PartialEq, Eq, Structural)]
pub enum Relation {
    /// We say that a set of terms S "satisfies" a term t
    /// if t must be true whenever every term in S is true.
    Satisfied,
    /// Conversely, S "contradicts" t if t must be false
    /// whenever every term in S is true.
    Contradicted,
    /// If neither of these is true we say that S is "inconclusive" for t.
    Inconclusive,
}

impl TermView {
    /// The term that is always true.
    pub open spec fn any() -> TermView {
        TermView::Negative(Set::empty())
    }

    /// The term that is never true.
    pub open spec fn empty() -> TermView {
        TermView::Positive(Set::empty())
    }

    /// The term that is true for the version at position `v` only.
    pub open spec fn exact(v: nat) -> TermView {
        TermView::Positive(set![v])
    }

    /// Whether the term is positive.
    pub open spec fn is_positive(self) -> bool {
        self is Positive
    }

    /// The versions for which the term is true, once one is selected.
    pub open spec fn versions(self) -> Set<nat> {
        match self {
            TermView::Positive(r) => r,
            TermView::Negative(r) => r.complement(),
        }
    }

    /// Whether the term is true when the version at position `v` is selected.
    pub open spec fn contains(self, v: nat) -> bool {
        self.versions().contains(v)
    }

    /// Whether the term is true of a choice: of the version at a position,
    /// or of no version at all. A negative term is true when no version is
    /// chosen.
    pub open spec fn accepts(self, choice: Option<nat>) -> bool {
        match choice {
            Some(v) => self.contains(v),
            None => self is Negative,
        }
    }

    /// The term that is true exactly when this one is not.
    pub open spec fn negate(self) -> TermView {
        match self {
            TermView::Positive(r) => TermView::Negative(r),
            TermView::Negative(r) => TermView::Positive(r),
        }
    }

    /// The term that is true exactly when both terms are. It is negative
    /// only if both are.
    pub open spec fn intersect(self, other: TermView) -> TermView {
        match (self, other) {
            (TermView::Positive(a), TermView::Positive(b)) => TermView::Positive(a.intersect(b)),
            (TermView::Positive(a), TermView::Negative(b)) => TermView::Positive(
                a.intersect(b.complement()),
            ),
            (TermView::Negative(a), TermView::Positive(b)) => TermView::Positive(
                a.complement().intersect(b),
            ),
            (TermView::Negative(a), TermView::Negative(b)) => TermView::Negative(a.union(b)),
        }
    }

    /// The term that is true exactly when one of the terms is. It is
    /// positive only if both are.
    pub open spec fn union(self, other: TermView) -> TermView {
        self.negate().intersect(other.negate()).negate()
    }

    /// Whether this term, intersected with the other one, is unchanged.
    pub open spec fn subset_of(self, other: TermView) -> bool {
        self == self.intersect(other)
    }

    /// How this term relates to `other`, the intersection of the terms of a
    /// set S: satisfied if intersecting with this term leaves `other`
    /// unchanged, contradicted if it leaves the term that is never true.
    pub open spec fn relation_with(self, other: TermView) -> Relation {
        let full = self.intersect(other);
        if full == other {
            Relation::Satisfied
        } else if full == TermView::empty() {
            Relation::Contradicted
        } else {
            Relation::Inconclusive
        }
    }
}

impl<V: Version> View for Term<V> {
    type V = TermView;

    open spec fn view(&self) -> TermView {
        match self {
            Term::Positive(r) => TermView::Positive(r@),
            Term::Negative(r) => TermView::Negative(r@),
        }
    }
}

impl<V: Version> Clone for Term<V> {
    fn clone(&self) -> (t: Self)
        ensures
            t@ == self@,
    {
        match self {
            Term::Positive(r) => Term::Positive(r.clone()),
            Term::Negative(r) => Term::Negative(r.clone()),
        }
    }
}

impl<V: Version> PartialEq for Term<V> {
    /// Two terms are equal when they have the same tag and equal ranges.
    fn eq(&self, other: &Self) -> (b: bool) {
        match (self, other) {
            (Term::Positive(a), Term::Positive(b)) => a.eq(b),
            (Term::Negative(a), Term::Negative(b)) => a.eq(b),
            _ => false,
        }
    }
}

impl<V: Version> PartialEqSpecImpl for Term<V> {
    open spec fn obeys_eq_spec() -> bool {
        true
    }

    open spec fn eq_spec(&self, other: &Self) -> bool {
        self@ == other@
    }
}

impl<V: Version> Term<V> {
    /// A term that is always true.
    pub fn any() -> (t: Self)
        ensures
            t@ == TermView::any(),
    {
        Term::Negative(Range::none())
    }

    /// A term that is never true.
    pub fn empty() -> (t: Self)
        ensures
            t@ == TermView::empty(),
    {
        Term::Positive(Range::none())
    }

    /// A positive term containing exactly that version.
    pub fn exact(version: V) -> (t: Self)
        requires
            version.has_successor(),
        ensures
            t@ == TermView::exact(version@),
    {
        Term::Positive(Range::exact(version))
    }

    /// Simply check if a term is positive.
    pub fn is_positive(&self) -> (b: bool)
        ensures
            b == self@.is_positive(),
    {
        match self {
            Term::Positive(_) => true,
            Term::Negative(_) => false,
        }
    }

    /// Negate a term.
    /// Evaluation of a negated term always returns
    /// the opposite of the evaluation of the term itself.
    pub fn negate(&self) -> (t: Self)
        ensures
            t@ == self@.negate(),
    {
        match self {
            Term::Positive(r) => Term::Negative(r.clone()),
            Term::Negative(r) => Term::Positive(r.clone()),
        }
    }

    /// Evaluate a term regarding a given choice of version.
    pub fn contains(&self, v: &V) -> (b: bool)
        ensures
            b == self@.contains(v@),
    {
        match self {
            Term::Positive(r) => r.contains(v),
            Term::Negative(r) => !r.contains(v),
        }
    }

    /// Compute the intersection of two terms.
    /// If at least one term is positive, the intersection is also positive.
    pub fn intersection(&self, other: &Self) -> (t: Self)
        ensures
            t@ == self@.intersect(other@),
    {
        match (self, other) {
            (Term::Positive(r1), Term::Positive(r2)) => Term::Positive(r1.intersection(r2)),
            (Term::Positive(r1), Term::Negative(r2)) => Term::Positive(
                r1.intersection(&r2.negate()),
            ),
            (Term::Negative(r1), Term::Positive(r2)) => Term::Positive(
                r1.negate().intersection(r2),
            ),
            (Term::Negative(r1), Term::Negative(r2)) => Term::Negative(r1.union(r2)),
        }
    }

    /// Compute the union of two terms.
    /// If at least one term is negative, the union is also negative.
    pub fn union(&self, other: &Self) -> (t: Self)
        ensures
            t@ == self@.union(other@),
    {
        self.negate().intersection(&other.negate()).negate()
    }

    /// Indicate if this term is a subset of another term.
    /// Just like for sets, we say that t1 is a subset of t2
    /// if and only if t1 ∩ t2 = t1.
    pub fn subset_of(&self, other: &Self) -> (b: bool)
        ensures
            b == self@.subset_of(other@),
    {
        let both = self.intersection(other);
        self.eq(&both)
    }

    /// Check if a set of terms satisfies or contradicts a given term.
    /// Otherwise the relation is inconclusive.
    pub fn relation_with(&self, other_terms_intersection: &Self) -> (r: Relation)
        ensures
            r == self@.relation_with(other_terms_intersection@),
    {
        let full_intersection = self.intersection(other_terms_intersection);
        if full_intersection.eq(other_terms_intersection) {
            Relation::Satisfied
        } else if full_intersection.eq(&Self::empty()) {
            Relation::Contradicted
        } else {
            Relation::Inconclusive
        }
    }
}

impl TermView {
    /// The versions for which an intersection is true are those for which
    /// both terms are, and those of a union those for which one is.
    pub proof fn law_versions(a: TermView, b: TermView)
        ensures
            a.negate().versions() == a.versions().complement(),
            a.intersect(b).versions() == a.versions().intersect(b.versions()),
            a.union(b).versions() == a.versions().union(b.versions()),
            a.negate().negate() == a,
    {
        assert(a.negate().versions() =~= a.versions().complement());
        assert(a.intersect(b).versions() =~= a.versions().intersect(b.versions()));
        assert(a.union(b).versions() =~= a.versions().union(b.versions()));
    }

    /// A negated term is true of a choice exactly when the term is not, an
    /// intersection when both terms are, a union when one of them is; and the
    /// term that is always true is true of every choice.
    pub proof fn law_accepts(a: TermView, b: TermView, choice: Option<nat>)
        ensures
            a.negate().accepts(choice) == !a.accepts(choice),
            a.intersect(b).accepts(choice) == (a.accepts(choice) && b.accepts(choice)),
            a.union(b).accepts(choice) == (a.accepts(choice) || b.accepts(choice)),
            TermView::any().accepts(choice),
    {
    }

    /// The relation of a term with the intersection of a set of terms, case
    /// by case on the two tags. For a positive term `a` against a positive
    /// `b`: satisfied when `a` includes `b`, else contradicted when they
    /// share nothing. Against a negative one it is never satisfied, and
    /// contradicted when `b` includes `a`. For a negative term `a` against a
    /// positive `b`: satisfied when they share nothing, else contradicted
    /// when `a` includes `b`. Against a negative one: satisfied when `b`
    /// includes `a`, and never contradicted.
    pub proof fn law_relation_table(a: Set<nat>, b: Set<nat>)
        ensures
            TermView::Positive(a).relation_with(TermView::Positive(b)) == if b.subset_of(a) {
                Relation::Satisfied
            } else if a.disjoint(b) {
                Relation::Contradicted
            } else {
                Relation::Inconclusive
            },
            TermView::Positive(a).relation_with(TermView::Negative(b)) == if a.subset_of(b) {
                Relation::Contradicted
            } else {
                Relation::Inconclusive
            },
            TermView::Negative(a).relation_with(TermView::Positive(b)) == if a.disjoint(b) {
                Relation::Satisfied
            } else if b.subset_of(a) {
                Relation::Contradicted
            } else {
                Relation::Inconclusive
            },
            TermView::Negative(a).relation_with(TermView::Negative(b)) == if a.subset_of(b) {
                Relation::Satisfied
            } else {
                Relation::Inconclusive
            },
    {
        let e = Set::<nat>::empty();
        // positive against positive
        if b.subset_of(a) {
            assert(a.intersect(b) =~= b);
        } else {
            assert(a.intersect(b) != b) by {
                if a.intersect(b) == b {
                    assert forall|v: nat| b.contains(v) implies a.contains(v) by {
                        assert(a.intersect(b).contains(v));
                    }
                }
            }
            if a.disjoint(b) {
                assert(a.intersect(b) =~= e);
            } else {
                let v = choose|v: nat| a.contains(v) && b.contains(v);
                assert(a.intersect(b).contains(v));
            }
        }
        // positive against negative
        if a.subset_of(b) {
            assert(a.intersect(b.complement()) =~= e);
        } else {
            let v = choose|v: nat| a.contains(v) && !b.contains(v);
            assert(a.intersect(b.complement()).contains(v));
        }
        // negative against positive
        if a.disjoint(b) {
            assert(a.complement().intersect(b) =~= b);
        } else {
            let v = choose|v: nat| a.contains(v) && b.contains(v);
            assert(!a.complement().intersect(b).contains(v));
            if b.subset_of(a) {
                assert(a.complement().intersect(b) =~= e);
            } else {
                let w = choose|w: nat| b.contains(w) && !a.contains(w);
                assert(a.complement().intersect(b).contains(w));
            }
        }
        // negative against negative
        if a.subset_of(b) {
            assert(a.union(b) =~= b);
        } else {
            let v = choose|v: nat| a.contains(v) && !b.contains(v);
            assert(a.union(b).contains(v));
        }
    }

    /// A term is a subset of another one in this sense when each version for
    /// which it is true is one for which the other is true, unless the first
    /// is negative and the second positive: then it never is.
    pub proof fn law_subset_of(a: TermView, b: TermView)
        ensures
            a.subset_of(b) <==> (a.versions().subset_of(b.versions()) && !(a is Negative
                && b is Positive)),
    {
        match (a, b) {
            (TermView::Positive(x), TermView::Positive(y)) => {
                if x.subset_of(y) {
                    assert(x.intersect(y) =~= x);
                } else {
                    let v = choose|v: nat| x.contains(v) && !y.contains(v);
                    assert(!x.intersect(y).contains(v));
                }
            },
            (TermView::Positive(x), TermView::Negative(y)) => {
                if x.subset_of(y.complement()) {
                    assert(x.intersect(y.complement()) =~= x);
                } else {
                    let v = choose|v: nat| x.contains(v) && !y.complement().contains(v);
                    assert(!x.intersect(y.complement()).contains(v));
                }
            },
            (TermView::Negative(x), TermView::Positive(y)) => {},
            (TermView::Negative(x), TermView::Negative(y)) => {
                if x.complement().subset_of(y.complement()) {
                    assert forall|v: nat| y.contains(v) implies x.contains(v) by {
                        if !x.contains(v) {
                            assert(x.complement().contains(v));
                        }
                    }
                    assert(x.union(y) =~= x);
                } else {
                    let v = choose|v: nat|
                        x.complement().contains(v) && !y.complement().contains(v);
                    assert(x.union(y).contains(v));
                }
            },
        }
    }
}

} // verus!
