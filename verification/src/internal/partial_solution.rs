//! The partial solution is the current state
//! of the solution being built by the algorithm.

use crate::internal::assignment::{Assignment, AssignmentView};
use crate::internal::incompatibility::{
    IncompId, Incompatibility, IncompatibilityView, Relation, RelationView, found_view,
    store_view, terms_view,
};
use crate::package::Package;
use crate::range::Range;
use crate::term::{Term, TermView};
use crate::version::Version;
use vstd::prelude::*;
use vstd::slice::slice_subrange;

verus! {

/// The number of decisions made so far.
#[derive(Clone, Copy, Debug, PartialEq, Eq, Structural)]
pub struct DecisionLevel(pub usize);

/// An assignment, with the decision level in effect when it was added and
/// the term that it asserts.
pub struct DatedAssignment<P: Package, V: Version> {
    decision_level: DecisionLevel,
    assignment: Assignment<P, V>,
    term: Term<V>,
}

/// What a dated assignment says.
pub ghost struct DatedView<K> {
    pub level: nat,
    pub assignment: AssignmentView<K>,
    pub term: TermView,
}

/// The satisfier of an incompatibility, with all assignments earlier than
/// it.
pub struct SatisfierAndPreviousHistory<'a, P: Package, V: Version> {
    satisfier: DatedAssignment<P, V>,
    previous_history: &'a [DatedAssignment<P, V>],
}

impl<'a, P: Package, V: Version> SatisfierAndPreviousHistory<'a, P, V> {
    /// The satisfier.
    pub closed spec fn found(&self) -> DatedView<P::V> {
        self.satisfier@
    }

    /// The assignments before the satisfier.
    pub closed spec fn before(&self) -> Seq<DatedAssignment<P, V>> {
        self.previous_history@
    }

    /// The satisfier.
    pub fn satisfier(&self) -> (d: &DatedAssignment<P, V>)
        ensures
            d@ == self.found(),
    {
        &self.satisfier
    }

    /// The assignments before the satisfier.
    pub fn previous_history(&self) -> (h: &'a [DatedAssignment<P, V>])
        ensures
            h@ == self.before(),
    {
        self.previous_history
    }
}

/// What is remembered of one package: the version decided for it if any,
/// the terms asserted of it in the order they came, and their intersection
/// once it has been asked for.
struct PackageAssignments<P: Package, V: Version> {
    package: P,
    decision: Option<V>,
    terms: Vec<Term<V>>,
    intersection: Option<Term<V>>,
}

/// The partial solution is the current state
/// of the solution being built by the algorithm.
/// It is composed of a succession of assignments,
/// defined as either decisions or derivations.
pub struct PartialSolution<P: Package, V: Version> {
    decision_level: DecisionLevel,
    /// Each assignment is stored with its decision level in the history.
    /// The order in which assignments where added in the vec is kept,
    /// so the oldest assignments are at the beginning of the vec.
    history: Vec<DatedAssignment<P, V>>,
    /// One entry for each package of the history, in the order in which the
    /// packages first came.
    memory: Vec<PackageAssignments<P, V>>,
}

/// The terms asserted of a package, oldest first.
pub open spec fn terms_for<K>(history: Seq<DatedView<K>>, p: K) -> Seq<TermView>
    decreases history.len(),
{
    if history.len() == 0 {
        Seq::empty()
    } else {
        let rest = terms_for(history.drop_last(), p);
        if history.last().assignment.package() == p {
            rest.push(history.last().term)
        } else {
            rest
        }
    }
}

/// The intersection of some terms, taken from the first to the last; the term
/// that is always true if there are none.
pub open spec fn intersect_all(terms: Seq<TermView>) -> TermView
    decreases terms.len(),
{
    if terms.len() == 0 {
        TermView::any()
    } else if terms.len() == 1 {
        terms[0]
    } else {
        intersect_all(terms.drop_last()).intersect(terms.last())
    }
}

/// The intersection of all terms asserted of a package, if there are any.
pub open spec fn accumulated<K>(history: Seq<DatedView<K>>, p: K) -> Option<TermView> {
    if terms_for(history, p).len() == 0 {
        None
    } else {
        Some(intersect_all(terms_for(history, p)))
    }
}

/// The version last decided for a package, if any.
pub open spec fn decision_of<K>(history: Seq<DatedView<K>>, p: K) -> Option<nat>
    decreases history.len(),
{
    if history.len() == 0 {
        None
    } else {
        match history.last().assignment {
            AssignmentView::Decision { package, version } if package == p => Some(version),
            _ => decision_of(history.drop_last(), p),
        }
    }
}

/// The packages of the history, each once, in the order in which they first
/// came.
pub open spec fn packages_in_order<K>(history: Seq<DatedView<K>>) -> Seq<K>
    decreases history.len(),
{
    if history.len() == 0 {
        Seq::empty()
    } else {
        let rest = packages_in_order(history.drop_last());
        let p = history.last().assignment.package();
        if rest.contains(p) {
            rest
        } else {
            rest.push(p)
        }
    }
}

/// The number of decisions in the history.
pub open spec fn decisions_in<K>(history: Seq<DatedView<K>>) -> nat
    decreases history.len(),
{
    if history.len() == 0 {
        0
    } else {
        decisions_in(history.drop_last()) + if history.last().assignment is Decision {
            1nat
        } else {
            0nat
        }
    }
}

/// Whether the assignment at index `i` carries the number of decisions made
/// up to and including it, and, if it is a decision, the term of exactly its
/// version.
pub open spec fn stamped<K>(history: Seq<DatedView<K>>, i: int) -> bool {
    &&& history[i].level == decisions_in(history.take(i + 1))
    &&& history[i].assignment matches AssignmentView::Decision { version, .. } ==> history[i].term
        == TermView::exact(version)
}

/// Whether every assignment of the history is stamped as it should.
pub open spec fn well_dated<K>(history: Seq<DatedView<K>>) -> bool {
    forall|i: int| 0 <= i < history.len() ==> #[trigger] stamped(history, i)
}

/// Whether every derivation of the history has its cause in the store, and
/// asserts the negation of the term that the cause has for its package.
pub open spec fn grounded<K>(history: Seq<DatedView<K>>, store: Seq<IncompatibilityView<K>>) -> bool {
    forall|i: int|
        0 <= i < history.len() ==> (#[trigger] history[i]).assignment.grounded(store) && (
        history[i].assignment is Derivation ==> history[i].term == history[i].assignment.as_term(
            store,
        ))
}

/// What is known of the package of each term of a list.
pub open spec fn known<K>(history: Seq<DatedView<K>>, terms: Seq<(K, TermView)>) -> Seq<
    Option<TermView>,
> {
    Seq::new(terms.len(), |k: int| accumulated(history, terms[k].0))
}

/// Of the given packages, those without a decision for which a positive term
/// is known, each with the versions that this term allows.
pub open spec fn candidates<K>(history: Seq<DatedView<K>>, packages: Seq<K>) -> Seq<(K, Set<nat>)>
    decreases packages.len(),
{
    if packages.len() == 0 {
        Seq::empty()
    } else {
        let rest = candidates(history, packages.drop_last());
        let p = packages.last();
        match (decision_of(history, p), accumulated(history, p)) {
            (None, Some(TermView::Positive(r))) => rest.push((p, r)),
            _ => rest,
        }
    }
}

/// Of the given packages, those with a decision, each with its version.
pub open spec fn decided<K>(history: Seq<DatedView<K>>, packages: Seq<K>) -> Seq<(K, nat)>
    decreases packages.len(),
{
    if packages.len() == 0 {
        Seq::empty()
    } else {
        let rest = decided(history, packages.drop_last());
        let p = packages.last();
        match decision_of(history, p) {
            Some(v) => rest.push((p, v)),
            None => rest,
        }
    }
}

/// What is known of the package of each term of a list, if package `p` were
/// decided at the version at position `v`.
pub open spec fn known_with<K>(
    history: Seq<DatedView<K>>,
    terms: Seq<(K, TermView)>,
    p: K,
    v: nat,
) -> Seq<Option<TermView>> {
    Seq::new(
        terms.len(),
        |k: int|
            if terms[k].0 == p {
                Some(TermView::exact(v))
            } else {
                accumulated(history, terms[k].0)
            },
    )
}

/// Whether the incompatibility would be satisfied if package `p` were
/// decided at the version at position `v`.
pub open spec fn conflicts<K>(
    history: Seq<DatedView<K>>,
    incompat: IncompatibilityView<K>,
    p: K,
    v: nat,
) -> bool {
    incompat.relation(known_with(history, incompat.terms, p, v)) == RelationView::<K>::Satisfied
}

/// The packages and ranges of a list.
pub open spec fn candidates_view<P: Package, V: Version>(list: Seq<(P, Range<V>)>) -> Seq<
    (P::V, Set<nat>),
> {
    list.map_values(|c: (P, Range<V>)| (c.0@, c.1@))
}

/// The packages and versions of a list.
pub open spec fn selection_view<P: Package, V: Version>(list: Seq<(P, V)>) -> Seq<(P::V, nat)> {
    list.map_values(|c: (P, V)| (c.0@, c.1@))
}

/// The number of assignments that stay when going back to a decision level:
/// the length of the longest prefix whose last assignment has a level that
/// is not above it.
pub open spec fn kept<K>(history: Seq<DatedView<K>>, level: nat) -> nat
    decreases history.len(),
{
    if history.len() == 0 {
        0
    } else if history.last().level <= level {
        history.len()
    } else {
        kept(history.drop_last(), level)
    }
}

/// What the kept prefix is.
pub proof fn lemma_kept<K>(history: Seq<DatedView<K>>, level: nat)
    ensures
        kept(history, level) <= history.len(),
        kept(history, level) > 0 ==> history[kept(history, level) - 1].level <= level,
        forall|i: int| kept(history, level) <= i < history.len() ==> (#[trigger] history[i]).level > level,
    decreases history.len(),
{
    if history.len() > 0 && history.last().level > level {
        let rest = history.drop_last();
        lemma_kept(rest, level);
        assert forall|i: int| kept(history, level) <= i < history.len() implies (
        #[trigger] history[i]).level > level by {
            if i < rest.len() {
                assert(rest[i] == history[i]);
            }
        }
        if kept(history, level) > 0 {
            assert(rest[kept(history, level) - 1] == history[kept(history, level) - 1]);
        }
    }
}

/// Going back to a level that is not above the current one leaves exactly
/// that many decisions.
pub proof fn lemma_kept_level<K>(history: Seq<DatedView<K>>, level: nat)
    requires
        well_dated(history),
    ensures
        decisions_in(history.take(kept(history, level) as int)) == if level <= decisions_in(
            history,
        ) {
            level
        } else {
            decisions_in(history)
        },
        well_dated(history.take(kept(history, level) as int)),
{
    lemma_kept(history, level);
    let n = kept(history, level) as int;
    let prefix = history.take(n);
    lemma_prefix_dated(history, n);
    if history.len() > 0 {
        assert(stamped(history, history.len() - 1));
        assert(history.take(history.len() as int) =~= history);
    }
    if n == history.len() {
        assert(prefix =~= history);
    } else {
        assert(stamped(history, n));
        assert(history.take(n + 1).drop_last() =~= prefix);
        if n > 0 {
            assert(stamped(history, n - 1));
        }
        lemma_decisions_monotone(history, n + 1);
    }
}

/// In a well dated history the levels never go down, and going back to a
/// level keeps exactly the assignments of that level and below.
pub proof fn law_levels<K>(history: Seq<DatedView<K>>, level: nat)
    requires
        well_dated(history),
    ensures
        forall|i: int, j: int|
            0 <= i <= j < history.len() ==> (#[trigger] history[i]).level <= (
            #[trigger] history[j]).level,
        forall|i: int|
            0 <= i < history.len() ==> (i < kept(history, level) <==> (#[trigger] history[i]).level
                <= level),
{
    assert forall|i: int, j: int| 0 <= i <= j < history.len() implies (
    #[trigger] history[i]).level <= (#[trigger] history[j]).level by {
        assert(stamped(history, i));
        assert(stamped(history, j));
        lemma_decisions_monotone(history.take(j + 1), i + 1);
        assert(history.take(j + 1).take(i + 1) =~= history.take(i + 1));
    }
    lemma_kept(history, level);
    assert forall|i: int| 0 <= i < history.len() implies (i < kept(history, level) <==> (
    #[trigger] history[i]).level <= level) by {
        if i < kept(history, level) {
            let last = history[kept(history, level) - 1];
        }
    }
}

/// A prefix of a history has no more decisions than the whole.
pub proof fn lemma_decisions_monotone<K>(history: Seq<DatedView<K>>, n: int)
    requires
        0 <= n <= history.len(),
    ensures
        decisions_in(history.take(n)) <= decisions_in(history),
    decreases history.len(),
{
    if n == history.len() {
        assert(history.take(n) =~= history);
    } else {
        lemma_decisions_monotone(history.drop_last(), n);
        assert(history.drop_last().take(n) =~= history.take(n));
    }
}

/// A prefix of a well dated history is well dated.
pub proof fn lemma_prefix_dated<K>(history: Seq<DatedView<K>>, n: int)
    requires
        well_dated(history),
        0 <= n <= history.len(),
    ensures
        well_dated(history.take(n)),
{
    let prefix = history.take(n);
    assert forall|i: int| 0 <= i < prefix.len() implies #[trigger] stamped(prefix, i) by {
        assert(stamped(history, i));
        assert(prefix.take(i + 1) =~= history.take(i + 1));
    }
}

/// A prefix of a grounded history is grounded, in the store and in any
/// store that starts with it.
pub proof fn lemma_grounded<K>(
    history: Seq<DatedView<K>>,
    n: int,
    store: Seq<IncompatibilityView<K>>,
    longer: Seq<IncompatibilityView<K>>,
)
    requires
        grounded(history, store),
        0 <= n <= history.len(),
        store.len() <= longer.len(),
        forall|i: int| 0 <= i < store.len() ==> store[i] == longer[i],
    ensures
        grounded(history.take(n), longer),
{
    let prefix = history.take(n);
    assert forall|i: int| 0 <= i < prefix.len() implies (#[trigger] prefix[i]).assignment.grounded(
        longer,
    ) && (prefix[i].assignment is Derivation ==> prefix[i].term == prefix[i].assignment.as_term(
        longer,
    )) by {
        let d = history[i];
        assert(d.assignment.grounded(store));
    }
}

/// The intersection of some terms is positive exactly when one of them is.
pub proof fn lemma_positive(terms: Seq<TermView>)
    requires
        terms.len() > 0,
    ensures
        intersect_all(terms) is Positive <==> exists|k: int|
            0 <= k < terms.len() && (#[trigger] terms[k]) is Positive,
    decreases terms.len(),
{
    if terms.len() > 1 {
        let rest = terms.drop_last();
        lemma_positive(rest);
        if exists|k: int| 0 <= k < rest.len() && (#[trigger] rest[k]) is Positive {
            let k = choose|k: int| 0 <= k < rest.len() && (#[trigger] rest[k]) is Positive;
            assert(terms[k] is Positive);
        }
        if exists|k: int| 0 <= k < terms.len() && (#[trigger] terms[k]) is Positive {
            let k = choose|k: int| 0 <= k < terms.len() && (#[trigger] terms[k]) is Positive;
            if k < rest.len() {
                assert(rest[k] is Positive);
            }
        }
    } else {
        if terms[0] is Positive {
        }
    }
}

/// Whether the packages at two places of a selection differ.
pub open spec fn differ<K>(selection: Seq<(K, nat)>, i: int, j: int) -> bool {
    selection[i].0 != selection[j].0
}

/// The decided packages are among the given ones, and none comes twice if
/// none of the given ones does.
pub proof fn lemma_decided_distinct<K>(history: Seq<DatedView<K>>, packages: Seq<K>)
    requires
        packages.no_duplicates(),
    ensures
        forall|k: int|
            0 <= k < decided(history, packages).len() ==> packages.contains(
                (#[trigger] decided(history, packages)[k]).0,
            ),
        forall|i: int, j: int|
            0 <= i < j < decided(history, packages).len() ==> #[trigger] differ(
                decided(history, packages),
                i,
                j,
            ),
    decreases packages.len(),
{
    if packages.len() > 0 {
        let fewer = packages.drop_last();
        let rest = decided(history, fewer);
        let all = decided(history, packages);
        let p = packages.last();
        assert forall|i: int, j: int|
            0 <= i < fewer.len() && 0 <= j < fewer.len() && i != j implies fewer[i]
            != fewer[j] by {
            assert(packages[i] != packages[j]);
        }
        lemma_decided_distinct(history, fewer);
        assert forall|k: int| 0 <= k < all.len() implies packages.contains(
            (#[trigger] all[k]).0,
        ) by {
            if k < rest.len() {
                assert(all[k] == rest[k]);
                assert(fewer.contains(rest[k].0));
                let m = choose|m: int| 0 <= m < fewer.len() && fewer[m] == rest[k].0;
                assert(packages[m] == rest[k].0);
            } else {
                assert(packages[packages.len() - 1] == p);
            }
        }
        assert forall|i: int, j: int| 0 <= i < j < all.len() implies #[trigger] differ(
            all,
            i,
            j,
        ) by {
            if j < rest.len() {
                assert(differ(rest, i, j));
            } else {
                assert(all[i] == rest[i]);
                assert(fewer.contains(rest[i].0));
                let m = choose|m: int| 0 <= m < fewer.len() && fewer[m] == rest[i].0;
                assert(packages[m] != packages[packages.len() - 1]);
            }
        }
    }
}

/// Among more packages there are no fewer candidates.
pub proof fn lemma_candidates_prefix<K>(history: Seq<DatedView<K>>, packages: Seq<K>, n: int)
    requires
        0 <= n <= packages.len(),
    ensures
        candidates(history, packages.take(n)).len() <= candidates(history, packages).len(),
    decreases packages.len(),
{
    if n == packages.len() {
        assert(packages.take(n) =~= packages);
    } else {
        lemma_candidates_prefix(history, packages.drop_last(), n);
        assert(packages.drop_last().take(n) =~= packages.take(n));
    }
}

/// The state of the search for one term `t` of an incompatibility, on
/// package `p`, after the first `n` assignments of a history: whether the
/// term was found satisfied, and the intersection of the terms met for `p`
/// until then. It starts in the state `start`.
pub open spec fn progress<K>(
    start: (bool, TermView),
    p: K,
    t: TermView,
    history: Seq<DatedView<K>>,
    n: nat,
) -> (bool, TermView)
    decreases n,
{
    if n == 0 || n > history.len() {
        start
    } else {
        let before = progress(start, p, t, history, (n - 1) as nat);
        let d = history[n - 1];
        if d.assignment.package() != p || before.0 {
            before
        } else {
            let acc = before.1.intersect(d.term);
            (acc.subset_of(t), acc)
        }
    }
}

/// Whether the search has found every term satisfied after the first `n`
/// assignments.
pub open spec fn all_satisfied<K>(
    starts: Seq<(bool, TermView)>,
    terms: Seq<(K, TermView)>,
    history: Seq<DatedView<K>>,
    n: nat,
) -> bool {
    forall|k: int|
        0 <= k < terms.len() ==> (#[trigger] progress(
            starts[k],
            terms[k].0,
            terms[k].1,
            history,
            n,
        )).0
}

/// Whether the assignments assert of the package of a term something that
/// the term includes.
pub open spec fn term_satisfied<K>(term: (K, TermView), history: Seq<DatedView<K>>) -> bool {
    accumulated(history, term.0) matches Some(x) && x.subset_of(term.1)
}

/// Whether the assignments satisfy each of the terms.
pub open spec fn satisfied_by<K>(terms: Seq<(K, TermView)>, history: Seq<DatedView<K>>) -> bool {
    forall|k: int| 0 <= k < terms.len() ==> #[trigger] term_satisfied(terms[k], history)
}

/// Whether `first`, followed by the first `m` assignments of `history`,
/// satisfies the terms, and no fewer of them do.
pub open spec fn is_earliest<K>(
    terms: Seq<(K, TermView)>,
    first: Seq<DatedView<K>>,
    history: Seq<DatedView<K>>,
    m: nat,
) -> bool {
    &&& m <= history.len()
    &&& satisfied_by(terms, first + history.take(m as int))
    &&& forall|j: nat| j < m ==> !#[trigger] satisfied_by(terms, first + history.take(j as int))
}

/// The index of the satisfier of some terms: the earliest assignment such
/// that the terms are satisfied by the history up to and including it.
pub open spec fn satisfier_index<K>(terms: Seq<(K, TermView)>, history: Seq<DatedView<K>>) -> Option<
    nat,
> {
    if exists|m: nat| #[trigger] is_earliest(terms, Seq::empty(), history, m) && m > 0 {
        let m = choose|m: nat| #[trigger] is_earliest(terms, Seq::empty(), history, m) && m > 0;
        Some((m - 1) as nat)
    } else {
        None
    }
}

/// The previous satisfier level: the level of the earliest assignment of
/// `before` such that the terms are satisfied by the satisfier together with
/// the assignments up to and including that one; never less than 1, and 1 if
/// there is no such assignment or if the satisfier alone is enough.
pub open spec fn previous_level<K>(
    terms: Seq<(K, TermView)>,
    satisfier: DatedView<K>,
    before: Seq<DatedView<K>>,
) -> nat {
    if exists|m: nat| is_earliest(terms, seq![satisfier], before, m) {
        let m = choose|m: nat| is_earliest(terms, seq![satisfier], before, m);
        if m == 0 || before[m - 1].level < 1 {
            1
        } else {
            before[m - 1].level
        }
    } else {
        1
    }
}

/// The state in which the search starts for a term, once the assignments
/// `first` are taken in.
pub open spec fn seed<K>(first: Seq<DatedView<K>>, term: (K, TermView)) -> (bool, TermView) {
    match accumulated(first, term.0) {
        Some(x) => (x.subset_of(term.1), x),
        None => (false, TermView::any()),
    }
}

/// The states in which the search starts for each term.
pub open spec fn seeds<K>(first: Seq<DatedView<K>>, terms: Seq<(K, TermView)>) -> Seq<
    (bool, TermView),
> {
    Seq::new(terms.len(), |k: int| seed(first, terms[k]))
}

/// The states of a list.
pub open spec fn states_view<V: Version>(states: Seq<(bool, Term<V>)>) -> Seq<(bool, TermView)> {
    states.map_values(|s: (bool, Term<V>)| (s.0, s.1@))
}

/// Intersecting with the term that is always true changes nothing.
pub proof fn lemma_any_intersect(t: TermView)
    ensures
        TermView::any().intersect(t) == t,
{
    match t {
        TermView::Positive(b) => {
            assert(Set::<nat>::empty().complement().intersect(b) =~= b);
        },
        TermView::Negative(b) => {
            assert(Set::<nat>::empty().union(b) =~= b);
        },
    }
}

/// What is a subset of a term stays one when intersected further.
pub proof fn lemma_subset_intersect(x: TermView, y: TermView, t: TermView)
    requires
        x.subset_of(t),
    ensures
        x.intersect(y).subset_of(t),
{
    TermView::law_subset_of(x, t);
    TermView::law_subset_of(x.intersect(y), t);
    TermView::law_versions(x, y);
}

/// The search, started where the assignments `first` leave it, finds a term
/// satisfied after `n` assignments exactly when `first` and these
/// assignments satisfy it; and until then it holds the intersection of what
/// they assert of the package.
#[verifier::rlimit(50)]
pub proof fn lemma_progress<K>(
    first: Seq<DatedView<K>>,
    term: (K, TermView),
    history: Seq<DatedView<K>>,
    n: nat,
)
    requires
        n <= history.len(),
    ensures
        progress(seed(first, term), term.0, term.1, history, n).0 <==> term_satisfied(
            term,
            first + history.take(n as int),
        ),
        !progress(seed(first, term), term.0, term.1, history, n).0 ==> progress(
            seed(first, term),
            term.0,
            term.1,
            history,
            n,
        ).1 == match accumulated(first + history.take(n as int), term.0) {
            Some(x) => x,
            None => TermView::any(),
        },
    decreases n,
{
    let p = term.0;
    let t = term.1;
    if n == 0 {
        assert(first + history.take(0) =~= first);
    } else {
        let before = progress(seed(first, term), p, t, history, (n - 1) as nat);
        let d = history[n - 1];
        let sofar = first + history.take(n - 1);
        lemma_progress(first, term, history, (n - 1) as nat);
        assert(first + history.take(n as int) =~= sofar.push(d));
        lemma_push(sofar, d, p);
        if d.assignment.package() == p {
            lemma_intersect_push(terms_for(sofar, p), d.term);
            if before.0 {
                let x = accumulated(sofar, p)->0;
                lemma_subset_intersect(x, d.term, t);
            } else {
                lemma_any_intersect(d.term);
            }
        }
    }
}

/// The search, started where the assignments `first` leave it, has found
/// all terms satisfied after `n` assignments exactly when `first` and these
/// assignments satisfy them.
pub proof fn lemma_all_satisfied<K>(
    first: Seq<DatedView<K>>,
    terms: Seq<(K, TermView)>,
    history: Seq<DatedView<K>>,
    n: nat,
)
    requires
        n <= history.len(),
    ensures
        all_satisfied(seeds(first, terms), terms, history, n) <==> satisfied_by(
            terms,
            first + history.take(n as int),
        ),
{
    let starts = seeds(first, terms);
    assert forall|k: int| 0 <= k < terms.len() implies ((#[trigger] progress(
        starts[k],
        terms[k].0,
        terms[k].1,
        history,
        n,
    )).0 <==> term_satisfied(terms[k], first + history.take(n as int))) by {
        lemma_progress(first, terms[k], history, n);
    }
    if all_satisfied(starts, terms, history, n) {
        assert forall|k: int| 0 <= k < terms.len() implies #[trigger] term_satisfied(
            terms[k],
            first + history.take(n as int),
        ) by {
            assert(progress(starts[k], terms[k].0, terms[k].1, history, n).0);
        }
    }
    if satisfied_by(terms, first + history.take(n as int)) {
        assert forall|k: int| 0 <= k < terms.len() implies (#[trigger] progress(
            starts[k],
            terms[k].0,
            terms[k].1,
            history,
            n,
        )).0 by {
            assert(term_satisfied(terms[k], first + history.take(n as int)));
        }
    }
}

/// There is one earliest point at most.
pub proof fn lemma_earliest_unique<K>(
    terms: Seq<(K, TermView)>,
    first: Seq<DatedView<K>>,
    history: Seq<DatedView<K>>,
    m: nat,
    n: nat,
)
    requires
        is_earliest(terms, first, history, m),
        is_earliest(terms, first, history, n),
    ensures
        m == n,
{
}

/// The terms of a list.
pub open spec fn term_views<V: Version>(terms: Seq<Term<V>>) -> Seq<TermView> {
    terms.map_values(|t: Term<V>| t@)
}

/// What a list of dated assignments says.
pub open spec fn history_view<P: Package, V: Version>(history: Seq<DatedAssignment<P, V>>) -> Seq<
    DatedView<P::V>,
> {
    history.map_values(|d: DatedAssignment<P, V>| d@)
}

/// How the descriptions of a history change when an assignment is added.
pub proof fn lemma_push<K>(history: Seq<DatedView<K>>, d: DatedView<K>, p: K)
    ensures
        terms_for(history.push(d), p) == if d.assignment.package() == p {
            terms_for(history, p).push(d.term)
        } else {
            terms_for(history, p)
        },
        decision_of(history.push(d), p) == match d.assignment {
            AssignmentView::Decision { package, version } if package == p => Some(version),
            _ => decision_of(history, p),
        },
        packages_in_order(history.push(d)) == if packages_in_order(history).contains(
            d.assignment.package(),
        ) {
            packages_in_order(history)
        } else {
            packages_in_order(history).push(d.assignment.package())
        },
        decisions_in(history.push(d)) == decisions_in(history) + if d.assignment is Decision {
            1nat
        } else {
            0nat
        },
{
    assert(history.push(d).drop_last() =~= history);
    assert(history.push(d).last() == d);
}

/// A history has no more decisions than assignments.
pub proof fn lemma_decisions_bound<K>(history: Seq<DatedView<K>>)
    ensures
        decisions_in(history) <= history.len(),
    decreases history.len(),
{
    if history.len() > 0 {
        lemma_decisions_bound(history.drop_last());
    }
}

/// The packages in order are those of which a term is asserted.
pub proof fn lemma_packages<K>(history: Seq<DatedView<K>>, p: K)
    ensures
        packages_in_order(history).contains(p) <==> terms_for(history, p).len() > 0,
        terms_for(history, p).len() == 0 ==> decision_of(history, p) is None,
    decreases history.len(),
{
    if history.len() > 0 {
        let rest = packages_in_order(history.drop_last());
        let q = history.last().assignment.package();
        lemma_packages(history.drop_last(), p);
        lemma_packages(history.drop_last(), q);
        if rest.contains(p) {
            let k = choose|k: int| 0 <= k < rest.len() && rest[k] == p;
            assert(rest.push(q)[k] == p);
        }
        if !rest.contains(q) {
            assert(rest.push(q)[rest.len() as int] == q);
        }
    }
}

/// No package comes twice in the packages in order.
pub proof fn lemma_packages_distinct<K>(history: Seq<DatedView<K>>)
    ensures
        packages_in_order(history).no_duplicates(),
    decreases history.len(),
{
    if history.len() > 0 {
        let rest = packages_in_order(history.drop_last());
        let q = history.last().assignment.package();
        lemma_packages_distinct(history.drop_last());
        if !rest.contains(q) {
            let all = rest.push(q);
            assert forall|i: int, j: int|
                0 <= i < all.len() && 0 <= j < all.len() && i != j implies all[i] != all[j] by {
                if i < rest.len() && j < rest.len() {
                    assert(rest[i] != rest[j]);
                } else if i < rest.len() {
                    assert(rest.contains(rest[i]));
                } else {
                    assert(rest.contains(rest[j]));
                }
            }
        }
    }
}

/// The intersection of terms with one more at the end.
pub proof fn lemma_intersect_push(terms: Seq<TermView>, t: TermView)
    ensures
        intersect_all(terms.push(t)) == if terms.len() == 0 {
            t
        } else {
            intersect_all(terms).intersect(t)
        },
{
    assert(terms.push(t).drop_last() =~= terms);
    assert(terms.push(t).last() == t);
}

impl<P: Package, V: Version> View for DatedAssignment<P, V> {
    type V = DatedView<P::V>;

    closed spec fn view(&self) -> DatedView<P::V> {
        DatedView {
            level: self.decision_level.0 as nat,
            assignment: self.assignment@,
            term: self.term@,
        }
    }
}

impl<P: Package, V: Version> Clone for DatedAssignment<P, V> {
    fn clone(&self) -> (d: Self)
        ensures
            d@ == self@,
    {
        DatedAssignment {
            decision_level: self.decision_level,
            assignment: self.assignment.clone(),
            term: self.term.clone(),
        }
    }
}

impl<P: Package, V: Version> DatedAssignment<P, V> {
    /// The decision level in effect when the assignment was added.
    pub fn decision_level(&self) -> (l: DecisionLevel)
        ensures
            l.0 == self@.level,
    {
        self.decision_level
    }

    /// The assignment.
    pub fn assignment(&self) -> (a: &Assignment<P, V>)
        ensures
            a@ == self@.assignment,
    {
        &self.assignment
    }

    /// The term that the assignment asserts.
    pub fn term(&self) -> (t: &Term<V>)
        ensures
            t@ == self@.term,
    {
        &self.term
    }
}

impl<P: Package, V: Version> PackageAssignments<P, V> {
    /// Whether the entry holds what the history says of its package.
    spec fn matches(&self, history: Seq<DatedView<P::V>>) -> bool {
        &&& term_views(self.terms@) == terms_for(history, self.package@)
        &&& self.terms.len() > 0
        &&& match self.decision {
            Some(v) => Some(v@),
            None => None,
        } == decision_of(history, self.package@)
        &&& self.intersection matches Some(t) ==> Some(t@) == accumulated(
            history,
            self.package@,
        )
    }
}

impl<P: Package, V: Version> View for PartialSolution<P, V> {
    type V = Seq<DatedView<P::V>>;

    /// The assignments, oldest first.
    closed spec fn view(&self) -> Seq<DatedView<P::V>> {
        history_view(self.history@)
    }
}

impl<P: Package, V: Version> PartialSolution<P, V> {
    /// The packages of the entries of the memory.
    spec fn remembered(&self) -> Seq<P::V> {
        self.memory@.map_values(|e: PackageAssignments<P, V>| e.package@)
    }

    /// The assignments are stamped with their levels, the counter holds the
    /// number of decisions, and the memory holds what the history says of
    /// each of its packages.
    pub closed spec fn wf(&self) -> bool {
        &&& well_dated(self@)
        &&& self.decision_level.0 == decisions_in(self@)
        &&& self.remembered() == packages_in_order(self@)
        &&& forall|k: int|
            0 <= k < self.memory.len() ==> (#[trigger] self.memory@[k]).matches(self@)
    }

    /// The current decision level.
    pub closed spec fn level(&self) -> nat {
        self.decision_level.0 as nat
    }

    /// What a well-formed partial solution is made of.
    pub proof fn lemma_wf(&self)
        requires
            self.wf(),
        ensures
            well_dated(self@),
            self.level() == decisions_in(self@),
    {
    }

    /// Initialize an empty partial solution.
    pub fn empty() -> (s: Self)
        ensures
            s.wf(),
            s@ == Seq::<DatedView<P::V>>::empty(),
            s.level() == 0,
    {
        let s = Self { decision_level: DecisionLevel(0), history: Vec::new(), memory: Vec::new() };
        assert(s@ =~= Seq::<DatedView<P::V>>::empty());
        assert(s.remembered() =~= packages_in_order(s@));
        s
    }

    /// The current decision level.
    pub fn decision_level(&self) -> (l: DecisionLevel)
        ensures
            l.0 == self.level(),
    {
        self.decision_level
    }

    /// The assignments, oldest first.
    pub fn history(&self) -> (h: &Vec<DatedAssignment<P, V>>)
        ensures
            history_view(h@) == self@,
    {
        &self.history
    }

    /// The index of the entry of the memory for a package.
    fn remembered_at(&self, package: &P) -> (r: Option<usize>)
        ensures
            match r {
                Some(i) => i < self.memory.len() && self.memory@[i as int].package@ == package@,
                None => !self.remembered().contains(package@),
            },
    {
        let n = self.memory.len();
        let mut i: usize = 0;
        while i < n
            invariant
                i <= n,
                n == self.memory.len(),
                forall|k: int| 0 <= k < i ==> (#[trigger] self.remembered()[k]) != package@,
            decreases n - i,
        {
            if self.memory[i].package.same(package) {
                return Some(i);
            }
            assert(self.remembered()[i as int] == self.memory@[i as int].package@);
            i += 1;
        }
        None
    }

    /// Adds an assignment and the term that it asserts.
    #[verifier::rlimit(50)]
    fn add_assignment(&mut self, assignment: Assignment<P, V>, term: Term<V>)
        requires
            old(self).wf(),
            assignment@ matches AssignmentView::Decision { version, .. } ==> term@
                == TermView::exact(version),
        ensures
            final(self).wf(),
            final(self)@ == old(self)@.push(
                DatedView {
                    level: old(self).level() + if assignment is Decision {
                        1nat
                    } else {
                        0nat
                    },
                    assignment: assignment@,
                    term: term@,
                },
            ),
            final(self).level() == old(self).level() + if assignment is Decision {
                1nat
            } else {
                0nat
            },
    {
        let ghost before = self@;
        let ghost memory_before = self.memory@;
        let ghost p = assignment@.package();
        let is_decision = match &assignment {
            Assignment::Decision { .. } => true,
            Assignment::Derivation { .. } => false,
        };
        let decided: Option<V> = match &assignment {
            Assignment::Decision { version, .. } => Some(*version),
            Assignment::Derivation { .. } => None,
        };
        let found = self.remembered_at(assignment.package());
        let remembered_term = term.clone();
        let ghost copy = remembered_term;
        match found {
            Some(i) => {
                self.memory[i].terms.push(remembered_term);
                self.memory[i].intersection = None;
                if is_decision {
                    self.memory[i].decision = decided;
                }
            },
            None => {
                let mut terms: Vec<Term<V>> = Vec::new();
                terms.push(remembered_term);
                self.memory.push(
                    PackageAssignments {
                        package: assignment.package().duplicate(),
                        decision: decided,
                        terms,
                        intersection: None,
                    },
                );
            },
        }
        let old_level = self.decision_level.0;
        self.history.push(
            DatedAssignment { decision_level: DecisionLevel(old_level), assignment, term },
        );
        proof {
            lemma_decisions_bound(before);
            assert(before.len() == self.history.len() - 1);
        }
        let last = self.history.len() - 1;
        if is_decision {
            self.decision_level = DecisionLevel(old_level + 1);
            self.history[last].decision_level = DecisionLevel(old_level + 1);
        }
        proof {
            let d = DatedView {
                level: old(self).level() + if is_decision {
                    1nat
                } else {
                    0nat
                },
                assignment: assignment@,
                term: term@,
            };
            let after = self@;
            assert(after =~= before.push(d));
            lemma_push(before, d, p);
            lemma_packages(before, p);
            lemma_packages_distinct(before);
            assert(well_dated(after)) by {
                assert forall|i: int| 0 <= i < after.len() implies #[trigger] stamped(after, i) by {
                    if i < before.len() {
                        assert(stamped(before, i));
                        assert(after.take(i + 1) =~= before.take(i + 1));
                    } else {
                        assert(after.take(i + 1) =~= after);
                    }
                }
            }
            assert(self.remembered() =~= packages_in_order(after)) by {
                let was = old(self).remembered();
                match found {
                    Some(i) => {
                        assert(was[i as int] == p);
                        assert(was.contains(p));
                        assert forall|k: int| 0 <= k < was.len() implies self.remembered()[k]
                            == was[k] by {
                            assert(was[k] == memory_before[k].package@);
                        }
                    },
                    None => {
                        assert forall|k: int| 0 <= k < was.len() implies self.remembered()[k]
                            == was[k] by {
                            assert(was[k] == memory_before[k].package@);
                        }
                    },
                }
            }
            assert forall|k: int| 0 <= k < self.memory.len() implies (#[trigger] self.memory@[k]).matches(
                after,
            ) by {
                let e = self.memory@[k];
                let q = e.package@;
                lemma_push(before, d, q);
                if k < memory_before.len() {
                    let was = memory_before[k];
                    assert(was.matches(before));
                    assert(old(self).remembered()[k] == was.package@);
                    if found == Some(k as usize) {
                        assert(e.package == was.package);
                        assert(e.terms@ == was.terms@.push(copy));
                        assert(term_views(e.terms@) =~= term_views(was.terms@).push(term@));
                    } else {
                        assert(e == was);
                        if q == p {
                            assert(old(self).remembered().contains(p));
                            match found {
                                Some(i) => {
                                    assert(old(self).remembered()[i as int] == p);
                                },
                                None => {},
                            }
                        }
                    }
                } else {
                    assert(found is None);
                    assert(e.terms@ =~= Seq::<Term<V>>::empty().push(copy));
                    assert(term_views(e.terms@) =~= Seq::<TermView>::empty().push(term@));
                    assert(terms_for(before, p).len() == 0);
                    assert(terms_for(before, p) =~= Seq::<TermView>::empty());
                }
            }
        }
    }

    /// Add a decision to the partial solution.
    pub fn add_decision(&mut self, package: P, version: V)
        requires
            old(self).wf(),
            version.has_successor(),
        ensures
            final(self).wf(),
            final(self)@ == old(self)@.push(
                DatedView {
                    level: old(self).level() + 1,
                    assignment: AssignmentView::Decision { package: package@, version: version@ },
                    term: TermView::exact(version@),
                },
            ),
            final(self).level() == old(self).level() + 1,
    {
        let term = Term::exact(version);
        self.add_assignment(Assignment::Decision { package, version }, term);
    }

    /// Add a derivation to the partial solution.
    pub fn add_derivation(
        &mut self,
        package: P,
        cause: IncompId,
        store: &Vec<Incompatibility<P, V>>,
    )
        requires
            old(self).wf(),
            cause < store.len(),
            store[cause as int]@.has(package@),
        ensures
            final(self).wf(),
            final(self)@ == old(self)@.push(
                DatedView {
                    level: old(self).level(),
                    assignment: AssignmentView::Derivation {
                        package: package@,
                        cause: cause as nat,
                    },
                    term: store[cause as int]@.term(package@).negate(),
                },
            ),
            final(self).level() == old(self).level(),
            grounded(old(self)@, store_view(store@)) ==> grounded(
                final(self)@,
                store_view(store@),
            ),
    {
        let assignment = Assignment::Derivation { package, cause };
        assert(store_view(store@)[cause as int] == store@[cause as int]@);
        let term = assignment.as_term(store);
        let ghost before = self@;
        self.add_assignment(assignment, term);
        proof {
            let sv = store_view(store@);
            if grounded(before, sv) {
                assert forall|i: int| 0 <= i < self@.len() implies (#[trigger] self@[i]).assignment.grounded(
                    sv,
                ) && (self@[i].assignment is Derivation ==> self@[i].term
                    == self@[i].assignment.as_term(sv)) by {
                    if i < before.len() {
                        assert(self@[i] == before[i]);
                    }
                }
            }
        }
    }

    /// The intersection of the terms of a list, which is not empty.
    fn intersect_terms(terms: &Vec<Term<V>>) -> (t: Term<V>)
        requires
            terms.len() > 0,
        ensures
            t@ == intersect_all(term_views(terms@)),
    {
        let ghost tv = term_views(terms@);
        let n = terms.len();
        let mut acc = terms[0].clone();
        let mut k: usize = 1;
        assert(tv.take(1) =~= seq![tv[0]]);
        while k < n
            invariant
                1 <= k <= n,
                n == terms.len(),
                tv == term_views(terms@),
                acc@ == intersect_all(tv.take(k as int)),
            decreases n - k,
        {
            acc = acc.intersection(&terms[k]);
            proof {
                assert(tv.take(k + 1) =~= tv.take(k as int).push(tv[k as int]));
                lemma_intersect_push(tv.take(k as int), tv[k as int]);
            }
            k += 1;
        }
        assert(tv.take(n as int) =~= tv);
        acc
    }

    /// Compute, cache and retrieve the intersection of all terms for this package.
    pub fn term_intersection_for_package(&mut self, package: &P) -> (r: Option<Term<V>>)
        requires
            old(self).wf(),
        ensures
            final(self).wf(),
            final(self)@ == old(self)@,
            final(self).level() == old(self).level(),
            match r {
                Some(t) => Some(t@),
                None => None,
            } == accumulated(old(self)@, package@),
    {
        let ghost h = self@;
        proof {
            lemma_packages(h, package@);
        }
        match self.remembered_at(package) {
            None => None,
            Some(i) => {
                assert(self.memory@[i as int].matches(h));
                let ghost memory_before = self.memory@;
                let known = match &self.memory[i].intersection {
                    Some(t) => Some(t.clone()),
                    None => None,
                };
                match known {
                    Some(t) => Some(t),
                    None => {
                        let t = Self::intersect_terms(&self.memory[i].terms);
                        self.memory[i].intersection = Some(t.clone());
                        proof {
                            assert(self.remembered() =~= old(self).remembered()) by {
                                assert forall|k: int|
                                    0 <= k < memory_before.len() implies self.remembered()[k]
                                    == old(self).remembered()[k] by {
                                    assert(old(self).remembered()[k]
                                        == memory_before[k].package@);
                                }
                            }
                            assert forall|k: int|
                                0 <= k < self.memory.len() implies (#[trigger] self.memory@[k]).matches(
                                h,
                            ) by {
                                assert(memory_before[k].matches(h));
                            }
                        }
                        Some(t)
                    },
                }
            },
        }
    }

    /// Check if the terms in the partial solution satisfy the incompatibility.
    pub fn relation(&mut self, incompat: &Incompatibility<P, V>) -> (r: Relation<P, V>)
        requires
            old(self).wf(),
        ensures
            final(self).wf(),
            final(self)@ == old(self)@,
            final(self).level() == old(self).level(),
            r@ == incompat@.relation(known(old(self)@, incompat@.terms)),
    {
        let ghost h = self@;
        let terms = incompat.iter();
        let n = terms.len();
        let mut found: Vec<Option<Term<V>>> = Vec::new();
        let mut k: usize = 0;
        assert(terms_view(terms@).len() == n);
        while k < n
            invariant
                k <= n,
                n == terms.len(),
                terms_view(terms@) == incompat@.terms,
                self.wf(),
                self@ == h,
                self.level() == old(self).level(),
                found.len() == k,
                forall|j: int|
                    0 <= j < k ==> (#[trigger] found_view(found@)[j]) == accumulated(
                        h,
                        incompat@.terms[j].0,
                    ),
            decreases n - k,
        {
            let ghost before = found_view(found@);
            let t = self.term_intersection_for_package(&terms[k].0);
            found.push(t);
            proof {
                assert(terms_view(terms@)[k as int].0 == terms@[k as int].0@);
                assert forall|j: int| 0 <= j < k + 1 implies (#[trigger] found_view(found@)[j])
                    == accumulated(h, incompat@.terms[j].0) by {
                    if j < k {
                        assert(found_view(found@)[j] == before[j]);
                    }
                }
            }
            k += 1;
        }
        assert(found_view(found@) =~= known(h, incompat@.terms));
        incompat.relation(&found)
    }
    /// Tells whether one of the terms is positive.
    fn any_positive(terms: &Vec<Term<V>>) -> (b: bool)
        ensures
            b == exists|k: int|
                0 <= k < terms.len() && (#[trigger] term_views(terms@)[k]) is Positive,
    {
        let n = terms.len();
        let mut k: usize = 0;
        while k < n
            invariant
                k <= n,
                n == terms.len(),
                forall|j: int| 0 <= j < k ==> !((#[trigger] term_views(terms@)[j]) is Positive),
            decreases n - k,
        {
            if terms[k].is_positive() {
                assert(term_views(terms@)[k as int] is Positive);
                return true;
            }
            k += 1;
        }
        false
    }

    /// If a partial solution has, for every positive derivation,
    /// a corresponding decision that satisfies that assignment,
    /// it's a total solution and version solving has succeeded.
    /// The solution holds every decided package with its version, in the
    /// order in which the packages first came.
    pub fn extract_solution(&self) -> (r: Option<Vec<(P, V)>>)
        requires
            self.wf(),
        ensures
            match r {
                Some(solution) => candidates(self@, packages_in_order(self@)).len() == 0
                    && selection_view(solution@) == decided(self@, packages_in_order(self@)),
                None => candidates(self@, packages_in_order(self@)).len() > 0,
            },
    {
        let ghost h = self@;
        let ghost packages = packages_in_order(h);
        let n = self.memory.len();
        let mut solution: Vec<(P, V)> = Vec::new();
        let mut k: usize = 0;
        assert(packages.take(0) =~= Seq::<P::V>::empty());
        while k < n
            invariant
                k <= n,
                n == self.memory.len(),
                self.wf(),
                h == self@,
                packages == packages_in_order(h),
                candidates(h, packages.take(k as int)).len() == 0,
                selection_view(solution@) == decided(h, packages.take(k as int)),
            decreases n - k,
        {
            let entry = &self.memory[k];
            proof {
                assert(entry.matches(h));
                assert(self.remembered()[k as int] == entry.package@);
                assert(packages.take(k + 1).drop_last() =~= packages.take(k as int));
                assert(packages.take(k + 1).last() == entry.package@);
                lemma_positive(term_views(entry.terms@));
            }
            match entry.decision {
                Some(v) => {
                    let ghost before = selection_view(solution@);
                    solution.push((entry.package.duplicate(), v));
                    assert(selection_view(solution@) =~= before.push((entry.package@, v@)));
                },
                None => {
                    if Self::any_positive(&entry.terms) {
                        proof {
                            lemma_candidates_prefix(h, packages, k + 1);
                        }
                        return None;
                    }
                },
            }
            k += 1;
        }
        assert(packages.take(n as int) =~= packages);
        Some(solution)
    }

    /// Extract potential packages for the next iteration of unit propagation.
    /// Return `None` if there is no suitable package anymore, which stops the algorithm.
    /// The packages come in the order in which they first came into the
    /// partial solution.
    pub fn potential_packages(&mut self) -> (r: Option<Vec<(P, Range<V>)>>)
        requires
            old(self).wf(),
        ensures
            final(self).wf(),
            final(self)@ == old(self)@,
            final(self).level() == old(self).level(),
            match r {
                Some(list) => list.len() > 0 && candidates_view(list@) == candidates(
                    old(self)@,
                    packages_in_order(old(self)@),
                ),
                None => candidates(old(self)@, packages_in_order(old(self)@)).len() == 0,
            },
    {
        let ghost h = self@;
        let ghost packages = packages_in_order(h);
        let n = self.memory.len();
        let mut list: Vec<(P, Range<V>)> = Vec::new();
        let mut k: usize = 0;
        assert(packages.take(0) =~= Seq::<P::V>::empty());
        while k < n
            invariant
                k <= n,
                n == self.memory.len(),
                self.wf(),
                h == self@,
                self.level() == old(self).level(),
                packages == packages_in_order(h),
                candidates_view(list@) == candidates(h, packages.take(k as int)),
            decreases n - k,
        {
            proof {
                assert(self.memory@[k as int].matches(h));
                assert(self.remembered()[k as int] == self.memory@[k as int].package@);
                assert(packages.take(k + 1).drop_last() =~= packages.take(k as int));
                assert(packages.take(k + 1).last() == self.memory@[k as int].package@);
            }
            if self.memory[k].decision.is_none() {
                let package = self.memory[k].package.duplicate();
                match self.term_intersection_for_package(&package) {
                    Some(Term::Positive(range)) => {
                        let ghost before = candidates_view(list@);
                        list.push((package, range));
                        assert(candidates_view(list@) =~= before.push((package@, range@)));
                    },
                    _ => {},
                }
            }
            assert(self.remembered().len() == n);
            k += 1;
        }
        assert(packages.take(n as int) =~= packages);
        if list.len() == 0 {
            None
        } else {
            Some(list)
        }
    }

    /// Backtrack the partial solution to a given decision level: the
    /// assignments made at a higher level are dropped, and the memory is
    /// built again from those that stay.
    pub fn backtrack(&mut self, decision_level: DecisionLevel)
        requires
            old(self).wf(),
        ensures
            final(self).wf(),
            final(self)@ == old(self)@.take(kept(old(self)@, decision_level.0 as nat) as int),
            final(self).level() == if decision_level.0 <= old(self).level() {
                decision_level.0 as nat
            } else {
                old(self).level()
            },
    {
        let ghost h = self@;
        proof {
            lemma_kept(h, decision_level.0 as nat);
            lemma_kept_level(h, decision_level.0 as nat);
        }
        let mut pos: usize = self.history.len();
        assert(h.take(pos as int) =~= h);
        while pos > 0 && self.history[pos - 1].decision_level.0 > decision_level.0
            invariant
                pos <= self.history.len(),
                h == self@,
                kept(h, decision_level.0 as nat) == kept(h.take(pos as int), decision_level.0 as nat),
            decreases pos,
        {
            proof {
                let prefix = h.take(pos as int);
                assert(prefix.last() == h[pos - 1]);
                assert(prefix.drop_last() =~= h.take(pos - 1));
            }
            pos -= 1;
        }
        proof {
            let prefix = h.take(pos as int);
            if pos > 0 {
                assert(prefix.last() == h[pos - 1]);
            }
            assert(kept(h, decision_level.0 as nat) == pos);
        }
        let kept_history = slice_subrange(self.history.as_slice(), 0, pos);
        proof {
            lemma_prefix_dated(h, pos as int);
            assert(history_view(kept_history@) =~= h.take(pos as int));
        }
        let rebuilt = Self::from_assignments(kept_history);
        *self = rebuilt;
    }

    /// The partial solution made of the given assignments, oldest first.
    fn from_assignments(assignments: &[DatedAssignment<P, V>]) -> (s: Self)
        requires
            well_dated(history_view(assignments@)),
        ensures
            s.wf(),
            s@ == history_view(assignments@),
    {
        let ghost h = history_view(assignments@);
        let n = assignments.len();
        let mut partial_solution = Self::empty();
        let mut i: usize = 0;
        assert(partial_solution@ =~= h.take(0));
        while i < n
            invariant
                i <= n,
                n == assignments.len(),
                h == history_view(assignments@),
                well_dated(h),
                partial_solution.wf(),
                partial_solution@ == h.take(i as int),
            decreases n - i,
        {
            let dated = assignments[i].clone();
            let DatedAssignment { decision_level: _, assignment, term } = dated;
            proof {
                assert(stamped(h, i as int));
                assert(h.take(i + 1).drop_last() =~= h.take(i as int));
                assert(h[i as int] == assignments@[i as int]@);
                partial_solution.lemma_wf();
            }
            partial_solution.add_assignment(assignment, term);
            proof {
                assert(partial_solution@ =~= h.take(i + 1));
            }
            i += 1;
        }
        assert(h.take(n as int) =~= h);
        partial_solution
    }

    /// We can add the version to the partial solution as a decision
    /// if it doesn't produce any conflict with the new incompatibilities.
    /// In practice I think it can only produce a conflict if one of the dependencies
    /// (which are used to make the new incompatibilities)
    /// is already in the partial solution with an incompatible version.
    #[verifier::rlimit(50)]
    pub fn add_version(
        &mut self,
        package: P,
        version: V,
        new_incompatibilities: &[Incompatibility<P, V>],
    ) -> (added: bool)
        requires
            old(self).wf(),
            version.has_successor(),
        ensures
            final(self).wf(),
            added == !exists|i: int|
                0 <= i < new_incompatibilities.len() && #[trigger] conflicts(
                    old(self)@,
                    new_incompatibilities@[i]@,
                    package@,
                    version@,
                ),
            final(self)@ == if added {
                old(self)@.push(
                    DatedView {
                        level: old(self).level() + 1,
                        assignment: AssignmentView::Decision {
                            package: package@,
                            version: version@,
                        },
                        term: TermView::exact(version@),
                    },
                )
            } else {
                old(self)@
            },
            final(self).level() == old(self).level() + if added {
                1nat
            } else {
                0nat
            },
    {
        let ghost h = self@;
        let n = new_incompatibilities.len();
        let mut i: usize = 0;
        // Check none of the dependencies (new_incompatibilities)
        // would create a conflict (be satisfied).
        while i < n
            invariant
                i <= n,
                n == new_incompatibilities.len(),
                version.has_successor(),
                self.wf(),
                self@ == h,
                h == old(self)@,
                self.level() == old(self).level(),
                forall|j: int|
                    0 <= j < i ==> !#[trigger] conflicts(
                        h,
                        new_incompatibilities@[j]@,
                        package@,
                        version@,
                    ),
            decreases n - i,
        {
            let incompat = &new_incompatibilities[i];
            let terms = incompat.iter();
            let m = terms.len();
            let mut found: Vec<Option<Term<V>>> = Vec::new();
            let mut k: usize = 0;
            assert(terms_view(terms@).len() == m);
            while k < m
                invariant
                    k <= m,
                    m == terms.len(),
                    terms_view(terms@) == incompat@.terms,
                    version.has_successor(),
                    self.wf(),
                    self@ == h,
                    self.level() == old(self).level(),
                    found.len() == k,
                    forall|j: int|
                        0 <= j < k ==> (#[trigger] found_view(found@)[j]) == known_with(
                            h,
                            incompat@.terms,
                            package@,
                            version@,
                        )[j],
                decreases m - k,
            {
                let ghost before = found_view(found@);
                let t = if terms[k].0.same(&package) {
                    Some(Term::exact(version))
                } else {
                    self.term_intersection_for_package(&terms[k].0)
                };
                found.push(t);
                proof {
                    assert(terms_view(terms@)[k as int].0 == terms@[k as int].0@);
                    assert forall|j: int| 0 <= j < k + 1 implies (#[trigger] found_view(found@)[j])
                        == known_with(h, incompat@.terms, package@, version@)[j] by {
                        if j < k {
                            assert(found_view(found@)[j] == before[j]);
                        }
                    }
                }
                k += 1;
            }
            assert(found_view(found@) =~= known_with(h, incompat@.terms, package@, version@));
            match incompat.relation(&found) {
                Relation::Satisfied => {
                    assert(conflicts(h, new_incompatibilities@[i as int]@, package@, version@));
                    return false;
                },
                _ => {},
            }
            i += 1;
        }
        self.add_decision(package, version);
        true
    }
    /// The state in which the search for a satisfier starts: no term is
    /// satisfied and nothing is known of any package.
    pub fn new_accum_satisfied_from(incompat: &Incompatibility<P, V>) -> (accum: Vec<
        (bool, Term<V>),
    >)
        ensures
            accum.len() == incompat@.terms.len(),
            states_view(accum@) == seeds(Seq::<DatedView<P::V>>::empty(), incompat@.terms),
    {
        let n = incompat.len();
        let mut accum: Vec<(bool, Term<V>)> = Vec::new();
        let mut k: usize = 0;
        while k < n
            invariant
                k <= n,
                n == incompat@.terms.len(),
                accum.len() == k,
                forall|j: int|
                    0 <= j < k ==> (#[trigger] states_view(accum@)[j]) == (false, TermView::any()),
            decreases n - k,
        {
            let ghost before = states_view(accum@);
            accum.push((false, Term::any()));
            proof {
                assert forall|j: int| 0 <= j < k + 1 implies (#[trigger] states_view(accum@)[j]) == (
                    false,
                    TermView::any(),
                ) by {
                    if j < k {
                        assert(states_view(accum@)[j] == before[j]);
                    }
                }
            }
            k += 1;
        }
        assert(states_view(accum@) =~= seeds(Seq::<DatedView<P::V>>::empty(), incompat@.terms));
        accum
    }

    /// Tells whether every term was found satisfied.
    fn all_found(accum: &Vec<(bool, Term<V>)>) -> (b: bool)
        ensures
            b == forall|k: int| 0 <= k < accum.len() ==> (#[trigger] states_view(accum@)[k]).0,
    {
        let n = accum.len();
        let mut k: usize = 0;
        while k < n
            invariant
                k <= n,
                n == accum.len(),
                forall|j: int| 0 <= j < k ==> (#[trigger] states_view(accum@)[j]).0,
            decreases n - k,
        {
            if !accum[k].0 {
                assert(!states_view(accum@)[k as int].0);
                return false;
            }
            k += 1;
        }
        true
    }

    /// Iterate over the assignments (oldest must be first)
    /// until we find the first one such that the set of all assignments until this one (included)
    /// satisfies the given incompatibility.
    /// `accum_satisfied` holds, for each term of the incompatibility and in
    /// their order, the state in which the search starts.
    #[verifier::rlimit(50)]
    pub fn find_satisfier_helper<'a>(
        incompat: &Incompatibility<P, V>,
        accum_satisfied: Vec<(bool, Term<V>)>,
        all_assignments: &'a [DatedAssignment<P, V>],
    ) -> (r: Option<SatisfierAndPreviousHistory<'a, P, V>>)
        requires
            accum_satisfied.len() == incompat@.terms.len(),
        ensures
            match r {
                Some(s) => {
                    let idx = s.before().len();
                    &&& idx < all_assignments.len()
                    &&& s.before() == all_assignments@.take(idx as int)
                    &&& s.found() == all_assignments@[idx as int]@
                    &&& incompat@.has(s.found().assignment.package())
                    &&& all_satisfied(
                        states_view(accum_satisfied@),
                        incompat@.terms,
                        history_view(all_assignments@),
                        idx + 1,
                    )
                    &&& forall|m: nat|
                        m <= idx ==> !#[trigger] all_satisfied(
                            states_view(accum_satisfied@),
                            incompat@.terms,
                            history_view(all_assignments@),
                            m,
                        )
                },
                None => all_satisfied(
                    states_view(accum_satisfied@),
                    incompat@.terms,
                    history_view(all_assignments@),
                    0,
                ) || forall|m: nat|
                    m <= all_assignments.len() ==> !#[trigger] all_satisfied(
                        states_view(accum_satisfied@),
                        incompat@.terms,
                        history_view(all_assignments@),
                        m,
                    ),
            },
    {
        let ghost starts = states_view(accum_satisfied@);
        let ghost terms = incompat@.terms;
        let ghost h = history_view(all_assignments@);
        let mut accum = accum_satisfied;
        let pairs = incompat.iter();
        let n = all_assignments.len();
        let mut idx: usize = 0;
        proof {
            use_type_invariant(incompat);
            incompat.lemma_wf();
            assert forall|k: int| 0 <= k < terms.len() implies (#[trigger] states_view(
                accum@,
            )[k]) == progress(starts[k], terms[k].0, terms[k].1, h, 0) by {}
        }
        while idx < n
            invariant
                idx <= n,
                n == all_assignments.len(),
                h == history_view(all_assignments@),
                terms == incompat@.terms,
                terms_view(pairs@) == terms,
                incompat@.distinct(),
                starts == states_view(accum_satisfied@),
                starts.len() == terms.len(),
                accum.len() == terms.len(),
                forall|k: int|
                    0 <= k < terms.len() ==> (#[trigger] states_view(accum@)[k])
                        == progress(starts[k], terms[k].0, terms[k].1, h, idx as nat),
                all_satisfied(starts, terms, h, 0) ==> all_satisfied(starts, terms, h, idx as nat),
                !all_satisfied(starts, terms, h, 0) ==> forall|m: nat|
                    m <= idx ==> !#[trigger] all_satisfied(starts, terms, h, m),
            decreases n - idx,
        {
            let dated_assignment = &all_assignments[idx];
            let package = dated_assignment.assignment.package();
            let ghost states = states_view(accum@);
            let ghost d = h[idx as int];
            proof {
                assert(d == all_assignments@[idx as int]@);
                assert(d.assignment.package() == package@);
            }
            // We only care about packages related to the incompatibility.
            let at = incompat.index_of(package);
            let mut changed = false;
            if let Some(k0) = at {
                // If that package term is already satisfied, no need to check.
                if !accum[k0].0 {
                    // Check if that incompat term is satisfied by our accumulated terms intersection.
                    let accum_term = accum[k0].1.intersection(&dated_assignment.term);
                    assert(terms_view(pairs@)[k0 as int].1 == pairs@[k0 as int].1@);
                    let is_satisfied = accum_term.subset_of(&pairs[k0].1);
                    accum[k0] = (is_satisfied, accum_term);
                    changed = true;
                }
            }
            proof {
                let after = states_view(accum@);
                assert forall|k: int| 0 <= k < terms.len() implies (#[trigger] after[k])
                    == progress(starts[k], terms[k].0, terms[k].1, h, (idx + 1) as nat) by {
                    assert(states[k] == progress(starts[k], terms[k].0, terms[k].1, h, idx as nat));
                    match at {
                        Some(k0) => {
                            if k != k0 {
                                assert(after[k] == states[k]);
                                let a = terms[k];
                                let b = terms[k0 as int];
                            }
                        },
                        None => {
                            assert(after[k] == states[k]);
                            let a = terms[k];
                        },
                    }
                }
                if !changed {
                    assert forall|k: int| 0 <= k < terms.len() implies progress(
                        starts[k],
                        terms[k].0,
                        terms[k].1,
                        h,
                        (idx + 1) as nat,
                    ) == progress(starts[k], terms[k].0, terms[k].1, h, idx as nat) by {
                        assert(after[k] == states[k]);
                    }
                    assert(all_satisfied(starts, terms, h, (idx + 1) as nat) == all_satisfied(
                        starts,
                        terms,
                        h,
                        idx as nat,
                    ));
                } else {
                    let k0 = at->0;
                    assert(!states[k0 as int].0);
                    assert(!progress(
                        starts[k0 as int],
                        terms[k0 as int].0,
                        terms[k0 as int].1,
                        h,
                        idx as nat,
                    ).0);
                    assert(!all_satisfied(starts, terms, h, idx as nat));
                    assert(!all_satisfied(starts, terms, h, 0));
                }
            }
            // Check if we have found the satisfier
            // (all booleans in accum are true).
            if changed && Self::all_found(&accum) {
                let previous_history = slice_subrange(all_assignments, 0, idx);
                proof {
                    assert(previous_history@ =~= all_assignments@.take(idx as int));
                    assert(incompat@.has(d.assignment.package()));
                    let after = states_view(accum@);
                    assert forall|k: int| 0 <= k < terms.len() implies (#[trigger] progress(
                        starts[k],
                        terms[k].0,
                        terms[k].1,
                        h,
                        (idx + 1) as nat,
                    )).0 by {
                        assert(after[k].0);
                    }
                }
                return Some(
                    SatisfierAndPreviousHistory {
                        satisfier: dated_assignment.clone(),
                        previous_history,
                    },
                );
            }
            proof {
                if changed {
                    let after = states_view(accum@);
                    let bad = choose|k: int| 0 <= k < accum.len() && !(
                    #[trigger] after[k]).0;
                    assert(!progress(
                        starts[bad],
                        terms[bad].0,
                        terms[bad].1,
                        h,
                        (idx + 1) as nat,
                    ).0);
                    assert(!all_satisfied(starts, terms, h, (idx + 1) as nat));
                }
                if !all_satisfied(starts, terms, h, 0) {
                    assert forall|m: nat| m <= idx + 1 implies !#[trigger] all_satisfied(
                        starts,
                        terms,
                        h,
                        m,
                    ) by {
                        if m <= idx {
                        }
                    }
                }
            }
            idx += 1;
        }
        None
    }

    /// A satisfier is the earliest assignment in partial solution such that the incompatibility
    /// is satisfied by the partial solution up to and including that assignment.
    /// Also returns all assignments earlier than the satisfier.
    #[verifier::rlimit(50)]
    pub fn find_satisfier<'a>(
        incompat: &Incompatibility<P, V>,
        history: &'a [DatedAssignment<P, V>],
    ) -> (r: Option<SatisfierAndPreviousHistory<'a, P, V>>)
        ensures
            match r {
                Some(s) => {
                    let idx = s.before().len();
                    &&& idx < history.len()
                    &&& s.before() == history@.take(idx as int)
                    &&& s.found() == history@[idx as int]@
                    &&& incompat@.has(s.found().assignment.package())
                    &&& satisfier_index(incompat@.terms, history_view(history@)) == Some(idx)
                    &&& is_earliest(
                        incompat@.terms,
                        Seq::empty(),
                        history_view(history@),
                        idx + 1,
                    )
                },
                None => satisfier_index(incompat@.terms, history_view(history@)) is None,
            },
    {
        let accum = Self::new_accum_satisfied_from(incompat);
        let r = Self::find_satisfier_helper(incompat, accum, history);
        proof {
            let terms = incompat@.terms;
            let h = history_view(history@);
            let first = Seq::<DatedView<P::V>>::empty();
            assert forall|m: nat| m <= h.len() implies (all_satisfied(
                seeds(first, terms),
                terms,
                h,
                m,
            ) <==> #[trigger] satisfied_by(terms, first + h.take(m as int))) by {
                lemma_all_satisfied(first, terms, h, m);
            }
            match &r {
                Some(s) => {
                    let idx = s.before().len();
                    assert(is_earliest(terms, first, h, idx + 1)) by {
                        assert(all_satisfied(seeds(first, terms), terms, h, idx + 1));
                        assert forall|j: nat| j < idx + 1 implies !#[trigger] satisfied_by(
                            terms,
                            first + h.take(j as int),
                        ) by {
                            assert(!all_satisfied(seeds(first, terms), terms, h, j));
                        }
                    }
                    let m = choose|m: nat| #[trigger] is_earliest(terms, first, h, m) && m > 0;
                    lemma_earliest_unique(terms, first, h, m, idx + 1);
                },
                None => {
                    assert forall|m: nat| !(#[trigger] is_earliest(terms, first, h, m) && m
                        > 0) by {
                        if is_earliest(terms, first, h, m) && m > 0 {
                            assert(all_satisfied(seeds(first, terms), terms, h, m));
                            if all_satisfied(seeds(first, terms), terms, h, 0) {
                                assert(satisfied_by(terms, first + h.take(0)));
                            } else {
                                assert(!all_satisfied(seeds(first, terms), terms, h, m));
                            }
                        }
                    }
                },
            }
        }
        r
    }

    /// Earliest assignment in the partial solution before satisfier
    /// such that incompatibility is satisfied by the partial solution up to
    /// and including that assignment plus satisfier.
    #[verifier::rlimit(50)]
    pub fn find_previous_satisfier(
        incompat: &Incompatibility<P, V>,
        satisfier: &DatedAssignment<P, V>,
        previous_assignments: &[DatedAssignment<P, V>],
    ) -> (level: DecisionLevel)
        requires
            incompat@.has(satisfier@.assignment.package()),
        ensures
            level.0 == previous_level(
                incompat@.terms,
                satisfier@,
                history_view(previous_assignments@),
            ),
    {
        let ghost terms = incompat@.terms;
        let ghost first = seq![satisfier@];
        let ghost h = history_view(previous_assignments@);
        let package = satisfier.assignment.package();
        let pairs = incompat.iter();
        let mut accum_satisfied = Self::new_accum_satisfied_from(incompat);
        let ghost unseeded = states_view(accum_satisfied@);
        match incompat.index_of(package) {
            Some(k0) => {
                let satisfier_term = satisfier.term.clone();
                assert(terms_view(pairs@)[k0 as int].1 == pairs@[k0 as int].1@);
                let is_satisfied = satisfier_term.subset_of(&pairs[k0].1);
                accum_satisfied[k0] = (is_satisfied, satisfier_term);
                proof {
                    use_type_invariant(incompat);
                    incompat.lemma_wf();
                    let seeded = states_view(accum_satisfied@);
                    let nothing = Seq::<DatedView<P::V>>::empty();
                    assert(first =~= nothing.push(satisfier@));
                    assert forall|k: int| 0 <= k < terms.len() implies seeded[k] == seeds(
                        first,
                        terms,
                    )[k] by {
                        lemma_push(nothing, satisfier@, terms[k].0);
                        lemma_intersect_push(terms_for(nothing, terms[k].0), satisfier@.term);
                        if k != k0 {
                            assert(seeded[k] == unseeded[k]);
                            let a = terms[k];
                            let b = terms[k0 as int];
                        }
                    }
                    assert(seeded =~= seeds(first, terms));
                }
            },
            None => {
                proof {
                    assert(false);
                }
            },
        }
        // Search previous satisfier.
        let found = Self::find_satisfier_helper(incompat, accum_satisfied, previous_assignments);
        proof {
            assert forall|m: nat| m <= h.len() implies (all_satisfied(
                seeds(first, terms),
                terms,
                h,
                m,
            ) <==> #[trigger] satisfied_by(terms, first + h.take(m as int))) by {
                lemma_all_satisfied(first, terms, h, m);
            }
        }
        match found {
            None => {
                proof {
                    if exists|m: nat| is_earliest(terms, first, h, m) {
                        let m = choose|m: nat| is_earliest(terms, first, h, m);
                        assert(all_satisfied(seeds(first, terms), terms, h, m));
                        if all_satisfied(seeds(first, terms), terms, h, 0) {
                            assert(satisfied_by(terms, first + h.take(0)));
                            assert(m == 0);
                        }
                    }
                }
                DecisionLevel(1)
            },
            Some(satisfier_and_previous_history) => {
                let level = satisfier_and_previous_history.satisfier.decision_level;
                proof {
                    let idx = satisfier_and_previous_history.before().len();
                    assert(is_earliest(terms, first, h, idx + 1)) by {
                        assert(all_satisfied(seeds(first, terms), terms, h, idx + 1));
                        assert forall|j: nat| j < idx + 1 implies !#[trigger] satisfied_by(
                            terms,
                            first + h.take(j as int),
                        ) by {
                            assert(!all_satisfied(seeds(first, terms), terms, h, j));
                        }
                    }
                    let m = choose|m: nat| is_earliest(terms, first, h, m);
                    lemma_earliest_unique(terms, first, h, m, idx + 1);
                    assert(h[idx as int] == previous_assignments@[idx as int]@);
                }
                if level.0 < 1 {
                    DecisionLevel(1)
                } else {
                    level
                }
            },
        }
    }

    /// Find satisfier and previous satisfier decision level. Nothing is
    /// found when the partial solution never satisfies the incompatibility,
    /// or when the incompatibility has no term.
    pub fn find_satisfier_and_previous_satisfier_level(
        &self,
        incompat: &Incompatibility<P, V>,
    ) -> (r: Option<(Assignment<P, V>, DecisionLevel, DecisionLevel)>)
        ensures
            match r {
                Some((satisfier, level, previous)) => {
                    &&& satisfier_index(incompat@.terms, self@) matches Some(s)
                    &&& s < self@.len()
                    &&& satisfier@ == self@[s as int].assignment
                    &&& incompat@.has(satisfier@.package())
                    &&& level.0 == self@[s as int].level
                    &&& previous.0 == previous_level(
                        incompat@.terms,
                        self@[s as int],
                        self@.take(s as int),
                    )
                },
                None => satisfier_index(incompat@.terms, self@) is None,
            },
    {
        match Self::find_satisfier(incompat, self.history.as_slice()) {
            None => None,
            Some(found) => {
                let previous_satisfier_level = Self::find_previous_satisfier(
                    incompat,
                    &found.satisfier,
                    found.previous_history,
                );
                proof {
                    let idx = found.before().len() as int;
                    assert(history_view(self.history@.take(idx)) =~= self@.take(idx));
                }
                Some(
                    (
                        found.satisfier.assignment.clone(),
                        found.satisfier.decision_level,
                        previous_satisfier_level,
                    ),
                )
            },
        }
    }
}

} // verus!
