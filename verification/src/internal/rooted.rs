//! The root package comes first in the partial solution, and stays: what
//! the algorithm does never drops its derivation, and never decides for it
//! another version than the one that was asked for.

use crate::internal::assignment::AssignmentView;
use crate::internal::incompatibility::{IncompatibilityView, KindView, RelationView};
use crate::internal::partial_solution::{
    DatedView, accumulated, candidates, decided, decision_of, intersect_all, kept, known,
    lemma_kept, lemma_packages, packages_in_order, previous_level, satisfier_index, terms_for,
};
use crate::error::Failure;
use crate::internal::state::{
    Propagated, Resolved, StateView, backtracked, derived, propagate, resolve_conflict, scan_live,
    tried, with_dependencies, with_incompatibility,
};
use crate::term::TermView;
use vstd::prelude::*;

verus! {

/// The incompatibility that says that the root package must be chosen at
/// the root version.
pub open spec fn not_root_view<K>(package: K, version: nat) -> IncompatibilityView<K> {
    IncompatibilityView {
        terms: seq![(package, TermView::Negative(set![version]))],
        kind: KindView::NotRoot(package, version),
    }
}

/// The state in which the algorithm starts.
pub open spec fn initial<K>(package: K, version: nat) -> StateView<K> {
    StateView {
        root_package: package,
        root_version: version,
        store: seq![not_root_view(package, version)],
        live: seq![0nat],
        history: Seq::empty(),
    }
}

/// Whether the assignment at index `i`, if it is a decision for the root
/// package, is for the root version.
pub open spec fn honest<K>(st: StateView<K>, i: int) -> bool {
    st.history[i].assignment matches AssignmentView::Decision { package, version } ==> (package
        == st.root_package ==> version == st.root_version)
}

/// Whether the partial solution starts with the derivation of the root
/// package from the first incompatibility of the store, and decides no other
/// version for it than the root version.
pub open spec fn rooted<K>(st: StateView<K>) -> bool {
    &&& st.store.len() > 0
    &&& st.store[0] == not_root_view(st.root_package, st.root_version)
    &&& st.history.len() > 0
    &&& st.history[0] == (DatedView {
        level: 0,
        assignment: AssignmentView::Derivation { package: st.root_package, cause: 0 },
        term: TermView::exact(st.root_version),
    })
    &&& forall|i: int| 0 <= i < st.history.len() ==> #[trigger] honest(st, i)
}

/// Whether two states are about the same root.
pub open spec fn same_root<K>(st: StateView<K>, other: StateView<K>) -> bool {
    st.root_package == other.root_package && st.root_version == other.root_version
}

/// Going back to a level that is not below that of the first assignment
/// keeps it.
pub proof fn lemma_kept_first<K>(history: Seq<DatedView<K>>, level: nat)
    requires
        history.len() > 0,
        history[0].level <= level,
    ensures
        kept(history, level) >= 1,
    decreases history.len(),
{
    if history.last().level > level {
        if history.len() > 1 {
            assert(history.drop_last()[0] == history[0]);
            lemma_kept_first(history.drop_last(), level);
        }
    }
}

/// A derivation keeps the state rooted.
pub proof fn lemma_derived_rooted<K>(st: StateView<K>, package: K, cause: nat)
    requires
        rooted(st),
    ensures
        rooted(derived(st, package, cause)),
        same_root(derived(st, package, cause), st),
{
    let after = derived(st, package, cause);
    assert forall|i: int| 0 <= i < after.history.len() implies #[trigger] honest(after, i) by {
        if i < st.history.len() {
            assert(honest(st, i));
        }
    }
}

/// One more incompatibility keeps the state rooted.
pub proof fn lemma_with_incompatibility_rooted<K>(st: StateView<K>, incompat: IncompatibilityView<K>)
    requires
        rooted(st),
    ensures
        rooted(with_incompatibility(st, incompat)),
        same_root(with_incompatibility(st, incompat), st),
{
    let after = with_incompatibility(st, incompat);
    assert forall|i: int| 0 <= i < after.history.len() implies #[trigger] honest(after, i) by {
        assert(honest(st, i));
    }
}

/// Going back to a level of 1 or more keeps the state rooted.
pub proof fn lemma_backtracked_rooted<K>(st: StateView<K>, incompat: nat, changed: bool, level: nat)
    requires
        rooted(st),
        level >= 1,
    ensures
        rooted(backtracked(st, incompat, changed, level)),
        same_root(backtracked(st, incompat, changed, level), st),
{
    let after = backtracked(st, incompat, changed, level);
    lemma_kept_first(st.history, level);
    lemma_kept(st.history, level);
    assert forall|i: int| 0 <= i < after.history.len() implies #[trigger] honest(after, i) by {
        assert(honest(st, i));
    }
}

/// Conflict resolution keeps the state rooted.
pub proof fn lemma_resolve_rooted<K>(st: StateView<K>, current: nat, changed: bool, fuel: nat)
    requires
        rooted(st),
    ensures
        rooted(resolve_conflict(st, current, changed, fuel).0),
        same_root(resolve_conflict(st, current, changed, fuel).0, st),
    decreases fuel,
{
    let incompat = st.store[current as int];
    if !incompat.is_terminal(st.root_package, st.root_version) {
        match satisfier_index(incompat.terms, st.history) {
            None => {},
            Some(s) => {
                let satisfier = st.history[s as int];
                let previous = previous_level(incompat.terms, satisfier, st.history.take(s as int));
                match satisfier.assignment {
                    AssignmentView::Decision { package, .. } => {
                        lemma_backtracked_rooted(st, current, changed, previous);
                    },
                    AssignmentView::Derivation { package, cause } => {
                        if previous != satisfier.level {
                            lemma_backtracked_rooted(st, current, changed, previous);
                        } else if fuel > 0 {
                            let learned = IncompatibilityView {
                                terms: incompat.resolved_with(st.store[cause as int], package),
                                kind: KindView::DerivedFrom(current, cause),
                            };
                            let more = StateView { store: st.store.push(learned), ..st };
                            assert forall|i: int| 0 <= i < more.history.len() implies #[trigger] honest(
                                more,
                                i,
                            ) by {
                                assert(honest(st, i));
                            }
                            lemma_resolve_rooted(more, st.store.len(), true, (fuel - 1) as nat);
                        }
                    },
                }
            },
        }
    }
}

/// A pass of unit propagation keeps the state rooted.
pub proof fn lemma_scan_rooted<K>(st: StateView<K>, current: K, changed: Seq<K>, n: nat)
    requires
        rooted(st),
    ensures
        rooted(scan_live(st, current, changed, n).0),
        same_root(scan_live(st, current, changed, n).0, st),
    decreases n,
{
    if !(n == 0 || n > st.live.len()) {
        let id = st.live[n - 1];
        let incompat = st.store[id as int];
        if !incompat.has(current) {
            lemma_scan_rooted(st, current, changed, (n - 1) as nat);
        } else {
            match incompat.relation(known(st.history, incompat.terms)) {
                RelationView::Satisfied => {},
                RelationView::AlmostSatisfied(p) => {
                    lemma_derived_rooted(st, p, id);
                    lemma_scan_rooted(derived(st, p, id), current, changed.push(p), (n - 1) as nat);
                },
                _ => {
                    lemma_scan_rooted(st, current, changed, (n - 1) as nat);
                },
            }
        }
    }
}

/// Unit propagation keeps the state rooted.
pub proof fn lemma_propagate_rooted<K>(st: StateView<K>, changed: Seq<K>, limit: nat, fuel: nat)
    requires
        rooted(st),
    ensures
        rooted(propagate(st, changed, limit, fuel).0),
        same_root(propagate(st, changed, limit, fuel).0, st),
    decreases fuel,
{
    if changed.len() > 0 && fuel > 0 {
        let pass = scan_live(st, changed.last(), changed.drop_last(), st.live.len());
        lemma_scan_rooted(st, changed.last(), changed.drop_last(), st.live.len());
        match pass.2 {
            None => {
                lemma_propagate_rooted(pass.0, pass.1, limit, (fuel - 1) as nat);
            },
            Some(id) => {
                let resolved = resolve_conflict(pass.0, id, false, limit);
                lemma_resolve_rooted(pass.0, id, false, limit);
                match resolved.1 {
                    Resolved::Cause { package, cause } => {
                        lemma_derived_rooted(resolved.0, package, cause);
                        lemma_propagate_rooted(
                            derived(resolved.0, package, cause),
                            seq![package],
                            limit,
                            (fuel - 1) as nat,
                        );
                    },
                    _ => {},
                }
            },
        }
    }
}

/// The first pass of the first unit propagation derives the root package
/// from the first incompatibility, and no more.
pub proof fn lemma_first_pass<K>(package: K, version: nat)
    ensures
        scan_live(initial(package, version), package, Seq::<K>::empty(), 1) == (
            derived(initial(package, version), package, 0),
            seq![package],
            None::<nat>,
        ),
        rooted(derived(initial(package, version), package, 0)),
{
    let st = initial(package, version);
    let incompat = st.store[0];
    let found = known(st.history, incompat.terms);
    assert(incompat.terms[0].0 == package);
    assert(incompat.has(package));
    assert(terms_for(st.history, package) =~= Seq::<TermView>::empty());
    assert(found[0] == accumulated(st.history, incompat.terms[0].0));
    assert(incompat.relation_at(found, 0) == crate::term::Relation::Inconclusive);
    assert(incompat.lacks_only(found, 0));
    assert forall|k: int| !#[trigger] incompat.first_contradicted(found, k) by {}
    let k = choose|k: int| #[trigger] incompat.lacks_only(found, k);
    assert(k == 0);
    assert(incompat.relation(found) == RelationView::AlmostSatisfied(package));
    let first = derived(st, package, 0);
    assert(st.live[0] == 0);
    assert(Seq::<K>::empty().push(package) =~= seq![package]);
    assert(scan_live(first, package, seq![package], 0) == (first, seq![package], None::<nat>));
    assert(incompat.position(package) == 0);
    assert(set![version].contains(version));
    assert(rooted(first)) by {
        assert(first.history.len() == 1);
        assert(first.history[0].term == TermView::exact(version));
        assert(honest(first, 0));
    }
}

/// The first unit propagation, for the root package, leaves a rooted state
/// if it ends well.
pub proof fn lemma_first_propagation<K>(package: K, version: nat, limit: nat)
    ensures
        propagate(initial(package, version), seq![package], limit, limit).1 is Done ==> rooted(
            propagate(initial(package, version), seq![package], limit, limit).0,
        ),
        same_root(
            propagate(initial(package, version), seq![package], limit, limit).0,
            initial(package, version),
        ),
{
    let st = initial(package, version);
    let changed = seq![package];
    if limit > 0 {
        assert(changed.last() == package);
        assert(changed.drop_last() =~= Seq::<K>::empty());
        lemma_first_pass(package, version);
        lemma_propagate_rooted(
            derived(st, package, 0),
            seq![package],
            limit,
            (limit - 1) as nat,
        );
    }
}

/// The first unit propagation needs two rounds: one to derive the root
/// package, one to see that nothing follows. With a step limit of 1 or less
/// it gives up.
pub proof fn lemma_first_propagation_short<K>(package: K, version: nat, limit: nat)
    requires
        limit <= 1,
    ensures
        propagate(initial(package, version), seq![package], limit, limit).1 == Propagated::Failure(
            Failure::StepLimit,
        ),
{
    let st = initial(package, version);
    let changed = seq![package];
    assert(changed.len() == 1);
    if limit == 1 {
        assert(changed.last() == package);
        assert(changed.drop_last() =~= Seq::<K>::empty());
        assert(st.live.len() == 1);
        lemma_first_pass(package, version);
        let first = derived(st, package, 0);
        assert(scan_live(st, changed.last(), changed.drop_last(), st.live.len()) == (
            first,
            seq![package],
            None::<nat>,
        ));
        assert(propagate(first, seq![package], 1, 0).1 == Propagated::Failure(
            Failure::StepLimit,
        ));
    }
}

/// Incompatibilities for dependencies keep the state rooted.
pub proof fn lemma_with_dependencies_rooted<K>(
    st: StateView<K>,
    package: K,
    version: nat,
    dependencies: Seq<(K, Set<nat>)>,
    n: nat,
)
    requires
        rooted(st),
    ensures
        rooted(with_dependencies(st, package, version, dependencies, n)),
        same_root(with_dependencies(st, package, version, dependencies, n), st),
        with_dependencies(st, package, version, dependencies, n).history == st.history,
    decreases n,
{
    if !(n == 0 || n > dependencies.len()) {
        lemma_with_dependencies_rooted(st, package, version, dependencies, (n - 1) as nat);
        lemma_with_incompatibility_rooted(
            with_dependencies(st, package, version, dependencies, (n - 1) as nat),
            crate::internal::incompatibility::from_dependency_view(
                package,
                version,
                dependencies[n - 1].0,
                dependencies[n - 1].1,
            ),
        );
    }
}

/// Trying a version keeps the state rooted, if no other version than the
/// root version is tried for the root package.
pub proof fn lemma_tried_rooted<K>(
    st: StateView<K>,
    package: K,
    version: nat,
    dependencies: Option<Seq<(K, Set<nat>)>>,
)
    requires
        rooted(st),
        package == st.root_package ==> version == st.root_version,
    ensures
        rooted(tried(st, package, version, dependencies)),
        same_root(tried(st, package, version, dependencies), st),
{
    let after = tried(st, package, version, dependencies);
    match dependencies {
        None => {
            lemma_with_incompatibility_rooted(
                st,
                IncompatibilityView {
                    terms: seq![(package, TermView::Positive(set![version]))],
                    kind: KindView::UnavailableDependencies(package, set![version]),
                },
            );
        },
        Some(list) => {
            let more = with_dependencies(st, package, version, list, list.len());
            lemma_with_dependencies_rooted(st, package, version, list, list.len());
            assert forall|i: int| 0 <= i < after.history.len() implies #[trigger] honest(
                after,
                i,
            ) by {
                if i < st.history.len() {
                    assert(honest(st, i));
                }
            }
        },
    }
}

/// The terms of the package of the first assignment start with its term.
pub proof fn lemma_terms_first<K>(history: Seq<DatedView<K>>)
    requires
        history.len() > 0,
    ensures
        terms_for(history, history[0].assignment.package()).len() > 0,
        terms_for(history, history[0].assignment.package())[0] == history[0].term,
    decreases history.len(),
{
    let p = history[0].assignment.package();
    if history.len() > 1 {
        assert(history.drop_last()[0] == history[0]);
        lemma_terms_first(history.drop_last());
    } else {
        assert(terms_for(history.drop_last(), p) =~= Seq::<TermView>::empty());
    }
}

/// The intersection of terms of which the first is positive is positive,
/// and allows no other versions than the first.
pub proof fn lemma_intersect_first(terms: Seq<TermView>, allowed: Set<nat>)
    requires
        terms.len() > 0,
        terms[0] == TermView::Positive(allowed),
    ensures
        intersect_all(terms) matches TermView::Positive(s) && s.subset_of(allowed),
    decreases terms.len(),
{
    if terms.len() > 1 {
        assert(terms.drop_last()[0] == terms[0]);
        lemma_intersect_first(terms.drop_last(), allowed);
    }
}

/// Every candidate comes with the versions that the intersection of the
/// terms of its package allows.
pub proof fn lemma_candidates_sound<K>(history: Seq<DatedView<K>>, packages: Seq<K>, k: int)
    requires
        0 <= k < candidates(history, packages).len(),
    ensures
        accumulated(history, candidates(history, packages)[k].0) == Some(
            TermView::Positive(candidates(history, packages)[k].1),
        ),
    decreases packages.len(),
{
    if packages.len() > 0 {
        let rest = candidates(history, packages.drop_last());
        if k < rest.len() {
            lemma_candidates_sound(history, packages.drop_last(), k);
        }
    }
}

/// In a rooted state the candidates for the root package allow the root
/// version only.
pub proof fn lemma_root_candidate<K>(st: StateView<K>, k: int)
    requires
        rooted(st),
        0 <= k < candidates(st.history, packages_in_order(st.history)).len(),
        candidates(st.history, packages_in_order(st.history))[k].0 == st.root_package,
    ensures
        candidates(st.history, packages_in_order(st.history))[k].1.subset_of(
            set![st.root_version],
        ),
{
    lemma_candidates_sound(st.history, packages_in_order(st.history), k);
    lemma_terms_first(st.history);
    lemma_intersect_first(terms_for(st.history, st.root_package), set![st.root_version]);
}

/// A package without decision, of which a positive term is known, is a
/// candidate.
pub proof fn lemma_candidates_empty<K>(history: Seq<DatedView<K>>, packages: Seq<K>, p: K)
    requires
        candidates(history, packages).len() == 0,
        packages.contains(p),
        accumulated(history, p) matches Some(t) && t is Positive,
    ensures
        decision_of(history, p) is Some,
    decreases packages.len(),
{
    if packages.len() > 0 {
        let fewer = packages.drop_last();
        if packages.last() != p {
            let i = choose|i: int| 0 <= i < packages.len() && packages[i] == p;
            assert(fewer[i] == p);
            lemma_candidates_empty(history, fewer, p);
        }
    }
}

/// The version decided for a package is that of one of its decisions.
pub proof fn lemma_decision_made<K>(history: Seq<DatedView<K>>, p: K)
    requires
        decision_of(history, p) is Some,
    ensures
        exists|i: int|
            0 <= i < history.len() && (#[trigger] history[i]).assignment == (
            AssignmentView::Decision { package: p, version: decision_of(history, p)->0 }),
    decreases history.len(),
{
    if history.len() > 0 {
        match history.last().assignment {
            AssignmentView::Decision { package, version } if package == p => {
                assert(history[history.len() - 1] == history.last());
            },
            _ => {
                lemma_decision_made(history.drop_last(), p);
                let i = choose|i: int|
                    0 <= i < history.drop_last().len() && (
                    #[trigger] history.drop_last()[i]).assignment == (AssignmentView::Decision {
                        package: p,
                        version: decision_of(history, p)->0,
                    });
                assert(history[i] == history.drop_last()[i]);
            },
        }
    }
}

/// A package with a decision is in the selection, with the version decided.
pub proof fn lemma_decided_contains<K>(history: Seq<DatedView<K>>, packages: Seq<K>, p: K)
    requires
        packages.contains(p),
        decision_of(history, p) is Some,
    ensures
        decided(history, packages).contains((p, decision_of(history, p)->0)),
    decreases packages.len(),
{
    if packages.len() > 0 {
        let fewer = packages.drop_last();
        let rest = decided(history, fewer);
        let all = decided(history, packages);
        let e = (p, decision_of(history, p)->0);
        if packages.last() == p {
            assert(all[all.len() - 1] == e);
        } else {
            let i = choose|i: int| 0 <= i < packages.len() && packages[i] == p;
            assert(fewer[i] == p);
            lemma_decided_contains(history, fewer, p);
            let k = choose|k: int| 0 <= k < rest.len() && rest[k] == e;
            assert(all[k] == e);
        }
    }
}

/// In a rooted state without candidates, the root package is selected at
/// the root version.
pub proof fn lemma_root_selected<K>(st: StateView<K>)
    requires
        rooted(st),
        candidates(st.history, packages_in_order(st.history)).len() == 0,
    ensures
        decided(st.history, packages_in_order(st.history)).contains(
            (st.root_package, st.root_version),
        ),
{
    let h = st.history;
    let p = st.root_package;
    lemma_terms_first(h);
    lemma_packages(h, p);
    lemma_intersect_first(terms_for(h, p), set![st.root_version]);
    lemma_candidates_empty(h, packages_in_order(h), p);
    lemma_decision_made(h, p);
    let i = choose|i: int|
        0 <= i < h.len() && (#[trigger] h[i]).assignment == (AssignmentView::Decision {
            package: p,
            version: decision_of(h, p)->0,
        });
    assert(honest(st, i));
    lemma_decided_contains(h, packages_in_order(h), p);
}

} // verus!
