//! Incompatibilities are only created, never destroyed: what the algorithm
//! does adds to the store, and to the incompatibilities that unit propagation
//! looks at, and leaves what was there where it was.

use crate::internal::assignment::AssignmentView;
use crate::internal::incompatibility::{IncompatibilityView, KindView, RelationView};
use crate::internal::partial_solution::{known, previous_level, satisfier_index};
use crate::internal::state::{
    Resolved, StateView, derived, propagate, resolve_conflict, scan_live, tried,
    with_dependencies,
};
use vstd::prelude::*;

verus! {

/// Whether the second state has the store of the first one, and the
/// incompatibilities that unit propagation looks at, with more at the end
/// perhaps; and is about the same root.
pub open spec fn grown<K>(st: StateView<K>, later: StateView<K>) -> bool {
    &&& st.store.is_prefix_of(later.store)
    &&& st.live.is_prefix_of(later.live)
    &&& st.root_package == later.root_package
    &&& st.root_version == later.root_version
}

/// Growing twice is growing.
pub proof fn lemma_grown_twice<K>(a: StateView<K>, b: StateView<K>, c: StateView<K>)
    requires
        grown(a, b),
        grown(b, c),
    ensures
        grown(a, c),
{
    assert forall|i: int| 0 <= i < a.store.len() implies a.store[i] == c.store[i] by {
        assert(a.store[i] == b.store[i]);
    }
    assert forall|i: int| 0 <= i < a.live.len() implies a.live[i] == c.live[i] by {
        assert(a.live[i] == b.live[i]);
    }
}

/// Conflict resolution only adds to the store and to the incompatibilities
/// that unit propagation looks at.
pub proof fn law_resolution_appends<K>(st: StateView<K>, current: nat, changed: bool, fuel: nat)
    ensures
        grown(st, resolve_conflict(st, current, changed, fuel).0),
    decreases fuel,
{
    let incompat = st.store[current as int];
    if !incompat.is_terminal(st.root_package, st.root_version) {
        match satisfier_index(incompat.terms, st.history) {
            None => {},
            Some(s) => {
                let satisfier = st.history[s as int];
                let previous = previous_level(incompat.terms, satisfier, st.history.take(s as int));
                match satisfier.assignment {
                    AssignmentView::Decision { package, .. } => {},
                    AssignmentView::Derivation { package, cause } => {
                        if previous == satisfier.level && fuel > 0 {
                            let learned = IncompatibilityView {
                                terms: incompat.resolved_with(st.store[cause as int], package),
                                kind: KindView::DerivedFrom(current, cause),
                            };
                            let more = StateView { store: st.store.push(learned), ..st };
                            law_resolution_appends(more, st.store.len(), true, (fuel - 1) as nat);
                            lemma_grown_twice(
                                st,
                                more,
                                resolve_conflict(more, st.store.len(), true, (fuel - 1) as nat).0,
                            );
                        }
                    },
                }
            },
        }
    }
}

/// A pass of unit propagation leaves the store and the incompatibilities
/// that it looks at as they are.
pub proof fn law_pass_keeps<K>(st: StateView<K>, current: K, changed: Seq<K>, n: nat)
    ensures
        scan_live(st, current, changed, n).0.store == st.store,
        scan_live(st, current, changed, n).0.live == st.live,
        grown(st, scan_live(st, current, changed, n).0),
    decreases n,
{
    if !(n == 0 || n > st.live.len()) {
        let id = st.live[n - 1];
        let incompat = st.store[id as int];
        if !incompat.has(current) {
            law_pass_keeps(st, current, changed, (n - 1) as nat);
        } else {
            match incompat.relation(known(st.history, incompat.terms)) {
                RelationView::Satisfied => {},
                RelationView::AlmostSatisfied(p) => {
                    law_pass_keeps(derived(st, p, id), current, changed.push(p), (n - 1) as nat);
                },
                _ => {
                    law_pass_keeps(st, current, changed, (n - 1) as nat);
                },
            }
        }
    }
}

/// Unit propagation only adds to the store and to the incompatibilities
/// that it looks at.
pub proof fn law_propagation_appends<K>(st: StateView<K>, changed: Seq<K>, limit: nat, fuel: nat)
    ensures
        grown(st, propagate(st, changed, limit, fuel).0),
    decreases fuel,
{
    if changed.len() > 0 && fuel > 0 {
        let pass = scan_live(st, changed.last(), changed.drop_last(), st.live.len());
        law_pass_keeps(st, changed.last(), changed.drop_last(), st.live.len());
        match pass.2 {
            None => {
                law_propagation_appends(pass.0, pass.1, limit, (fuel - 1) as nat);
                lemma_grown_twice(st, pass.0, propagate(pass.0, pass.1, limit, (fuel - 1) as nat).0);
            },
            Some(id) => {
                let resolved = resolve_conflict(pass.0, id, false, limit);
                law_resolution_appends(pass.0, id, false, limit);
                lemma_grown_twice(st, pass.0, resolved.0);
                match resolved.1 {
                    Resolved::Cause { package, cause } => {
                        let next = derived(resolved.0, package, cause);
                        law_propagation_appends(next, seq![package], limit, (fuel - 1) as nat);
                        lemma_grown_twice(st, resolved.0, next);
                        lemma_grown_twice(
                            st,
                            next,
                            propagate(next, seq![package], limit, (fuel - 1) as nat).0,
                        );
                    },
                    _ => {},
                }
            },
        }
    }
}

/// Incompatibilities for dependencies come after what was there.
pub proof fn law_dependencies_append<K>(
    st: StateView<K>,
    package: K,
    version: nat,
    dependencies: Seq<(K, Set<nat>)>,
    n: nat,
)
    ensures
        grown(st, with_dependencies(st, package, version, dependencies, n)),
    decreases n,
{
    if !(n == 0 || n > dependencies.len()) {
        let fewer = with_dependencies(st, package, version, dependencies, (n - 1) as nat);
        law_dependencies_append(st, package, version, dependencies, (n - 1) as nat);
        lemma_grown_twice(st, fewer, with_dependencies(st, package, version, dependencies, n));
    }
}

/// Trying a version only adds to the store and to the incompatibilities
/// that unit propagation looks at.
pub proof fn law_trying_appends<K>(
    st: StateView<K>,
    package: K,
    version: nat,
    dependencies: Option<Seq<(K, Set<nat>)>>,
)
    ensures
        grown(st, tried(st, package, version, dependencies)),
{
    match dependencies {
        None => {},
        Some(list) => {
            law_dependencies_append(st, package, version, list, list.len());
        },
    }
}

} // verus!
