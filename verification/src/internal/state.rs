//! Core model and functions
//! to write a functional PubGrub algorithm.

use crate::error::{Failure, PubGrubError};
use crate::internal::append_only::{grown, law_propagation_appends, law_resolution_appends};
use crate::internal::assignment::{Assignment, AssignmentView};
use crate::internal::incompatibility::{
    IncompId, Incompatibility, IncompatibilityView, KindView, Relation, RelationView, chosen,
    from_dependency_view, store_view,
};
use crate::internal::partial_solution::{
    DatedView, DecisionLevel, PartialSolution, candidates_view, conflicts, decisions_in, grounded,
    kept, known, lemma_grounded, lemma_kept, previous_level, satisfier_index,
};
use crate::range::Range;
use crate::package::Package;
use crate::term::{Term, TermView};
use crate::report::{
    DerivationTree, breaks_a_leaf, causes_precede, ids, is_resolution, law_terminal_explained,
    lemma_sound_push, named, names, reached, reaches, shared_causes, sound, sound_at, tree_of,
};
use crate::version::Version;
use std::collections::HashSet;
use vstd::prelude::*;
use vstd::slice::slice_subrange;

verus! {

/// Current state of the PubGrub algorithm.
pub struct State<P: Package, V: Version> {
    pub root_package: P,
    pub root_version: V,
    /// The incompatibilities that unit propagation looks at, oldest first.
    pub incompatibilities: Vec<IncompId>,
    /// Partial solution.
    pub partial_solution: PartialSolution<P, V>,
    /// The store is the reference storage for all incompatibilities.
    pub incompatibility_store: Vec<Incompatibility<P, V>>,
    /// The greatest number of rounds that a loop of the solver may take
    /// before it gives up.
    pub step_limit: usize,
}

/// Dependencies of a package at a version, as a provider gives them.
pub enum Dependencies<P: Package, V: Version> {
    /// Package dependencies are unavailable.
    Unknown,
    /// The packages that are needed, each with the range of its versions
    /// that will do.
    Known(Vec<(P, Range<V>)>),
}

/// The place of a package in a list of candidates, if it is there.
pub open spec fn candidate_index<K>(candidates: Seq<(K, Set<nat>)>, package: K) -> Option<int> {
    if exists|i: int| 0 <= i < candidates.len() && (#[trigger] candidates[i]).0 == package {
        Some(
            choose|i: int|
                0 <= i < candidates.len() && (#[trigger] candidates[i]).0 == package && forall|
                    j: int,
                |
                    0 <= j < i ==> (#[trigger] candidates[j]).0 != package,
        )
    } else {
        None
    }
}

/// The state with one more incompatibility, which unit propagation will look
/// at.
pub open spec fn with_incompatibility<K>(st: StateView<K>, incompat: IncompatibilityView<K>) -> StateView<
    K,
> {
    StateView { store: st.store.push(incompat), live: st.live.push(st.store.len()), ..st }
}

/// The state with an incompatibility for each of the first `n` dependencies
/// of a package at a version.
pub open spec fn with_dependencies<K>(
    st: StateView<K>,
    package: K,
    version: nat,
    dependencies: Seq<(K, Set<nat>)>,
    n: nat,
) -> StateView<K>
    decreases n,
{
    if n == 0 || n > dependencies.len() {
        st
    } else {
        with_incompatibility(
            with_dependencies(st, package, version, dependencies, (n - 1) as nat),
            from_dependency_view(package, version, dependencies[n - 1].0, dependencies[n - 1].1),
        )
    }
}

/// The state after a version was tried for a package. With unknown
/// dependencies, the incompatibility that says so joins the state. With known
/// ones, each gives an incompatibility; and the version is decided, unless
/// one of them would then be satisfied.
pub open spec fn tried<K>(
    st: StateView<K>,
    package: K,
    version: nat,
    dependencies: Option<Seq<(K, Set<nat>)>>,
) -> StateView<K> {
    match dependencies {
        None => with_incompatibility(
            st,
            IncompatibilityView {
                terms: seq![(package, TermView::Positive(set![version]))],
                kind: KindView::UnavailableDependencies(package, set![version]),
            },
        ),
        Some(list) => {
            let more = with_dependencies(st, package, version, list, list.len());
            if exists|i: int|
                st.store.len() <= i < more.store.len() && #[trigger] conflicts(
                    st.history,
                    more.store[i],
                    package,
                    version,
                ) {
                more
            } else {
                StateView {
                    history: st.history.push(
                        DatedView {
                            level: decisions_in(st.history) + 1,
                            assignment: AssignmentView::Decision { package, version },
                            term: TermView::exact(version),
                        },
                    ),
                    ..more
                }
            }
        },
    }
}

/// What a state of the algorithm says.
pub ghost struct StateView<K> {
    pub root_package: K,
    pub root_version: nat,
    /// All incompatibilities, in the order in which they were made.
    pub store: Seq<IncompatibilityView<K>>,
    /// The incompatibilities that unit propagation looks at, oldest first.
    pub live: Seq<nat>,
    /// The assignments of the partial solution, oldest first.
    pub history: Seq<DatedView<K>>,
}

/// How conflict resolution ends.
pub ghost enum Resolved<K> {
    /// The partial solution went back far enough for the incompatibility
    /// `cause` to say something of `package`.
    Cause { package: K, cause: nat },
    /// The incompatibility at this place in the store shows that there is no
    /// solution.
    NoSolution(nat),
    /// The solver gave up.
    Failure(Failure),
}

/// How unit propagation ends.
pub ghost enum Propagated {
    /// Nothing is left to derive.
    Done,
    /// The incompatibility at this place in the store shows that there is no
    /// solution.
    NoSolution(nat),
    /// The solver gave up.
    Failure(Failure),
}

/// The identities of a list of packages.
pub open spec fn packages_view<P: Package>(packages: Seq<P>) -> Seq<P::V> {
    packages.map_values(|p: P| p@)
}

/// The state after going back to a decision level: the assignments above it
/// are dropped, and the incompatibility joins those that unit propagation
/// looks at if it was learned on the way.
pub open spec fn backtracked<K>(st: StateView<K>, incompat: nat, changed: bool, level: nat) -> StateView<
    K,
> {
    StateView {
        history: st.history.take(kept(st.history, level) as int),
        live: if changed {
            st.live.push(incompat)
        } else {
            st.live
        },
        ..st
    }
}

/// The state after deriving, from the incompatibility at `cause`, the
/// negation of the term that it has for `package`.
pub open spec fn derived<K>(st: StateView<K>, package: K, cause: nat) -> StateView<K> {
    StateView {
        history: st.history.push(
            DatedView {
                level: decisions_in(st.history),
                assignment: AssignmentView::Derivation { package, cause },
                term: st.store[cause as int].term(package).negate(),
            },
        ),
        ..st
    }
}

/// Conflict resolution from the incompatibility at `current`, which is
/// satisfied by the partial solution. As long as the satisfier of the
/// incompatibility is a derivation made at the previous satisfier level, the
/// incompatibility is replaced by its prior cause with the cause of that
/// derivation, which joins the store. `changed` tells whether that has
/// happened yet, and `fuel` how many times more it may.
pub open spec fn resolve_conflict<K>(st: StateView<K>, current: nat, changed: bool, fuel: nat) -> (
    StateView<K>,
    Resolved<K>,
)
    decreases fuel,
{
    let incompat = st.store[current as int];
    if incompat.is_terminal(st.root_package, st.root_version) {
        (st, Resolved::NoSolution(current))
    } else {
        match satisfier_index(incompat.terms, st.history) {
            None => (st, Resolved::Failure(Failure::NoSatisfier)),
            Some(s) => {
                let satisfier = st.history[s as int];
                let previous = previous_level(incompat.terms, satisfier, st.history.take(s as int));
                match satisfier.assignment {
                    AssignmentView::Decision { package, .. } => (
                        backtracked(st, current, changed, previous),
                        Resolved::Cause { package, cause: current },
                    ),
                    AssignmentView::Derivation { package, cause } => {
                        if previous != satisfier.level {
                            (
                                backtracked(st, current, changed, previous),
                                Resolved::Cause { package, cause: current },
                            )
                        } else if fuel == 0 {
                            (st, Resolved::Failure(Failure::StepLimit))
                        } else {
                            let learned = IncompatibilityView {
                                terms: incompat.resolved_with(st.store[cause as int], package),
                                kind: KindView::DerivedFrom(current, cause),
                            };
                            resolve_conflict(
                                StateView { store: st.store.push(learned), ..st },
                                st.store.len(),
                                true,
                                (fuel - 1) as nat,
                            )
                        }
                    },
                }
            },
        }
    }
}

/// One pass over the first `n` of the incompatibilities that unit
/// propagation looks at, newest first, for the package `current`. An
/// incompatibility that speaks of the package and is almost satisfied gives a
/// derivation for the package that it lacks, which joins `changed`. The pass
/// stops at the first one that is satisfied: a conflict.
pub open spec fn scan_live<K>(st: StateView<K>, current: K, changed: Seq<K>, n: nat) -> (
    StateView<K>,
    Seq<K>,
    Option<nat>,
)
    decreases n,
{
    if n == 0 || n > st.live.len() {
        (st, changed, None)
    } else {
        let id = st.live[n - 1];
        let incompat = st.store[id as int];
        if !incompat.has(current) {
            scan_live(st, current, changed, (n - 1) as nat)
        } else {
            match incompat.relation(known(st.history, incompat.terms)) {
                RelationView::Satisfied => (st, changed, Some(id)),
                RelationView::AlmostSatisfied(p) => scan_live(
                    derived(st, p, id),
                    current,
                    changed.push(p),
                    (n - 1) as nat,
                ),
                _ => scan_live(st, current, changed, (n - 1) as nat),
            }
        }
    }
}

/// Unit propagation for the packages of `changed`, the last one first, as
/// long as there are any: one pass for each; after a conflict and its
/// resolution, the packages left are forgotten and propagation goes on with
/// the package of the new derivation. `limit` bounds each conflict
/// resolution and `fuel` the number of passes.
pub open spec fn propagate<K>(st: StateView<K>, changed: Seq<K>, limit: nat, fuel: nat) -> (
    StateView<K>,
    Propagated,
)
    decreases fuel,
{
    if changed.len() == 0 {
        (st, Propagated::Done)
    } else if fuel == 0 {
        (st, Propagated::Failure(Failure::StepLimit))
    } else {
        let pass = scan_live(st, changed.last(), changed.drop_last(), st.live.len());
        match pass.2 {
            None => propagate(pass.0, pass.1, limit, (fuel - 1) as nat),
            Some(id) => {
                let resolved = resolve_conflict(pass.0, id, false, limit);
                match resolved.1 {
                    Resolved::Cause { package, cause } => propagate(
                        derived(resolved.0, package, cause),
                        seq![package],
                        limit,
                        (fuel - 1) as nat,
                    ),
                    Resolved::NoSolution(i) => (resolved.0, Propagated::NoSolution(i)),
                    Resolved::Failure(f) => (resolved.0, Propagated::Failure(f)),
                }
            },
        }
    }
}

/// Whether what conflict resolution returned tells how it ended.
pub open spec fn tells_resolved<P: Package, V: Version>(
    r: Result<(P, IncompId), PubGrubError<P, V>>,
    outcome: Resolved<P::V>,
    store: Seq<IncompatibilityView<P::V>>,
) -> bool {
    match outcome {
        Resolved::Cause { package, cause } => match r {
            Ok((p, c)) => p@ == package && c == cause,
            _ => false,
        },
        Resolved::NoSolution(id) => match r {
            Err(PubGrubError::NoSolution(tree)) => tree@ == tree_of(
                store,
                id,
                shared_causes(store, id),
            ),
            _ => false,
        },
        Resolved::Failure(f) => match r {
            Err(PubGrubError::Failure(g)) => g == f,
            _ => false,
        },
    }
}

/// Whether what unit propagation returned tells how it ended.
pub open spec fn tells_propagated<P: Package, V: Version>(
    r: Result<(), PubGrubError<P, V>>,
    outcome: Propagated,
    store: Seq<IncompatibilityView<P::V>>,
) -> bool {
    match outcome {
        Propagated::Done => r is Ok,
        Propagated::NoSolution(id) => match r {
            Err(PubGrubError::NoSolution(tree)) => tree@ == tree_of(
                store,
                id,
                shared_causes(store, id),
            ),
            _ => false,
        },
        Propagated::Failure(f) => match r {
            Err(PubGrubError::Failure(g)) => g == f,
            _ => false,
        },
    }
}

/// How many times the incompatibility at `x` stands in a list.
pub open spec fn occurrences(list: Seq<usize>, x: nat) -> nat
    decreases list.len(),
{
    if list.len() == 0 {
        0
    } else {
        occurrences(list.drop_last(), x) + if list.last() == x {
            1nat
        } else {
            0nat
        }
    }
}

/// How many of the numbers below `m` are in a set.
pub open spec fn count_below(set: Set<nat>, m: nat) -> nat
    decreases m,
{
    if m == 0 {
        0
    } else {
        count_below(set, (m - 1) as nat) + if set.contains((m - 1) as nat) {
            1nat
        } else {
            0nat
        }
    }
}

/// One more element at the end stands once more in the list.
proof fn lemma_occurrences_push(list: Seq<usize>, e: usize, x: nat)
    ensures
        occurrences(list.push(e), x) == occurrences(list, x) + if e == x {
            1nat
        } else {
            0nat
        },
{
    assert(list.push(e).drop_last() =~= list);
}

/// No more than `m` numbers below `m` are in a set.
proof fn lemma_count_bound(set: Set<nat>, m: nat)
    ensures
        count_below(set, m) <= m,
    decreases m,
{
    if m > 0 {
        lemma_count_bound(set, (m - 1) as nat);
    }
}

/// A number that joins a set is counted if it is below `m`.
proof fn lemma_count_insert(set: Set<nat>, q: nat, m: nat)
    requires
        !set.contains(q),
    ensures
        count_below(set.insert(q), m) == count_below(set, m) + if q < m {
            1nat
        } else {
            0nat
        },
    decreases m,
{
    if m > 0 {
        lemma_count_insert(set, q, (m - 1) as nat);
    }
}

/// An incompatibility that joins a set adds the causes that it names.
proof fn lemma_named_insert<K>(
    store: Seq<IncompatibilityView<K>>,
    among: Set<nat>,
    q: nat,
    x: nat,
    m: nat,
)
    requires
        !among.contains(q),
    ensures
        named(store, among.insert(q), x, m) == named(store, among, x, m) + if q < m {
            names(store[q as int], x)
        } else {
            0
        },
    decreases m,
{
    if m > 0 {
        lemma_named_insert(store, among, q, x, (m - 1) as nat);
    }
}

/// What an incompatibility of the set names is counted.
proof fn lemma_named_least<K>(
    store: Seq<IncompatibilityView<K>>,
    among: Set<nat>,
    q: nat,
    x: nat,
    m: nat,
)
    requires
        among.contains(q),
        q < m,
    ensures
        named(store, among, x, m) >= names(store[q as int], x),
    decreases m,
{
    if m - 1 > q {
        lemma_named_least(store, among, q, x, (m - 1) as nat);
    }
}

/// Two sets that hold the same derived incompatibilities name the same
/// causes, as many times.
proof fn lemma_named_agree<K>(
    store: Seq<IncompatibilityView<K>>,
    one: Set<nat>,
    other: Set<nat>,
    x: nat,
    m: nat,
)
    requires
        forall|q: nat|
            q < m && (#[trigger] store[q as int]).kind is DerivedFrom ==> (one.contains(q)
                <==> other.contains(q)),
    ensures
        named(store, one, x, m) == named(store, other, x, m),
    decreases m,
{
    if m > 0 {
        lemma_named_agree(store, one, other, x, (m - 1) as nat);
        let q = (m - 1) as nat;
        let inc = store[q as int];
    }
}

/// What is reached never stands after the incompatibility it is reached
/// from.
proof fn lemma_reaches_bound<K>(store: Seq<IncompatibilityView<K>>, root: nat, x: nat)
    requires
        reaches(store, root, x),
    ensures
        x <= root,
    decreases root,
{
    if root != x {
        match store[root as int].kind {
            KindView::DerivedFrom(a, b) => {
                if reaches(store, a, x) {
                    lemma_reaches_bound(store, a, x);
                } else {
                    lemma_reaches_bound(store, b, x);
                }
            },
            _ => {},
        }
    }
}

/// The causes of what is reached are reached.
proof fn lemma_reaches_step<K>(store: Seq<IncompatibilityView<K>>, root: nat, q: nat, x: nat)
    requires
        reaches(store, root, q),
        reaches(store, q, x),
    ensures
        reaches(store, root, x),
    decreases root,
{
    if root != q {
        match store[root as int].kind {
            KindView::DerivedFrom(a, b) => {
                if reaches(store, a, q) {
                    lemma_reaches_step(store, a, q, x);
                } else {
                    lemma_reaches_step(store, b, q, x);
                }
            },
            _ => {},
        }
    }
}

/// Whether the incompatibility at `q` is derived, and the set holds each of
/// its causes that is derived.
spec fn holds_causes<K>(store: Seq<IncompatibilityView<K>>, seen: Set<nat>, q: nat) -> bool {
    store[q as int].kind matches KindView::DerivedFrom(a, b) && (store[a as int].kind is DerivedFrom
        ==> seen.contains(a)) && (store[b as int].kind is DerivedFrom ==> seen.contains(b))
}

/// A set that holds the derived incompatibility at `root`, and the derived
/// causes of all that it holds, holds every derived incompatibility that is
/// reached from `root`.
proof fn lemma_closed<K>(store: Seq<IncompatibilityView<K>>, seen: Set<nat>, root: nat, x: nat)
    requires
        store[root as int].kind is DerivedFrom ==> seen.contains(root),
        forall|q: nat| seen.contains(q) ==> #[trigger] holds_causes(store, seen, q),
        reaches(store, root, x),
        store[x as int].kind is DerivedFrom,
    ensures
        seen.contains(x),
    decreases root,
{
    if root != x {
        match store[root as int].kind {
            KindView::DerivedFrom(a, b) => {
                assert(seen.contains(root));
                assert(holds_causes(store, seen, root));
                if reaches(store, a, x) {
                    lemma_closed(store, seen, a, x);
                } else {
                    lemma_closed(store, seen, b, x);
                }
            },
            _ => {},
        }
    }
}

impl<P: Package, V: Version> View for State<P, V> {
    type V = StateView<P::V>;

    open spec fn view(&self) -> StateView<P::V> {
        StateView {
            root_package: self.root_package@,
            root_version: self.root_version@,
            store: self.store(),
            live: self.incompatibilities@.map_values(|i: usize| i as nat),
            history: self.partial_solution@,
        }
    }
}

impl<P: Package, V: Version> State<P, V> {
    /// The store, as what its incompatibilities say.
    pub open spec fn store(&self) -> Seq<IncompatibilityView<P::V>> {
        store_view(self.incompatibility_store@)
    }

    /// The ids of the incompatibilities that the derivation of the
    /// incompatibility at `incompat` names more than once.
    #[verifier::rlimit(50)]
    pub fn find_shared_ids(&self, incompat: IncompId) -> (shared: HashSet<IncompId>)
        requires
            incompat < self.incompatibility_store.len(),
            causes_precede(self.store()),
        ensures
            ids(shared@) == shared_causes(self.store(), incompat as nat),
    {
        let ghost sv = self.store();
        let ghost root = incompat as nat;
        let n = self.incompatibility_store.len();
        let mut all_ids: HashSet<IncompId> = HashSet::new();
        let mut shared_ids: HashSet<IncompId> = HashSet::new();
        let mut stack: Vec<IncompId> = Vec::new();
        stack.push(incompat);
        let ghost mut pops: Map<nat, nat> = Map::total(|x: nat| 0nat);
        proof {
            assert(stack@ =~= Seq::<usize>::empty().push(incompat));
            assert forall|x: nat| x < n implies occurrences(stack@, x) + #[trigger] pops[x] == (
            if x == root {
                1nat
            } else {
                0nat
            }) + named(sv, ids(all_ids@), x, n as nat) by {
                lemma_occurrences_push(Seq::<usize>::empty(), incompat, x);
                lemma_named_agree(sv, ids(all_ids@), Set::<nat>::empty(), x, n as nat);
                lemma_named_none(sv, x, n as nat);
            }
            lemma_count_none(n as nat);
            assert(count_below(ids(all_ids@), n as nat) == 0) by {
                lemma_count_agree(ids(all_ids@), Set::<nat>::empty(), n as nat);
            }
        }
        while stack.len() > 0
            invariant
                n == self.incompatibility_store.len(),
                sv == self.store(),
                root == incompat as nat,
                root < n,
                causes_precede(sv),
                pops.dom() == Set::<nat>::full(),
                forall|k: int|
                    0 <= k < stack.len() ==> (#[trigger] stack@[k]) < n && reaches(
                        sv,
                        root,
                        stack@[k] as nat,
                    ),
                forall|x: nat|
                    x < n ==> occurrences(stack@, x) + #[trigger] pops[x] == (if x == root {
                        1nat
                    } else {
                        0nat
                    }) + named(sv, ids(all_ids@), x, n as nat),
                forall|q: nat|
                    #[trigger] ids(all_ids@).contains(q) <==> (q < n && sv[q as int].kind is DerivedFrom
                        && pops[q] >= 1),
                forall|q: nat|
                    #[trigger] ids(shared_ids@).contains(q) <==> (q < n && sv[q as int].kind is DerivedFrom
                        && pops[q] >= 2),
                forall|q: nat| #[trigger] ids(all_ids@).contains(q) ==> reaches(sv, root, q),
            decreases n - count_below(ids(all_ids@), n as nat), stack.len(),
        {
            let ghost stack_before = stack@;
            let ghost pops_before = pops;
            let ghost seen_before = ids(all_ids@);
            let ghost shared_before = ids(shared_ids@);
            let i = stack.pop().unwrap();
            proof {
                assert(stack_before.last() == i);
                assert(stack@ =~= stack_before.drop_last());
                assert(stack_before[stack_before.len() - 1] == i);
                pops = pops.insert(i as nat, pops[i as nat] + 1);
                lemma_count_bound(seen_before, n as nat);
                assert(sv[i as int] == self.incompatibility_store@[i as int]@);
            }
            let ghost after_pop = stack@;
            match self.incompatibility_store[i].causes() {
                Some((id1, id2)) => {
                    assert(id1 < i && id2 < i);
                    if all_ids.contains(&i) {
                        shared_ids.insert(i);
                        proof {
                            assert(ids(all_ids@).contains(i as nat));
                            assert forall|q: nat| #[trigger]
                                ids(shared_ids@).contains(q) <==> (q < n && sv[q as int].kind is DerivedFrom
                                    && pops[q] >= 2) by {
                                assert(shared_before.contains(q) <==> (q < n && sv[q as int].kind is DerivedFrom
                                    && pops_before[q] >= 2));
                                assert(seen_before.contains(q) <==> (q < n && sv[q as int].kind is DerivedFrom
                                    && pops_before[q] >= 1));
                            }
                            assert forall|q: nat| #[trigger]
                                ids(all_ids@).contains(q) <==> (q < n && sv[q as int].kind is DerivedFrom
                                    && pops[q] >= 1) by {
                                assert(seen_before.contains(q) <==> (q < n && sv[q as int].kind is DerivedFrom
                                    && pops_before[q] >= 1));
                            }
                            assert forall|x: nat| x < n implies occurrences(stack@, x)
                                + #[trigger] pops[x] == (if x == root {
                                1nat
                            } else {
                                0nat
                            }) + named(sv, ids(all_ids@), x, n as nat) by {
                                assert(occurrences(stack_before, x) + pops_before[x] == (if x
                                    == root {
                                    1nat
                                } else {
                                    0nat
                                }) + named(sv, seen_before, x, n as nat));
                            }
                        }
                    } else {
                        all_ids.insert(i);
                        stack.push(id1);
                        stack.push(id2);
                        proof {
                            assert(!seen_before.contains(i as nat));
                            assert(ids(all_ids@) =~= seen_before.insert(i as nat));
                            assert(stack@ =~= after_pop.push(id1).push(id2));
                            lemma_count_insert(seen_before, i as nat, n as nat);
                            lemma_count_bound(ids(all_ids@), n as nat);
                            assert(seen_before.contains(i as nat) <==> (i < n && sv[i as int].kind is DerivedFrom
                                && pops_before[i as nat] >= 1));
                            assert(shared_before.contains(i as nat) <==> (i < n && sv[i as int].kind is DerivedFrom
                                && pops_before[i as nat] >= 2));
                            assert(ids(shared_ids@) == shared_before);
                            assert forall|q: nat| #[trigger]
                                ids(shared_ids@).contains(q) <==> (q < n && sv[q as int].kind is DerivedFrom
                                    && pops[q] >= 2) by {
                                assert(shared_before.contains(q) <==> (q < n && sv[q as int].kind is DerivedFrom
                                    && pops_before[q] >= 2));
                            }
                            assert forall|q: nat| #[trigger]
                                ids(all_ids@).contains(q) <==> (q < n && sv[q as int].kind is DerivedFrom
                                    && pops[q] >= 1) by {
                                assert(seen_before.contains(q) <==> (q < n && sv[q as int].kind is DerivedFrom
                                    && pops_before[q] >= 1));
                            }
                            assert forall|q: nat| #[trigger]
                                ids(all_ids@).contains(q) implies reaches(sv, root, q) by {
                                if q != i {
                                    assert(seen_before.contains(q));
                                }
                            }
                            assert(reaches(sv, id1 as nat, id1 as nat));
                            assert(reaches(sv, id2 as nat, id2 as nat));
                            assert(sv[i as int].kind == KindView::<P::V>::DerivedFrom(
                                id1 as nat,
                                id2 as nat,
                            ));
                            assert(reaches(sv, i as nat, id1 as nat));
                            assert(reaches(sv, i as nat, id2 as nat));
                            lemma_reaches_step(sv, root, i as nat, id1 as nat);
                            lemma_reaches_step(sv, root, i as nat, id2 as nat);
                            assert forall|k: int| 0 <= k < stack.len() implies (
                            #[trigger] stack@[k]) < n && reaches(sv, root, stack@[k] as nat) by {
                                if k < after_pop.len() {
                                    assert(stack@[k] == stack_before[k]);
                                }
                            }
                            assert forall|x: nat| x < n implies occurrences(stack@, x)
                                + #[trigger] pops[x] == (if x == root {
                                1nat
                            } else {
                                0nat
                            }) + named(sv, ids(all_ids@), x, n as nat) by {
                                assert(occurrences(stack_before, x) + pops_before[x] == (if x
                                    == root {
                                    1nat
                                } else {
                                    0nat
                                }) + named(sv, seen_before, x, n as nat));
                                lemma_occurrences_push(after_pop, id1, x);
                                lemma_occurrences_push(after_pop.push(id1), id2, x);
                                lemma_named_insert(sv, seen_before, i as nat, x, n as nat);
                            }
                        }
                    }
                },
                None => {
                    proof {
                        assert forall|q: nat| #[trigger]
                            ids(shared_ids@).contains(q) <==> (q < n && sv[q as int].kind is DerivedFrom
                                && pops[q] >= 2) by {
                            assert(shared_before.contains(q) <==> (q < n && sv[q as int].kind is DerivedFrom
                                && pops_before[q] >= 2));
                        }
                        assert forall|q: nat| #[trigger]
                            ids(all_ids@).contains(q) <==> (q < n && sv[q as int].kind is DerivedFrom
                                && pops[q] >= 1) by {
                            assert(seen_before.contains(q) <==> (q < n && sv[q as int].kind is DerivedFrom
                                && pops_before[q] >= 1));
                        }
                        assert forall|x: nat| x < n implies occurrences(stack@, x)
                            + #[trigger] pops[x] == (if x == root {
                            1nat
                        } else {
                            0nat
                        }) + named(sv, ids(all_ids@), x, n as nat) by {
                            assert(occurrences(stack_before, x) + pops_before[x] == (if x
                                == root {
                                1nat
                            } else {
                                0nat
                            }) + named(sv, seen_before, x, n as nat));
                        }
                    }
                },
            }
            proof {
                assert forall|k: int| 0 <= k < stack.len() implies (#[trigger] stack@[k]) < n
                    && reaches(sv, root, stack@[k] as nat) by {
                    if k < after_pop.len() {
                        assert(stack@[k] == stack_before[k]);
                    }
                }
            }
        }
        proof {
            let seen = ids(all_ids@);
            assert(stack@ =~= Seq::<usize>::empty());
            assert forall|q: nat| seen.contains(q) implies #[trigger] holds_causes(
                sv,
                seen,
                q,
            ) by {
                if let KindView::DerivedFrom(a, b) = sv[q as int].kind {
                    lemma_named_least(sv, seen, q, a, n as nat);
                    lemma_named_least(sv, seen, q, b, n as nat);
                    assert(occurrences(stack@, a) + pops[a] >= 1);
                    assert(occurrences(stack@, b) + pops[b] >= 1);
                    assert(seen.contains(a) <==> (a < n && sv[a as int].kind is DerivedFrom
                        && pops[a] >= 1));
                    assert(seen.contains(b) <==> (b < n && sv[b as int].kind is DerivedFrom
                        && pops[b] >= 1));
                }
            }
            assert(sv[root as int].kind is DerivedFrom ==> seen.contains(root)) by {
                assert(occurrences(stack@, root) + pops[root] >= 1);
                assert(seen.contains(root) <==> (root < n && sv[root as int].kind is DerivedFrom
                    && pops[root] >= 1));
            }
            assert forall|x: nat| #[trigger]
                ids(shared_ids@).contains(x) <==> shared_causes(sv, root).contains(x) by {
                if x < n && sv[x as int].kind is DerivedFrom {
                    assert forall|q: nat|
                        q < n && (#[trigger] sv[q as int]).kind is DerivedFrom implies (
                    seen.contains(q) <==> reached(sv, root).contains(q)) by {
                        if reaches(sv, root, q) {
                            lemma_closed(sv, seen, root, q);
                        }
                    }
                    lemma_named_agree(sv, seen, reached(sv, root), x, n as nat);
                    assert(occurrences(stack@, x) + pops[x] == (if x == root {
                        1nat
                    } else {
                        0nat
                    }) + named(sv, seen, x, n as nat));
                    if x == root {
                        lemma_named_root(sv, root, n as nat);
                    }
                }
            }
            assert(ids(shared_ids@) =~= shared_causes(sv, root));
        }
        shared_ids
    }

    /// The partial solution is well formed and its derivations have their
    /// causes in the store; the causes of a derived incompatibility stand
    /// before it, and it is what the rule of resolution gives from them; the
    /// incompatibilities that unit propagation looks at are in the store.
    pub open spec fn wf(&self) -> bool {
        &&& self.root_version.has_successor()
        &&& self.partial_solution.wf()
        &&& grounded(self.partial_solution@, self.store())
        &&& causes_precede(self.store())
        &&& sound(self.store())
        &&& forall|i: int|
            0 <= i < self.incompatibilities.len() ==> (#[trigger] self.incompatibilities@[i])
                < self.incompatibility_store.len()
    }

    /// Initialization of PubGrub state.
    pub fn init(root_package: P, root_version: V) -> (s: Self)
        requires
            root_version.has_successor(),
        ensures
            s.wf(),
            s@ == (StateView {
                root_package: root_package@,
                root_version: root_version@,
                store: seq![
                    IncompatibilityView {
                        terms: seq![(root_package@, TermView::Negative(set![root_version@]))],
                        kind: KindView::NotRoot(root_package@, root_version@),
                    },
                ],
                live: seq![0nat],
                history: Seq::empty(),
            }),
            s.step_limit == usize::MAX,
    {
        let not_root_incompat = Incompatibility::not_root(root_package.duplicate(), root_version);
        proof {
            not_root_incompat.lemma_wf();
        }
        let mut incompatibility_store: Vec<Incompatibility<P, V>> = Vec::new();
        incompatibility_store.push(not_root_incompat);
        let mut incompatibilities: Vec<IncompId> = Vec::new();
        incompatibilities.push(0);
        let s = Self {
            root_package,
            root_version,
            incompatibilities,
            partial_solution: PartialSolution::empty(),
            incompatibility_store,
            step_limit: usize::MAX,
        };
        proof {
            assert(s@.store =~= seq![
                IncompatibilityView {
                    terms: seq![(root_package@, TermView::Negative(set![root_version@]))],
                    kind: KindView::NotRoot(root_package@, root_version@),
                },
            ]);
            assert(s@.live =~= seq![0nat]);
            s.incompatibility_store@[0].lemma_wf();
            assert(sound_at(s.store(), 0));
        }
        s
    }

    /// Add an incompatibility to the state: it joins the store and the
    /// incompatibilities that unit propagation looks at.
    pub fn add_incompatibility(&mut self, incompat: Incompatibility<P, V>) -> (id: IncompId)
        requires
            old(self).wf(),
            incompat@.kind matches KindView::DerivedFrom(a, b) ==> a < old(self).incompatibility_store.len()
                && b < old(self).incompatibility_store.len() && exists|p: P::V| #[trigger]
                is_resolution(
                    old(self).store().push(incompat@),
                    old(self).incompatibility_store.len() as int,
                    a,
                    b,
                    p,
                ),
        ensures
            final(self).wf(),
            id == old(self).incompatibility_store.len(),
            final(self).incompatibility_store.len() == old(self).incompatibility_store.len() + 1,
            final(self)@ == (StateView {
                store: old(self)@.store.push(incompat@),
                live: old(self)@.live.push(id as nat),
                ..old(self)@
            }),
            final(self).step_limit == old(self).step_limit,
    {
        let id = self.incompatibility_store.len();
        let ghost before = self.store();
        proof {
            use_type_invariant(&incompat);
            incompat.lemma_wf();
            assert(before.push(incompat@)[id as int] == incompat@);
            lemma_sound_push(before, incompat@);
        }
        self.incompatibility_store.push(incompat);
        Incompatibility::<P, V>::merge_into(id, &mut self.incompatibilities);
        proof {
            assert(self.store() =~= before.push(incompat@));
            assert(self@.live =~= old(self)@.live.push(id as nat));
            lemma_grounded(
                self.partial_solution@,
                self.partial_solution@.len() as int,
                before,
                self.store(),
            );
            assert(self.partial_solution@.take(self.partial_solution@.len() as int)
                =~= self.partial_solution@);
        }
        id
    }

    /// Check if an incompatibility is terminal.
    pub fn is_terminal(&self, incompatibility: &Incompatibility<P, V>) -> (b: bool)
        ensures
            b == incompatibility@.is_terminal(self.root_package@, self.root_version@),
    {
        incompatibility.is_terminal(&self.root_package, &self.root_version)
    }

    /// Sets the greatest number of rounds that a loop of the solver may take.
    pub fn set_step_limit(&mut self, limit: usize)
        ensures
            final(self).step_limit == limit,
            final(self)@ == old(self)@,
            final(self).wf() == old(self).wf(),
    {
        self.step_limit = limit;
    }

    /// Takes in what was chosen among the candidates: a package, and a
    /// version for it if there is one. Tells whether there is a version to
    /// try. The choice is refused if the package is no candidate, if the
    /// version is not in the range of the candidate, or if the version has no
    /// successor. If there is no version, the incompatibility that says so
    /// for the range of the candidate joins the state.
    #[verifier::rlimit(50)]
    pub fn record_choice(
        &mut self,
        candidates: &Vec<(P, Range<V>)>,
        package: &P,
        version: &Option<V>,
    ) -> (r: Result<bool, Failure>)
        requires
            old(self).wf(),
        ensures
            final(self).wf(),
            final(self).step_limit == old(self).step_limit,
            match candidate_index(candidates_view(candidates@), package@) {
                None => r == Err::<bool, Failure>(Failure::BadChoice) && final(self)@ == old(
                    self,
                )@,
                Some(i) => match version {
                    None => r == Ok::<bool, Failure>(false) && final(self)@
                        == with_incompatibility(
                        old(self)@,
                        IncompatibilityView {
                            terms: seq![(package@, TermView::Positive(candidates@[i].1@))],
                            kind: KindView::NoVersions(package@, candidates@[i].1@),
                        },
                    ),
                    Some(v) => final(self)@ == old(self)@ && r == if !candidates@[i].1@.contains(
                        v@,
                    ) {
                        Err::<bool, Failure>(Failure::BadChoice)
                    } else if !v.has_successor() {
                        Err::<bool, Failure>(Failure::NoSuccessor)
                    } else {
                        Ok::<bool, Failure>(true)
                    },
                },
            },
            r == Ok::<bool, Failure>(true) ==> version is Some && exists|i: int|
                0 <= i < candidates.len() && (#[trigger] candidates@[i]).0@ == package@
                    && candidates@[i].1@.contains(version->0@),
    {
        let ghost cv = candidates_view(candidates@);
        let n = candidates.len();
        let mut i: usize = 0;
        while i < n
            invariant
                i <= n,
                n == candidates.len(),
                cv == candidates_view(candidates@),
                self.wf(),
                self@ == old(self)@,
                self.step_limit == old(self).step_limit,
                forall|j: int| 0 <= j < i ==> (#[trigger] cv[j]).0 != package@,
            decreases n - i,
        {
            if candidates[i].0.same(package) {
                proof {
                    assert(cv[i as int].0 == package@);
                    let c = candidate_index(cv, package@)->0;
                    if c < i {
                        assert(cv[c].0 != package@);
                    } else if c > i {
                        assert(cv[i as int].0 != package@);
                    }
                    assert(candidate_index(cv, package@) == Some(i as int));
                    assert(cv[i as int].1 == candidates@[i as int].1@);
                    assert(candidates@[i as int].0@ == package@);
                }
                match version {
                    None => {
                        let incompat = Incompatibility::no_versions(
                            package.duplicate(),
                            Term::Positive(candidates[i].1.clone()),
                        );
                        self.add_incompatibility(incompat);
                        return Ok(false);
                    },
                    Some(v) => {
                        if !candidates[i].1.contains(v) {
                            return Err(Failure::BadChoice);
                        } else if !v.can_bump() {
                            return Err(Failure::NoSuccessor);
                        } else {
                            return Ok(true);
                        }
                    },
                }
            }
            i += 1;
        }
        Err(Failure::BadChoice)
    }

    /// Takes in the dependencies of a package at a version that was chosen.
    #[verifier::rlimit(50)]
    pub fn record_dependencies(
        &mut self,
        package: P,
        version: V,
        dependencies: &Dependencies<P, V>,
    )
        requires
            old(self).wf(),
            version.has_successor(),
        ensures
            final(self).wf(),
            final(self).step_limit == old(self).step_limit,
            final(self)@ == tried(
                old(self)@,
                package@,
                version@,
                match dependencies {
                    Dependencies::Unknown => None,
                    Dependencies::Known(list) => Some(candidates_view(list@)),
                },
            ),
    {
        match dependencies {
            Dependencies::Unknown => {
                let incompat = Incompatibility::unavailable_dependencies(package, version);
                self.add_incompatibility(incompat);
            },
            Dependencies::Known(list) => {
                let ghost st = self@;
                let ghost deps = candidates_view(list@);
                let start = self.incompatibility_store.len();
                let n = list.len();
                let mut k: usize = 0;
                while k < n
                    invariant
                        k <= n,
                        n == list.len(),
                        deps == candidates_view(list@),
                        version.has_successor(),
                        self.wf(),
                        self.step_limit == old(self).step_limit,
                        start + k == self.incompatibility_store.len(),
                        self@ == with_dependencies(st, package@, version@, deps, k as nat),
                    decreases n - k,
                {
                    assert(deps[k as int] == (list@[k as int].0@, list@[k as int].1@));
                    let incompat = Incompatibility::from_dependency(
                        package.duplicate(),
                        version,
                        (&list[k].0, &list[k].1),
                    );
                    self.add_incompatibility(incompat);
                    k += 1;
                }
                let end = self.incompatibility_store.len();
                let ghost more = self@;
                let new_incompatibilities = slice_subrange(
                    self.incompatibility_store.as_slice(),
                    start,
                    end,
                );
                proof {
                    self.partial_solution.lemma_wf();
                    assert(st.history == more.history) by {
                        lemma_dependencies_keep(st, package@, version@, deps, n as nat);
                    }
                    assert(st.store.len() == start) by {
                        lemma_dependencies_keep(st, package@, version@, deps, n as nat);
                    }
                    assert forall|i: int| 0 <= i < new_incompatibilities.len() implies (
                    #[trigger] new_incompatibilities@[i])@ == more.store[start + i] by {
                        assert(new_incompatibilities@[i] == self.incompatibility_store@[start
                            + i]);
                    }
                    if exists|i: int|
                        st.store.len() <= i < more.store.len() && #[trigger] conflicts(
                            st.history,
                            more.store[i],
                            package@,
                            version@,
                        ) {
                        let i = choose|i: int|
                            st.store.len() <= i < more.store.len() && #[trigger] conflicts(
                                st.history,
                                more.store[i],
                                package@,
                                version@,
                            );
                        assert(conflicts(
                            st.history,
                            new_incompatibilities@[i - start]@,
                            package@,
                            version@,
                        ));
                    }
                    if exists|i: int|
                        0 <= i < new_incompatibilities.len() && #[trigger] conflicts(
                            st.history,
                            new_incompatibilities@[i]@,
                            package@,
                            version@,
                        ) {
                        let i = choose|i: int|
                            0 <= i < new_incompatibilities.len() && #[trigger] conflicts(
                                st.history,
                                new_incompatibilities@[i]@,
                                package@,
                                version@,
                            );
                        assert(conflicts(st.history, more.store[start + i], package@, version@));
                    }
                }
                let ghost before = self.partial_solution@;
                self.partial_solution.add_version(package, version, new_incompatibilities);
                proof {
                    if self.partial_solution@ != before {
                        assert forall|i: int| 0 <= i < self.partial_solution@.len() implies (
                        #[trigger] self.partial_solution@[i]).assignment.grounded(self.store())
                            && (self.partial_solution@[i].assignment is Derivation
                            ==> self.partial_solution@[i].term
                            == self.partial_solution@[i].assignment.as_term(self.store())) by {
                            if i < before.len() {
                                assert(self.partial_solution@[i] == before[i]);
                            }
                        }
                    }
                }
            },
        }
    }

    /// One pass over the incompatibilities, newest first, for the package
    /// `current`.
    #[verifier::rlimit(50)]
    fn scan(&mut self, current: &P, changed: &mut Vec<P>) -> (conflict: Option<IncompId>)
        requires
            old(self).wf(),
        ensures
            final(self).wf(),
            final(self).step_limit == old(self).step_limit,
            final(self)@.store == old(self)@.store,
            final(self)@.live == old(self)@.live,
            final(self).root_package@ == old(self).root_package@,
            final(self).root_version@ == old(self).root_version@,
            conflict matches Some(id) ==> id < final(self).incompatibility_store.len(),
            (
                final(self)@,
                packages_view(final(changed)@),
                match conflict {
                    Some(id) => Some(id as nat),
                    None => None,
                },
            ) == scan_live(
                old(self)@,
                current@,
                packages_view(old(changed)@),
                old(self)@.live.len(),
            ),
    {
        let ghost goal = scan_live(
            self@,
            current@,
            packages_view(changed@),
            self@.live.len(),
        );
        let mut n = self.incompatibilities.len();
        while n > 0
            invariant
                self.wf(),
                self.step_limit == old(self).step_limit,
                self@.store == old(self)@.store,
                self@.live == old(self)@.live,
                self.root_package@ == old(self).root_package@,
                self.root_version@ == old(self).root_version@,
                n <= self.incompatibilities.len(),
                goal == scan_live(self@, current@, packages_view(changed@), n as nat),
                goal == scan_live(
                    old(self)@,
                    current@,
                    packages_view(old(changed)@),
                    old(self)@.live.len(),
                ),
            decreases n,
        {
            let id = self.incompatibilities[n - 1];
            let ghost st = self@;
            let ghost packages = packages_view(changed@);
            proof {
                assert(st.live[n - 1] == id as nat);
                assert(st.store[id as int] == self.incompatibility_store@[id as int]@);
                self.partial_solution.lemma_wf();
            }
            // We only care about that incompatibility if it contains the current package.
            if self.incompatibility_store[id].get(current).is_some() {
                let relation = self.partial_solution.relation(&self.incompatibility_store[id]);
                proof {
                    st.store[id as int].lemma_almost_has(
                        known(st.history, st.store[id as int].terms),
                    );
                }
                match relation {
                    // If the partial solution satisfies the incompatibility
                    // we must perform conflict resolution.
                    Relation::Satisfied => {
                        assert(self@ == st);
                        return Some(id);
                    },
                    Relation::AlmostSatisfied(package_almost) => {
                        changed.push(package_almost.duplicate());
                        // Add (not term) to the partial solution with incompat as cause.
                        self.partial_solution.add_derivation(
                            package_almost,
                            id,
                            &self.incompatibility_store,
                        );
                        proof {
                            assert(packages_view(changed@) =~= packages.push(package_almost@));
                            assert(self@ == derived(st, package_almost@, id as nat));
                        }
                    },
                    _ => {
                        assert(self@ == st);
                    },
                }
            }
            n -= 1;
        }
        None
    }

    /// Unit propagation is the core mechanism of the solving algorithm.
    /// CF <https://github.com/dart-lang/pub/blob/master/doc/solver.md#unit-propagation>
    #[verifier::rlimit(50)]
    pub fn unit_propagation(&mut self, package: P) -> (r: Result<(), PubGrubError<P, V>>)
        requires
            old(self).wf(),
        ensures
            final(self).wf(),
            final(self).step_limit == old(self).step_limit,
            final(self)@ == propagate(
                old(self)@,
                seq![package@],
                old(self).step_limit as nat,
                old(self).step_limit as nat,
            ).0,
            tells_propagated(
                r,
                propagate(
                    old(self)@,
                    seq![package@],
                    old(self).step_limit as nat,
                    old(self).step_limit as nat,
                ).1,
                final(self)@.store,
            ),
            grown(old(self)@, final(self)@),
            r matches Err(PubGrubError::NoSolution(tree)) ==> forall|selection: Map<P::V, nat>|
                chosen(selection, old(self).root_package@) == Some(old(self).root_version@)
                    ==> #[trigger] breaks_a_leaf(tree@, selection),
    {
        let ghost limit = self.step_limit as nat;
        let ghost goal = propagate(self@, seq![package@], limit, limit);
        proof {
            law_propagation_appends(self@, seq![package@], limit, limit);
        }
        let mut changed: Vec<P> = Vec::new();
        changed.push(package);
        let mut fuel = self.step_limit;
        assert(packages_view(changed@) =~= seq![package@]);
        loop
            invariant
                self.wf(),
                self.step_limit == old(self).step_limit,
                self.root_package@ == old(self).root_package@,
                self.root_version@ == old(self).root_version@,
                limit == self.step_limit as nat,
                grown(old(self)@, goal.0),
                goal == propagate(self@, packages_view(changed@), limit, fuel as nat),
                goal == propagate(
                    old(self)@,
                    seq![package@],
                    old(self).step_limit as nat,
                    old(self).step_limit as nat,
                ),
            decreases fuel,
        {
            // If there are no more changed packages, unit propagation is done.
            if changed.len() == 0 {
                return Ok(());
            }
            if fuel == 0 {
                return Err(PubGrubError::Failure(Failure::StepLimit));
            }
            fuel -= 1;
            let ghost packages = packages_view(changed@);
            let ghost st = self@;
            let current = changed.pop().unwrap();
            proof {
                assert(packages.last() == current@);
                assert(packages_view(changed@) =~= packages.drop_last());
            }
            match self.scan(&current, &mut changed) {
                None => {},
                Some(id) => {
                    match self.conflict_resolution(id) {
                        Err(e) => {
                            return Err(e);
                        },
                        Ok((package_almost, root_cause)) => {
                            let mut fresh: Vec<P> = Vec::new();
                            fresh.push(package_almost.duplicate());
                            changed = fresh;
                            proof {
                                assert(packages_view(changed@) =~= seq![package_almost@]);
                                self.partial_solution.lemma_wf();
                                assert(self@.store[root_cause as int]
                                    == self.incompatibility_store@[root_cause as int]@);
                            }
                            let ghost resolved_state = self@;
                            // Add to the partial solution with incompat as cause.
                            self.partial_solution.add_derivation(
                                package_almost,
                                root_cause,
                                &self.incompatibility_store,
                            );
                            proof {
                                assert(self@ == derived(
                                    resolved_state,
                                    package_almost@,
                                    root_cause as nat,
                                ));
                            }
                        },
                    }
                },
            }
        }
    }

    /// Return the root cause and the backtracked model.
    /// CF <https://github.com/dart-lang/pub/blob/master/doc/solver.md#unit-propagation>
    #[verifier::rlimit(50)]
    pub fn conflict_resolution(&mut self, incompatibility: IncompId) -> (r: Result<
        (P, IncompId),
        PubGrubError<P, V>,
    >)
        requires
            old(self).wf(),
            incompatibility < old(self).incompatibility_store.len(),
        ensures
            final(self).wf(),
            final(self).step_limit == old(self).step_limit,
            final(self)@ == resolve_conflict(
                old(self)@,
                incompatibility as nat,
                false,
                old(self).step_limit as nat,
            ).0,
            tells_resolved(
                r,
                resolve_conflict(
                    old(self)@,
                    incompatibility as nat,
                    false,
                    old(self).step_limit as nat,
                ).1,
                final(self)@.store,
            ),
            final(self).root_package@ == old(self).root_package@,
            final(self).root_version@ == old(self).root_version@,
            grown(old(self)@, final(self)@),
            r matches Ok((p, c)) ==> c < final(self).incompatibility_store.len() && final(self)@.store[c as int].has(p@),
            r matches Err(PubGrubError::NoSolution(tree)) ==> forall|selection: Map<P::V, nat>|
                chosen(selection, old(self).root_package@) == Some(old(self).root_version@)
                    ==> #[trigger] breaks_a_leaf(tree@, selection),
    {
        let ghost goal = resolve_conflict(
            self@,
            incompatibility as nat,
            false,
            self.step_limit as nat,
        );
        let mut current_incompat = incompatibility;
        let mut current_incompat_changed = false;
        let mut fuel = self.step_limit;
        proof {
            law_resolution_appends(self@, incompatibility as nat, false, self.step_limit as nat);
        }
        loop
            invariant
                self.wf(),
                self.step_limit == old(self).step_limit,
                grown(old(self)@, goal.0),
                current_incompat < self.incompatibility_store.len(),
                self.root_package@ == old(self).root_package@,
                self.root_version@ == old(self).root_version@,
                goal == resolve_conflict(
                    self@,
                    current_incompat as nat,
                    current_incompat_changed,
                    fuel as nat,
                ),
                goal == resolve_conflict(
                    old(self)@,
                    incompatibility as nat,
                    false,
                    old(self).step_limit as nat,
                ),
            decreases fuel,
        {
            let ghost st = self@;
            proof {
                assert(st.store[current_incompat as int]
                    == self.incompatibility_store@[current_incompat as int]@);
            }
            if self.incompatibility_store[current_incompat].is_terminal(
                &self.root_package,
                &self.root_version,
            ) {
                let tree = self.build_derivation_tree(current_incompat);
                proof {
                    law_terminal_explained(
                        st.store,
                        current_incompat as nat,
                        shared_causes(st.store, current_incompat as nat),
                        self.root_package@,
                        self.root_version@,
                    );
                }
                return Err(PubGrubError::NoSolution(tree));
            }
            let found = self.partial_solution.find_satisfier_and_previous_satisfier_level(
                &self.incompatibility_store[current_incompat],
            );
            match found {
                None => {
                    return Err(PubGrubError::Failure(Failure::NoSatisfier));
                },
                Some((satisfier, satisfier_level, previous_satisfier_level)) => {
                    let ghost s = satisfier_index(
                        st.store[current_incompat as int].terms,
                        st.history,
                    )->0;
                    match satisfier {
                        Assignment::Decision { package, .. } => {
                            self.backtrack(
                                current_incompat,
                                current_incompat_changed,
                                previous_satisfier_level,
                            );
                            return Ok((package, current_incompat));
                        },
                        Assignment::Derivation { cause, package } => {
                            if previous_satisfier_level.0 != satisfier_level.0 {
                                self.backtrack(
                                    current_incompat,
                                    current_incompat_changed,
                                    previous_satisfier_level,
                                );
                                return Ok((package, current_incompat));
                            } else if fuel == 0 {
                                return Err(PubGrubError::Failure(Failure::StepLimit));
                            } else {
                                proof {
                                    assert(st.history[s as int].assignment.grounded(st.store));
                                }
                                let learned = self.learn(current_incompat, cause, &package);
                                current_incompat = learned;
                                current_incompat_changed = true;
                                fuel -= 1;
                            }
                        },
                    }
                },
            }
        }
    }

    /// Joins to the store what the rule of resolution on a package gives
    /// from two incompatibilities.
    fn learn(&mut self, incompat: IncompId, cause: IncompId, package: &P) -> (id: IncompId)
        requires
            old(self).wf(),
            incompat < old(self).incompatibility_store.len(),
            cause < old(self).incompatibility_store.len(),
            old(self)@.store[incompat as int].has(package@),
            old(self)@.store[cause as int].has(package@),
        ensures
            final(self).wf(),
            final(self).step_limit == old(self).step_limit,
            final(self).root_package@ == old(self).root_package@,
            final(self).root_version@ == old(self).root_version@,
            id == old(self).incompatibility_store.len(),
            final(self).incompatibility_store.len() == old(self).incompatibility_store.len() + 1,
            final(self)@ == (StateView {
                store: old(self)@.store.push(
                    IncompatibilityView {
                        terms: old(self)@.store[incompat as int].resolved_with(
                            old(self)@.store[cause as int],
                            package@,
                        ),
                        kind: KindView::DerivedFrom(incompat as nat, cause as nat),
                    },
                ),
                ..old(self)@
            }),
    {
        let ghost st = self@;
        proof {
            assert(st.store[incompat as int] == self.incompatibility_store@[incompat as int]@);
            assert(st.store[cause as int] == self.incompatibility_store@[cause as int]@);
        }
        let prior_cause = Incompatibility::prior_cause(
            incompat,
            cause,
            package,
            &self.incompatibility_store,
        );
        let ghost learned = prior_cause@;
        let id = self.incompatibility_store.len();
        self.incompatibility_store.push(prior_cause);
        proof {
            assert(self.store() =~= st.store.push(learned));
            assert(is_resolution(
                st.store.push(learned),
                st.store.len() as int,
                incompat as nat,
                cause as nat,
                package@,
            ));
            assert(sound_at(st.store.push(learned), st.store.len() as int));
            lemma_sound_push(st.store, learned);
            lemma_grounded(st.history, st.history.len() as int, st.store, self.store());
            assert(st.history.take(st.history.len() as int) =~= st.history);
        }
        id
    }

    /// Backtracking.
    fn backtrack(
        &mut self,
        incompat: IncompId,
        incompat_changed: bool,
        decision_level: DecisionLevel,
    )
        requires
            old(self).wf(),
            incompat < old(self).incompatibility_store.len(),
        ensures
            final(self).wf(),
            final(self).step_limit == old(self).step_limit,
            final(self)@ == backtracked(
                old(self)@,
                incompat as nat,
                incompat_changed,
                decision_level.0 as nat,
            ),
            final(self).root_package@ == old(self).root_package@,
            final(self).root_version@ == old(self).root_version@,
    {
        let ghost before = self.partial_solution@;
        self.partial_solution.backtrack(decision_level);
        if incompat_changed {
            Incompatibility::<P, V>::merge_into(incompat, &mut self.incompatibilities);
        }
        proof {
            lemma_kept(before, decision_level.0 as nat);
            lemma_grounded(
                before,
                kept(before, decision_level.0 as nat) as int,
                self.store(),
                self.store(),
            );
            if incompat_changed {
                assert(self@.live =~= old(self)@.live.push(incompat as nat));
            }
        }
    }

    /// The derivation tree of the incompatibility at `incompat`, for error
    /// reporting.
    pub fn build_derivation_tree(&self, incompat: IncompId) -> (tree: DerivationTree<P, V>)
        requires
            incompat < self.incompatibility_store.len(),
            causes_precede(self.store()),
        ensures
            tree@ == tree_of(
                self.store(),
                incompat as nat,
                shared_causes(self.store(), incompat as nat),
            ),
    {
        let shared_ids = self.find_shared_ids(incompat);
        Incompatibility::build_derivation_tree(incompat, &shared_ids, &self.incompatibility_store)
    }
}

/// Incompatibilities for dependencies leave the partial solution as it is.
proof fn lemma_dependencies_keep<K>(
    st: StateView<K>,
    package: K,
    version: nat,
    dependencies: Seq<(K, Set<nat>)>,
    n: nat,
)
    requires
        n <= dependencies.len(),
    ensures
        with_dependencies(st, package, version, dependencies, n).history == st.history,
        with_dependencies(st, package, version, dependencies, n).store.len() == st.store.len() + n,
    decreases n,
{
    if n > 0 {
        lemma_dependencies_keep(st, package, version, dependencies, (n - 1) as nat);
    }
}

/// The empty set names nothing.
proof fn lemma_named_none<K>(store: Seq<IncompatibilityView<K>>, x: nat, m: nat)
    ensures
        named(store, Set::<nat>::empty(), x, m) == 0,
    decreases m,
{
    if m > 0 {
        lemma_named_none(store, x, (m - 1) as nat);
    }
}

/// No number is in the empty set.
proof fn lemma_count_none(m: nat)
    ensures
        count_below(Set::<nat>::empty(), m) == 0,
    decreases m,
{
    if m > 0 {
        lemma_count_none((m - 1) as nat);
    }
}

/// Two sets that hold the same numbers below `m` hold as many of them.
proof fn lemma_count_agree(one: Set<nat>, other: Set<nat>, m: nat)
    requires
        forall|q: nat| q < m ==> (one.contains(q) <==> other.contains(q)),
    ensures
        count_below(one, m) == count_below(other, m),
    decreases m,
{
    if m > 0 {
        lemma_count_agree(one, other, (m - 1) as nat);
    }
}

/// Nothing that is reached from an incompatibility names it as a cause.
proof fn lemma_named_root<K>(store: Seq<IncompatibilityView<K>>, root: nat, m: nat)
    requires
        causes_precede(store),
        m <= store.len(),
    ensures
        named(store, reached(store, root), root, m) == 0,
    decreases m,
{
    if m > 0 {
        lemma_named_root(store, root, (m - 1) as nat);
        let q = (m - 1) as nat;
        if reaches(store, root, q) {
            lemma_reaches_bound(store, root, q);
            let inc = store[q as int];
        }
    }
}

} // verus!
