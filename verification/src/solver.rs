//! PubGrub version solving algorithm.
//!
//! It consists in efficiently finding a set of packages and versions
//! that satisfy all the constraints of a given project dependencies.
//! In addition, when that is not possible,
//! PubGrub tries to provide a very human-readable and clear
//! explanation as to why that failed.
//!
//! The algorithm is generic and works for any type of dependency system
//! as long as packages and versions implement the [Package] and [Version]
//! traits, and dependencies come from an implementation of
//! [DependencyProvider].

use crate::error::{Failure, PubGrubError};
use crate::internal::partial_solution::{
    candidates_view, differ, lemma_decided_distinct, lemma_packages_distinct, packages_in_order,
    selection_view,
};
use crate::internal::rooted::{
    initial, lemma_first_propagation, lemma_first_propagation_short, lemma_propagate_rooted, lemma_root_candidate,
    lemma_root_selected, lemma_tried_rooted, lemma_with_incompatibility_rooted, rooted,
};
use crate::internal::incompatibility::chosen;
use crate::internal::state::State;
use crate::report::breaks_a_leaf;
use crate::package::Package;
use crate::range::Range;
use crate::version::Version;
use vstd::prelude::*;

pub use crate::internal::state::Dependencies;

verus! {

/// Trait that allows the algorithm to retrieve available packages and their dependencies.
/// An implementor needs to be supplied to the [resolve] function.
pub trait DependencyProvider<P: Package, V: Version> {
    /// Decision making is the process of choosing the next package
    /// and version that will be appended to the partial solution.
    /// Every time such a decision must be made,
    /// potential valid packages and version ranges are preselected by the resolver,
    /// and the dependency provider must choose.
    ///
    /// The provider answers with one of the packages of the list, and with
    /// a version for it in the range that stands beside it; or with no
    /// version, if no version of that package is in the range.
    ///
    /// Note: the list is never empty.
    fn choose_package_version(&self, potential_packages: &Vec<(P, Range<V>)>) -> (r: Result<
        (P, Option<V>),
        String,
    >)
        requires
            potential_packages.len() > 0,
    ;

    /// Retrieves the package dependencies.
    /// Return [Dependencies::Unknown] if its dependencies are unknown.
    fn get_dependencies(&self, package: &P, version: &V) -> (r: Result<Dependencies<P, V>, String>)
    ;
}

/// What is known of one version of a package: its dependencies.
pub struct Release<P: Package, V: Version> {
    pub package: P,
    pub version: V,
    pub dependencies: Vec<(P, Range<V>)>,
}

/// A basic implementation of [DependencyProvider]: it answers from a table
/// that is filled beforehand.
pub struct OfflineDependencyProvider<P: Package, V: Version> {
    releases: Vec<Release<P, V>>,
}

/// What a release says.
pub ghost struct ReleaseView<K> {
    pub package: K,
    pub version: nat,
    pub dependencies: Seq<(K, Set<nat>)>,
}

impl<P: Package, V: Version> View for Release<P, V> {
    type V = ReleaseView<P::V>;

    open spec fn view(&self) -> ReleaseView<P::V> {
        ReleaseView {
            package: self.package@,
            version: self.version@,
            dependencies: candidates_view(self.dependencies@),
        }
    }
}

/// Whether the release is one of the package, with a version of the range.
pub open spec fn fits<K>(release: ReleaseView<K>, package: K, range: Set<nat>) -> bool {
    release.package == package && range.contains(release.version)
}

/// How many of the first `n` releases are of the package, with a version of
/// the range.
pub open spec fn fitting<K>(releases: Seq<ReleaseView<K>>, package: K, range: Set<nat>, n: nat) -> nat
    decreases n,
{
    if n == 0 || n > releases.len() {
        0
    } else {
        fitting(releases, package, range, (n - 1) as nat) + if fits(
            releases[n - 1],
            package,
            range,
        ) {
            1nat
        } else {
            0nat
        }
    }
}

/// Whether the version is the highest one of the package in the range, or
/// nothing if the package has no version in the range.
pub open spec fn is_highest<K>(
    releases: Seq<ReleaseView<K>>,
    package: K,
    range: Set<nat>,
    version: Option<nat>,
) -> bool {
    match version {
        Some(v) => (exists|i: int|
            0 <= i < releases.len() && fits(#[trigger] releases[i], package, range)
                && releases[i].version == v) && forall|i: int|
            0 <= i < releases.len() && fits(#[trigger] releases[i], package, range)
                ==> releases[i].version <= v,
        None => forall|i: int| 0 <= i < releases.len() ==> !fits(#[trigger] releases[i], package, range),
    }
}

/// Whether the candidate at index `i` is the first of those for which the
/// fewest versions fit.
pub open spec fn is_scarcest<K>(
    releases: Seq<ReleaseView<K>>,
    candidates: Seq<(K, Set<nat>)>,
    i: int,
) -> bool {
    &&& 0 <= i < candidates.len()
    &&& forall|j: int|
        0 <= j < candidates.len() ==> #[trigger] fitting(
            releases,
            candidates[j].0,
            candidates[j].1,
            releases.len(),
        ) >= fitting(releases, candidates[i].0, candidates[i].1, releases.len())
    &&& forall|j: int|
        0 <= j < i ==> #[trigger] fitting(
            releases,
            candidates[j].0,
            candidates[j].1,
            releases.len(),
        ) > fitting(releases, candidates[i].0, candidates[i].1, releases.len())
}

impl<P: Package, V: Version> View for OfflineDependencyProvider<P, V> {
    type V = Seq<ReleaseView<P::V>>;

    /// The releases, in the order in which they were first registered.
    closed spec fn view(&self) -> Seq<ReleaseView<P::V>> {
        self.releases@.map_values(|r: Release<P, V>| r@)
    }
}

impl<P: Package, V: Version> OfflineDependencyProvider<P, V> {
    /// Creates an empty OfflineDependencyProvider with no dependencies.
    pub fn new() -> (provider: Self)
        ensures
            provider@ == Seq::<ReleaseView<P::V>>::empty(),
    {
        let provider = OfflineDependencyProvider { releases: Vec::new() };
        assert(provider@ =~= Seq::<ReleaseView<P::V>>::empty());
        provider
    }

    /// The index of the release of a package at a version.
    fn find(&self, package: &P, version: &V) -> (r: Option<usize>)
        ensures
            match r {
                Some(i) => i < self@.len() && self@[i as int].package == package@ && self@[i as int].version
                    == version@ && forall|j: int|
                    0 <= j < i ==> !((#[trigger] self@[j]).package == package@ && self@[j].version
                        == version@),
                None => forall|j: int|
                    0 <= j < self@.len() ==> !((#[trigger] self@[j]).package == package@
                        && self@[j].version == version@),
            },
    {
        let n = self.releases.len();
        let mut i: usize = 0;
        while i < n
            invariant
                i <= n,
                n == self.releases.len(),
                forall|j: int|
                    0 <= j < i ==> !((#[trigger] self@[j]).package == package@ && self@[j].version
                        == version@),
            decreases n - i,
        {
            if self.releases[i].package.same(package) && self.releases[i].version.same(version) {
                return Some(i);
            }
            i += 1;
        }
        None
    }

    /// Registers the dependencies of a package and version pair.
    /// Dependencies must be added with a single call to
    /// [add_dependencies](OfflineDependencyProvider::add_dependencies).
    /// All subsequent calls to
    /// [add_dependencies](OfflineDependencyProvider::add_dependencies) for a given
    /// package version pair will replace the dependencies by the new ones.
    pub fn add_dependencies(&mut self, package: P, version: V, dependencies: Vec<(P, Range<V>)>)
        ensures
            final(self)@ == if exists|i: int|
                0 <= i < old(self)@.len() && (#[trigger] old(self)@[i]).package == package@ && old(
                    self,
                )@[i].version == version@ {
                old(self)@.update(
                    choose|i: int|
                        0 <= i < old(self)@.len() && (#[trigger] old(self)@[i]).package == package@
                            && old(self)@[i].version == version@ && forall|j: int|
                            0 <= j < i ==> !((#[trigger] old(self)@[j]).package == package@ && old(
                                self,
                            )@[j].version == version@),
                    ReleaseView {
                        package: package@,
                        version: version@,
                        dependencies: candidates_view(dependencies@),
                    },
                )
            } else {
                old(self)@.push(
                    ReleaseView {
                        package: package@,
                        version: version@,
                        dependencies: candidates_view(dependencies@),
                    },
                )
            },
    {
        let ghost before = self@;
        let ghost release = ReleaseView {
            package: package@,
            version: version@,
            dependencies: candidates_view(dependencies@),
        };
        match self.find(&package, &version) {
            Some(i) => {
                self.releases[i] = Release { package, version, dependencies };
                proof {
                    let c = choose|c: int|
                        0 <= c < before.len() && (#[trigger] before[c]).package == package@
                            && before[c].version == version@ && forall|j: int|
                            0 <= j < c ==> !((#[trigger] before[j]).package == package@
                                && before[j].version == version@);
                    assert(before[i as int].package == package@);
                    if c < i {
                        assert(before[c].package == package@);
                    } else if c > i {
                        assert(before[i as int].version == version@);
                    }
                    assert(self@ =~= before.update(i as int, release));
                }
            },
            None => {
                self.releases.push(Release { package, version, dependencies });
                proof {
                    assert(self@ =~= before.push(release));
                }
            },
        }
    }

    /// How many versions of a package are in a range.
    fn count_fitting(&self, package: &P, range: &Range<V>) -> (count: usize)
        ensures
            count == fitting(self@, package@, range@, self@.len()),
    {
        let n = self.releases.len();
        let mut count: usize = 0;
        let mut i: usize = 0;
        while i < n
            invariant
                i <= n,
                n == self.releases.len(),
                count <= i,
                count == fitting(self@, package@, range@, i as nat),
            decreases n - i,
        {
            if self.releases[i].package.same(package) && range.contains(&self.releases[i].version) {
                count += 1;
            }
            i += 1;
        }
        count
    }

    /// The highest version of a package in a range.
    #[verifier::rlimit(50)]
    fn highest_fitting(&self, package: &P, range: &Range<V>) -> (version: Option<V>)
        ensures
            is_highest(
                self@,
                package@,
                range@,
                match version {
                    Some(v) => Some(v@),
                    None => None,
                },
            ),
    {
        let n = self.releases.len();
        let mut best: Option<V> = None;
        let mut i: usize = 0;
        while i < n
            invariant
                i <= n,
                n == self.releases.len(),
                is_highest(
                    self@.take(i as int),
                    package@,
                    range@,
                    match best {
                        Some(v) => Some(v@),
                        None => None,
                    },
                ),
            decreases n - i,
        {
            let ghost seen = self@.take(i as int);
            let ghost more = self@.take(i + 1);
            let ghost was = best;
            let version = self.releases[i].version;
            if self.releases[i].package.same(package) && range.contains(&version) {
                let higher = match best {
                    Some(b) => b.lt(&version),
                    None => true,
                };
                if higher {
                    best = Some(version);
                }
            }
            proof {
                assert(more[i as int] == self@[i as int]);
                assert forall|j: int| 0 <= j < i implies more[j] == seen[j] by {}
                match best {
                    Some(b) => {
                        if was is Some && was->0@ == b@ {
                            let w = choose|w: int|
                                0 <= w < seen.len() && fits(#[trigger] seen[w], package@, range@)
                                    && seen[w].version == b@;
                            assert(more[w] == seen[w]);
                        }
                        assert forall|j: int|
                            0 <= j < more.len() && fits(
                                #[trigger] more[j],
                                package@,
                                range@,
                            ) implies more[j].version <= b@ by {
                            if j < i {
                                assert(more[j] == seen[j]);
                                assert(fits(seen[j], package@, range@));
                            }
                        }
                    },
                    None => {
                        assert forall|j: int| 0 <= j < more.len() implies !fits(
                            #[trigger] more[j],
                            package@,
                            range@,
                        ) by {
                            if j < i {
                                assert(more[j] == seen[j]);
                            }
                        }
                    },
                }
            }
            i += 1;
        }
        assert(self@.take(n as int) =~= self@);
        best
    }

    /// A copy of a list of dependencies.
    fn copy_dependencies(list: &Vec<(P, Range<V>)>) -> (copy: Vec<(P, Range<V>)>)
        ensures
            candidates_view(copy@) == candidates_view(list@),
    {
        let n = list.len();
        let mut copy: Vec<(P, Range<V>)> = Vec::new();
        let mut k: usize = 0;
        while k < n
            invariant
                k <= n,
                n == list.len(),
                candidates_view(copy@) == candidates_view(list@).take(k as int),
            decreases n - k,
        {
            let ghost before = candidates_view(copy@);
            let ghost e = candidates_view(list@)[k as int];
            assert(e == (list@[k as int].0@, list@[k as int].1@));
            copy.push((list[k].0.duplicate(), list[k].1.clone()));
            k += 1;
            assert(candidates_view(copy@) =~= before.push(e));
            assert(candidates_view(list@).take(k as int) =~= candidates_view(list@).take(
                k - 1,
            ).push(e));
        }
        assert(candidates_view(list@).take(n as int) =~= candidates_view(list@));
        copy
    }
}

/// An implementation of [DependencyProvider] that
/// contains all dependency information available in memory.
/// Packages are picked with the fewest versions contained in the constraints first.
/// Versions are picked with the newest versions first.
impl<P: Package, V: Version> DependencyProvider<P, V> for OfflineDependencyProvider<P, V> {
    /// Chooses the first of the packages for which the fewest versions are
    /// in the range that stands beside it, and the highest of these
    /// versions.
    #[verifier::rlimit(50)]
    fn choose_package_version(&self, potential_packages: &Vec<(P, Range<V>)>) -> (r: Result<
        (P, Option<V>),
        String,
    >)
        ensures
            r matches Ok((package, version)) && exists|i: int|
                #[trigger] is_scarcest(self@, candidates_view(potential_packages@), i) && package@
                    == potential_packages@[i].0@ && is_highest(
                    self@,
                    package@,
                    potential_packages@[i].1@,
                    match version {
                        Some(v) => Some(v@),
                        None => None,
                    },
                ),
    {
        let ghost candidates = candidates_view(potential_packages@);
        let n = potential_packages.len();
        let mut best: usize = 0;
        let mut least = self.count_fitting(&potential_packages[0].0, &potential_packages[0].1);
        let mut i: usize = 1;
        assert(candidates[0] == (potential_packages@[0].0@, potential_packages@[0].1@));
        while i < n
            invariant
                1 <= i <= n,
                n == potential_packages.len(),
                candidates == candidates_view(potential_packages@),
                best < i,
                least == fitting(self@, candidates[best as int].0, candidates[best as int].1, self@.len()),
                forall|j: int|
                    0 <= j < i ==> #[trigger] fitting(
                        self@,
                        candidates[j].0,
                        candidates[j].1,
                        self@.len(),
                    ) >= least,
                forall|j: int|
                    0 <= j < best ==> #[trigger] fitting(
                        self@,
                        candidates[j].0,
                        candidates[j].1,
                        self@.len(),
                    ) > least,
            decreases n - i,
        {
            assert(candidates[i as int] == (
                potential_packages@[i as int].0@,
                potential_packages@[i as int].1@,
            ));
            let count = self.count_fitting(&potential_packages[i].0, &potential_packages[i].1);
            if count < least {
                best = i;
                least = count;
            }
            i += 1;
        }
        let package = potential_packages[best].0.duplicate();
        let version = self.highest_fitting(&package, &potential_packages[best].1);
        proof {
            assert(candidates[best as int] == (
                potential_packages@[best as int].0@,
                potential_packages@[best as int].1@,
            ));
            assert(is_scarcest(self@, candidates, best as int));
        }
        Ok((package, version))
    }

    /// The dependencies that were registered for the package at the
    /// version, if any were.
    fn get_dependencies(&self, package: &P, version: &V) -> (r: Result<Dependencies<P, V>, String>)
        ensures
            r matches Ok(dependencies) && match dependencies {
                Dependencies::Known(list) => exists|i: int|
                    0 <= i < self@.len() && (#[trigger] self@[i]).package == package@
                        && self@[i].version == version@ && candidates_view(list@)
                        == self@[i].dependencies,
                Dependencies::Unknown => forall|i: int|
                    0 <= i < self@.len() ==> !((#[trigger] self@[i]).package == package@
                        && self@[i].version == version@),
            },
    {
        match self.find(package, version) {
            Some(i) => {
                let list = Self::copy_dependencies(&self.releases[i].dependencies);
                assert(self@[i as int].dependencies == candidates_view(
                    self.releases@[i as int].dependencies@,
                ));
                Ok(Dependencies::Known(list))
            },
            None => Ok(Dependencies::Unknown),
        }
    }
}

/// Main function of the library.
/// Finds a set of packages satisfying dependency bounds for a given package + version pair.
/// In the solution each package comes once, and the given package comes
/// with the given version. Where there is no solution, the derivation tree
/// explains why: whatever is selected with the given package at the given
/// version breaks one of the external incompatibilities at the leaves of the
/// tree. A version without successor is refused.
///
/// Every dependency that the provider gives is taken in as an
/// incompatibility, also one on a range without versions or of a package on
/// itself. No limit is set to the rounds that the loops of the solver take:
/// [resolve_within] takes one.
pub fn resolve<P: Package, V: Version, DP: DependencyProvider<P, V>>(
    dependency_provider: &DP,
    package: P,
    version: V,
) -> (r: Result<Vec<(P, V)>, PubGrubError<P, V>>)
    ensures
        r matches Ok(solution) ==> selection_view(solution@).contains((package@, version@))
            && forall|i: int, j: int|
            0 <= i < j < solution.len() ==> #[trigger] differ(selection_view(solution@), i, j),
        r matches Err(PubGrubError::NoSolution(tree)) ==> forall|selection: Map<P::V, nat>|
            chosen(selection, package@) == Some(version@) ==> #[trigger] breaks_a_leaf(
                tree@,
                selection,
            ),
        !version.has_successor() ==> r matches Err(
            PubGrubError::Failure(Failure::NoSuccessor),
        ),
{
    resolve_within(dependency_provider, package, version, usize::MAX)
}

/// Finds a set of packages satisfying dependency bounds for a given package + version pair,
/// and gives up when a loop of the solver takes more rounds than `step_limit`.
/// In the solution each package comes once, and the given package comes
/// with the given version. Where there is no solution, the derivation tree
/// explains why: whatever is selected with the given package at the given
/// version breaks one of the external incompatibilities at the leaves of the
/// tree. A version without successor is refused. The first unit propagation
/// takes two rounds, so that with a step limit of 1 or less the solver gives
/// up before it asks the provider anything.
#[verifier::rlimit(50)]
pub fn resolve_within<P: Package, V: Version, DP: DependencyProvider<P, V>>(
    dependency_provider: &DP,
    package: P,
    version: V,
    step_limit: usize,
) -> (r: Result<Vec<(P, V)>, PubGrubError<P, V>>)
    ensures
        r matches Ok(solution) ==> selection_view(solution@).contains((package@, version@))
            && forall|i: int, j: int|
            0 <= i < j < solution.len() ==> #[trigger] differ(selection_view(solution@), i, j),
        r matches Err(PubGrubError::NoSolution(tree)) ==> forall|selection: Map<P::V, nat>|
            chosen(selection, package@) == Some(version@) ==> #[trigger] breaks_a_leaf(
                tree@,
                selection,
            ),
        !version.has_successor() ==> r matches Err(
            PubGrubError::Failure(Failure::NoSuccessor),
        ),
        version.has_successor() && step_limit <= 1 ==> r matches Err(
            PubGrubError::Failure(Failure::StepLimit),
        ),
{
    if !version.can_bump() {
        return Err(PubGrubError::Failure(Failure::NoSuccessor));
    }
    let mut state = State::init(package.duplicate(), version);
    state.set_step_limit(step_limit);
    let ghost root = package@;
    let mut next = package;
    let mut fuel = step_limit;
    assert(state@ == initial(root, version@));
    loop
        invariant
            state.wf(),
            state.step_limit == step_limit,
            root == package@,
            state@.root_package == root,
            state@.root_version == version@,
            rooted(state@) || (state@ == initial(root, version@) && next@ == root),
            step_limit <= 1 ==> state@ == initial(root, version@) && next@ == root,
            version.has_successor(),
        decreases fuel,
    {
        let ghost before = state@;
        let ghost asked = next@;
        proof {
            if step_limit <= 1 {
                lemma_first_propagation_short(root, version@, step_limit as nat);
            }
        }
        match state.unit_propagation(next) {
            Err(e) => {
                return Err(e);
            },
            Ok(()) => {},
        }
        proof {
            if rooted(before) {
                lemma_propagate_rooted(
                    before,
                    seq![asked],
                    step_limit as nat,
                    step_limit as nat,
                );
            } else {
                lemma_first_propagation(root, version@, step_limit as nat);
            }
            assert(rooted(state@));
        }
        let potential_packages = match state.partial_solution.potential_packages() {
            None => {
                proof {
                    lemma_packages_distinct(state.partial_solution@);
                    lemma_decided_distinct(
                        state.partial_solution@,
                        packages_in_order(state.partial_solution@),
                    );
                    lemma_root_selected(state@);
                }
                return match state.partial_solution.extract_solution() {
                    Some(solution) => Ok(solution),
                    None => Err(PubGrubError::Failure(Failure::NoSatisfier)),
                };
            },
            Some(list) => list,
        };
        if fuel == 0 {
            return Err(PubGrubError::Failure(Failure::StepLimit));
        }
        fuel -= 1;
        let (chosen, chosen_version) = match dependency_provider.choose_package_version(
            &potential_packages,
        ) {
            Err(source) => {
                return Err(PubGrubError::ErrorChoosingPackageVersion(source));
            },
            Ok(choice) => choice,
        };
        let ghost surveyed = state@;
        match state.record_choice(&potential_packages, &chosen, &chosen_version) {
            Err(failure) => {
                return Err(PubGrubError::Failure(failure));
            },
            Ok(false) => {
                proof {
                    let i = crate::internal::state::candidate_index(
                        candidates_view(potential_packages@),
                        chosen@,
                    )->0;
                    lemma_with_incompatibility_rooted(
                        surveyed,
                        crate::internal::incompatibility::IncompatibilityView {
                            terms: seq![
                                (
                                    chosen@,
                                    crate::term::TermView::Positive(potential_packages@[i].1@),
                                ),
                            ],
                            kind: crate::internal::incompatibility::KindView::NoVersions(
                                chosen@,
                                potential_packages@[i].1@,
                            ),
                        },
                    );
                }
            },
            Ok(true) => {
                match chosen_version {
                    None => {},
                    Some(v) => {
                        proof {
                            let i = choose|i: int|
                                0 <= i < potential_packages.len() && (
                                #[trigger] potential_packages@[i]).0@ == chosen@
                                    && potential_packages@[i].1@.contains(v@);
                            assert(candidates_view(potential_packages@)[i] == (
                                potential_packages@[i].0@,
                                potential_packages@[i].1@,
                            ));
                            if chosen@ == root {
                                lemma_root_candidate(surveyed, i);
                            }
                        }
                        match dependency_provider.get_dependencies(&chosen, &v) {
                            Err(source) => {
                                return Err(
                                    PubGrubError::ErrorRetrievingDependencies {
                                        package: chosen,
                                        version: v,
                                        source,
                                    },
                                );
                            },
                            Ok(dependencies) => {
                                state.record_dependencies(chosen.duplicate(), v, &dependencies);
                                proof {
                                    lemma_tried_rooted(
                                        surveyed,
                                        chosen@,
                                        v@,
                                        match dependencies {
                                            Dependencies::Unknown => None,
                                            Dependencies::Known(list) => Some(
                                                candidates_view(list@),
                                            ),
                                        },
                                    );
                                }
                            },
                        }
                    },
                }
            },
        }
        next = chosen;
    }
}

} // verus!
