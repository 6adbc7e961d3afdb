use pubgrub::error::{Failure, PubGrubError};
use pubgrub::internal::assignment::Assignment;
use pubgrub::internal::incompatibility::Incompatibility;
use pubgrub::internal::partial_solution::DecisionLevel;
use pubgrub::internal::state::State;
use pubgrub::range::Range;
use pubgrub::report::{DerivationTree, External};
use pubgrub::solver::Dependencies;
use pubgrub::term::Term;
use pubgrub::version::NumberVersion;

type I = Incompatibility<String, NumberVersion>;
type St = State<String, NumberVersion>;

fn v(n: u32) -> NumberVersion {
    NumberVersion(n)
}

fn p(name: &str) -> String {
    name.to_string()
}

fn between(lo: u32, hi: u32) -> Range<NumberVersion> {
    Range::between(v(lo), v(hi))
}

fn dependency(package: &str, version: u32, dep: &str, range: Range<NumberVersion>) -> I {
    Incompatibility::from_dependency(p(package), v(version), (&p(dep), &range))
}

fn levels(state: &St) -> Vec<usize> {
    state.partial_solution.history().iter().map(|d| d.decision_level().0).collect()
}

fn packages(state: &St) -> Vec<String> {
    state.partial_solution.history().iter().map(|d| d.assignment().package().clone()).collect()
}

fn causes(state: &St) -> Vec<Option<usize>> {
    state
        .partial_solution
        .history()
        .iter()
        .map(|d| match d.assignment() {
            Assignment::Decision { .. } => None,
            Assignment::Derivation { cause, .. } => Some(*cause),
        })
        .collect()
}

#[test]
fn init_holds_the_incompatibility_of_the_root() {
    let state = St::init(p("root"), v(1));
    assert_eq!(state.root_package, "root");
    assert_eq!(state.root_version, v(1));
    assert_eq!(state.incompatibilities, vec![0]);
    assert_eq!(state.incompatibility_store.len(), 1);
    assert_eq!(
        state.incompatibility_store[0].iter(),
        &vec![(p("root"), Term::Negative(Range::exact(v(1))))]
    );
    assert_eq!(state.partial_solution.history().len(), 0);
    assert_eq!(state.step_limit, usize::MAX);
}

#[test]
fn add_incompatibility_gives_the_next_id() {
    let mut state = St::init(p("root"), v(1));
    assert_eq!(state.add_incompatibility(dependency("root", 1, "a", between(1, 2))), 1);
    assert_eq!(state.add_incompatibility(dependency("root", 1, "b", between(1, 2))), 2);
    assert_eq!(state.incompatibilities, vec![0, 1, 2]);
    assert_eq!(state.incompatibility_store.len(), 3);
    assert_eq!(state.incompatibility_store[2].get(&p("b")), Some(&Term::Negative(between(1, 2))));
}

#[test]
fn terminal_for_the_state() {
    let state = St::init(p("root"), v(1));
    assert!(state.is_terminal(&I::no_versions(p("root"), Term::Positive(between(1, 3)))));
    assert!(!state.is_terminal(&I::no_versions(p("root"), Term::Positive(between(2, 3)))));
    assert!(!state.is_terminal(&I::no_versions(p("a"), Term::Positive(between(1, 3)))));
}

#[test]
fn unit_propagation_derives_the_root() {
    let mut state = St::init(p("root"), v(1));
    assert!(state.unit_propagation(p("root")).is_ok());
    assert_eq!(packages(&state), vec![p("root")]);
    assert_eq!(causes(&state), vec![Some(0)]);
    assert_eq!(levels(&state), vec![0]);
    assert_eq!(
        state.partial_solution.potential_packages(),
        Some(vec![(p("root"), Range::exact(v(1)))])
    );
}

#[test]
fn unit_propagation_looks_at_the_newest_incompatibility_first() {
    let mut state = St::init(p("root"), v(1));
    assert!(state.unit_propagation(p("root")).is_ok());
    state.record_dependencies(
        p("root"),
        v(1),
        &Dependencies::Known(vec![(p("a"), between(1, 2)), (p("b"), between(1, 2))]),
    );
    assert_eq!(state.incompatibilities, vec![0, 1, 2]);
    assert_eq!(levels(&state), vec![0, 1]);
    assert!(state.unit_propagation(p("root")).is_ok());
    // b comes from the incompatibility that was added last
    assert_eq!(packages(&state), vec![p("root"), p("root"), p("b"), p("a")]);
    assert_eq!(causes(&state), vec![Some(0), None, Some(2), Some(1)]);
    assert_eq!(levels(&state), vec![0, 1, 1, 1]);
}

#[test]
fn unit_propagation_gives_up_at_the_step_limit() {
    let mut state = St::init(p("root"), v(1));
    state.set_step_limit(0);
    assert!(matches!(
        state.unit_propagation(p("root")),
        Err(PubGrubError::Failure(Failure::StepLimit))
    ));
    assert_eq!(state.partial_solution.history().len(), 0);
    state.set_step_limit(2);
    assert!(state.unit_propagation(p("root")).is_ok());
}

#[test]
fn conflict_resolution_goes_back() {
    // root 1 depends on a in [1, 3); a 2 depends on x; x has no version
    let mut state = St::init(p("root"), v(1));
    assert!(state.unit_propagation(p("root")).is_ok());
    state.record_dependencies(p("root"), v(1), &Dependencies::Known(vec![(p("a"), between(1, 3))]));
    assert!(state.unit_propagation(p("root")).is_ok());
    state.record_dependencies(p("a"), v(2), &Dependencies::Known(vec![(p("x"), Range::any())]));
    assert_eq!(levels(&state), vec![0, 1, 1, 2]);
    assert!(state.unit_propagation(p("a")).is_ok());
    assert_eq!(packages(&state), vec![p("root"), p("root"), p("a"), p("a"), p("x")]);
    let candidates = state.partial_solution.potential_packages().expect("x is to be chosen");
    assert_eq!(candidates, vec![(p("x"), Range::any())]);
    assert_eq!(state.record_choice(&candidates, &p("x"), &None), Ok(false));
    assert_eq!(state.incompatibility_store.len(), 4);
    assert_eq!(state.incompatibilities, vec![0, 1, 2, 3]);
    // { x: any } is satisfied. Its satisfier, the derivation of x, was made
    // at level 2, above the previous satisfier level: the decision of a is
    // dropped, x is derived not to be chosen, and a not to be 2.
    assert!(state.unit_propagation(p("x")).is_ok());
    assert_eq!(state.incompatibility_store.len(), 4);
    assert_eq!(state.incompatibilities, vec![0, 1, 2, 3]);
    assert_eq!(packages(&state), vec![p("root"), p("root"), p("a"), p("x"), p("a")]);
    assert_eq!(causes(&state), vec![Some(0), None, Some(1), Some(3), Some(2)]);
    assert_eq!(levels(&state), vec![0, 1, 1, 1, 1]);
    assert_eq!(state.partial_solution.decision_level(), DecisionLevel(1));
    assert_eq!(
        state.partial_solution.term_intersection_for_package(&p("x")),
        Some(Term::Negative(Range::any()))
    );
    assert_eq!(
        state.partial_solution.potential_packages(),
        Some(vec![(p("a"), Range::exact(v(1)))])
    );
}

/// root 1 depends on a and b in [1, 2); b 1 is decided; a 1 depends on b
/// in [2, 3): the incompatibility of that dependency, at 3, is satisfied.
fn in_conflict() -> St {
    let mut state = St::init(p("root"), v(1));
    assert!(state.unit_propagation(p("root")).is_ok());
    state.record_dependencies(
        p("root"),
        v(1),
        &Dependencies::Known(vec![(p("a"), between(1, 2)), (p("b"), between(1, 2))]),
    );
    assert!(state.unit_propagation(p("root")).is_ok());
    state.record_dependencies(p("b"), v(1), &Dependencies::Known(vec![]));
    assert!(state.unit_propagation(p("b")).is_ok());
    state.record_dependencies(p("a"), v(1), &Dependencies::Known(vec![(p("b"), between(2, 3))]));
    assert_eq!(state.incompatibility_store.len(), 4);
    assert_eq!(levels(&state), vec![0, 1, 1, 1, 2]);
    state
}

#[test]
fn conflict_resolution_learns_prior_causes() {
    let mut state = in_conflict();
    match state.conflict_resolution(3) {
        Err(PubGrubError::NoSolution(DerivationTree::Derived(top))) => {
            assert_eq!(top.terms, vec![(p("root"), Term::exact(v(1)))]);
            assert_eq!(top.shared_id, None);
            assert!(matches!(*top.cause1, DerivationTree::Derived(_)));
            assert!(matches!(
                *top.cause2,
                DerivationTree::External(External::FromDependencyOf(_, _, _, _))
            ));
        }
        _ => panic!("there is no solution"),
    }
    assert_eq!(state.incompatibility_store.len(), 6);
    assert_eq!(state.incompatibility_store[4].causes(), Some((3, 1)));
    assert_eq!(
        state.incompatibility_store[4].iter(),
        &vec![(p("b"), Term::Negative(between(2, 3))), (p("root"), Term::exact(v(1)))]
    );
    assert_eq!(state.incompatibility_store[5].causes(), Some((4, 2)));
    assert_eq!(state.incompatibility_store[5].iter(), &vec![(p("root"), Term::exact(v(1)))]);
    // nothing was learned for unit propagation, and nothing dropped
    assert_eq!(state.incompatibilities, vec![0, 1, 2, 3]);
    assert_eq!(levels(&state), vec![0, 1, 1, 1, 2]);
}

#[test]
fn conflict_resolution_gives_up_at_the_step_limit() {
    let mut state = in_conflict();
    state.set_step_limit(0);
    assert!(matches!(
        state.conflict_resolution(3),
        Err(PubGrubError::Failure(Failure::StepLimit))
    ));
    assert_eq!(state.incompatibility_store.len(), 4);
    let mut state = in_conflict();
    state.set_step_limit(1);
    assert!(matches!(
        state.conflict_resolution(3),
        Err(PubGrubError::Failure(Failure::StepLimit))
    ));
    assert_eq!(state.incompatibility_store.len(), 5);
    let mut state = in_conflict();
    state.set_step_limit(2);
    assert!(matches!(state.conflict_resolution(3), Err(PubGrubError::NoSolution(_))));
    assert_eq!(state.incompatibility_store.len(), 6);
}

fn dependency_leaf(tree: &DerivationTree<String, NumberVersion>) -> (String, u32, String, Range<NumberVersion>) {
    match tree {
        DerivationTree::External(External::FromDependencyOf(package, range, dep, dep_range)) => {
            let version = range.lowest_version().expect("one version");
            assert_eq!(range, &Range::exact(version));
            (package.clone(), version.0, dep.clone(), dep_range.clone())
        }
        _ => panic!("the incompatibility of a dependency"),
    }
}

#[test]
fn unit_propagation_finds_the_conflict() {
    let mut state = in_conflict();
    match state.unit_propagation(p("a")) {
        Err(PubGrubError::NoSolution(DerivationTree::Derived(top))) => {
            // resolved on b, of which [1, 2) and [2, 3) share nothing: the
            // root of the tree has a term for the root package only
            assert_eq!(top.terms, vec![(p("root"), Term::exact(v(1)))]);
            match &*top.cause1 {
                DerivationTree::Derived(inner) => {
                    assert_eq!(
                        inner.terms,
                        vec![(p("b"), Term::Negative(between(2, 3))), (p("root"), Term::exact(v(1)))]
                    );
                    assert_eq!(dependency_leaf(&inner.cause1), (p("a"), 1, p("b"), between(2, 3)));
                    assert_eq!(dependency_leaf(&inner.cause2), (p("root"), 1, p("a"), between(1, 2)));
                }
                _ => panic!("a derived incompatibility"),
            }
            assert_eq!(dependency_leaf(&top.cause2), (p("root"), 1, p("b"), between(1, 2)));
        }
        _ => panic!("there is no solution"),
    }
    assert_eq!(state.incompatibility_store.len(), 6);
}

#[test]
fn conflict_resolution_without_satisfier_fails() {
    let mut state = St::init(p("root"), v(1));
    assert!(matches!(
        state.conflict_resolution(0),
        Err(PubGrubError::Failure(Failure::NoSatisfier))
    ));
}

#[test]
fn conflict_resolution_on_a_terminal_incompatibility() {
    let mut state = St::init(p("root"), v(1));
    let id = state.add_incompatibility(I::no_versions(p("root"), Term::Positive(between(1, 2))));
    match state.conflict_resolution(id) {
        Err(PubGrubError::NoSolution(DerivationTree::External(External::NoVersions(package, range)))) => {
            assert_eq!(package, "root");
            assert_eq!(range, between(1, 2));
        }
        _ => panic!("there is no solution"),
    }
}

#[test]
fn record_choice_checks_what_was_chosen() {
    let mut state = St::init(p("root"), v(1));
    let candidates = vec![(p("a"), between(1, 3)), (p("b"), Range::any())];
    assert_eq!(state.record_choice(&candidates, &p("c"), &Some(v(1))), Err(Failure::BadChoice));
    assert_eq!(state.record_choice(&candidates, &p("c"), &None), Err(Failure::BadChoice));
    assert_eq!(state.record_choice(&candidates, &p("a"), &Some(v(3))), Err(Failure::BadChoice));
    assert_eq!(state.record_choice(&candidates, &p("a"), &Some(v(2))), Ok(true));
    assert_eq!(
        state.record_choice(&candidates, &p("b"), &Some(v(u32::MAX))),
        Err(Failure::NoSuccessor)
    );
    assert_eq!(state.incompatibility_store.len(), 1);
    assert_eq!(state.record_choice(&candidates, &p("a"), &None), Ok(false));
    assert_eq!(state.incompatibility_store.len(), 2);
    assert_eq!(
        state.incompatibility_store[1].iter(),
        &vec![(p("a"), Term::Positive(between(1, 3)))]
    );
    assert_eq!(state.incompatibilities, vec![0, 1]);
}

#[test]
fn record_dependencies_that_are_unknown() {
    let mut state = St::init(p("root"), v(1));
    state.record_dependencies(p("a"), v(2), &Dependencies::Unknown);
    assert_eq!(state.incompatibility_store.len(), 2);
    assert_eq!(state.incompatibility_store[1].iter(), &vec![(p("a"), Term::exact(v(2)))]);
    assert_eq!(state.incompatibilities, vec![0, 1]);
    assert_eq!(state.partial_solution.history().len(), 0);
}

#[test]
fn record_dependencies_decides_unless_there_is_a_conflict() {
    let mut state = St::init(p("root"), v(1));
    assert!(state.unit_propagation(p("root")).is_ok());
    state.record_dependencies(
        p("root"),
        v(1),
        &Dependencies::Known(vec![(p("a"), between(1, 2)), (p("b"), between(1, 2))]),
    );
    assert_eq!(levels(&state), vec![0, 1]);
    assert!(state.unit_propagation(p("root")).is_ok());
    // a 1 depends on b in [2, 3), but b is in [1, 2): no decision
    state.record_dependencies(p("a"), v(1), &Dependencies::Known(vec![(p("b"), between(2, 3))]));
    assert_eq!(state.incompatibility_store.len(), 4);
    assert_eq!(state.incompatibilities, vec![0, 1, 2, 3]);
    assert_eq!(levels(&state), vec![0, 1, 1, 1]);
    // b 1 has no dependencies: decided
    state.record_dependencies(p("b"), v(1), &Dependencies::Known(vec![]));
    assert_eq!(state.incompatibility_store.len(), 4);
    assert_eq!(levels(&state), vec![0, 1, 1, 1, 2]);
}

#[test]
fn shared_ids_are_named_more_than_once() {
    let mut state = St::init(p("root"), v(1));
    // 1 and 2 give 3; 3 and 4 give 5; 5 and 3 give 6
    state.add_incompatibility(dependency("x", 1, "y", between(1, 2)));
    state.add_incompatibility(dependency("y", 1, "z", between(1, 2)));
    let third = I::prior_cause(1, 2, &p("y"), &state.incompatibility_store);
    assert_eq!(state.add_incompatibility(third), 3);
    state.add_incompatibility(dependency("z", 1, "w", between(1, 2)));
    let fifth = I::prior_cause(3, 4, &p("z"), &state.incompatibility_store);
    assert_eq!(state.add_incompatibility(fifth), 5);
    let sixth = I::prior_cause(5, 3, &p("x"), &state.incompatibility_store);
    assert_eq!(state.add_incompatibility(sixth), 6);

    let mut shared: Vec<usize> = state.find_shared_ids(6).into_iter().collect();
    shared.sort();
    assert_eq!(shared, vec![3]);
    assert!(state.find_shared_ids(5).is_empty());
    assert!(state.find_shared_ids(1).is_empty());

    match state.build_derivation_tree(6) {
        DerivationTree::Derived(top) => {
            assert_eq!(top.shared_id, None);
            match *top.cause1 {
                DerivationTree::Derived(fifth) => {
                    assert_eq!(fifth.shared_id, None);
                    match *fifth.cause1 {
                        DerivationTree::Derived(third) => assert_eq!(third.shared_id, Some(3)),
                        _ => panic!("a derived incompatibility"),
                    }
                    assert!(matches!(*fifth.cause2, DerivationTree::External(_)));
                }
                _ => panic!("a derived incompatibility"),
            }
            match *top.cause2 {
                DerivationTree::Derived(third) => {
                    assert_eq!(third.shared_id, Some(3));
                    assert_eq!(
                        third.terms,
                        vec![(p("x"), Term::exact(v(1))), (p("z"), Term::Negative(between(1, 2)))]
                    );
                }
                _ => panic!("a derived incompatibility"),
            }
        }
        _ => panic!("a derived incompatibility"),
    }
    match state.build_derivation_tree(5) {
        DerivationTree::Derived(fifth) => match *fifth.cause1 {
            DerivationTree::Derived(third) => assert_eq!(third.shared_id, None),
            _ => panic!("a derived incompatibility"),
        },
        _ => panic!("a derived incompatibility"),
    }
}
