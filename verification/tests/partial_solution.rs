use pubgrub::internal::assignment::Assignment;
use pubgrub::internal::incompatibility::{Incompatibility, Relation};
use pubgrub::internal::partial_solution::{DecisionLevel, PartialSolution};
use pubgrub::range::Range;
use pubgrub::term::Term;
use pubgrub::version::NumberVersion;

type I = Incompatibility<String, NumberVersion>;
type T = Term<NumberVersion>;
type S = PartialSolution<String, NumberVersion>;

fn v(n: u32) -> NumberVersion {
    NumberVersion(n)
}

fn p(name: &str) -> String {
    name.to_string()
}

fn between(lo: u32, hi: u32) -> Range<NumberVersion> {
    Range::between(v(lo), v(hi))
}

fn pos(lo: u32, hi: u32) -> T {
    Term::Positive(between(lo, hi))
}

fn neg(lo: u32, hi: u32) -> T {
    Term::Negative(between(lo, hi))
}

fn dependency(package: &str, version: u32, dep: &str, range: Range<NumberVersion>) -> I {
    Incompatibility::from_dependency(p(package), v(version), (&p(dep), &range))
}

/// 0: not root 1
/// 1: root 1 depends on a in [1, 2)
/// 2: a 1 depends on b in [2, 3)
/// 3: root 1 depends on b in [1, 2)
/// 4: a 1 depends on c in [1, 9)
/// 5: c has no version in [5, 9)
fn store() -> Vec<I> {
    vec![
        I::not_root(p("root"), v(1)),
        dependency("root", 1, "a", between(1, 2)),
        dependency("a", 1, "b", between(2, 3)),
        dependency("root", 1, "b", between(1, 2)),
        dependency("a", 1, "c", between(1, 9)),
        I::no_versions(p("c"), Term::Positive(between(5, 9))),
    ]
}

/// derivation of root, decision of root, derivations of a and b
fn propagated(store: &Vec<I>) -> S {
    let mut solution = S::empty();
    solution.add_derivation(p("root"), 0, store);
    solution.add_decision(p("root"), v(1));
    solution.add_derivation(p("a"), 1, store);
    solution.add_derivation(p("b"), 3, store);
    solution
}

fn levels(solution: &S) -> Vec<usize> {
    solution.history().iter().map(|d| d.decision_level().0).collect()
}

fn packages(solution: &S) -> Vec<String> {
    solution.history().iter().map(|d| d.assignment().package().clone()).collect()
}

#[test]
fn empty_partial_solution() {
    let mut solution = S::empty();
    assert_eq!(solution.decision_level(), DecisionLevel(0));
    assert_eq!(solution.history().len(), 0);
    assert_eq!(solution.term_intersection_for_package(&p("a")), None);
    assert!(solution.potential_packages().is_none());
    assert_eq!(solution.extract_solution(), Some(vec![]));
}

#[test]
fn decisions_raise_the_level_and_derivations_keep_it() {
    let store = store();
    let solution = propagated(&store);
    assert_eq!(solution.decision_level(), DecisionLevel(1));
    assert_eq!(levels(&solution), vec![0, 1, 1, 1]);
    assert_eq!(packages(&solution), vec![p("root"), p("root"), p("a"), p("b")]);
    let mut solution = solution;
    solution.add_decision(p("a"), v(1));
    assert_eq!(solution.decision_level(), DecisionLevel(2));
    assert_eq!(levels(&solution), vec![0, 1, 1, 1, 2]);
}

#[test]
fn assignments_as_terms() {
    let store = store();
    let solution = propagated(&store);
    let terms: Vec<T> = solution.history().iter().map(|d| d.term().clone()).collect();
    assert_eq!(terms, vec![Term::exact(v(1)), Term::exact(v(1)), pos(1, 2), pos(1, 2)]);
    for dated in solution.history().iter() {
        assert_eq!(&dated.assignment().as_term(&store), dated.term());
    }
    let decision: Assignment<String, NumberVersion> =
        Assignment::Decision { package: p("a"), version: v(4) };
    assert_eq!(decision.as_term(&store), Term::exact(v(4)));
    assert_eq!(decision.package(), "a");
    let derivation: Assignment<String, NumberVersion> =
        Assignment::Derivation { package: p("b"), cause: 2 };
    assert_eq!(derivation.as_term(&store), pos(2, 3));
    assert_eq!(derivation.package(), "b");
    let derivation: Assignment<String, NumberVersion> =
        Assignment::Derivation { package: p("c"), cause: 5 };
    assert_eq!(derivation.as_term(&store), neg(5, 9));
}

#[test]
fn intersection_of_the_terms_of_a_package() {
    let store = store();
    let mut solution = propagated(&store);
    assert_eq!(solution.term_intersection_for_package(&p("root")), Some(Term::exact(v(1))));
    assert_eq!(solution.term_intersection_for_package(&p("a")), Some(pos(1, 2)));
    assert_eq!(solution.term_intersection_for_package(&p("c")), None);
    solution.add_derivation(p("c"), 5, &store);
    assert_eq!(solution.term_intersection_for_package(&p("c")), Some(neg(5, 9)));
    solution.add_derivation(p("c"), 4, &store);
    assert_eq!(solution.term_intersection_for_package(&p("c")), Some(pos(1, 5)));
    // asked twice, answered the same
    assert_eq!(solution.term_intersection_for_package(&p("c")), Some(pos(1, 5)));
    solution.add_derivation(p("b"), 2, &store);
    assert_eq!(solution.term_intersection_for_package(&p("b")), Some(T::empty()));
}

#[test]
fn relation_of_the_partial_solution() {
    let store = store();
    let mut solution = S::empty();
    // nothing is known: the first incompatibility lacks its one term
    match solution.relation(&store[0]) {
        Relation::AlmostSatisfied(package) => assert_eq!(package, "root"),
        _ => panic!("almost satisfied"),
    }
    assert!(matches!(solution.relation(&store[1]), Relation::Inconclusive));
    solution.add_derivation(p("root"), 0, &store);
    match solution.relation(&store[0]) {
        Relation::Contradicted((package, term)) => {
            assert_eq!(package, "root");
            assert_eq!(term, Term::Negative(Range::exact(v(1))));
        }
        _ => panic!("contradicted"),
    }
    match solution.relation(&store[1]) {
        Relation::AlmostSatisfied(package) => assert_eq!(package, "a"),
        _ => panic!("almost satisfied"),
    }
    let mut solution = propagated(&store);
    match solution.relation(&store[1]) {
        Relation::Contradicted((package, term)) => {
            assert_eq!(package, "a");
            assert_eq!(term, neg(1, 2));
        }
        _ => panic!("contradicted"),
    }
    // a is 1 and b is outside of [2, 3): a conflict
    assert!(matches!(solution.relation(&store[2]), Relation::Satisfied));
    match solution.relation(&store[4]) {
        Relation::AlmostSatisfied(package) => assert_eq!(package, "c"),
        _ => panic!("almost satisfied"),
    }
}

#[test]
fn potential_packages_have_a_positive_term_and_no_decision() {
    let store = store();
    let mut solution = S::empty();
    solution.add_derivation(p("root"), 0, &store);
    assert_eq!(solution.potential_packages(), Some(vec![(p("root"), Range::exact(v(1)))]));
    assert_eq!(solution.extract_solution(), None);
    solution.add_decision(p("root"), v(1));
    assert_eq!(solution.potential_packages(), None);
    assert_eq!(solution.extract_solution(), Some(vec![(p("root"), v(1))]));
    let mut solution = propagated(&store);
    // c is only known by a negative term
    solution.add_derivation(p("c"), 5, &store);
    assert_eq!(
        solution.potential_packages(),
        Some(vec![(p("a"), between(1, 2)), (p("b"), between(1, 2))])
    );
    assert_eq!(solution.extract_solution(), None);
    solution.add_decision(p("b"), v(1));
    assert_eq!(solution.potential_packages(), Some(vec![(p("a"), between(1, 2))]));
    solution.add_decision(p("a"), v(1));
    assert_eq!(solution.potential_packages(), None);
    assert_eq!(
        solution.extract_solution(),
        Some(vec![(p("root"), v(1)), (p("a"), v(1)), (p("b"), v(1))])
    );
}

#[test]
fn backtrack_drops_the_higher_levels() {
    let store = store();
    let mut solution = propagated(&store);
    solution.add_decision(p("a"), v(1));
    solution.add_derivation(p("c"), 4, &store);
    solution.add_decision(p("c"), v(2));
    solution.add_derivation(p("c"), 5, &store);
    assert_eq!(levels(&solution), vec![0, 1, 1, 1, 2, 2, 3, 3]);

    let mut back = propagated(&store);
    back.add_decision(p("a"), v(1));
    back.add_derivation(p("c"), 4, &store);
    back.add_decision(p("c"), v(2));
    back.add_derivation(p("c"), 5, &store);
    back.backtrack(DecisionLevel(2));
    assert_eq!(back.decision_level(), DecisionLevel(2));
    assert_eq!(levels(&back), vec![0, 1, 1, 1, 2, 2]);
    assert_eq!(packages(&back), vec![p("root"), p("root"), p("a"), p("b"), p("a"), p("c")]);
    // the memory is that of the assignments that stay
    assert_eq!(back.term_intersection_for_package(&p("c")), Some(pos(1, 9)));
    assert_eq!(back.potential_packages(), Some(vec![(p("b"), between(1, 2)), (p("c"), between(1, 9))]));

    solution.backtrack(DecisionLevel(1));
    assert_eq!(solution.decision_level(), DecisionLevel(1));
    assert_eq!(levels(&solution), vec![0, 1, 1, 1]);
    assert_eq!(solution.term_intersection_for_package(&p("c")), None);
    assert_eq!(solution.term_intersection_for_package(&p("a")), Some(pos(1, 2)));

    // going back to the current level or above changes nothing
    solution.backtrack(DecisionLevel(1));
    assert_eq!(levels(&solution), vec![0, 1, 1, 1]);
    solution.backtrack(DecisionLevel(7));
    assert_eq!(levels(&solution), vec![0, 1, 1, 1]);
    assert_eq!(solution.decision_level(), DecisionLevel(1));

    solution.backtrack(DecisionLevel(0));
    assert_eq!(solution.decision_level(), DecisionLevel(0));
    assert_eq!(levels(&solution), vec![0]);
    assert_eq!(solution.extract_solution(), None);
}

#[test]
fn backtrack_matches_a_fresh_replay() {
    let store = store();
    let mut solution = propagated(&store);
    solution.add_decision(p("a"), v(1));
    solution.add_derivation(p("c"), 4, &store);
    solution.backtrack(DecisionLevel(1));
    let mut fresh = propagated(&store);
    for package in ["root", "a", "b", "c"] {
        assert_eq!(
            solution.term_intersection_for_package(&p(package)),
            fresh.term_intersection_for_package(&p(package))
        );
    }
    assert_eq!(solution.potential_packages(), fresh.potential_packages());
    assert_eq!(solution.extract_solution(), fresh.extract_solution());
    assert_eq!(levels(&solution), levels(&fresh));
}

#[test]
fn add_version_decides_unless_an_incompatibility_would_be_satisfied() {
    let store = store();
    // a 1 depends on b in [2, 3), but b is in [1, 2)
    let mut solution = propagated(&store);
    assert!(!solution.add_version(p("a"), v(1), &store[2..3]));
    assert_eq!(solution.decision_level(), DecisionLevel(1));
    assert_eq!(levels(&solution), vec![0, 1, 1, 1]);
    // a 1 depends on c in [1, 9), of which nothing is known
    assert!(solution.add_version(p("a"), v(1), &store[4..5]));
    assert_eq!(solution.decision_level(), DecisionLevel(2));
    assert_eq!(levels(&solution), vec![0, 1, 1, 1, 2]);
    // without any incompatibility
    let mut solution = propagated(&store);
    assert!(solution.add_version(p("b"), v(1), &store[0..0]));
    assert_eq!(levels(&solution), vec![0, 1, 1, 1, 2]);
    // one of several
    let mut solution = propagated(&store);
    assert!(!solution.add_version(p("a"), v(1), &store[2..5]));
}

#[test]
fn satisfier_is_the_earliest_assignment_that_satisfies() {
    let store = store();
    let solution = propagated(&store);
    // { a: 1, b: not [2, 3) } is satisfied once b is derived
    match S::find_satisfier(&store[2], solution.history().as_slice()) {
        Some(found) => {
            assert_eq!(found.previous_history().len(), 3);
            assert_eq!(found.satisfier().assignment().package(), "b");
            assert_eq!(found.satisfier().decision_level(), DecisionLevel(1));
        }
        None => panic!("the incompatibility is satisfied"),
    }
    // { root: 1, a: not [1, 2) } is never satisfied
    assert!(S::find_satisfier(&store[1], solution.history().as_slice()).is_none());
    // { c: [5, 9) } is not spoken of
    assert!(S::find_satisfier(&store[5], solution.history().as_slice()).is_none());
    // { root: not 1 } neither
    assert!(S::find_satisfier(&store[0], solution.history().as_slice()).is_none());
    // the first assignment of root is enough for { root: [1, 3) }
    let incompat = I::no_versions(p("root"), Term::Positive(between(1, 3)));
    match S::find_satisfier(&incompat, solution.history().as_slice()) {
        Some(found) => {
            assert_eq!(found.previous_history().len(), 0);
            assert_eq!(found.satisfier().decision_level(), DecisionLevel(0));
            assert!(matches!(found.satisfier().assignment(), Assignment::Derivation { cause: 0, .. }));
        }
        None => panic!("the incompatibility is satisfied"),
    }
}

#[test]
fn satisfier_and_previous_satisfier_level() {
    let store = store();
    let mut solution = propagated(&store);
    match solution.find_satisfier_and_previous_satisfier_level(&store[2]) {
        Some((satisfier, level, previous)) => {
            assert!(matches!(satisfier, Assignment::Derivation { cause: 3, .. }));
            assert_eq!(satisfier.package(), "b");
            assert_eq!(level, DecisionLevel(1));
            // a was derived at level 1
            assert_eq!(previous, DecisionLevel(1));
        }
        None => panic!("the incompatibility is satisfied"),
    }
    assert!(solution.find_satisfier_and_previous_satisfier_level(&store[1]).is_none());
    // the satisfier alone is enough: the floor
    let incompat = I::no_versions(p("root"), Term::Positive(between(1, 3)));
    match solution.find_satisfier_and_previous_satisfier_level(&incompat) {
        Some((satisfier, level, previous)) => {
            assert_eq!(satisfier.package(), "root");
            assert_eq!(level, DecisionLevel(0));
            assert_eq!(previous, DecisionLevel(1));
        }
        None => panic!("the incompatibility is satisfied"),
    }
    // a decision as a satisfier, two levels above the previous one
    solution.add_decision(p("b"), v(1));
    solution.add_decision(p("a"), v(1));
    solution.add_derivation(p("c"), 4, &store);
    solution.add_decision(p("c"), v(6));
    assert_eq!(solution.decision_level(), DecisionLevel(4));
    // { a: 1, c: not [0, 5) }
    let incompat = I::prior_cause(0, 1, &p("x"), &vec![
        dependency("a", 1, "x", between(1, 2)),
        dependency("x", 1, "c", between(0, 5)),
    ]);
    assert_eq!(incompat.iter(), &vec![(p("a"), Term::exact(v(1))), (p("c"), neg(0, 5))]);
    match solution.find_satisfier_and_previous_satisfier_level(&incompat) {
        Some((satisfier, level, previous)) => {
            assert!(matches!(satisfier, Assignment::Decision { .. }));
            assert_eq!(satisfier.package(), "c");
            assert_eq!(level, DecisionLevel(4));
            // a is known to be 1 since its derivation at level 1
            assert_eq!(previous, DecisionLevel(1));
        }
        None => panic!("the incompatibility is satisfied"),
    }
}

#[test]
fn previous_satisfier_level_is_that_of_the_other_terms() {
    let store = store();
    let mut solution = S::empty();
    solution.add_derivation(p("root"), 0, &store);
    solution.add_decision(p("root"), v(1));
    solution.add_decision(p("b"), v(1));
    solution.add_decision(p("a"), v(1));
    // { a: 1, b: not [2, 3) }: b at level 2, a at level 3
    match solution.find_satisfier_and_previous_satisfier_level(&store[2]) {
        Some((satisfier, level, previous)) => {
            assert_eq!(satisfier.package(), "a");
            assert_eq!(level, DecisionLevel(3));
            assert_eq!(previous, DecisionLevel(2));
        }
        None => panic!("the incompatibility is satisfied"),
    }
    let history = solution.history().as_slice();
    let found = S::find_satisfier(&store[2], history).expect("satisfied");
    assert_eq!(
        S::find_previous_satisfier(&store[2], found.satisfier(), found.previous_history()),
        DecisionLevel(2)
    );
}

#[test]
fn satisfier_search_from_a_given_state() {
    let store = store();
    let solution = propagated(&store);
    let history = solution.history().as_slice();
    let accum = S::new_accum_satisfied_from(&store[2]);
    assert_eq!(accum, vec![(false, T::any()), (false, T::any())]);
    let found = S::find_satisfier_helper(&store[2], accum, history).expect("satisfied");
    assert_eq!(found.previous_history().len(), 3);
    // b is taken for satisfied from the start: a is the last one missing
    let accum = vec![(false, T::any()), (true, T::any())];
    let found = S::find_satisfier_helper(&store[2], accum, history).expect("satisfied");
    assert_eq!(found.previous_history().len(), 2);
    assert_eq!(found.satisfier().assignment().package(), "a");
    // all is taken for satisfied from the start: nothing is found
    let accum = vec![(true, T::any()), (true, T::any())];
    assert!(S::find_satisfier_helper(&store[2], accum, history).is_none());
    // a is known not to be 1: with its derivation nothing is left of a,
    // which satisfies any term
    let accum = vec![(false, neg(1, 2)), (false, T::any())];
    let found = S::find_satisfier_helper(&store[2], accum, history).expect("satisfied");
    assert_eq!(found.previous_history().len(), 3);
    // a is never outside of [1, 2)
    let accum = S::new_accum_satisfied_from(&store[1]);
    assert!(S::find_satisfier_helper(&store[1], accum, history).is_none());
}
