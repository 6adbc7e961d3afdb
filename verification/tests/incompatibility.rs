use pubgrub::internal::incompatibility::{Incompatibility, Relation};
use pubgrub::range::Range;
use pubgrub::report::{DerivationTree, External};
use pubgrub::term::Term;
use pubgrub::version::NumberVersion;
use std::collections::HashSet;

type I = Incompatibility<String, NumberVersion>;
type T = Term<NumberVersion>;

fn v(n: u32) -> NumberVersion {
    NumberVersion(n)
}

fn p(name: &str) -> String {
    name.to_string()
}

fn between(lo: u32, hi: u32) -> Range<NumberVersion> {
    Range::between(v(lo), v(hi))
}

fn pos(lo: u32, hi: u32) -> T {
    Term::Positive(between(lo, hi))
}

fn neg(lo: u32, hi: u32) -> T {
    Term::Negative(between(lo, hi))
}

fn dependency(package: &str, version: u32, dep: &str, range: Range<NumberVersion>) -> I {
    Incompatibility::from_dependency(p(package), v(version), (&p(dep), &range))
}

fn terms(incompat: &I) -> Vec<(String, T)> {
    let mut list: Vec<(String, T)> = incompat.iter().clone();
    list.sort_by(|a, b| a.0.cmp(&b.0));
    list
}

#[test]
fn not_root_has_one_negative_term() {
    let incompat = I::not_root(p("root"), v(1));
    assert_eq!(incompat.len(), 1);
    assert_eq!(incompat.iter(), &vec![(p("root"), Term::Negative(Range::exact(v(1))))]);
    assert_eq!(incompat.get(&p("root")), Some(&Term::Negative(Range::exact(v(1)))));
    assert_eq!(incompat.get(&p("other")), None);
    assert_eq!(incompat.causes(), None);
}

#[test]
fn no_versions_has_one_positive_term() {
    let incompat = I::no_versions(p("a"), Term::Positive(between(2, 5)));
    assert_eq!(incompat.iter(), &vec![(p("a"), pos(2, 5))]);
    assert_eq!(incompat.causes(), None);
}

#[test]
fn unavailable_dependencies_has_the_exact_version() {
    let incompat = I::unavailable_dependencies(p("a"), v(3));
    assert_eq!(incompat.iter(), &vec![(p("a"), Term::exact(v(3)))]);
}

#[test]
fn from_dependency_has_two_terms() {
    let incompat = dependency("a", 1, "b", between(2, 5));
    assert_eq!(incompat.len(), 2);
    assert_eq!(incompat.iter(), &vec![(p("a"), Term::exact(v(1))), (p("b"), neg(2, 5))]);
    assert_eq!(incompat.get(&p("a")), Some(&Term::exact(v(1))));
    assert_eq!(incompat.get(&p("b")), Some(&neg(2, 5)));
    assert_eq!(incompat.index_of(&p("b")), Some(1));
    assert_eq!(incompat.index_of(&p("c")), None);
}

#[test]
fn from_dependency_drops_a_term_that_is_always_true() {
    let incompat = dependency("a", 1, "b", Range::none());
    assert_eq!(incompat.iter(), &vec![(p("a"), Term::exact(v(1)))]);
}

#[test]
fn from_dependency_on_itself_has_one_term() {
    let incompat = dependency("a", 1, "a", between(3, 5));
    assert_eq!(incompat.iter(), &vec![(p("a"), Term::exact(v(1)))]);
    let incompat = dependency("a", 4, "a", between(3, 5));
    assert_eq!(incompat.iter(), &vec![(p("a"), T::empty())]);
}

#[test]
fn merge_into_grows_the_list() {
    let mut list = vec![0, 2];
    I::merge_into(5, &mut list);
    assert_eq!(list, vec![0, 2, 5]);
}

/// For any three different packages p1, p2 and p3,
/// for any three terms t1, t2 and t3,
/// if we have the two following incompatibilities:
///    { p1: t1, p2: not t2 }
///    { p2: t2, p3: t3 }
/// the rule of resolution says that we can deduce the following incompatibility:
///    { p1: t1, p3: t3 }
#[test]
fn rule_of_resolution() {
    // p1: 1, p2: not 2 and p2: 2, p3: not [7, 8)
    let store = vec![
        dependency("p1", 1, "p2", Range::exact(v(2))),
        dependency("p2", 2, "p3", between(7, 8)),
    ];
    let resolved = I::prior_cause(0, 1, &p("p2"), &store);
    assert_eq!(terms(&resolved), vec![(p("p1"), Term::exact(v(1))), (p("p3"), neg(7, 8))]);
    // p1: not [4, 6), p2: 2 and p2: not 2, p3: 7
    let store = vec![
        dependency("p2", 2, "p1", between(4, 6)),
        dependency("p3", 7, "p2", Range::exact(v(2))),
    ];
    let resolved = I::prior_cause(0, 1, &p("p2"), &store);
    assert_eq!(terms(&resolved), vec![(p("p1"), neg(4, 6)), (p("p3"), Term::exact(v(7)))]);
}

#[test]
fn rule_of_resolution_keeps_a_term_that_says_something() {
    let store = vec![
        dependency("p1", 1, "p2", between(2, 5)),
        dependency("p2", 2, "p3", between(7, 8)),
    ];
    let resolved = I::prior_cause(0, 1, &p("p2"), &store);
    // the union of not [2, 5) and of 2 is not [3, 5)
    assert_eq!(
        resolved.iter(),
        &vec![(p("p1"), Term::exact(v(1))), (p("p3"), neg(7, 8)), (p("p2"), neg(3, 5))]
    );
    assert_eq!(resolved.causes(), Some((0, 1)));
    // two incompatibilities that share the package only
    let store = vec![
        dependency("p1", 1, "p2", between(2, 5)),
        dependency("p1", 1, "p3", between(7, 8)),
    ];
    let resolved = I::prior_cause(0, 1, &p("p1"), &store);
    assert_eq!(
        resolved.iter(),
        &vec![(p("p2"), neg(2, 5)), (p("p3"), neg(7, 8)), (p("p1"), Term::exact(v(1)))]
    );
}

#[test]
fn rule_of_resolution_drops_the_package() {
    // { p1: 1, p2: not 2 } and { p2: 2, p3: not [7, 8) } give { p1: 1, p3: not [7, 8) }
    let store = vec![
        dependency("p1", 1, "p2", Range::exact(v(2))),
        dependency("p2", 2, "p3", between(7, 8)),
    ];
    let resolved = I::prior_cause(0, 1, &p("p2"), &store);
    assert_eq!(resolved.iter(), &vec![(p("p1"), Term::exact(v(1))), (p("p3"), neg(7, 8))]);
    assert_eq!(resolved.get(&p("p2")), None);
    let swapped = I::prior_cause(1, 0, &p("p2"), &store);
    assert_eq!(swapped.iter(), &vec![(p("p3"), neg(7, 8)), (p("p1"), Term::exact(v(1)))]);
    assert_eq!(swapped.causes(), Some((1, 0)));
}

#[test]
fn rule_of_resolution_intersects_the_other_terms() {
    // a: 1, b: not [1, 5) and a: 1, b: not [3, 8), resolved on a
    let store = vec![dependency("a", 1, "b", between(1, 5)), dependency("a", 1, "b", between(3, 8))];
    let resolved = I::prior_cause(0, 1, &p("a"), &store);
    assert_eq!(resolved.iter(), &vec![(p("b"), neg(1, 8)), (p("a"), Term::exact(v(1)))]);
}

#[test]
fn an_incompatibility_without_terms_is_terminal() {
    // the union of [1, 3) and of not [1, 3) is always true
    let store = vec![I::no_versions(p("a"), Term::Positive(between(1, 3))), dependency("b", 1, "a", between(1, 3))];
    let narrowed = I::prior_cause(0, 1, &p("a"), &store);
    assert_eq!(narrowed.iter(), &vec![(p("b"), Term::exact(v(1)))]);
    // an incompatibility with no term at all
    let store = vec![I::no_versions(p("a"), Term::Positive(Range::exact(v(1)))), I::not_root(p("a"), v(1))];
    let both = I::prior_cause(0, 1, &p("a"), &store);
    assert_eq!(both.len(), 0);
    assert_eq!(both.get(&p("a")), None);
    assert!(both.is_terminal(&p("root"), &v(1)));
    assert!(both.is_terminal(&p("a"), &v(7)));
}

#[test]
fn terminal_incompatibilities() {
    assert!(I::no_versions(p("root"), Term::Positive(between(1, 3))).is_terminal(&p("root"), &v(1)));
    assert!(I::no_versions(p("root"), Term::Positive(between(1, 3))).is_terminal(&p("root"), &v(2)));
    assert!(!I::no_versions(p("root"), Term::Positive(between(1, 3))).is_terminal(&p("root"), &v(3)));
    assert!(!I::no_versions(p("a"), Term::Positive(between(1, 3))).is_terminal(&p("root"), &v(1)));
    assert!(!I::not_root(p("root"), v(1)).is_terminal(&p("root"), &v(1)));
    assert!(I::not_root(p("root"), v(1)).is_terminal(&p("root"), &v(2)));
    assert!(!dependency("root", 1, "a", between(1, 3)).is_terminal(&p("root"), &v(1)));
}

#[test]
fn relation_with_what_is_known() {
    let incompat = dependency("a", 1, "b", between(2, 5));
    // a is 1 and b is outside of [2, 5): satisfied
    assert!(matches!(
        incompat.relation(&vec![Some(Term::exact(v(1))), Some(pos(5, 7))]),
        Relation::Satisfied
    ));
    // a is 1 and nothing is known of b: almost satisfied
    match incompat.relation(&vec![Some(Term::exact(v(1))), None]) {
        Relation::AlmostSatisfied(package) => assert_eq!(package, "b"),
        _ => panic!("one term is missing"),
    }
    // b may still be in [2, 5)
    match incompat.relation(&vec![Some(Term::exact(v(1))), Some(pos(3, 7))]) {
        Relation::AlmostSatisfied(package) => assert_eq!(package, "b"),
        _ => panic!("one term is missing"),
    }
    match incompat.relation(&vec![None, Some(pos(5, 7))]) {
        Relation::AlmostSatisfied(package) => assert_eq!(package, "a"),
        _ => panic!("one term is missing"),
    }
    // nothing is known at all
    assert!(matches!(incompat.relation(&vec![None, None]), Relation::Inconclusive));
    assert!(matches!(
        incompat.relation(&vec![Some(pos(0, 5)), Some(pos(3, 7))]),
        Relation::Inconclusive
    ));
    // a is not 1: contradicted, whatever is known of b
    match incompat.relation(&vec![Some(Term::exact(v(2))), None]) {
        Relation::Contradicted((package, term)) => {
            assert_eq!(package, "a");
            assert_eq!(term, Term::exact(v(1)));
        }
        _ => panic!("contradicted"),
    }
    // b is within [2, 5): contradicted, though nothing is known of a
    match incompat.relation(&vec![None, Some(pos(2, 4))]) {
        Relation::Contradicted((package, term)) => {
            assert_eq!(package, "b");
            assert_eq!(term, neg(2, 5));
        }
        _ => panic!("contradicted"),
    }
    // both terms are contradicted: the first one is given
    match incompat.relation(&vec![Some(Term::exact(v(2))), Some(pos(2, 4))]) {
        Relation::Contradicted((package, term)) => {
            assert_eq!(package, "a");
            assert_eq!(term, Term::exact(v(1)));
        }
        _ => panic!("contradicted"),
    }
    // the second term is contradicted, the first one satisfied
    match incompat.relation(&vec![Some(Term::exact(v(1))), Some(pos(2, 4))]) {
        Relation::Contradicted((package, term)) => {
            assert_eq!(package, "b");
            assert_eq!(term, neg(2, 5));
        }
        _ => panic!("contradicted"),
    }
}

#[test]
fn derivation_tree_of_external_incompatibilities() {
    let store = vec![
        I::not_root(p("root"), v(1)),
        I::no_versions(p("a"), Term::Positive(between(1, 3))),
        I::unavailable_dependencies(p("b"), v(2)),
        dependency("c", 3, "d", between(4, 6)),
    ];
    let shared = HashSet::new();
    match I::build_derivation_tree(0, &shared, &store) {
        DerivationTree::External(External::NotRoot(package, version)) => {
            assert_eq!(package, "root");
            assert_eq!(version, v(1));
        }
        _ => panic!("an external incompatibility"),
    }
    match I::build_derivation_tree(1, &shared, &store) {
        DerivationTree::External(External::NoVersions(package, range)) => {
            assert_eq!(package, "a");
            assert_eq!(range, between(1, 3));
        }
        _ => panic!("an external incompatibility"),
    }
    match I::build_derivation_tree(2, &shared, &store) {
        DerivationTree::External(External::UnavailableDependencies(package, range)) => {
            assert_eq!(package, "b");
            assert_eq!(range, Range::exact(v(2)));
        }
        _ => panic!("an external incompatibility"),
    }
    match I::build_derivation_tree(3, &shared, &store) {
        DerivationTree::External(External::FromDependencyOf(package, range, dep, dep_range)) => {
            assert_eq!(package, "c");
            assert_eq!(range, Range::exact(v(3)));
            assert_eq!(dep, "d");
            assert_eq!(dep_range, between(4, 6));
        }
        _ => panic!("an external incompatibility"),
    }
}

#[test]
fn derivation_tree_of_a_derived_incompatibility() {
    let mut store = vec![
        dependency("p1", 1, "p2", Range::exact(v(2))),
        dependency("p2", 2, "p3", between(7, 8)),
    ];
    let resolved = I::prior_cause(0, 1, &p("p2"), &store);
    store.push(resolved);
    let mut shared = HashSet::new();
    match I::build_derivation_tree(2, &shared, &store) {
        DerivationTree::Derived(derived) => {
            assert_eq!(derived.terms, vec![(p("p1"), Term::exact(v(1))), (p("p3"), neg(7, 8))]);
            assert_eq!(derived.shared_id, None);
            assert!(matches!(
                *derived.cause1,
                DerivationTree::External(External::FromDependencyOf(_, _, _, _))
            ));
            match *derived.cause2 {
                DerivationTree::External(External::FromDependencyOf(package, _, dep, _)) => {
                    assert_eq!(package, "p2");
                    assert_eq!(dep, "p3");
                }
                _ => panic!("an external incompatibility"),
            }
        }
        _ => panic!("a derived incompatibility"),
    }
    shared.insert(2);
    match I::build_derivation_tree(2, &shared, &store) {
        DerivationTree::Derived(derived) => assert_eq!(derived.shared_id, Some(2)),
        _ => panic!("a derived incompatibility"),
    }
}
