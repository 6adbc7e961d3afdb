use pubgrub::error::{Failure, PubGrubError};
use pubgrub::range::Range;
use pubgrub::report::{DerivationTree, External};
use pubgrub::solver::{
    resolve, resolve_within, Dependencies, DependencyProvider, OfflineDependencyProvider,
};
use pubgrub::version::NumberVersion;

fn provider() -> OfflineDependencyProvider<String, NumberVersion> {
    OfflineDependencyProvider::new()
}

fn add(
    provider: &mut OfflineDependencyProvider<String, NumberVersion>,
    package: &str,
    version: u32,
    deps: Vec<(&str, Range<NumberVersion>)>,
) {
    let deps: Vec<(String, Range<NumberVersion>)> =
        deps.into_iter().map(|(p, r)| (p.to_string(), r)).collect();
    provider.add_dependencies(package.to_string(), NumberVersion(version), deps);
}

/// A provider whose answers are fixed.
struct Scripted {
    choice: Result<(String, Option<NumberVersion>), String>,
    dependencies: Result<Option<Vec<(String, Range<NumberVersion>)>>, String>,
}

impl DependencyProvider<String, NumberVersion> for Scripted {
    fn choose_package_version(
        &self,
        _potential_packages: &Vec<(String, Range<NumberVersion>)>,
    ) -> Result<(String, Option<NumberVersion>), String> {
        self.choice.clone()
    }

    fn get_dependencies(
        &self,
        _package: &String,
        _version: &NumberVersion,
    ) -> Result<Dependencies<String, NumberVersion>, String> {
        match &self.dependencies {
            Ok(Some(list)) => Ok(Dependencies::Known(list.clone())),
            Ok(None) => Ok(Dependencies::Unknown),
            Err(e) => Err(e.clone()),
        }
    }
}

fn between(lo: u32, hi: u32) -> Range<NumberVersion> {
    Range::between(NumberVersion(lo), NumberVersion(hi))
}

fn sorted(mut solution: Vec<(String, NumberVersion)>) -> Vec<(String, u32)> {
    solution.sort_by(|a, b| a.0.cmp(&b.0));
    solution.into_iter().map(|(p, v)| (p, v.0)).collect()
}

fn expect(pairs: &[(&str, u32)]) -> Vec<(String, u32)> {
    pairs.iter().map(|(p, v)| (p.to_string(), *v)).collect()
}

fn leaves(tree: &DerivationTree<String, NumberVersion>, out: &mut Vec<String>) {
    match tree {
        DerivationTree::External(External::NotRoot(p, v)) => out.push(format!("not root {} {}", p, v.0)),
        DerivationTree::External(External::NoVersions(p, _)) => out.push(format!("no versions {}", p)),
        DerivationTree::External(External::UnavailableDependencies(p, _)) => {
            out.push(format!("unavailable {}", p))
        }
        DerivationTree::External(External::FromDependencyOf(p, _, d, _)) => {
            out.push(format!("{} depends on {}", p, d))
        }
        DerivationTree::Derived(derived) => {
            leaves(&derived.cause1, out);
            leaves(&derived.cause2, out);
        }
    }
}

#[test]
fn root_without_dependencies() {
    let mut provider = provider();
    add(&mut provider, "root", 1, vec![]);
    let solution = resolve(&provider, "root".to_string(), NumberVersion(1));
    match solution {
        Ok(solution) => assert_eq!(sorted(solution), expect(&[("root", 1)])),
        Err(_) => panic!("a solution exists"),
    }
}

#[test]
fn one_dependency() {
    let mut provider = provider();
    add(&mut provider, "root", 1, vec![("a", between(1, 2))]);
    add(&mut provider, "a", 1, vec![]);
    let solution = resolve(&provider, "root".to_string(), NumberVersion(1));
    match solution {
        Ok(solution) => assert_eq!(sorted(solution), expect(&[("a", 1), ("root", 1)])),
        Err(_) => panic!("a solution exists"),
    }
}

#[test]
fn conflicting_ranges_have_no_solution() {
    let mut provider = provider();
    add(&mut provider, "root", 1, vec![("a", between(1, 2)), ("b", between(1, 2))]);
    add(&mut provider, "a", 1, vec![("b", between(2, 3))]);
    add(&mut provider, "b", 1, vec![]);
    add(&mut provider, "b", 2, vec![]);
    let solution = resolve(&provider, "root".to_string(), NumberVersion(1));
    match solution {
        Err(PubGrubError::NoSolution(tree)) => {
            assert!(matches!(tree, DerivationTree::Derived(_)));
            let mut found = Vec::new();
            leaves(&tree, &mut found);
            assert!(found.contains(&"root depends on a".to_string()));
            assert!(found.contains(&"root depends on b".to_string()));
            assert!(found.contains(&"a depends on b".to_string()));
        }
        _ => panic!("there is no solution"),
    }
}

#[test]
fn backtracks_off_a_version_with_an_unavailable_dependency() {
    let mut provider = provider();
    add(&mut provider, "root", 1, vec![("a", between(1, 3))]);
    add(&mut provider, "a", 1, vec![]);
    add(&mut provider, "a", 2, vec![("x", Range::any())]);
    let solution = resolve(&provider, "root".to_string(), NumberVersion(1));
    match solution {
        Ok(solution) => assert_eq!(sorted(solution), expect(&[("a", 1), ("root", 1)])),
        Err(_) => panic!("a solution exists"),
    }
}

#[test]
fn linear_chain() {
    let mut provider = provider();
    add(&mut provider, "root", 1, vec![("a", Range::exact(NumberVersion(1)))]);
    add(&mut provider, "a", 1, vec![("b", Range::exact(NumberVersion(1)))]);
    add(&mut provider, "b", 1, vec![("c", Range::exact(NumberVersion(1)))]);
    add(&mut provider, "c", 1, vec![]);
    let solution = resolve(&provider, "root".to_string(), NumberVersion(1));
    match solution {
        Ok(solution) => assert_eq!(
            sorted(solution),
            expect(&[("a", 1), ("b", 1), ("c", 1), ("root", 1)])
        ),
        Err(_) => panic!("a solution exists"),
    }
}

#[test]
fn diamond() {
    let mut provider = provider();
    add(&mut provider, "root", 1, vec![("a", between(1, 2)), ("b", between(1, 2))]);
    add(&mut provider, "a", 1, vec![("c", between(1, 3))]);
    add(&mut provider, "b", 1, vec![("c", between(2, 4))]);
    add(&mut provider, "c", 1, vec![]);
    add(&mut provider, "c", 2, vec![]);
    add(&mut provider, "c", 3, vec![]);
    let solution = resolve(&provider, "root".to_string(), NumberVersion(1));
    match solution {
        Ok(solution) => assert_eq!(
            sorted(solution),
            expect(&[("a", 1), ("b", 1), ("c", 2), ("root", 1)])
        ),
        Err(_) => panic!("a solution exists"),
    }
}

#[test]
fn gives_up_at_the_step_limit() {
    let mut provider = provider();
    add(&mut provider, "root", 1, vec![("a", between(1, 2))]);
    add(&mut provider, "a", 1, vec![]);
    let solution = resolve_within(&provider, "root".to_string(), NumberVersion(1), 0);
    assert!(matches!(solution, Err(PubGrubError::Failure(Failure::StepLimit))));
}

#[test]
fn refuses_a_root_version_without_successor() {
    let provider = provider();
    let solution = resolve(&provider, "root".to_string(), NumberVersion(u32::MAX));
    assert!(matches!(solution, Err(PubGrubError::Failure(Failure::NoSuccessor))));
}

#[test]
fn provider_prefers_the_package_with_the_fewest_versions() {
    let mut provider = provider();
    add(&mut provider, "a", 1, vec![]);
    add(&mut provider, "a", 2, vec![]);
    add(&mut provider, "b", 1, vec![]);
    add(&mut provider, "b", 7, vec![]);
    add(&mut provider, "c", 3, vec![]);
    let candidates = vec![
        ("a".to_string(), Range::any()),
        ("b".to_string(), between(1, 5)),
        ("c".to_string(), Range::any()),
    ];
    let choice = provider.choose_package_version(&candidates);
    assert_eq!(choice, Ok(("b".to_string(), Some(NumberVersion(1)))));
}

#[test]
fn provider_prefers_the_highest_version() {
    let mut provider = provider();
    add(&mut provider, "a", 1, vec![]);
    add(&mut provider, "a", 3, vec![]);
    add(&mut provider, "a", 2, vec![]);
    add(&mut provider, "a", 9, vec![]);
    let candidates = vec![("a".to_string(), between(1, 4))];
    let choice = provider.choose_package_version(&candidates);
    assert_eq!(choice, Ok(("a".to_string(), Some(NumberVersion(3)))));
}

#[test]
fn provider_finds_no_version_outside_of_the_range() {
    let mut provider = provider();
    add(&mut provider, "a", 1, vec![]);
    let candidates = vec![("a".to_string(), between(2, 4))];
    let choice = provider.choose_package_version(&candidates);
    assert_eq!(choice, Ok(("a".to_string(), None)));
}

#[test]
fn provider_keeps_the_last_dependencies_of_a_release() {
    let mut provider = provider();
    add(&mut provider, "a", 1, vec![("b", between(1, 2))]);
    add(&mut provider, "a", 1, vec![("c", between(3, 4))]);
    match provider.get_dependencies(&"a".to_string(), &NumberVersion(1)) {
        Ok(Dependencies::Known(list)) => {
            assert_eq!(list, vec![("c".to_string(), between(3, 4))]);
        }
        _ => panic!("dependencies are known"),
    }
    assert!(matches!(
        provider.get_dependencies(&"a".to_string(), &NumberVersion(2)),
        Ok(Dependencies::Unknown)
    ));
}

#[test]
fn error_of_the_provider_when_choosing() {
    let scripted = Scripted { choice: Err("no network".to_string()), dependencies: Ok(None) };
    let solution = resolve(&scripted, "root".to_string(), NumberVersion(1));
    match solution {
        Err(PubGrubError::ErrorChoosingPackageVersion(source)) => assert_eq!(source, "no network"),
        _ => panic!("the provider failed"),
    }
}

#[test]
fn error_of_the_provider_when_retrieving() {
    let scripted = Scripted {
        choice: Ok(("root".to_string(), Some(NumberVersion(1)))),
        dependencies: Err("broken index".to_string()),
    };
    let solution = resolve(&scripted, "root".to_string(), NumberVersion(1));
    match solution {
        Err(PubGrubError::ErrorRetrievingDependencies { package, version, source }) => {
            assert_eq!(package, "root");
            assert_eq!(version, NumberVersion(1));
            assert_eq!(source, "broken index");
        }
        _ => panic!("the provider failed"),
    }
}

#[test]
fn refuses_a_version_outside_of_the_range() {
    let scripted = Scripted {
        choice: Ok(("root".to_string(), Some(NumberVersion(2)))),
        dependencies: Ok(Some(vec![])),
    };
    let solution = resolve(&scripted, "root".to_string(), NumberVersion(1));
    assert!(matches!(solution, Err(PubGrubError::Failure(Failure::BadChoice))));
}

#[test]
fn refuses_a_package_that_is_no_candidate() {
    let scripted = Scripted {
        choice: Ok(("other".to_string(), Some(NumberVersion(1)))),
        dependencies: Ok(Some(vec![])),
    };
    let solution = resolve(&scripted, "root".to_string(), NumberVersion(1));
    assert!(matches!(solution, Err(PubGrubError::Failure(Failure::BadChoice))));
}

#[test]
fn root_without_any_version_has_no_solution() {
    let scripted = Scripted { choice: Ok(("root".to_string(), None)), dependencies: Ok(None) };
    let solution = resolve(&scripted, "root".to_string(), NumberVersion(1));
    match solution {
        Err(PubGrubError::NoSolution(tree)) => {
            let mut found = Vec::new();
            leaves(&tree, &mut found);
            assert_eq!(found, vec!["no versions root".to_string()]);
        }
        _ => panic!("there is no solution"),
    }
}

#[test]
fn unknown_dependencies_of_the_root_have_no_solution() {
    let scripted = Scripted {
        choice: Ok(("root".to_string(), Some(NumberVersion(1)))),
        dependencies: Ok(None),
    };
    let solution = resolve(&scripted, "root".to_string(), NumberVersion(1));
    match solution {
        Err(PubGrubError::NoSolution(tree)) => {
            let mut found = Vec::new();
            leaves(&tree, &mut found);
            assert_eq!(found, vec!["unavailable root".to_string()]);
        }
        _ => panic!("there is no solution"),
    }
}

/// A small generator of numbers, the same at every run.
struct Numbers(u64);

impl Numbers {
    fn next(&mut self, bound: u32) -> u32 {
        self.0 = self.0.wrapping_mul(6364136223846793005).wrapping_add(1442695040888963407);
        ((self.0 >> 33) as u32) % bound
    }
}

type Table = Vec<(usize, u32, Vec<(usize, Range<NumberVersion>)>)>;

const NAMES: [&str; 5] = ["root", "a", "b", "c", "d"];

fn random_range(numbers: &mut Numbers) -> Range<NumberVersion> {
    match numbers.next(7) {
        0 => Range::any(),
        6 => Range::none(),
        1 => Range::exact(NumberVersion(1 + numbers.next(3))),
        2 => Range::higher_than(NumberVersion(1 + numbers.next(3))),
        3 => Range::strictly_lower_than(NumberVersion(1 + numbers.next(4))),
        4 => {
            let lo = 1 + numbers.next(3);
            between(lo, lo + 1 + numbers.next(2))
        }
        _ => between(1, 3).union(&Range::exact(NumberVersion(4))).negate(),
    }
}

fn random_table(numbers: &mut Numbers) -> Table {
    let mut table = Vec::new();
    for package in 0..NAMES.len() {
        for version in 1..4 {
            // the root has its version 1; others miss some versions
            if (package == 0 && version == 1) || (package != 0 && numbers.next(3) != 0) {
                let mut deps = Vec::new();
                for dep in 1..NAMES.len() {
                    if numbers.next(3) == 0 {
                        deps.push((dep, random_range(numbers)));
                    }
                }
                table.push((package, version, deps));
            }
        }
    }
    table
}

/// Whether the selection, a version or nothing for each package, holds the
/// root at version 1 and all that the selected versions depend on.
fn valid(table: &Table, selection: &[u32; 5]) -> bool {
    if selection[0] != 1 {
        return false;
    }
    for package in 0..NAMES.len() {
        if selection[package] == 0 {
            continue;
        }
        match table.iter().find(|(p, v, _)| *p == package && *v == selection[package]) {
            None => return false,
            Some((_, _, deps)) => {
                for (dep, range) in deps {
                    if selection[*dep] == 0 || !range.contains(&NumberVersion(selection[*dep])) {
                        return false;
                    }
                }
            }
        }
    }
    true
}

fn selected_in(selection: &[u32; 5], package: &str, range: &Range<NumberVersion>) -> bool {
    let place = NAMES.iter().position(|n| *n == package).expect("a known package");
    selection[place] != 0 && range.contains(&NumberVersion(selection[place]))
}

/// Whether the selection breaks one of the external incompatibilities at
/// the leaves of the tree.
fn breaks_a_leaf(tree: &DerivationTree<String, NumberVersion>, selection: &[u32; 5]) -> bool {
    match tree {
        DerivationTree::External(External::NotRoot(p, v)) => {
            !selected_in(selection, p, &Range::exact(*v))
        }
        DerivationTree::External(External::NoVersions(p, r)) => selected_in(selection, p, r),
        DerivationTree::External(External::UnavailableDependencies(p, r)) => {
            selected_in(selection, p, r)
        }
        DerivationTree::External(External::FromDependencyOf(p, r, d, dr)) => {
            selected_in(selection, p, r) && !selected_in(selection, d, dr)
        }
        DerivationTree::Derived(derived) => {
            breaks_a_leaf(&derived.cause1, selection) || breaks_a_leaf(&derived.cause2, selection)
        }
    }
}

/// Whether every selection with the root at version 1 breaks a leaf.
fn explains(tree: &DerivationTree<String, NumberVersion>) -> bool {
    let mut selection = [1u32, 0, 0, 0, 0];
    loop {
        if !breaks_a_leaf(tree, &selection) {
            return false;
        }
        let mut place = 1;
        loop {
            if place == selection.len() {
                return true;
            }
            if selection[place] < 4 {
                selection[place] += 1;
                break;
            }
            selection[place] = 0;
            place += 1;
        }
    }
}

fn some_selection_is_valid(table: &Table) -> bool {
    let mut selection = [0u32; 5];
    loop {
        if valid(table, &selection) {
            return true;
        }
        let mut place = 0;
        loop {
            if place == selection.len() {
                return false;
            }
            if selection[place] < 3 {
                selection[place] += 1;
                break;
            }
            selection[place] = 0;
            place += 1;
        }
    }
}

#[test]
fn solutions_agree_with_exhaustive_search() {
    let mut numbers = Numbers(2024);
    let mut solved = 0;
    let mut unsolvable = 0;
    for _ in 0..400 {
        let table = random_table(&mut numbers);
        let mut provider = provider();
        for (package, version, deps) in table.iter() {
            let deps = deps.iter().map(|(d, r)| (NAMES[*d], r.clone())).collect();
            add(&mut provider, NAMES[*package], *version, deps);
        }
        match resolve_within(&provider, "root".to_string(), NumberVersion(1), 100_000) {
            Ok(solution) => {
                let mut selection = [0u32; 5];
                for (package, version) in solution.iter() {
                    let place = NAMES.iter().position(|n| n == package).expect("a known package");
                    assert_eq!(selection[place], 0);
                    selection[place] = version.0;
                }
                assert!(valid(&table, &selection));
                solved += 1;
            }
            Err(PubGrubError::NoSolution(tree)) => {
                assert!(!some_selection_is_valid(&table));
                assert!(explains(&tree));
                unsolvable += 1;
            }
            Err(_) => panic!("the solver gave up"),
        }
    }
    assert_eq!(solved + unsolvable, 400);
    assert!(solved > 50);
    assert!(unsolvable > 50);
}

#[test]
fn the_derivation_tree_explains_the_failure() {
    let mut provider = provider();
    add(&mut provider, "root", 1, vec![("a", between(1, 2)), ("b", between(1, 2))]);
    add(&mut provider, "a", 1, vec![("b", between(2, 3))]);
    add(&mut provider, "b", 1, vec![]);
    add(&mut provider, "b", 2, vec![]);
    match resolve(&provider, "root".to_string(), NumberVersion(1)) {
        Err(PubGrubError::NoSolution(tree)) => {
            assert!(explains(&tree));
            // root 1 with a 1 and b 1 breaks the dependency of a on b
            assert!(breaks_a_leaf(&tree, &[1, 1, 1, 0, 0]));
            // a selection without the root at version 1 is not spoken of
            assert!(!breaks_a_leaf(&tree, &[0, 0, 0, 0, 0]));
        }
        _ => panic!("there is no solution"),
    }
}

#[test]
fn a_dependency_on_the_empty_set_forbids_the_version() {
    // a 2 depends on x in a range without versions: a 1 will do
    let mut provider = provider();
    add(&mut provider, "root", 1, vec![("a", between(1, 3))]);
    add(&mut provider, "a", 1, vec![]);
    add(&mut provider, "a", 2, vec![("x", Range::none())]);
    add(&mut provider, "x", 1, vec![]);
    match resolve(&provider, "root".to_string(), NumberVersion(1)) {
        Ok(solution) => assert_eq!(sorted(solution), expect(&[("a", 1), ("root", 1)])),
        Err(_) => panic!("a solution exists"),
    }
}

#[test]
fn a_root_that_depends_on_the_empty_set_has_no_solution() {
    let mut provider = provider();
    add(
        &mut provider,
        "root",
        1,
        vec![("d", between(1, 2)), ("c", Range::none()), ("root", between(1, 2))],
    );
    add(&mut provider, "d", 1, vec![]);
    match resolve(&provider, "root".to_string(), NumberVersion(1)) {
        Err(PubGrubError::NoSolution(tree)) => {
            let mut found = Vec::new();
            leaves(&tree, &mut found);
            assert_eq!(found, vec!["root depends on c".to_string()]);
            assert!(explains(&tree));
        }
        _ => panic!("there is no solution"),
    }
}

#[test]
fn a_package_that_depends_on_itself() {
    // a 1 depends on a in [1, 2), which it is itself
    let mut provider = provider();
    add(&mut provider, "root", 1, vec![("a", between(1, 2))]);
    add(&mut provider, "a", 1, vec![("b", Range::any()), ("a", between(1, 2))]);
    add(&mut provider, "b", 1, vec![]);
    match resolve(&provider, "root".to_string(), NumberVersion(1)) {
        Ok(solution) => assert_eq!(sorted(solution), expect(&[("a", 1), ("b", 1), ("root", 1)])),
        Err(_) => panic!("a solution exists"),
    }
    // a 2 depends on a in [1, 2), which it is not: a 1 will do
    let mut provider = OfflineDependencyProvider::new();
    add(&mut provider, "root", 1, vec![("a", between(1, 3))]);
    add(&mut provider, "a", 1, vec![]);
    add(&mut provider, "a", 2, vec![("a", between(1, 2))]);
    match resolve(&provider, "root".to_string(), NumberVersion(1)) {
        Ok(solution) => assert_eq!(sorted(solution), expect(&[("a", 1), ("root", 1)])),
        Err(_) => panic!("a solution exists"),
    }
    // a 1 depends on a in [2, 3): no version of a is left
    let mut provider = OfflineDependencyProvider::new();
    add(&mut provider, "root", 1, vec![("a", between(1, 2))]);
    add(&mut provider, "a", 1, vec![("a", between(2, 3))]);
    assert!(matches!(
        resolve(&provider, "root".to_string(), NumberVersion(1)),
        Err(PubGrubError::NoSolution(_))
    ));
}

#[test]
fn gives_up_at_a_step_limit_of_one() {
    let mut provider = provider();
    add(&mut provider, "root", 1, vec![]);
    let solution = resolve_within(&provider, "root".to_string(), NumberVersion(1), 1);
    assert!(matches!(solution, Err(PubGrubError::Failure(Failure::StepLimit))));
    let solution = resolve_within(&provider, "root".to_string(), NumberVersion(1), 2);
    match solution {
        Ok(solution) => assert_eq!(sorted(solution), expect(&[("root", 1)])),
        Err(_) => panic!("two rounds are enough"),
    }
}

#[test]
fn two_dependencies_on_the_same_package() {
    let mut provider = provider();
    add(&mut provider, "root", 1, vec![("d", between(1, 3)), ("d", between(2, 4))]);
    add(&mut provider, "d", 1, vec![]);
    add(&mut provider, "d", 2, vec![]);
    add(&mut provider, "d", 3, vec![]);
    match resolve(&provider, "root".to_string(), NumberVersion(1)) {
        Ok(solution) => assert_eq!(sorted(solution), expect(&[("d", 2), ("root", 1)])),
        Err(_) => panic!("a solution exists"),
    }
    let mut provider = OfflineDependencyProvider::new();
    add(&mut provider, "root", 1, vec![("d", between(1, 2)), ("d", between(2, 3))]);
    add(&mut provider, "d", 1, vec![]);
    add(&mut provider, "d", 2, vec![]);
    assert!(matches!(
        resolve(&provider, "root".to_string(), NumberVersion(1)),
        Err(PubGrubError::NoSolution(_))
    ));
}
