use pubgrub::range::Range;
use pubgrub::term::{Relation, Term};
use pubgrub::version::NumberVersion;

type T = Term<NumberVersion>;

fn v(n: u32) -> NumberVersion {
    NumberVersion(n)
}

fn between(lo: u32, hi: u32) -> Range<NumberVersion> {
    Range::between(v(lo), v(hi))
}

fn pos(lo: u32, hi: u32) -> T {
    Term::Positive(between(lo, hi))
}

fn neg(lo: u32, hi: u32) -> T {
    Term::Negative(between(lo, hi))
}

fn terms() -> Vec<T> {
    vec![
        Term::any(),
        Term::empty(),
        Term::exact(v(3)),
        pos(1, 5),
        pos(2, 3),
        pos(3, 8),
        pos(7, 9),
        neg(1, 5),
        neg(2, 3),
        neg(0, 9),
        neg(7, 9),
        Term::Positive(Range::any()),
        Term::Negative(Range::any()),
    ]
}

#[test]
fn any_and_empty() {
    assert_eq!(T::any(), Term::Negative(Range::none()));
    assert_eq!(T::empty(), Term::Positive(Range::none()));
    assert_eq!(T::exact(v(3)), Term::Positive(Range::exact(v(3))));
    assert!(!T::any().is_positive());
    assert!(T::empty().is_positive());
    assert_ne!(Term::Positive(Range::<NumberVersion>::any()), T::any());
}

#[test]
fn negate_swaps_the_tag() {
    assert_eq!(pos(1, 5).negate(), neg(1, 5));
    assert_eq!(neg(1, 5).negate(), pos(1, 5));
    for term in terms() {
        assert_eq!(term.negate().negate(), term);
    }
}

#[test]
fn term_contains() {
    assert!(pos(1, 5).contains(&v(1)));
    assert!(!pos(1, 5).contains(&v(5)));
    assert!(!neg(1, 5).contains(&v(1)));
    assert!(neg(1, 5).contains(&v(5)));
    for term in terms() {
        for n in 0..10 {
            assert_ne!(term.contains(&v(n)), term.negate().contains(&v(n)));
        }
    }
}

#[test]
fn intersection_of_terms() {
    assert_eq!(pos(1, 5).intersection(&pos(3, 8)), pos(3, 5));
    assert_eq!(neg(1, 3).intersection(&neg(2, 8)), neg(1, 8));
    assert_eq!(pos(1, 5).intersection(&neg(3, 8)), pos(1, 3));
    assert_eq!(neg(3, 8).intersection(&pos(1, 5)), pos(1, 3));
    for t1 in terms() {
        assert_eq!(T::any().intersection(&t1), t1);
        for t2 in terms() {
            assert_eq!(t1.intersection(&t2), t2.intersection(&t1));
            for n in 0..10 {
                assert_eq!(
                    t1.intersection(&t2).contains(&v(n)),
                    t1.contains(&v(n)) && t2.contains(&v(n))
                );
            }
        }
    }
}

#[test]
fn union_of_terms() {
    assert_eq!(pos(1, 5).union(&pos(3, 8)), pos(1, 8));
    assert_eq!(neg(1, 5).union(&neg(3, 8)), neg(3, 5));
    assert_eq!(pos(1, 5).union(&neg(3, 8)), neg(5, 8));
    assert_eq!(neg(3, 8).union(&pos(1, 5)), neg(5, 8));
    for t1 in terms() {
        assert_eq!(t1.negate().union(&t1), T::any());
        for t2 in terms() {
            for n in 0..10 {
                assert_eq!(t1.union(&t2).contains(&v(n)), t1.contains(&v(n)) || t2.contains(&v(n)));
            }
        }
    }
}

#[test]
fn subset_of_terms() {
    assert!(pos(2, 3).subset_of(&pos(1, 5)));
    assert!(!pos(1, 5).subset_of(&pos(2, 3)));
    assert!(pos(1, 5).subset_of(&neg(7, 9)));
    assert!(!pos(1, 8).subset_of(&neg(7, 9)));
    assert!(neg(0, 9).subset_of(&neg(1, 5)));
    assert!(!neg(1, 5).subset_of(&neg(0, 9)));
    // a negative term is never a subset of a positive one
    assert!(!neg(1, 5).subset_of(&Term::Positive(Range::any())));
    for term in terms() {
        assert!(term.subset_of(&term));
        assert!(term.subset_of(&T::any()));
        assert!(T::empty().subset_of(&term) || !term.is_positive());
    }
}

#[test]
fn relation_of_a_positive_term_with_a_positive_one() {
    assert_eq!(pos(1, 5).relation_with(&pos(2, 3)), Relation::Satisfied);
    assert_eq!(pos(1, 5).relation_with(&pos(1, 5)), Relation::Satisfied);
    assert_eq!(pos(1, 5).relation_with(&pos(7, 9)), Relation::Contradicted);
    assert_eq!(pos(1, 5).relation_with(&pos(5, 9)), Relation::Contradicted);
    assert_eq!(pos(1, 5).relation_with(&pos(3, 8)), Relation::Inconclusive);
    // nothing satisfies everything
    assert_eq!(pos(1, 5).relation_with(&T::empty()), Relation::Satisfied);
}

#[test]
fn relation_of_a_positive_term_with_a_negative_one() {
    assert_eq!(pos(1, 5).relation_with(&neg(0, 9)), Relation::Contradicted);
    assert_eq!(pos(1, 5).relation_with(&neg(1, 5)), Relation::Contradicted);
    assert_eq!(pos(1, 5).relation_with(&neg(7, 9)), Relation::Inconclusive);
    assert_eq!(pos(1, 5).relation_with(&neg(3, 8)), Relation::Inconclusive);
    assert_eq!(pos(1, 5).relation_with(&T::any()), Relation::Inconclusive);
    assert_eq!(
        Term::Positive(Range::any()).relation_with(&neg(3, 8)),
        Relation::Inconclusive
    );
}

#[test]
fn relation_of_a_negative_term_with_a_positive_one() {
    assert_eq!(neg(1, 5).relation_with(&pos(7, 9)), Relation::Satisfied);
    assert_eq!(neg(1, 5).relation_with(&pos(5, 9)), Relation::Satisfied);
    assert_eq!(neg(1, 5).relation_with(&pos(2, 3)), Relation::Contradicted);
    assert_eq!(neg(1, 5).relation_with(&pos(1, 5)), Relation::Contradicted);
    assert_eq!(neg(1, 5).relation_with(&pos(3, 8)), Relation::Inconclusive);
    assert_eq!(neg(1, 5).relation_with(&T::empty()), Relation::Satisfied);
}

#[test]
fn relation_of_a_negative_term_with_a_negative_one() {
    assert_eq!(neg(1, 5).relation_with(&neg(0, 9)), Relation::Satisfied);
    assert_eq!(neg(1, 5).relation_with(&neg(1, 5)), Relation::Satisfied);
    assert_eq!(neg(1, 5).relation_with(&neg(2, 3)), Relation::Inconclusive);
    assert_eq!(neg(1, 5).relation_with(&neg(7, 9)), Relation::Inconclusive);
    assert_eq!(neg(1, 5).relation_with(&T::any()), Relation::Inconclusive);
    assert_eq!(T::any().relation_with(&T::any()), Relation::Satisfied);
}

#[test]
fn relation_agrees_with_intersection() {
    for t1 in terms() {
        for t2 in terms() {
            let full = t1.intersection(&t2);
            let expected = if full == t2 {
                Relation::Satisfied
            } else if full == T::empty() {
                Relation::Contradicted
            } else {
                Relation::Inconclusive
            };
            assert_eq!(t1.relation_with(&t2), expected);
            assert_eq!(t2.subset_of(&t1), t1.relation_with(&t2) == Relation::Satisfied);
        }
    }
}

#[test]
fn terms_can_be_copied() {
    for term in terms() {
        assert_eq!(term.clone(), term);
    }
}
