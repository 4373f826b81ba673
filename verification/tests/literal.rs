use pumpkin_solver::assignments::Assignments;
use pumpkin_solver::assignments::EmptyDomain;
use pumpkin_solver::literal::Literal;
use pumpkin_solver::predicate::Predicate;
use pumpkin_solver::reason::Reason;

fn setup() -> (Assignments, Literal) {
    let mut assignments = Assignments::new();
    let x = assignments.grow(0, 10);
    (assignments, Literal::new(Predicate::lower_bound(x, 4)))
}

#[test]
fn an_unassigned_literal_has_both_values() {
    let (assignments, literal) = setup();
    assert_eq!(literal.lower_bound(&assignments), 0);
    assert_eq!(literal.upper_bound(&assignments), 1);
    assert!(literal.contains(&assignments, 0));
    assert!(literal.contains(&assignments, 1));
}

#[test]
fn a_true_literal_has_the_value_one() {
    let (mut assignments, literal) = setup();
    literal
        .set_lower_bound(&mut assignments, 1, Reason::RootLevel)
        .expect("not empty");
    assert_eq!(assignments.get_lower_bound(literal.get_domain()), 4);
    assert_eq!(literal.lower_bound(&assignments), 1);
    assert_eq!(literal.upper_bound(&assignments), 1);
    assert!(!literal.contains(&assignments, 0));
    assert!(literal.contains(&assignments, 1));
    assert_eq!(
        literal.set_upper_bound(&mut assignments, 0, Reason::RootLevel),
        Err(EmptyDomain)
    );
}

#[test]
fn a_false_literal_has_the_value_zero() {
    let (mut assignments, literal) = setup();
    literal
        .remove(&mut assignments, 1, Reason::RootLevel)
        .expect("not empty");
    assert_eq!(assignments.get_upper_bound(literal.get_domain()), 3);
    assert_eq!(literal.lower_bound(&assignments), 0);
    assert_eq!(literal.upper_bound(&assignments), 0);
    assert!(literal.contains(&assignments, 0));
    assert!(!literal.contains(&assignments, 1));
    assert_eq!(
        literal.remove(&mut assignments, 0, Reason::RootLevel),
        Err(EmptyDomain)
    );
}

#[test]
fn trivial_bounds_change_nothing() {
    let (mut assignments, literal) = setup();
    literal
        .set_lower_bound(&mut assignments, 0, Reason::RootLevel)
        .expect("nothing to do");
    literal
        .set_upper_bound(&mut assignments, 1, Reason::RootLevel)
        .expect("nothing to do");
    assert_eq!(assignments.num_trail_entries(), 0);
}

#[test]
fn the_predicates_of_a_literal() {
    let (_, literal) = setup();
    let x = literal.get_domain();
    let truth = Predicate::lower_bound(x, 4);
    let falsity = Predicate::upper_bound(x, 3);
    let trivial = Predicate::lower_bound(x, i32::MIN);

    assert_eq!(literal.get_predicate(), truth);
    assert_eq!(literal.negate().get_predicate(), falsity);
    assert_eq!(Predicate::from(literal), truth);

    assert_eq!(literal.lower_bound_predicate(0), trivial);
    assert_eq!(literal.lower_bound_predicate(1), truth);
    assert_eq!(literal.upper_bound_predicate(0), falsity);
    assert_eq!(literal.upper_bound_predicate(1), trivial);
    assert_eq!(literal.equality_predicate(0), falsity);
    assert_eq!(literal.equality_predicate(1), truth);
    assert_eq!(literal.disequality_predicate(0), truth);
    assert_eq!(literal.disequality_predicate(1), falsity);
}
