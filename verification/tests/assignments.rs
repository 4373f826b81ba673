use pumpkin_solver::assignments::Assignments;
use pumpkin_solver::assignments::EmptyDomain;
use pumpkin_solver::conjunction::PropositionalConjunction;
use pumpkin_solver::predicate::DomainId;
use pumpkin_solver::predicate::Predicate;
use pumpkin_solver::reason::Reason;

fn domain(assignments: &Assignments, x: DomainId, from: i32, to: i32) -> Vec<i32> {
    (from..=to)
        .filter(|v| assignments.is_value_in_domain(x, *v))
        .collect()
}

#[test]
fn a_bound_skips_removed_values_and_records_the_bound_that_it_reached() {
    let mut assignments = Assignments::new();
    let x = assignments.grow(0, 10);
    assignments.remove(x, 5, Reason::RootLevel).expect("not empty");
    assignments.remove(x, 6, Reason::RootLevel).expect("not empty");
    assert_eq!(assignments.num_trail_entries(), 2);
    assert!(assignments.get_trail_entry(0).added_hole);

    assignments
        .set_lower_bound(x, 5, Reason::RootLevel)
        .expect("not empty");

    assert_eq!(assignments.get_lower_bound(x), 7);
    assert_eq!(assignments.num_trail_entries(), 3);
    let entry = assignments.get_trail_entry(2);
    assert_eq!(entry.predicate, Predicate::lower_bound(x, 7));
    assert_eq!((entry.old_lower_bound, entry.old_upper_bound), (0, 10));
    assert_eq!(domain(&assignments, x, -2, 12), vec![7, 8, 9, 10]);
}

#[test]
fn raising_a_bound_gives_one_entry() {
    let mut assignments = Assignments::new();
    let x = assignments.grow(3, 20);
    assignments
        .set_lower_bound(x, 7, Reason::RootLevel)
        .expect("not empty");
    assert_eq!(assignments.num_trail_entries(), 1);
    assert_eq!(
        assignments.get_trail_entry(0).predicate,
        Predicate::lower_bound(x, 7)
    );
}

#[test]
fn what_already_holds_leaves_no_entry() {
    let mut assignments = Assignments::new();
    let x = assignments.grow(3, 20);
    assignments.set_lower_bound(x, 3, Reason::RootLevel).expect("holds");
    assignments.set_lower_bound(x, -4, Reason::RootLevel).expect("holds");
    assignments.set_upper_bound(x, 20, Reason::RootLevel).expect("holds");
    assignments.remove(x, 21, Reason::RootLevel).expect("holds");
    assert_eq!(assignments.num_trail_entries(), 0);
}

#[test]
fn an_emptied_domain_is_an_error_and_changes_nothing() {
    let mut assignments = Assignments::new();
    let x = assignments.grow(3, 5);
    assert_eq!(
        assignments.set_lower_bound(x, 6, Reason::RootLevel),
        Err(EmptyDomain)
    );
    assert_eq!(
        assignments.set_upper_bound(x, 2, Reason::RootLevel),
        Err(EmptyDomain)
    );
    assert_eq!(assignments.assign(x, 9, Reason::RootLevel), Err(EmptyDomain));
    assignments.assign(x, 4, Reason::RootLevel).expect("not empty");
    assert_eq!(assignments.remove(x, 4, Reason::RootLevel), Err(EmptyDomain));
    assert_eq!(assignments.num_trail_entries(), 1);
    assert_eq!(
        (assignments.get_lower_bound(x), assignments.get_upper_bound(x)),
        (4, 4)
    );
}

#[test]
fn removing_a_bound_moves_the_bound() {
    let mut assignments = Assignments::new();
    let x = assignments.grow(0, 4);
    assignments.remove(x, 1, Reason::RootLevel).expect("not empty");
    assignments.remove(x, 0, Reason::RootLevel).expect("not empty");
    assert_eq!(assignments.get_lower_bound(x), 2);
    assignments.remove(x, 4, Reason::RootLevel).expect("not empty");
    assert_eq!(assignments.get_upper_bound(x), 3);
    assert_eq!(
        assignments.get_trail_entry(1).predicate,
        Predicate::not_equal(x, 0)
    );
    assert!(!assignments.get_trail_entry(1).added_hole);
}

#[test]
fn the_levels_on_the_trail_never_decrease() {
    let mut assignments = Assignments::new();
    let x = assignments.grow(0, 10);
    let y = assignments.grow(0, 10);
    assignments.set_lower_bound(x, 1, Reason::RootLevel).expect("not empty");
    assignments.increase_decision_level();
    assignments.set_lower_bound(y, 2, Reason::Decision).expect("not empty");
    assignments.set_lower_bound(x, 3, Reason::Decision).expect("not empty");
    assignments.increase_decision_level();
    assignments.increase_decision_level();
    assignments.set_upper_bound(y, 8, Reason::Decision).expect("not empty");

    let levels: Vec<usize> = (0..assignments.num_trail_entries())
        .map(|i| assignments.get_trail_entry(i).level)
        .collect();
    assert_eq!(levels, vec![0, 1, 1, 3]);
    assert_eq!(assignments.get_decision_level(), 3);
}

#[test]
fn a_backtrack_restores_the_domains_exactly() {
    let mut assignments = Assignments::new();
    let x = assignments.grow(0, 10);
    let y = assignments.grow(-5, 5);
    assignments.remove(x, 4, Reason::RootLevel).expect("not empty");
    assignments.increase_decision_level();
    assignments.set_lower_bound(x, 3, Reason::Decision).expect("not empty");
    assignments.remove(x, 6, Reason::Decision).expect("not empty");
    assignments.remove(y, 5, Reason::Decision).expect("not empty");
    assignments.increase_decision_level();
    assignments.assign(x, 7, Reason::Decision).expect("not empty");
    assignments.set_upper_bound(y, -1, Reason::Decision).expect("not empty");

    assignments.backtrack(1);
    assert_eq!(assignments.get_decision_level(), 1);
    assert_eq!(assignments.num_trail_entries(), 4);
    assert_eq!(domain(&assignments, x, -1, 11), vec![3, 5, 7, 8, 9, 10]);
    assert_eq!(domain(&assignments, y, -6, 6), vec![-5, -4, -3, -2, -1, 0, 1, 2, 3, 4]);

    assignments.backtrack(0);
    assert_eq!(assignments.get_decision_level(), 0);
    assert_eq!(assignments.num_trail_entries(), 1);
    assert_eq!(domain(&assignments, x, -1, 11), vec![0, 1, 2, 3, 5, 6, 7, 8, 9, 10]);
    assert_eq!(domain(&assignments, y, -6, 6), (-5..=5).collect::<Vec<i32>>());
}

#[test]
fn a_backtrack_undoes_a_decision() {
    let mut assignments = Assignments::new();
    let x = assignments.grow(0, 10);
    assignments.remove(x, 4, Reason::RootLevel).expect("not empty");
    let before = (
        assignments.get_lower_bound(x),
        assignments.get_upper_bound(x),
        domain(&assignments, x, -1, 11),
        assignments.num_trail_entries(),
        assignments.get_decision_level(),
    );

    assignments.increase_decision_level();
    assignments.assign(x, 8, Reason::Decision).expect("not empty");
    assignments.backtrack(0);

    let after = (
        assignments.get_lower_bound(x),
        assignments.get_upper_bound(x),
        domain(&assignments, x, -1, 11),
        assignments.num_trail_entries(),
        assignments.get_decision_level(),
    );
    assert_eq!(before, after);
}

#[test]
fn predicates_are_evaluated_on_the_domain() {
    let mut assignments = Assignments::new();
    let x = assignments.grow(0, 10);
    assignments.set_lower_bound(x, 3, Reason::RootLevel).expect("not empty");
    assignments.remove(x, 5, Reason::RootLevel).expect("not empty");

    assert_eq!(assignments.evaluate_predicate(Predicate::lower_bound(x, 3)), Some(true));
    assert_eq!(assignments.evaluate_predicate(Predicate::lower_bound(x, 4)), None);
    assert_eq!(assignments.evaluate_predicate(Predicate::lower_bound(x, 11)), Some(false));
    assert_eq!(assignments.evaluate_predicate(Predicate::upper_bound(x, 2)), Some(false));
    assert_eq!(assignments.evaluate_predicate(Predicate::not_equal(x, 5)), Some(true));
    assert_eq!(assignments.evaluate_predicate(Predicate::not_equal(x, 2)), Some(true));
    assert_eq!(assignments.evaluate_predicate(Predicate::not_equal(x, 6)), None);
    assert_eq!(assignments.evaluate_predicate(Predicate::equal(x, 5)), Some(false));
    assert_eq!(assignments.evaluate_predicate(Predicate::equal(x, 6)), None);
}

#[test]
fn the_position_of_a_predicate_is_the_entry_that_made_it_true() {
    let mut assignments = Assignments::new();
    let x = assignments.grow(0, 10);
    let y = assignments.grow(0, 10);
    assignments.set_lower_bound(x, 2, Reason::RootLevel).expect("not empty");
    assignments.increase_decision_level();
    assignments.set_lower_bound(y, 1, Reason::Decision).expect("not empty");
    assignments
        .set_lower_bound(
            x,
            6,
            Reason::Eager(PropositionalConjunction::new(vec![Predicate::lower_bound(y, 1)])),
        )
        .expect("not empty");
    assignments.remove(x, 8, Reason::Decision).expect("not empty");

    assert_eq!(assignments.get_trail_position(Predicate::lower_bound(x, 1)), Some(0));
    assert_eq!(assignments.get_trail_position(Predicate::lower_bound(x, 0)), None);
    assert_eq!(assignments.get_trail_position(Predicate::lower_bound(x, 4)), Some(2));
    assert_eq!(assignments.get_trail_position(Predicate::not_equal(x, 5)), Some(2));
    assert_eq!(assignments.get_trail_position(Predicate::not_equal(x, 8)), Some(3));
    assert_eq!(assignments.get_trail_position(Predicate::lower_bound(x, 7)), None);

    assert_eq!(
        assignments.get_decision_level_for_predicate(Predicate::lower_bound(x, 0)),
        Some(0)
    );
    assert_eq!(
        assignments.get_decision_level_for_predicate(Predicate::lower_bound(x, 2)),
        Some(0)
    );
    assert_eq!(
        assignments.get_decision_level_for_predicate(Predicate::lower_bound(x, 5)),
        Some(1)
    );
    assert_eq!(
        assignments.get_decision_level_for_predicate(Predicate::lower_bound(x, 7)),
        None
    );

    assert!(assignments.is_decision_predicate(Predicate::lower_bound(y, 1)));
    assert!(!assignments.is_decision_predicate(Predicate::lower_bound(x, 6)));
    assert_eq!(
        assignments.get_propagation_reason(Predicate::lower_bound(x, 6)),
        Some(vec![Predicate::lower_bound(y, 1)])
    );
    // A consequence of an entry is explained by the predicate of the entry.
    assert_eq!(
        assignments.get_propagation_reason(Predicate::lower_bound(x, 4)),
        Some(vec![Predicate::lower_bound(x, 6)])
    );
    assert_eq!(assignments.get_propagation_reason(Predicate::lower_bound(y, 1)), None);
}

#[test]
fn negation_is_the_complement() {
    let x = DomainId::new(3);
    assert_eq!(Predicate::lower_bound(x, 5).negate(), Predicate::upper_bound(x, 4));
    assert_eq!(Predicate::upper_bound(x, 5).negate(), Predicate::lower_bound(x, 6));
    assert_eq!(Predicate::equal(x, 5).negate(), Predicate::not_equal(x, 5));
    assert_eq!(Predicate::not_equal(x, 5).negate(), Predicate::equal(x, 5));
    assert_eq!(
        Predicate::lower_bound(x, i32::MIN).negate(),
        Predicate::upper_bound(x, i32::MIN)
    );
    assert_eq!(
        Predicate::upper_bound(x, i32::MAX).negate(),
        Predicate::lower_bound(x, i32::MAX)
    );
    assert_eq!(Predicate::lower_bound(x, 5).get_domain(), x);
    assert_eq!(Predicate::not_equal(x, -7).get_right_hand_side(), -7);
}

#[test]
fn conjunctions_are_compared_as_sets() {
    let x = DomainId::new(0);
    let a = PropositionalConjunction::new(vec![
        Predicate::lower_bound(x, 1),
        Predicate::equal(x, 2),
        Predicate::lower_bound(x, 1),
    ]);
    let b = PropositionalConjunction::new(vec![Predicate::equal(x, 2), Predicate::lower_bound(x, 1)]);
    let c = PropositionalConjunction::new(vec![Predicate::equal(x, 2)]);
    assert_eq!(a, b);
    assert_ne!(a, c);
    assert_ne!(c, a);
    assert_eq!(PropositionalConjunction::empty(), PropositionalConjunction::new(vec![]));

    let mut d = c.clone();
    d.add(Predicate::lower_bound(x, 1));
    assert_eq!(d, a);
    assert_eq!(d.len(), 2);
    assert_eq!(d.get(1), Predicate::lower_bound(x, 1));
    assert!(d.contains(Predicate::equal(x, 2)));
    assert!(!c.is_empty());
}
