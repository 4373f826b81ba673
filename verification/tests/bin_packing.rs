use pumpkin_solver::conjunction::PropositionalConjunction;
use pumpkin_solver::constraints::bin_packing;
use pumpkin_solver::engine::test_solver::TestSolver;
use pumpkin_solver::predicate::Predicate;
use pumpkin_solver::propagators::nosum::nosum;

fn bounds(solver: &TestSolver, var: pumpkin_solver::predicate::DomainId) -> (i32, i32) {
    (solver.lower_bound(var), solver.upper_bound(var))
}

#[test]
fn load_maintenance() {
    let mut solver = TestSolver::default();

    let load1 = solver.new_variable(0, 10);
    let load2 = solver.new_variable(0, 10);
    let load3 = solver.new_variable(0, 10);

    let item1 = solver.new_variable(0, 0);
    let item2 = solver.new_variable(0, 0);
    let item3 = solver.new_variable(1, 1);
    let item4 = solver.new_variable(1, 2);

    let sizes = vec![2, 3, 4, 5];

    let _ = solver
        .new_propagator(bin_packing(
            vec![load1, load2, load3],
            vec![item1, item2, item3, item4],
            sizes,
        ))
        .map(|_| ())
        .expect("no empty domain");

    assert_eq!(bounds(&solver, load1), (5, 5));
    assert_eq!(bounds(&solver, load2), (4, 9));
    assert_eq!(bounds(&solver, load3), (0, 5));

    let reason_lower_1 = solver
        .get_reason_int(Predicate::lower_bound(load1, 5))
        .expect("a reason");
    assert_eq!(
        &PropositionalConjunction::new(vec![Predicate::equal(item1, 0), Predicate::equal(item2, 0)]),
        reason_lower_1
    );

    let reason_upper_1 = solver
        .get_reason_int(Predicate::upper_bound(load1, 5))
        .expect("a reason");
    assert_eq!(
        &PropositionalConjunction::new(vec![
            Predicate::equal(item1, 0),
            Predicate::equal(item2, 0),
            Predicate::not_equal(item3, 0),
            Predicate::not_equal(item4, 0)
        ]),
        reason_upper_1
    );

    let reason_lower_2 = solver
        .get_reason_int(Predicate::lower_bound(load2, 4))
        .expect("a reason");
    assert_eq!(
        &PropositionalConjunction::new(vec![Predicate::equal(item3, 1)]),
        reason_lower_2
    );

    let reason_upper_2 = solver
        .get_reason_int(Predicate::upper_bound(load2, 9))
        .expect("a reason");
    assert_eq!(
        &PropositionalConjunction::new(vec![
            Predicate::equal(item3, 1),
            Predicate::not_equal(item1, 1),
            Predicate::not_equal(item2, 1)
        ]),
        reason_upper_2
    );

    let reason_upper_3 = solver
        .get_reason_int(Predicate::upper_bound(load3, 5))
        .expect("a reason");
    assert_eq!(
        &PropositionalConjunction::new(vec![
            Predicate::not_equal(item1, 2),
            Predicate::not_equal(item2, 2),
            Predicate::not_equal(item3, 2)
        ]),
        reason_upper_3
    );
}

#[test]
fn load_and_size_coherence() {
    let mut solver = TestSolver::default();

    let load1 = solver.new_variable(4, 5);
    let load2 = solver.new_variable(11, 13);
    let load3 = solver.new_variable(3, 9);

    let item1 = solver.new_variable(0, 2);
    let item2 = solver.new_variable(0, 2);
    let item3 = solver.new_variable(0, 2);
    let item4 = solver.new_variable(0, 2);

    let sizes = vec![4, 5, 6, 7];

    let _ = solver
        .new_propagator(bin_packing(
            vec![load1, load2, load3],
            vec![item1, item2, item3, item4],
            sizes,
        ))
        .map(|_| ())
        .expect("no empty domain");

    assert_eq!(bounds(&solver, load1), (4, 5));
    assert_eq!(bounds(&solver, load2), (11, 13));
    assert_eq!(bounds(&solver, load3), (4, 7)); // only one with changed bounds

    let reason_lower = solver
        .get_reason_int(Predicate::lower_bound(load3, 4))
        .expect("a reason");
    assert_eq!(
        &PropositionalConjunction::new(vec![
            Predicate::upper_bound(load1, 5),
            Predicate::upper_bound(load2, 13)
        ]),
        reason_lower
    );

    let reason_upper = solver
        .get_reason_int(Predicate::upper_bound(load3, 7))
        .expect("a reason");
    assert_eq!(
        &PropositionalConjunction::new(vec![
            Predicate::lower_bound(load1, 4),
            Predicate::lower_bound(load2, 11)
        ]),
        reason_upper
    );
}

#[test]
fn elimination_and_commitment() {
    let mut solver = TestSolver::default();

    let load1 = solver.new_variable(0, 2);
    let load2 = solver.new_variable(0, 100);
    let load3 = solver.new_variable(8, 10);
    let load4 = solver.new_variable(0, 100);

    let item1 = solver.new_variable(0, 3);
    let item2 = solver.new_variable(0, 3);
    let item3 = solver.new_variable(0, 3);
    let item4 = solver.new_variable(0, 3);
    let item5 = solver.new_variable(0, 3);

    let sizes = vec![1, 2, 3, 5, 50];

    let _ = solver
        .new_propagator(bin_packing(
            vec![load1, load2, load3, load4],
            vec![item1, item2, item3, item4, item5],
            sizes,
        ))
        .map(|_| ())
        .expect("no empty domain");

    assert_eq!(bounds(&solver, item1), (0, 3));
    assert_eq!(bounds(&solver, item2), (0, 3));
    assert_eq!(bounds(&solver, item3), (1, 3));
    assert_eq!(bounds(&solver, item4), (2, 2));

    let reason3 = solver
        .get_reason_int(Predicate::not_equal(item3, 0))
        .expect("a reason");
    assert_eq!(
        &PropositionalConjunction::new(vec![Predicate::upper_bound(load1, 2)]),
        reason3
    );

    let reason4 = solver
        .get_reason_int(Predicate::lower_bound(item4, 2))
        .expect("a reason");
    let reason4_alt = solver
        .get_reason_int(Predicate::upper_bound(item4, 2))
        .expect("a reason");
    assert_eq!(reason4_alt, reason4);
    assert_eq!(
        &PropositionalConjunction::new(vec![
            Predicate::lower_bound(load3, 8),
            Predicate::not_equal(item5, 2)
        ]),
        reason4
    );
}

#[test]
fn a_single_bin_takes_the_sum_of_all_sizes() {
    let mut solver = TestSolver::default();
    let load = solver.new_variable(0, 100);
    let item1 = solver.new_variable(0, 0);
    let item2 = solver.new_variable(0, 0);
    let item3 = solver.new_variable(0, 0);

    let _ = solver
        .new_propagator(bin_packing(vec![load], vec![item1, item2, item3], vec![7, 1, 12]))
        .map(|_| ())
        .expect("no empty domain");

    assert_eq!(bounds(&solver, load), (20, 20));
}

#[test]
fn a_load_that_no_subset_reaches_is_a_conflict() {
    let mut solver = TestSolver::default();
    let load1 = solver.new_variable(4, 5);
    let load2 = solver.new_variable(0, 9);
    let item1 = solver.new_variable(0, 1);
    let item2 = solver.new_variable(0, 1);
    let item3 = solver.new_variable(0, 1);

    let result = solver
        .new_propagator(bin_packing(
            vec![load1, load2],
            vec![item1, item2, item3],
            vec![3, 3, 3],
        ))
        .map(|_| ());

    assert!(result.is_err());
}

#[test]
fn nosum_finds_no_gap_where_a_subset_fits() {
    // 6 + 3 = 9 lies in the interval, so nothing can be pruned.
    assert_eq!(nosum(&[8, 6, 4, 3], 9, 10), (false, 14, 7));
}

#[test]
fn nosum_prunes_between_two_subset_sums() {
    assert_eq!(nosum(&[3, 3, 3], 4, 5), (true, 3, 6));
    assert_eq!(nosum(&[8, 6, 4, 3], 1, 2), (true, 0, 3));
    assert_eq!(nosum(&[8, 6, 4, 3], 19, 20), (true, 18, 21));
}

#[test]
fn nosum_is_guarded_at_both_ends() {
    assert_eq!(nosum(&[8, 6, 4, 3], 0, 10), (false, 0, 0));
    assert_eq!(nosum(&[8, 6, 4, 3], -3, -1), (false, 0, 0));
    assert_eq!(nosum(&[8, 6, 4, 3], 9, 21), (false, 0, 0));
    assert_eq!(nosum(&[8, 6, 4, 3], 9, 30), (false, 0, 0));
    assert_eq!(nosum(&[], 0, 0), (false, 0, 0));
}

#[test]
fn nosum_may_miss_a_gap() {
    // No subset of 5, 3, 3 sums to 4, but no split of the test shows it.
    assert_eq!(nosum(&[5, 3, 3], 4, 4).0, false);
}

#[test]
fn nosum_answers_at_its_guard_whatever_the_sizes_and_bounds_are() {
    // A lower end that is not positive, with an upper end below it and sizes out of order.
    assert_eq!(nosum(&[1, 5, 2], 0, -3), (false, 0, 0));
    assert_eq!(nosum(&[], -1, 7), (false, 0, 0));
    // An upper end that is not below the sum, with a lower end above it.
    assert_eq!(nosum(&[3, 1], 9, 4), (false, 0, 0));
    assert_eq!(nosum(&[1, 3], 2, 4), (false, 0, 0));
}

#[test]
fn a_run_at_a_fixed_point_changes_nothing() {
    let mut solver = TestSolver::default();
    let load1 = solver.new_variable(4, 5);
    let load2 = solver.new_variable(11, 13);
    let load3 = solver.new_variable(3, 9);
    let items: Vec<_> = (0..4).map(|_| solver.new_variable(0, 2)).collect();
    let mut propagator = solver
        .new_propagator(bin_packing(
            vec![load1, load2, load3],
            items.clone(),
            vec![4, 5, 6, 7],
        ))
        .expect("no conflict");
    // Run until nothing changes.
    loop {
        let entries = solver.assignments().num_trail_entries();
        solver.propagate(&mut propagator).expect("no conflict");
        if solver.assignments().num_trail_entries() == entries {
            break;
        }
    }
    assert_eq!(bounds(&solver, load3), (4, 7));
    let entries = solver.assignments().num_trail_entries();
    solver.propagate(&mut propagator).expect("no conflict");
    assert_eq!(solver.assignments().num_trail_entries(), entries);
}
