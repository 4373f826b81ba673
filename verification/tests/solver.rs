use pumpkin_solver::engine::solver::Learned;
use pumpkin_solver::conflict_analysis::learned_nogood::LearnedNogood;
use pumpkin_solver::propagation::propagator::Propagator;
use pumpkin_solver::reason::Reason;
use pumpkin_solver::identifiers::PropagatorId;
use pumpkin_solver::propagation::contexts::PropagationContextMut;
use pumpkin_solver::assignments::Assignments;
use pumpkin_solver::branching::Brancher;
use pumpkin_solver::conjunction::PropositionalConjunction;
use pumpkin_solver::constraints::bin_packing;
use pumpkin_solver::identifiers::LocalId;
use pumpkin_solver::propagation::domain_events::DomainEvents;
use pumpkin_solver::engine::solver::ConstraintSatisfactionSolver;
use pumpkin_solver::engine::solver::SatisfactionResult;
use pumpkin_solver::inconsistency::Inconsistency;
use pumpkin_solver::predicate::DomainId;
use pumpkin_solver::predicate::Predicate;
use pumpkin_solver::propagators::bin_packing::BinPackingPropagator;
use pumpkin_solver::solution::Solution;

/// Decides the variables in the given order, each on its least value.
struct InputOrderMin {
    variables: Vec<DomainId>,
    solutions: usize,
    backtracks: usize,
    conflict_predicates: usize,
}

impl InputOrderMin {
    fn new(variables: Vec<DomainId>) -> Self {
        InputOrderMin {
            variables,
            solutions: 0,
            backtracks: 0,
            conflict_predicates: 0,
        }
    }
}

impl Brancher for InputOrderMin {
    fn next_decision(&mut self, assignments: &Assignments) -> Option<Predicate> {
        self.variables
            .iter()
            .find(|x| !assignments.is_domain_assigned(**x))
            .map(|x| Predicate::equal(*x, assignments.get_lower_bound(*x)))
    }

    fn on_appearance_in_conflict_predicate(&mut self, _predicate: Predicate) {
        self.conflict_predicates += 1;
    }

    fn on_backtrack(&mut self, _level: usize) {
        self.backtracks += 1;
    }

    fn on_solution(&mut self, _solution: &Solution) {
        self.solutions += 1;
    }
}

fn packing(
    capacity: i32,
    bin_count: usize,
    sizes: &[i32],
) -> (
    ConstraintSatisfactionSolver<BinPackingPropagator>,
    Vec<DomainId>,
    Vec<DomainId>,
    Result<(), Inconsistency>,
) {
    let mut solver = ConstraintSatisfactionSolver::new();
    let loads: Vec<DomainId> = (0..bin_count)
        .map(|_| solver.new_bounded_integer(0, capacity))
        .collect();
    let bins: Vec<DomainId> = sizes
        .iter()
        .map(|_| solver.new_bounded_integer(0, bin_count as i32 - 1))
        .collect();
    let posted = solver
        .add_propagator(bin_packing(loads.clone(), bins.clone(), sizes.to_vec()))
        .map(|_| ());
    (solver, loads, bins, posted)
}

fn check_packing(solution: &Solution, loads: &[DomainId], bins: &[DomainId], sizes: &[i32]) {
    for (j, load) in loads.iter().enumerate() {
        let packed: i32 = bins
            .iter()
            .zip(sizes)
            .filter(|(bin, _)| solution.get_integer_value(**bin) == j as i32)
            .map(|(_, size)| *size)
            .sum();
        assert_eq!(solution.get_integer_value(*load), packed);
    }
    for bin in bins {
        let value = solution.get_integer_value(*bin);
        assert!(0 <= value && (value as usize) < loads.len());
    }
}

#[test]
fn a_packing_is_found() {
    let sizes = [6, 1, 4, 6, 1, 3, 3, 5, 1];
    let (mut solver, loads, bins, posted) = packing(10, 3, &sizes);
    posted.expect("no conflict at the root");

    let mut brancher = InputOrderMin::new(bins.clone());
    match solver.satisfy_within(&mut brancher, 10_000) {
        SatisfactionResult::Satisfiable(solution) => {
            check_packing(&solution, &loads, &bins, &sizes);
        }
        other => panic!("{other:?}"),
    }
    assert_eq!(brancher.solutions, 1);
    assert!(solver.is_at_fixed_point());
}

#[test]
fn a_packing_is_held_against_its_constraint() {
    let sizes = [7, 6, 5, 3, 4, 5];
    let (mut solver, loads, bins, posted) = packing(10, 3, &sizes);
    posted.expect("no conflict at the root");

    let mut brancher = InputOrderMin::new(bins.clone());
    match solver.satisfy_packing(&mut brancher, 10_000) {
        SatisfactionResult::Satisfiable(solution) => {
            check_packing(&solution, &loads, &bins, &sizes);
        }
        other => panic!("{other:?}"),
    }
}

#[test]
fn items_outside_the_bins_are_no_packing() {
    // An item of size zero may sit in a bin that does not exist as far as the
    // rules of the constraint go; such values are not taken for a packing.
    let mut solver = ConstraintSatisfactionSolver::new();
    let load = solver.new_bounded_integer(0, 10);
    let item = solver.new_bounded_integer(5, 5);
    solver
        .add_propagator(bin_packing(vec![load], vec![item], vec![0]))
        .expect("no conflict at the root");
    let mut brancher = InputOrderMin::new(vec![item]);
    assert!(matches!(
        solver.satisfy_packing(&mut brancher, 100),
        SatisfactionResult::Unknown
    ));
    assert!(matches!(
        solver.satisfy_within(&mut brancher, 100),
        SatisfactionResult::Satisfiable(_)
    ));
}

#[test]
fn fixed_values_are_held_against_the_constraint_without_a_search() {
    // One bin with the load 5 and one item of size 5 in it: a packing.
    let mut solver = ConstraintSatisfactionSolver::new();
    let load = solver.new_bounded_integer(5, 5);
    let item = solver.new_bounded_integer(0, 0);
    solver
        .add_propagator(bin_packing(vec![load], vec![item], vec![5]))
        .expect("no conflict at the root");
    assert!(solver.is_at_fixed_point());
    let entries = solver.assignments().num_trail_entries();
    let mut brancher = InputOrderMin::new(vec![item]);
    match solver.satisfy_packing(&mut brancher, 1) {
        SatisfactionResult::Satisfiable(solution) => {
            assert_eq!(solution.get_integer_value(load), 5);
            assert_eq!(solution.get_integer_value(item), 0);
        }
        other => panic!("{other:?}"),
    }
    assert_eq!(solver.assignments().num_trail_entries(), entries);
    // Without a budget there is no answer.
    assert!(matches!(
        solver.satisfy_packing(&mut brancher, 0),
        SatisfactionResult::Unknown
    ));
}

#[test]
fn too_small_bins_are_unsatisfiable() {
    let sizes = [6, 6, 6];
    let (mut solver, _loads, bins, posted) = packing(10, 2, &sizes);
    let mut brancher = InputOrderMin::new(bins.clone());
    let result = match posted {
        Err(_) => SatisfactionResult::Unsatisfiable,
        Ok(()) => solver.satisfy_within(&mut brancher, 10_000),
    };
    assert!(matches!(result, SatisfactionResult::Unsatisfiable));
}

#[test]
fn a_packing_that_needs_backjumps_is_found() {
    // 7 + 3, 6 + 4, 5 + 5: the least bin for each item is not always right.
    let sizes = [7, 6, 5, 3, 4, 5];
    let (mut solver, loads, bins, posted) = packing(10, 3, &sizes);
    posted.expect("no conflict at the root");

    let mut brancher = InputOrderMin::new(bins.clone());
    match solver.satisfy_within(&mut brancher, 10_000) {
        SatisfactionResult::Satisfiable(solution) => {
            check_packing(&solution, &loads, &bins, &sizes);
            for load in &loads {
                assert_eq!(solution.get_integer_value(*load), 10);
            }
        }
        other => panic!("{other:?}"),
    }
}

#[test]
fn the_budget_bounds_the_search() {
    let sizes = [6, 1, 4, 6, 1, 3, 3, 5, 1];
    let (mut solver, _loads, bins, posted) = packing(10, 3, &sizes);
    posted.expect("no conflict at the root");
    let mut brancher = InputOrderMin::new(bins);
    assert!(matches!(
        solver.satisfy_within(&mut brancher, 1),
        SatisfactionResult::Unknown
    ));
}

#[test]
fn propagating_twice_changes_nothing() {
    let sizes = [4, 5, 6, 7];
    let (mut solver, _loads, _bins, posted) = packing(13, 3, &sizes);
    posted.expect("no conflict at the root");
    let entries = solver.assignments().num_trail_entries();
    assert!(solver.is_at_fixed_point());
    solver.propagate().expect("no conflict");
    assert_eq!(solver.assignments().num_trail_entries(), entries);
    solver.propagate().expect("no conflict");
    assert_eq!(solver.assignments().num_trail_entries(), entries);
}

/// A store with the domains that `store` has now, and an empty trail.
fn same_domains(store: &Assignments) -> Assignments {
    let mut copy = Assignments::new();
    for index in 0..store.get_num_domains() {
        let x = DomainId { id: index as u32 };
        let lower = store.get_lower_bound(x);
        let upper = store.get_upper_bound(x);
        let y = copy.grow(lower, upper);
        assert_eq!(x, y);
        for value in lower..=upper {
            if !store.is_value_in_domain(x, value) {
                copy.remove(y, value, Reason::RootLevel).expect("not empty");
            }
        }
    }
    copy
}

#[test]
fn at_a_fixed_point_no_propagator_finds_more() {
    let sizes = [6, 5, 4, 3, 2];
    let (mut solver, loads, bins, posted) = packing(10, 2, &sizes);
    posted.expect("no conflict at the root");
    solver.propagate().expect("no conflict");

    let copy = same_domains(solver.assignments());
    let entries = copy.num_trail_entries();
    let propagator = bin_packing(loads, bins, sizes.to_vec());
    let mut context = PropagationContextMut::new(copy, PropagatorId(0));
    propagator
        .debug_propagate_from_scratch(&mut context)
        .expect("no conflict");
    assert_eq!(context.into_assignments().num_trail_entries(), entries);
}

static EXPLANATIONS: std::sync::atomic::AtomicUsize = std::sync::atomic::AtomicUsize::new(0);

/// `Implies(a, b)`: where `a` is 1, `b` is 1, for a reason that is expanded
/// on demand. `NotBoth(a, b)`: `a` and `b` are not both 1.
enum Small {
    Implies(DomainId, DomainId),
    NotBoth(DomainId, DomainId),
}

fn one(x: DomainId) -> Predicate {
    Predicate::lower_bound(x, 1)
}

impl pumpkin_solver::propagation::propagator::Propagator for Small {
    fn name(&self) -> &str {
        match self {
            Small::Implies(_, _) => "Implies",
            Small::NotBoth(_, _) => "NotBoth",
        }
    }

    fn priority(&self) -> u32 {
        match self {
            Small::Implies(_, _) => 0,
            Small::NotBoth(_, _) => 5,
        }
    }

    fn initialise_at_root(
        &mut self,
        context: &mut pumpkin_solver::propagation::constructor_context::PropagatorInitialisationContext,
    ) -> Result<(), PropositionalConjunction> {
        let (a, b) = match self {
            Small::Implies(a, b) | Small::NotBoth(a, b) => (*a, *b),
        };
        let _ = context.register(a, DomainEvents::bounds(), LocalId::from(0));
        let _ = context.register(b, DomainEvents::bounds(), LocalId::from(1));
        Ok(())
    }

    fn debug_propagate_from_scratch(
        &self,
        context: &mut pumpkin_solver::propagation::contexts::PropagationContextMut,
    ) -> pumpkin_solver::inconsistency::PropagationStatusCP {
        match self {
            Small::Implies(a, b) => {
                if context.lower_bound(a) == 1 && context.lower_bound(b) == 0 {
                    if context.upper_bound(b) == 0 {
                        return Err(PropositionalConjunction::new(vec![one(*a), one(*b).negate()]).into());
                    }
                    context.post_predicate_lazy(one(*b), a.id as u64);
                }
                Ok(())
            }
            Small::NotBoth(a, b) => {
                if context.lower_bound(a) == 1 && context.lower_bound(b) == 1 {
                    return Err(PropositionalConjunction::new(vec![one(*a), one(*b)]).into());
                }
                Ok(())
            }
        }
    }

    fn lazy_explanation(&mut self, code: u64, _assignments: &Assignments) -> Option<Vec<Predicate>> {
        let _ = EXPLANATIONS.fetch_add(1, std::sync::atomic::Ordering::SeqCst);
        Some(vec![one(DomainId::new(code as u32))])
    }
}

/// Decides the variables in the given order, each on its greatest value.
struct InputOrderMax {
    variables: Vec<DomainId>,
}

impl Brancher for InputOrderMax {
    fn next_decision(&mut self, assignments: &Assignments) -> Option<Predicate> {
        self.variables
            .iter()
            .find(|x| !assignments.is_domain_assigned(**x))
            .map(|x| Predicate::equal(*x, assignments.get_upper_bound(*x)))
    }
}

#[test]
fn a_reason_is_expanded_when_the_search_meets_a_conflict() {
    let mut solver: ConstraintSatisfactionSolver<Small> = ConstraintSatisfactionSolver::new();
    let a = solver.new_bounded_integer(0, 1);
    let b = solver.new_bounded_integer(0, 1);
    solver.add_propagator(Small::Implies(a, b)).expect("no conflict at the root");
    solver.add_propagator(Small::NotBoth(a, b)).expect("no conflict at the root");
    assert_eq!(solver.num_propagators(), 2);

    let mut brancher = InputOrderMax { variables: vec![a, b] };
    match solver.satisfy_within(&mut brancher, 100) {
        SatisfactionResult::Satisfiable(solution) => {
            assert_eq!(solution.get_integer_value(a), 0);
            assert_eq!(solution.get_integer_value(b), 1);
        }
        other => panic!("{other:?}"),
    }
    assert_eq!(EXPLANATIONS.load(std::sync::atomic::Ordering::SeqCst), 1);
    assert_eq!(solver.get_counters().num_conflicts, 1);
    assert_eq!(solver.get_counters().total_learned_clause_length, 1);
    assert_eq!(solver.get_counters().total_backtrack_distance, 1);
}

#[test]
fn predicates_know_their_kind() {
    let x = DomainId::new(0);
    assert!(Predicate::lower_bound(x, 1).is_lower_bound_predicate());
    assert!(!Predicate::lower_bound(x, 1).is_upper_bound_predicate());
    assert!(Predicate::upper_bound(x, 1).is_upper_bound_predicate());
    assert!(Predicate::not_equal(x, 1).is_not_equal_predicate());
    assert!(Predicate::equal(x, 1).is_equality_predicate());
    assert!(!Predicate::equal(x, 1).is_not_equal_predicate());
}

#[test]
fn the_search_takes_a_decision_only_where_it_can_be_made() {
    let sizes = [4, 5, 6, 7];
    let (mut solver, _loads, bins, posted) = packing(13, 3, &sizes);
    posted.expect("no conflict at the root");
    let entries = solver.assignments().num_trail_entries();

    // No decision, a decision on a variable that is not there, one that holds already.
    assert!(!solver.take_decision(None));
    assert!(!solver.take_decision(Some(Predicate::equal(DomainId { id: 1000 }, 0))));
    assert!(!solver.take_decision(Some(Predicate::lower_bound(bins[0], 0))));
    assert!(!solver.take_decision(Some(Predicate::lower_bound(bins[0], 7))));
    assert_eq!(solver.assignments().get_decision_level(), 0);
    assert_eq!(solver.assignments().num_trail_entries(), entries);

    assert!(solver.take_decision(Some(Predicate::equal(bins[0], 1))));
    assert_eq!(solver.assignments().get_decision_level(), 1);
    assert_eq!(solver.assignments().num_trail_entries(), entries + 1);
    assert_eq!(solver.assignments().get_assigned_value(bins[0]), 1);
    assert!(!solver.is_at_fixed_point());
}

#[test]
fn a_learned_nogood_is_asserted_or_refutes() {
    let sizes = [4, 5, 6, 7];
    let (mut solver, _loads, bins, posted) = packing(13, 3, &sizes);
    posted.expect("no conflict at the root");
    assert!(solver.take_decision(Some(Predicate::equal(bins[0], 1))));

    let empty = LearnedNogood { predicates: vec![], backjump_level: 0 };
    assert!(matches!(solver.take_nogood(&empty), Learned::Refuted));

    // [bins[1] >= 1] is made false for the reason that [bins[0] == 1] holds.
    let nogood = LearnedNogood {
        predicates: vec![Predicate::lower_bound(bins[1], 1), Predicate::equal(bins[0], 1)],
        backjump_level: 1,
    };
    assert!(matches!(solver.take_nogood(&nogood), Learned::Asserted));
    assert_eq!(solver.assignments().get_upper_bound(bins[1]), 0);
    assert_eq!(
        solver
            .assignments()
            .get_propagation_reason(Predicate::upper_bound(bins[1], 0)),
        Some(vec![Predicate::equal(bins[0], 1)])
    );

    // [bins[1] <= 0] cannot be made false any more.
    let contrary = LearnedNogood {
        predicates: vec![Predicate::upper_bound(bins[1], 0), Predicate::equal(bins[0], 1)],
        backjump_level: 1,
    };
    match solver.take_nogood(&contrary) {
        Learned::Failed(Inconsistency::EmptyDomain { predicate, reason }) => {
            assert_eq!(predicate, Predicate::lower_bound(bins[1], 1));
            assert_eq!(reason, PropositionalConjunction::new(vec![Predicate::equal(bins[0], 1)]));
        }
        other => panic!("{other:?}"),
    }
}

#[test]
fn a_reported_inconsistency_is_handed_on_as_it_is() {
    let sizes = [4, 5, 6, 7];
    let (mut solver, _loads, bins, posted) = packing(13, 3, &sizes);
    posted.expect("no conflict at the root");
    assert!(solver.take_decision(Some(Predicate::equal(bins[0], 1))));
    let entries = solver.assignments().num_trail_entries();

    let conflict = PropositionalConjunction::new(vec![Predicate::equal(bins[0], 1)]);
    match solver.take_status(Err(Inconsistency::Conflict { conflict_nogood: conflict.clone() }), entries) {
        Err(Inconsistency::Conflict { conflict_nogood }) => assert_eq!(conflict_nogood, conflict),
        other => panic!("{other:?}"),
    }
    assert_eq!(solver.take_status(Ok(()), entries).expect("no conflict"), false);
    assert_eq!(solver.take_status(Ok(()), entries - 1).expect("no conflict"), true);
}
