use pumpkin_solver::assignments::Assignments;
use pumpkin_solver::branching::Brancher;
use pumpkin_solver::conflict_analysis::learned_nogood::LearnedClauseStatistics;
use pumpkin_solver::conflict_analysis::resolution_resolver::ConflictAnalysisNogoodContext;
use pumpkin_solver::conflict_analysis::resolution_resolver::ResolutionResolver;
use pumpkin_solver::conflict_analysis::semantic_minimiser::Mode;
use pumpkin_solver::conflict_analysis::semantic_minimiser::SemanticMinimiser;
use pumpkin_solver::conjunction::PropositionalConjunction;
use pumpkin_solver::identifiers::PropagatorId;
use pumpkin_solver::inconsistency::PropagationStatusCP;
use pumpkin_solver::predicate::DomainId;
use pumpkin_solver::predicate::Predicate;
use pumpkin_solver::propagation::contexts::PropagationContextMut;
use pumpkin_solver::propagation::propagator::Propagator;
use pumpkin_solver::reason::Reason;

#[derive(Default)]
struct CountingBrancher {
    appearances: Vec<Predicate>,
    backtracks: Vec<usize>,
}

impl Brancher for CountingBrancher {
    fn next_decision(&mut self, _assignments: &Assignments) -> Option<Predicate> {
        None
    }

    fn on_appearance_in_conflict_predicate(&mut self, predicate: Predicate) {
        self.appearances.push(predicate);
    }

    fn on_backtrack(&mut self, level: usize) {
        self.backtracks.push(level);
    }
}

fn context(assignments: Assignments, conflict: Vec<Predicate>) -> ConflictAnalysisNogoodContext {
    ConflictAnalysisNogoodContext {
        assignments,
        conflict_nogood: PropositionalConjunction::new(conflict),
        semantic_minimiser: SemanticMinimiser::default(),
        counters: LearnedClauseStatistics::new(),
    }
}

fn no_propagators() -> Vec<Explainer> {
    Vec::new()
}

/// A propagator that explains the code `n` by `[x >= 1]` for the variable
/// `x` with the index `n`, and has no explanation for odd codes.
struct Explainer {
    asked: Vec<u64>,
}

impl Propagator for Explainer {
    fn name(&self) -> &str {
        "Explainer"
    }

    fn debug_propagate_from_scratch(
        &self,
        _context: &mut PropagationContextMut,
    ) -> PropagationStatusCP {
        Ok(())
    }

    fn lazy_explanation(&mut self, code: u64, _assignments: &Assignments) -> Option<Vec<Predicate>> {
        self.asked.push(code);
        if code % 2 == 0 {
            Some(vec![Predicate::lower_bound(DomainId::new(code as u32), 1)])
        } else {
            None
        }
    }
}

fn eager(predicates: Vec<Predicate>) -> Reason {
    Reason::Eager(PropositionalConjunction::new(predicates))
}

#[test]
fn an_equality_decision_is_learned_as_a_unit_nogood() {
    let mut assignments = Assignments::new();
    let x = assignments.grow(0, 2);
    assignments.increase_decision_level();
    assignments
        .post_predicate(Predicate::equal(x, 1), Reason::Decision)
        .expect("not empty");

    let mut context = context(
        assignments,
        vec![Predicate::lower_bound(x, 1), Predicate::upper_bound(x, 1)],
    );
    let mut brancher = CountingBrancher::default();
    let mut resolver = ResolutionResolver::new();
    let nogood = resolver
        .resolve_conflict(&mut context, &mut brancher, &mut no_propagators())
        .expect("a nogood");

    assert_eq!(nogood.predicates, vec![Predicate::equal(x, 1)]);
    assert_eq!(nogood.backjump_level, 0);
}

#[test]
fn a_decision_on_a_zero_one_variable_is_learned_as_its_bound() {
    let mut assignments = Assignments::new();
    let x = assignments.grow(0, 1);
    assignments.increase_decision_level();
    assignments
        .post_predicate(Predicate::equal(x, 1), Reason::Decision)
        .expect("not empty");

    let mut context = context(
        assignments,
        vec![Predicate::lower_bound(x, 1), Predicate::upper_bound(x, 1)],
    );
    let mut brancher = CountingBrancher::default();
    let mut resolver = ResolutionResolver::new();
    let nogood = resolver
        .resolve_conflict(&mut context, &mut brancher, &mut no_propagators())
        .expect("a nogood");

    // The negation of the one predicate is [x <= 0].
    assert_eq!(nogood.predicates, vec![Predicate::lower_bound(x, 1)]);
    assert_eq!(nogood.predicates[0].negate(), Predicate::upper_bound(x, 0));
    assert_eq!(nogood.backjump_level, 0);

    let learned = &nogood;
    resolver
        .process(&mut context, &mut brancher, &Some(LearnedCopy::of(learned)))
        .expect("a backjump");
    assert_eq!(context.assignments.get_decision_level(), 0);
    assert_eq!(context.assignments.get_lower_bound(x), 0);
    assert_eq!(context.assignments.get_upper_bound(x), 1);
    assert_eq!(brancher.backtracks, vec![0]);
}

struct LearnedCopy;

impl LearnedCopy {
    fn of(
        nogood: &pumpkin_solver::conflict_analysis::learned_nogood::LearnedNogood,
    ) -> pumpkin_solver::conflict_analysis::learned_nogood::LearnedNogood {
        pumpkin_solver::conflict_analysis::learned_nogood::LearnedNogood {
            predicates: nogood.predicates.clone(),
            backjump_level: nogood.backjump_level,
        }
    }
}

#[test]
fn the_first_unique_implication_point_is_found() {
    // Level 1: decide [a >= 1]. Level 2: decide [b >= 1], which gives
    // [c >= 1], which with [a >= 1] gives [d >= 1] and [e >= 1]; the two
    // are in conflict.
    let mut assignments = Assignments::new();
    let a = assignments.grow(0, 1);
    let b = assignments.grow(0, 1);
    let c = assignments.grow(0, 1);
    let d = assignments.grow(0, 1);
    let e = assignments.grow(0, 1);
    let one = |x| Predicate::lower_bound(x, 1);

    assignments.increase_decision_level();
    assignments.post_predicate(one(a), Reason::Decision).expect("not empty");
    assignments.increase_decision_level();
    assignments.post_predicate(one(b), Reason::Decision).expect("not empty");
    assignments.post_predicate(one(c), eager(vec![one(b)])).expect("not empty");
    assignments
        .post_predicate(one(d), eager(vec![one(c), one(a)]))
        .expect("not empty");
    assignments
        .post_predicate(one(e), eager(vec![one(c)]))
        .expect("not empty");

    let mut context = context(assignments, vec![one(d), one(e)]);
    let mut brancher = CountingBrancher::default();
    let mut resolver = ResolutionResolver::new();
    let nogood = resolver
        .resolve_conflict(&mut context, &mut brancher, &mut no_propagators())
        .expect("a nogood");

    assert_eq!(nogood.predicates, vec![one(c), one(a)]);
    assert_eq!(nogood.backjump_level, 1);
    assert_eq!(context.counters.num_conflicts, 1);
    assert_eq!(context.counters.total_conflict_size, 2);
    assert_eq!(context.counters.total_learned_clause_length, 2);
    assert_eq!(context.counters.total_lbd, 2);
    assert_eq!(context.counters.total_backtrack_distance, 1);
    assert!(brancher.appearances.contains(&one(c)));
}

#[test]
fn a_replaced_predicate_keeps_its_place_in_the_heap() {
    let mut assignments = Assignments::new();
    let x = assignments.grow(0, 5);
    let y = assignments.grow(0, 5);
    assignments.increase_decision_level();
    assignments
        .post_predicate(Predicate::lower_bound(x, 2), Reason::Decision)
        .expect("not empty");
    assignments
        .post_predicate(Predicate::lower_bound(y, 3), eager(vec![Predicate::lower_bound(x, 2)]))
        .expect("not empty");

    let mut brancher = CountingBrancher::default();
    let mut resolver = ResolutionResolver::new();
    resolver.add_predicate_to_conflict_nogood(
        Predicate::lower_bound(x, 2),
        &assignments,
        &mut brancher,
    );
    resolver.add_predicate_to_conflict_nogood(
        Predicate::lower_bound(y, 3),
        &assignments,
        &mut brancher,
    );
    assert_eq!(
        resolver.peek_predicate_from_conflict_nogood(),
        Predicate::lower_bound(y, 3)
    );
    // A predicate that is not there: nothing changes.
    resolver.replace_predicate_in_conflict_nogood(
        Predicate::lower_bound(y, 4),
        Predicate::lower_bound(x, 1),
    );
    assert_eq!(
        resolver.peek_predicate_from_conflict_nogood(),
        Predicate::lower_bound(y, 3)
    );
    resolver.replace_predicate_in_conflict_nogood(
        Predicate::lower_bound(y, 3),
        Predicate::lower_bound(y, 2),
    );
    assert_eq!(
        resolver.pop_predicate_from_conflict_nogood(),
        Predicate::lower_bound(y, 2)
    );
    assert_eq!(
        resolver.pop_predicate_from_conflict_nogood(),
        Predicate::lower_bound(x, 2)
    );
}

#[test]
fn a_conflict_at_the_root_gives_the_empty_nogood() {
    let mut assignments = Assignments::new();
    let x = assignments.grow(0, 5);
    assignments
        .post_predicate(Predicate::lower_bound(x, 3), Reason::RootLevel)
        .expect("not empty");

    let mut context = context(
        assignments,
        vec![Predicate::lower_bound(x, 2), Predicate::not_equal(x, 1)],
    );
    let mut brancher = CountingBrancher::default();
    let mut resolver = ResolutionResolver::new();
    let nogood = resolver
        .resolve_conflict(&mut context, &mut brancher, &mut no_propagators())
        .expect("a nogood");

    assert!(nogood.predicates.is_empty());
    assert_eq!(nogood.backjump_level, 0);
}

fn lazily_explained(code: u64) -> (Assignments, Vec<Predicate>) {
    // Level 1: decide [c >= 1]. Level 2: decide [a >= 1], from which
    // [b >= 1] follows for a reason to expand.
    let mut assignments = Assignments::new();
    let a = assignments.grow(0, 1);
    let b = assignments.grow(0, 1);
    let c = assignments.grow(0, 1);
    let one = |x| Predicate::lower_bound(x, 1);
    assignments.increase_decision_level();
    assignments.post_predicate(one(c), Reason::Decision).expect("not empty");
    assignments.increase_decision_level();
    assignments.post_predicate(one(a), Reason::Decision).expect("not empty");
    assignments
        .post_predicate(one(b), Reason::Lazy(PropagatorId(0), code))
        .expect("not empty");
    (assignments, vec![one(a), one(b), one(c)])
}

#[test]
fn a_reason_is_expanded_by_its_propagator() {
    let (assignments, conflict) = lazily_explained(0);
    let (a, c) = (conflict[0], conflict[2]);
    let mut context = context(assignments, conflict);
    let mut brancher = CountingBrancher::default();
    let mut propagators = vec![Explainer { asked: vec![] }];
    let mut resolver = ResolutionResolver::new();

    let nogood = resolver
        .resolve_conflict(&mut context, &mut brancher, &mut propagators)
        .expect("a nogood");

    assert_eq!(nogood.predicates, vec![a, c]);
    assert_eq!(nogood.backjump_level, 1);
    assert_eq!(propagators[0].asked, vec![0]);
    // The explanation has taken the place of the code.
    assert_eq!(
        context.assignments.get_propagation_reason(Predicate::lower_bound(DomainId::new(1), 1)),
        Some(vec![a])
    );
}

#[test]
fn a_reason_that_cannot_be_expanded_stops_the_analysis() {
    // No propagator of that id.
    let (assignments, conflict) = lazily_explained(0);
    let mut context = context(assignments, conflict);
    let mut brancher = CountingBrancher::default();
    let mut resolver = ResolutionResolver::new();
    assert!(resolver
        .resolve_conflict(&mut context, &mut brancher, &mut no_propagators())
        .is_none());

    // No explanation for the code.
    let (assignments, conflict) = lazily_explained(1);
    let mut context = self::context(assignments, conflict);
    let mut propagators = vec![Explainer { asked: vec![] }];
    assert!(resolver
        .resolve_conflict(&mut context, &mut brancher, &mut propagators)
        .is_none());
    assert_eq!(propagators[0].asked, vec![1]);

    // An explanation that did not hold before the change: [c >= 1] for [c >= 1].
    let (assignments, conflict) = lazily_explained(2);
    let mut context = self::context(assignments, conflict);
    let mut propagators = vec![Explainer { asked: vec![] }];
    assert!(resolver
        .resolve_conflict(&mut context, &mut brancher, &mut propagators)
        .is_some());
    let mut assignments = Assignments::new();
    let x = assignments.grow(0, 1);
    let y = assignments.grow(0, 1);
    let _ = assignments.grow(0, 1);
    assignments.increase_decision_level();
    assignments
        .post_predicate(Predicate::lower_bound(x, 1), Reason::Decision)
        .expect("not empty");
    assignments
        .post_predicate(Predicate::lower_bound(y, 1), Reason::Lazy(PropagatorId(0), 2))
        .expect("not empty");
    assert!(!assignments.set_explanation(1, vec![Predicate::lower_bound(DomainId::new(2), 1)]));
    assert!(!assignments.set_explanation(0, vec![]));
    assert!(assignments.set_explanation(1, vec![Predicate::lower_bound(x, 1)]));
}

#[test]
fn semantic_minimisation_merges_bounds_only_when_asked() {
    let mut assignments = Assignments::new();
    let x = assignments.grow(0, 10);
    let y = assignments.grow(0, 10);
    let nogood = vec![
        Predicate::lower_bound(x, 2),
        Predicate::upper_bound(y, 7),
        Predicate::lower_bound(x, 4),
        Predicate::not_equal(x, 3),
        Predicate::upper_bound(x, 4),
        Predicate::not_equal(y, 5),
        Predicate::not_equal(y, 5),
        Predicate::lower_bound(y, 0),
    ];
    let mut minimiser = SemanticMinimiser::default();

    assert_eq!(
        minimiser.minimise(&nogood, &assignments, Mode::DisableEqualityMerging),
        vec![
            Predicate::lower_bound(x, 4),
            Predicate::upper_bound(x, 4),
            Predicate::upper_bound(y, 7),
            Predicate::not_equal(y, 5),
        ]
    );
    assert_eq!(
        minimiser.minimise(&nogood, &assignments, Mode::EnableEqualityMerging),
        vec![
            Predicate::equal(x, 4),
            Predicate::upper_bound(y, 7),
            Predicate::not_equal(y, 5),
        ]
    );
}
