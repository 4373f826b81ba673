use pumpkin_solver::conjunction::PropositionalConjunction;
use pumpkin_solver::engine::test_solver::TestSolver;
use pumpkin_solver::inconsistency::Inconsistency;
use pumpkin_solver::inconsistency::PropagationStatusCP;
use pumpkin_solver::predicate::Predicate;
use pumpkin_solver::propagation::constructor_context::PropagatorInitialisationContext;
use pumpkin_solver::propagation::contexts::PropagationContext;
use pumpkin_solver::propagation::contexts::PropagationContextMut;
use pumpkin_solver::propagation::propagator::Propagator;
use pumpkin_solver::propagators::reified::ReifiedPropagator;

struct GenericPropagator<Propagation, ConsistencyCheck, Init> {
    propagation: Propagation,
    consistency_check: ConsistencyCheck,
    init: Init,
}

impl<Propagation, ConsistencyCheck, Init> Propagator
    for GenericPropagator<Propagation, ConsistencyCheck, Init>
where
    Propagation: Fn(&mut PropagationContextMut) -> PropagationStatusCP + 'static,
    ConsistencyCheck: Fn(PropagationContext) -> Option<PropositionalConjunction> + 'static,
    Init: Fn(&mut PropagatorInitialisationContext) -> Result<(), PropositionalConjunction>
        + 'static,
{
    fn name(&self) -> &str {
        "Failing Propagator"
    }

    fn debug_propagate_from_scratch(
        &self,
        context: &mut PropagationContextMut,
    ) -> PropagationStatusCP {
        (self.propagation)(context)
    }

    fn detect_inconsistency(
        &self,
        context: PropagationContext,
    ) -> Option<PropositionalConjunction> {
        (self.consistency_check)(context)
    }

    fn initialise_at_root(
        &mut self,
        context: &mut PropagatorInitialisationContext,
    ) -> Result<(), PropositionalConjunction> {
        (self.init)(context)
    }
}

impl<Propagation, ConsistencyCheck, Init> GenericPropagator<Propagation, ConsistencyCheck, Init>
where
    Propagation: Fn(&mut PropagationContextMut) -> PropagationStatusCP,
    ConsistencyCheck: Fn(PropagationContext) -> Option<PropositionalConjunction>,
    Init: Fn(&mut PropagatorInitialisationContext) -> Result<(), PropositionalConjunction>,
{
    fn new(propagation: Propagation, consistency_check: ConsistencyCheck, init: Init) -> Self {
        GenericPropagator {
            propagation,
            consistency_check,
            init,
        }
    }
}

#[test]
fn a_detected_inconsistency_is_given_as_reason_for_propagating_reification_literal_to_false() {
    let mut solver = TestSolver::default();

    let reification_literal = solver.new_literal();
    let a = solver.new_variable(1, 1);
    let b = solver.new_variable(2, 2);

    let triggered_conflict =
        PropositionalConjunction::new(vec![Predicate::equal(a, 1), Predicate::equal(b, 2)]);
    let t1 = triggered_conflict.clone();
    let t2 = triggered_conflict.clone();

    let _ = solver
        .new_propagator(ReifiedPropagator::new(
            GenericPropagator::new(
                move |_: &mut PropagationContextMut| Err(t1.clone().into()),
                move |_: PropagationContext| Some(t2.clone()),
                |_: &mut PropagatorInitialisationContext| Ok(()),
            ),
            reification_literal,
        ))
        .map(|_| ())
        .expect("no conflict");

    assert!(solver.is_literal_false(reification_literal));

    let reason = solver
        .get_reason_bool(reification_literal, false)
        .expect("a reason");
    assert_eq!(reason, &triggered_conflict);
}

#[test]
fn a_true_literal_is_added_to_reason_for_propagation() {
    let mut solver = TestSolver::default();

    let reification_literal = solver.new_literal();
    let var = solver.new_variable(1, 5);

    let mut propagator = solver
        .new_propagator(ReifiedPropagator::new(
            GenericPropagator::new(
                move |ctx: &mut PropagationContextMut| {
                    ctx.set_lower_bound(&var, 3, PropositionalConjunction::new(vec![]))?;
                    Ok(())
                },
                |_: PropagationContext| None,
                |_: &mut PropagatorInitialisationContext| Ok(()),
            ),
            reification_literal,
        ))
        .map_err(|e| format!("{e:?}"))
        .expect("no conflict");

    assert_eq!((solver.lower_bound(var), solver.upper_bound(var)), (1, 5));

    let _ = solver.set_literal(reification_literal, true);
    solver.propagate(&mut propagator).expect("no conflict");

    assert_eq!((solver.lower_bound(var), solver.upper_bound(var)), (3, 5));
    let reason = solver
        .get_reason_int(Predicate::lower_bound(var, 3))
        .expect("a reason");
    assert_eq!(
        reason,
        &PropositionalConjunction::from(Predicate::from(reification_literal))
    );
}

#[test]
fn a_true_literal_is_added_to_a_conflict_conjunction() {
    let mut solver = TestSolver::default();

    let reification_literal = solver.new_literal();
    let _ = solver.set_literal(reification_literal, true);

    let var = solver.new_variable(1, 1);

    let inconsistency = match solver.new_propagator(ReifiedPropagator::new(
        GenericPropagator::new(
            move |_: &mut PropagationContextMut| {
                Err(PropositionalConjunction::new(vec![Predicate::lower_bound(var, 1)]).into())
            },
            |_: PropagationContext| None,
            |_: &mut PropagatorInitialisationContext| Ok(()),
        ),
        reification_literal,
    )) {
        Err(inconsistency) => inconsistency,
        Ok(_) => panic!("eagerly triggered the conflict"),
    };

    match inconsistency {
        Inconsistency::Conflict { conflict_nogood } => {
            assert_eq!(
                conflict_nogood,
                PropositionalConjunction::from(vec![
                    reification_literal.into(),
                    Predicate::lower_bound(var, 1)
                ])
            )
        }

        other => panic!("Inconsistency {other:?} is not expected."),
    }
}

#[test]
fn a_root_level_conflict_propagates_reification_literal() {
    let mut solver = TestSolver::default();

    let reification_literal = solver.new_literal();
    let var = solver.new_variable(1, 1);

    let _ = solver
        .new_propagator(ReifiedPropagator::new(
            GenericPropagator::new(
                |_: &mut PropagationContextMut| Ok(()),
                |_: PropagationContext| None,
                move |_: &mut PropagatorInitialisationContext| {
                    Err(PropositionalConjunction::new(vec![Predicate::lower_bound(var, 0)]))
                },
            ),
            reification_literal,
        ))
        .map(|_| ())
        .expect("eagerly triggered the conflict");

    assert!(solver.is_literal_false(reification_literal));
}

#[test]
fn a_free_literal_is_refuted_on_a_detected_conjunction_only() {
    let mut store = pumpkin_solver::assignments::Assignments::new();
    let flag = store.grow(0, 1);
    let var = store.grow(1, 5);
    let reification_literal =
        pumpkin_solver::literal::Literal::new(Predicate::lower_bound(flag, 1));
    let reified = ReifiedPropagator::new(
        GenericPropagator::new(|_: &mut PropagationContextMut| Ok(()), |_| None, |_| Ok(())),
        reification_literal,
    );
    let detected = PropositionalConjunction::new(vec![Predicate::lower_bound(var, 1)]);

    // Nothing was detected: nothing changes.
    let entries = store.num_trail_entries();
    let mut context = PropagationContextMut::new(store, pumpkin_solver::identifiers::PropagatorId(0));
    reified.refute_on(&mut context, None).expect("never fails");
    assert_eq!(context.assignments().num_trail_entries(), entries);

    // Something was detected: the literal becomes false for that reason.
    reified
        .refute_on(&mut context, Some(detected.clone()))
        .expect("never fails");
    assert!(context
        .assignments()
        .is_predicate_falsified(reification_literal.get_predicate()));
    assert_eq!(
        context
            .assignments()
            .get_propagation_reason(reification_literal.get_predicate().negate()),
        Some(vec![Predicate::lower_bound(var, 1)])
    );

    // The literal is fixed: nothing changes.
    let entries = context.assignments().num_trail_entries();
    reified
        .refute_on(&mut context, Some(detected))
        .expect("never fails");
    assert_eq!(context.assignments().num_trail_entries(), entries);
}

#[test]
fn a_failed_initialisation_is_kept_for_the_first_propagation() {
    let mut solver = TestSolver::default();
    let reification_literal = solver.new_literal();
    let var = solver.new_variable(1, 5);
    let mut reified = ReifiedPropagator::new(
        GenericPropagator::new(|_: &mut PropagationContextMut| Ok(()), |_| None, |_| Ok(())),
        reification_literal,
    );
    reified.keep_root_inconsistency(Ok(()));
    solver.propagate(&mut reified).expect("no conflict");
    assert!(!solver.is_literal_false(reification_literal));

    reified.keep_root_inconsistency(Err(PropositionalConjunction::new(vec![
        Predicate::lower_bound(var, 1),
    ])));
    solver.propagate(&mut reified).expect("no conflict");
    assert!(solver.is_literal_false(reification_literal));
    assert_eq!(
        solver.get_reason_bool(reification_literal, false),
        Some(&PropositionalConjunction::new(vec![Predicate::lower_bound(var, 1)]))
    );
}
