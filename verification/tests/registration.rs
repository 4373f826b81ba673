use pumpkin_solver::assignments::Assignments;
use pumpkin_solver::engine::solver::end_of_round;
use pumpkin_solver::engine::solver::Learned;
use pumpkin_solver::engine::solver::RoundEnd;
use pumpkin_solver::identifiers::LocalId;
use pumpkin_solver::identifiers::PropagatorId;
use pumpkin_solver::identifiers::PropagatorVarId;
use pumpkin_solver::inconsistency::Inconsistency;
use pumpkin_solver::literal::Literal;
use pumpkin_solver::predicate::DomainId;
use pumpkin_solver::predicate::Predicate;
use pumpkin_solver::propagation::constructor_context::PropagatorConstructorContext;
use pumpkin_solver::propagation::domain_events::DomainEvents;
use pumpkin_solver::propagation::domain_events::IntDomainEvent;
use pumpkin_solver::propagation::propagator::Propagator;
use pumpkin_solver::propagation::watch_list::WatchListCP;
use pumpkin_solver::propagators::bin_packing::BinPackingPropagator;
use pumpkin_solver::propagators::reified::ReifiedPropagator;

const EVENTS: [IntDomainEvent; 4] = [
    IntDomainEvent::Assign,
    IntDomainEvent::LowerBound,
    IntDomainEvent::UpperBound,
    IntDomainEvent::Removal,
];

fn store_with(bounds: &[(i32, i32)]) -> (Assignments, Vec<DomainId>, WatchListCP) {
    let mut assignments = Assignments::new();
    let mut watch_list = WatchListCP::new();
    let variables = bounds
        .iter()
        .map(|(lower, upper)| {
            watch_list.grow();
            assignments.grow(*lower, *upper)
        })
        .collect();
    (assignments, variables, watch_list)
}

#[test]
fn a_literal_is_registered_for_the_given_events_only() {
    let (assignments, variables, watch_list) = store_with(&[(0, 1), (0, 1)]);
    let literal = Literal::new(Predicate::lower_bound(variables[0], 1));
    let mut context = PropagatorConstructorContext::new(watch_list, PropagatorId(3), &assignments);
    let registered = context.register_literal(literal, DomainEvents::bounds(), LocalId(5));
    assert_eq!(registered, literal);
    assert_eq!(context.get_next_local_id(), LocalId(6));
    let _ = context.register_literal(
        Literal::new(Predicate::lower_bound(variables[1], 1)),
        DomainEvents::assign(),
        LocalId(6),
    );

    let watch_list = context.into_watch_list();
    assert_eq!(watch_list.num_watchers(variables[0], IntDomainEvent::LowerBound), 1);
    assert_eq!(watch_list.num_watchers(variables[0], IntDomainEvent::UpperBound), 1);
    assert_eq!(watch_list.num_watchers(variables[0], IntDomainEvent::Assign), 0);
    assert_eq!(watch_list.num_watchers(variables[0], IntDomainEvent::Removal), 0);
    assert_eq!(watch_list.num_watchers(variables[1], IntDomainEvent::Assign), 1);
    assert_eq!(watch_list.num_watchers(variables[1], IntDomainEvent::LowerBound), 0);
    assert_eq!(watch_list.num_watchers(variables[1], IntDomainEvent::UpperBound), 0);
    assert_eq!(watch_list.num_watchers(variables[1], IntDomainEvent::Removal), 0);
}

#[test]
fn a_packing_registers_each_variable_once_for_every_event() {
    let (assignments, variables, watch_list) =
        store_with(&[(0, 10), (0, 10), (0, 1), (0, 1), (0, 1), (0, 5)]);
    let loads = vec![variables[0], variables[1]];
    let bins = vec![variables[2], variables[3], variables[4]];
    let mut propagator = BinPackingPropagator::new(loads.clone(), bins.clone(), vec![2, 5, 3]);
    let mut context = PropagatorConstructorContext::new(watch_list, PropagatorId(7), &assignments);
    assert!(propagator.initialise_at_root(&mut context).is_ok());
    assert_eq!(context.get_next_local_id(), LocalId(5));

    let watch_list = context.into_watch_list();
    for event in EVENTS {
        for (j, load) in loads.iter().enumerate() {
            assert_eq!(watch_list.num_watchers(*load, event), 1);
            assert_eq!(
                watch_list.get_watcher(*load, event, 0),
                PropagatorVarId {
                    propagator: PropagatorId(7),
                    variable: LocalId(j as u32),
                }
            );
        }
        // The items are registered after the loads, in the order of the sizes: 5, 3, 2.
        let by_size = [bins[1], bins[2], bins[0]];
        for (i, bin) in by_size.iter().enumerate() {
            assert_eq!(watch_list.num_watchers(*bin, event), 1);
            assert_eq!(
                watch_list.get_watcher(*bin, event, 0),
                PropagatorVarId {
                    propagator: PropagatorId(7),
                    variable: LocalId((2 + i) as u32),
                }
            );
        }
        assert_eq!(watch_list.num_watchers(variables[5], event), 0);
    }
}

#[test]
fn a_packing_with_one_variable_twice_registers_it_twice() {
    let (assignments, variables, watch_list) = store_with(&[(0, 10), (0, 0)]);
    let mut propagator = BinPackingPropagator::new(
        vec![variables[0]],
        vec![variables[1], variables[1]],
        vec![4, 4],
    );
    let mut context = PropagatorConstructorContext::new(watch_list, PropagatorId(0), &assignments);
    assert!(propagator.initialise_at_root(&mut context).is_ok());
    assert_eq!(context.get_next_local_id(), LocalId(3));
    let watch_list = context.into_watch_list();
    for event in EVENTS {
        assert_eq!(watch_list.num_watchers(variables[0], event), 1);
        assert_eq!(watch_list.num_watchers(variables[1], event), 2);
        assert_eq!(
            watch_list.get_watcher(variables[1], event, 0).variable,
            LocalId(1)
        );
        assert_eq!(
            watch_list.get_watcher(variables[1], event, 1).variable,
            LocalId(2)
        );
    }
}

#[test]
fn a_reified_propagator_watches_the_bounds_of_its_literal() {
    let (assignments, variables, watch_list) =
        store_with(&[(0, 10), (0, 0), (0, 0), (0, 1)]);
    let wrapped = BinPackingPropagator::new(
        vec![variables[0]],
        vec![variables[1], variables[2]],
        vec![4, 3],
    );
    let literal = Literal::new(Predicate::lower_bound(variables[3], 1));
    let mut propagator = ReifiedPropagator::new(wrapped, literal);
    let mut context = PropagatorConstructorContext::new(watch_list, PropagatorId(2), &assignments);
    assert!(propagator.initialise_at_root(&mut context).is_ok());
    assert_eq!(context.get_next_local_id(), LocalId(4));

    let watch_list = context.into_watch_list();
    let watcher = PropagatorVarId {
        propagator: PropagatorId(2),
        variable: LocalId(3),
    };
    assert_eq!(watch_list.num_watchers(variables[3], IntDomainEvent::LowerBound), 1);
    assert_eq!(watch_list.get_watcher(variables[3], IntDomainEvent::LowerBound, 0), watcher);
    assert_eq!(watch_list.num_watchers(variables[3], IntDomainEvent::UpperBound), 1);
    assert_eq!(watch_list.get_watcher(variables[3], IntDomainEvent::UpperBound, 0), watcher);
    assert_eq!(watch_list.num_watchers(variables[3], IntDomainEvent::Assign), 0);
    assert_eq!(watch_list.num_watchers(variables[3], IntDomainEvent::Removal), 0);
    for event in EVENTS {
        assert_eq!(watch_list.num_watchers(variables[0], event), 1);
        assert_eq!(watch_list.num_watchers(variables[1], event), 1);
        assert_eq!(watch_list.num_watchers(variables[2], event), 1);
    }
}

fn failed() -> Option<Learned> {
    Some(Learned::Failed(Inconsistency::Conflict {
        conflict_nogood: Vec::new().into(),
    }))
}

#[test]
fn a_round_without_a_conflict_ends_by_what_is_fixed_and_decided() {
    for level in [0, 1, 7] {
        for decided in [false, true] {
            assert_eq!(end_of_round(true, level, true, decided, &None), RoundEnd::Solved);
            assert_eq!(end_of_round(true, level, true, decided, &failed()), RoundEnd::Solved);
        }
        assert_eq!(end_of_round(true, level, false, true, &None), RoundEnd::GoesOn);
        assert_eq!(end_of_round(true, level, false, false, &None), RoundEnd::Stopped);
        assert_eq!(
            end_of_round(true, level, false, false, &Some(Learned::Refuted)),
            RoundEnd::Stopped
        );
    }
}

#[test]
fn a_round_with_a_conflict_ends_by_its_level_and_what_was_learned() {
    for fixed in [false, true] {
        for decided in [false, true] {
            assert_eq!(end_of_round(false, 0, fixed, decided, &None), RoundEnd::Refuted);
            assert_eq!(
                end_of_round(false, 0, fixed, decided, &Some(Learned::Asserted)),
                RoundEnd::Refuted
            );
            assert_eq!(end_of_round(false, 1, fixed, decided, &None), RoundEnd::Stopped);
            assert_eq!(
                end_of_round(false, 3, fixed, decided, &Some(Learned::Refuted)),
                RoundEnd::Refuted
            );
            assert_eq!(
                end_of_round(false, 3, fixed, decided, &Some(Learned::Asserted)),
                RoundEnd::GoesOn
            );
            assert_eq!(end_of_round(false, 2, fixed, decided, &failed()), RoundEnd::GoesOn);
        }
    }
}
