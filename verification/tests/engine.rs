use pumpkin_solver::conflict_analysis::key_value_heap::KeyValueHeap;
use pumpkin_solver::conflict_analysis::predicate_id_generator::PredicateId;
use pumpkin_solver::conflict_analysis::predicate_id_generator::PredicateIdGenerator;
use pumpkin_solver::conflict_analysis::recursive_minimiser::is_subsumed_by;
use pumpkin_solver::engine::propagator_queue::PropagatorQueue;
use pumpkin_solver::identifiers::LocalId;
use pumpkin_solver::identifiers::PropagatorId;
use pumpkin_solver::identifiers::PropagatorVarId;
use pumpkin_solver::predicate::DomainId;
use pumpkin_solver::predicate::Predicate;
use pumpkin_solver::propagation::constructor_context::PropagatorConstructorContext;
use pumpkin_solver::propagation::domain_events::DomainEvents;
use pumpkin_solver::propagation::domain_events::IntDomainEvent;
use pumpkin_solver::propagation::watch_list::WatchListCP;
use pumpkin_solver::propagators::reified::reified_name;
use pumpkin_solver::statistics::StatisticLogger;

#[test]
fn the_queue_runs_lower_priorities_first_and_equal_priorities_in_order() {
    let mut queue = PropagatorQueue::new();
    queue.enqueue_propagator(PropagatorId(0), 3);
    queue.enqueue_propagator(PropagatorId(1), 1);
    queue.enqueue_propagator(PropagatorId(2), 3);
    queue.enqueue_propagator(PropagatorId(3), 1);
    queue.enqueue_propagator(PropagatorId(0), 0);
    assert_eq!(queue.len(), 4);
    assert!(queue.is_propagator_enqueued(PropagatorId(2)));
    assert!(!queue.is_propagator_enqueued(PropagatorId(7)));

    let order: Vec<u32> = std::iter::from_fn(|| queue.pop()).map(|p| p.0).collect();
    assert_eq!(order, vec![1, 3, 0, 2]);
    assert!(queue.is_empty());
    assert_eq!(queue.pop(), None);
}

#[test]
fn the_heap_gives_the_greatest_present_key() {
    let mut heap = KeyValueHeap::default();
    heap.grow(0);
    heap.grow(0);
    heap.grow(0);
    assert_eq!(heap.len(), 3);
    assert_eq!(heap.num_nonremoved_elements(), 0);
    assert_eq!(heap.peek_max(), None);

    heap.restore_key(0, 4);
    heap.restore_key(2, 9);
    heap.restore_key(1, 9);
    assert_eq!(heap.num_nonremoved_elements(), 3);
    assert_eq!(heap.get_value(2), 9);
    assert!(heap.is_key_present(1));

    assert_eq!(heap.pop_max(), Some(1));
    assert_eq!(heap.pop_max(), Some(2));
    assert!(!heap.is_key_present(2));
    heap.delete_key(0);
    assert_eq!(heap.pop_max(), None);
    heap.restore_key(0, 1);
    assert_eq!(heap.peek_max(), Some(0));
    heap.clear();
    assert_eq!(heap.len(), 0);
}

#[test]
fn ids_are_given_once() {
    let x = DomainId::new(0);
    let mut generator = PredicateIdGenerator::new();
    let a = generator.get_id(Predicate::lower_bound(x, 1));
    let b = generator.get_id(Predicate::lower_bound(x, 2));
    assert_eq!((a.id, b.id), (0, 1));
    assert_eq!(generator.get_id(Predicate::lower_bound(x, 1)), a);
    assert_eq!(generator.get_predicate(b), Some(Predicate::lower_bound(x, 2)));
    assert_eq!(generator.get_predicate(PredicateId { id: 5 }), None);

    generator.replace_predicate(Predicate::lower_bound(x, 1), Predicate::equal(x, 7));
    assert_eq!(generator.get_predicate(a), Some(Predicate::equal(x, 7)));
    assert_eq!(generator.len(), 2);
    generator.clear();
    assert_eq!(generator.len(), 0);
}

#[test]
fn subsumption_follows_the_constants() {
    let x = DomainId::new(0);
    let y = DomainId::new(1);
    assert!(is_subsumed_by(Predicate::lower_bound(x, 3), Predicate::lower_bound(x, 5)));
    assert!(!is_subsumed_by(Predicate::lower_bound(x, 5), Predicate::lower_bound(x, 3)));
    assert!(!is_subsumed_by(Predicate::lower_bound(y, 3), Predicate::lower_bound(x, 5)));
    assert!(is_subsumed_by(Predicate::not_equal(x, 2), Predicate::lower_bound(x, 5)));
    assert!(is_subsumed_by(Predicate::not_equal(x, 9), Predicate::upper_bound(x, 5)));
    assert!(is_subsumed_by(Predicate::upper_bound(x, 9), Predicate::equal(x, 5)));
    assert!(is_subsumed_by(Predicate::not_equal(x, 9), Predicate::equal(x, 5)));
    assert!(!is_subsumed_by(Predicate::equal(x, 5), Predicate::lower_bound(x, 5)));
    assert!(is_subsumed_by(Predicate::not_equal(x, 9), Predicate::not_equal(x, 9)));
}

#[test]
fn registering_puts_the_propagator_on_the_watch_lists() {
    let mut assignments = pumpkin_solver::assignments::Assignments::new();
    let x = assignments.grow(0, 5);
    let y = assignments.grow(0, 5);
    let mut watch_list = WatchListCP::new();
    watch_list.grow();
    watch_list.grow();

    let mut context = PropagatorConstructorContext::new(watch_list, PropagatorId(4), &assignments);
    assert_eq!(context.get_next_local_id(), LocalId(0));
    let registered = context.register(x, DomainEvents::bounds(), LocalId(2));
    assert_eq!(registered, x);
    assert_eq!(context.get_next_local_id(), LocalId(3));
    let _ = context.register(y, DomainEvents::assign(), LocalId(0));
    assert_eq!(context.get_next_local_id(), LocalId(3));
    let _ = context.register(y, DomainEvents::any_int(), LocalId(u32::MAX));
    assert_eq!(context.get_next_local_id(), LocalId(3));

    let watch_list = context.into_watch_list();
    let watcher = PropagatorVarId {
        propagator: PropagatorId(4),
        variable: LocalId(2),
    };
    assert_eq!(watch_list.num_watchers(x, IntDomainEvent::LowerBound), 1);
    assert_eq!(watch_list.get_watcher(x, IntDomainEvent::UpperBound, 0), watcher);
    assert_eq!(watch_list.num_watchers(x, IntDomainEvent::Assign), 0);
    assert_eq!(watch_list.num_watchers(x, IntDomainEvent::Removal), 0);
    assert_eq!(watch_list.num_watchers(y, IntDomainEvent::Assign), 2);
    assert_eq!(watch_list.num_watchers(y, IntDomainEvent::Removal), 1);
    assert_eq!(watch_list.get_num_domains(), 2);
}

#[test]
fn names_are_put_together() {
    assert_eq!(reified_name("Bin Packing"), "Reified(Bin Packing)");
    let logger = StatisticLogger::new("nogoods_");
    assert_eq!(logger.statistic_name("length"), "nogoods_length");
    assert_eq!(logger.log_statistic("length", "12"), "nogoods_length=12");
}
