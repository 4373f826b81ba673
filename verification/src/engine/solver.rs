//! The solver: variables, propagators, propagation to a fixed point, and
//! the search for a solution.

use vstd::prelude::*;
use crate::assignments::{Assignments, TrailEntry};
use crate::branching::Brancher;
use crate::conflict_analysis::learned_nogood::{LearnedClauseStatistics, LearnedNogood};
use crate::conflict_analysis::resolution_resolver::{
    latest_first, rank_of, ConflictAnalysisNogoodContext, ResolutionResolver,
};
use crate::conflict_analysis::semantic_minimiser::{in_store, SemanticMinimiser};
use crate::conjunction::PropositionalConjunction;
use crate::engine::propagator_queue::{is_queued, PropagatorQueue, QueuedPropagator};
use crate::identifiers::{PropagatorId, PropagatorVarId};
use crate::inconsistency::{lemma_nogood_entailed, Inconsistency, PropagationStatusCP};
use crate::literal::Literal;
use crate::predicate::{legal_value, lemma_double_negation, meets, DomainId, Predicate};
use crate::propagation::constructor_context::PropagatorConstructorContext;
use crate::propagation::contexts::{PropagationContext, PropagationContextMut};
use crate::propagation::domain_events::{IntDomainEvent, OpaqueDomainEvent};
use crate::propagation::propagator::{alike, EnqueueDecision, Propagator};
use crate::propagation::watch_list::WatchListCP;
use crate::propagators::bin_packing::{items_of, lemma_packing_rearranged, BinPackingPropagator};
use crate::propagators::reified::lemma_negation_allowed;
use crate::propagators::packing::{
    all_fixed, assigned_values, bin_sum, is_packing, lemma_packing_same,
};
use crate::reason::{Reason, ReasonView};
use crate::solution::Solution;

verus! {

/// The result of a search for a solution.
#[derive(Debug)]
pub enum SatisfactionResult {
    /// Each variable has the one value that the solution gives it.
    Satisfiable(Solution),
    /// There is a conflict that no decision led to.
    Unsatisfiable,
    /// The search stopped before it found either.
    Unknown,
}

/// What the search makes of a learned nogood.
#[derive(Debug)]
pub enum Learned {
    /// The nogood holds no predicate: there is no solution.
    Refuted,
    /// The first predicate of the nogood was made false.
    Asserted,
    /// The first predicate of the nogood cannot be made false: the
    /// inconsistency is the next conflict.
    Failed(Inconsistency),
}

/// How a round of the search ends.
#[derive(Clone, Copy, Debug, PartialEq, Eq, Structural)]
pub enum RoundEnd {
    /// Each variable is fixed at a fixed point: the store is a solution.
    Solved,
    /// There is no solution.
    Refuted,
    /// The search gives up.
    Stopped,
    /// Another round follows.
    GoesOn,
}

/// How a round ends, by what happened in it. After a propagation without a
/// conflict the round has found a solution where each variable is fixed;
/// otherwise the search goes on if a decision was made, and gives up if
/// none was. A conflict at the root refutes the problem. Above the root
/// the round ends by what was learned from the conflict: nothing, and the
/// search gives up; a nogood without a predicate, and the problem is
/// refuted; any other nogood, and the search goes on.
pub open spec fn round_end(
    consistent: bool,
    level: int,
    all_fixed: bool,
    decided: bool,
    learned: Option<Learned>,
) -> RoundEnd {
    if consistent {
        if all_fixed {
            RoundEnd::Solved
        } else if decided {
            RoundEnd::GoesOn
        } else {
            RoundEnd::Stopped
        }
    } else if level == 0 {
        RoundEnd::Refuted
    } else {
        match learned {
            None => RoundEnd::Stopped,
            Some(Learned::Refuted) => RoundEnd::Refuted,
            Some(_) => RoundEnd::GoesOn,
        }
    }
}

/// How a round of the search ends: whether the propagation met no
/// conflict, the decision level at which it ended, whether each variable
/// was fixed then, whether a decision was made, and what was made of the
/// nogood that was learned, if one was.
pub fn end_of_round(
    consistent: bool,
    level: usize,
    all_fixed: bool,
    decided: bool,
    learned: &Option<Learned>,
) -> (r: RoundEnd)
    ensures
        r == round_end(consistent, level as int, all_fixed, decided, *learned),
{
    if consistent {
        if all_fixed {
            RoundEnd::Solved
        } else if decided {
            RoundEnd::GoesOn
        } else {
            RoundEnd::Stopped
        }
    } else if level == 0 {
        RoundEnd::Refuted
    } else {
        match learned {
            None => RoundEnd::Stopped,
            Some(Learned::Refuted) => RoundEnd::Refuted,
            Some(_) => RoundEnd::GoesOn,
        }
    }
}

/// Whether `nogood` is what conflict analysis extracts from a conflict that
/// a store above the root entails: the analysis has lost no predicate of
/// the conflict, holds one predicate of the current level at most, and
/// each predicate that it holds comes from the conflict and is in its
/// place.
pub open spec fn analysed(nogood: Seq<Predicate>) -> bool {
    exists|
        store: Assignments,
        conflict: Seq<Predicate>,
        end: ResolutionResolver,
        before: LearnedClauseStatistics,
        after: LearnedClauseStatistics,
    |
        {
            &&& store.wf()
            &&& store.level() > 0
            &&& in_store(conflict, &store)
            &&& store.entails(conflict)
            &&& #[trigger] end.extracts(&store, nogood, before, after)
            &&& end.heap_count() <= 1
            &&& #[trigger] end.stems(&store, conflict)
            &&& end.placed(&store)
            &&& end.complete(&store, conflict, conflict.len() as int, true)
        }
}

/// Whether `values` falsifies a predicate of each of the nogoods but the
/// first `from`.
pub open spec fn respects(
    values: spec_fn(DomainId) -> int,
    nogoods: Seq<Seq<Predicate>>,
    from: int,
) -> bool {
    forall|k: int| from <= k < nogoods.len() ==> !meets(values, #[trigger] nogoods[k])
}

/// The kinds of change that a trail entry stands for. A removed bound may
/// have left one value; that it did is not read off the entry.
pub open spec fn events_of(entry: TrailEntry) -> Seq<IntDomainEvent> {
    match entry.predicate {
        Predicate::LowerBound { lower_bound, .. } => if lower_bound == entry.old_upper_bound {
            seq![IntDomainEvent::LowerBound, IntDomainEvent::Assign]
        } else {
            seq![IntDomainEvent::LowerBound]
        },
        Predicate::UpperBound { upper_bound, .. } => if upper_bound == entry.old_lower_bound {
            seq![IntDomainEvent::UpperBound, IntDomainEvent::Assign]
        } else {
            seq![IntDomainEvent::UpperBound]
        },
        Predicate::Equal { equality_constant, .. } => seq![IntDomainEvent::Assign] + (
        if equality_constant > entry.old_lower_bound {
            seq![IntDomainEvent::LowerBound]
        } else {
            seq![]
        }) + (if equality_constant < entry.old_upper_bound {
            seq![IntDomainEvent::UpperBound]
        } else {
            seq![]
        }),
        Predicate::NotEqual { not_equal_constant, .. } => seq![IntDomainEvent::Removal] + (
        if entry.added_hole {
            seq![]
        } else if not_equal_constant == entry.old_lower_bound {
            seq![IntDomainEvent::LowerBound]
        } else {
            seq![IntDomainEvent::UpperBound]
        }),
    }
}

/// The kinds of change that `entry` stands for.
pub fn events_of_entry(entry: &TrailEntry) -> (r: Vec<IntDomainEvent>)
    ensures
        r@ == events_of(*entry),
{
    let mut events: Vec<IntDomainEvent> = Vec::new();
    match entry.predicate {
        Predicate::LowerBound { lower_bound, .. } => {
            events.push(IntDomainEvent::LowerBound);
            if lower_bound == entry.old_upper_bound {
                events.push(IntDomainEvent::Assign);
            }
        },
        Predicate::UpperBound { upper_bound, .. } => {
            events.push(IntDomainEvent::UpperBound);
            if upper_bound == entry.old_lower_bound {
                events.push(IntDomainEvent::Assign);
            }
        },
        Predicate::Equal { equality_constant, .. } => {
            events.push(IntDomainEvent::Assign);
            if equality_constant > entry.old_lower_bound {
                events.push(IntDomainEvent::LowerBound);
            }
            if equality_constant < entry.old_upper_bound {
                events.push(IntDomainEvent::UpperBound);
            }
        },
        Predicate::NotEqual { not_equal_constant, .. } => {
            events.push(IntDomainEvent::Removal);
            if !entry.added_hole {
                if not_equal_constant == entry.old_lower_bound {
                    events.push(IntDomainEvent::LowerBound);
                } else {
                    events.push(IntDomainEvent::UpperBound);
                }
            }
        },
    }
    proof {
        assert(events@ =~= events_of(*entry));
    }
    events
}

/// A solver for constraints that are given as propagators of one type.
pub struct ConstraintSatisfactionSolver<P: Propagator> {
    assignments: Assignments,
    watch_list: WatchListCP,
    propagators: Vec<P>,
    queue: PropagatorQueue,
    resolver: ResolutionResolver,
    semantic_minimiser: SemanticMinimiser,
    counters: LearnedClauseStatistics,
    /// Whether the store has not changed since each propagator ran from
    /// scratch on it and found nothing to do.
    at_fixed_point: bool,
    /// The nogoods that the search has learned.
    learned: Ghost<Seq<Seq<Predicate>>>,
}

impl<P: Propagator> ConstraintSatisfactionSolver<P> {
    /// The domains and the trail.
    pub closed spec fn store(&self) -> &Assignments {
        &self.assignments
    }

    /// The registered propagators.
    pub closed spec fn propagators(&self) -> Seq<P> {
        self.propagators@
    }

    /// The propagators that are waiting to run.
    pub closed spec fn queued(&self) -> Seq<QueuedPropagator> {
        self.queue@
    }

    /// The watch lists.
    pub closed spec fn watch_list(&self) -> &WatchListCP {
        &self.watch_list
    }

    /// What conflict analysis has counted.
    pub closed spec fn counters(&self) -> LearnedClauseStatistics {
        self.counters
    }

    /// The nogoods that the search has learned, in the order in which it
    /// learned them.
    pub closed spec fn learned(&self) -> Seq<Seq<Predicate>> {
        self.learned@
    }

    /// Whether `values` satisfies each registered propagator.
    pub open spec fn solved_by(&self, values: spec_fn(DomainId) -> int) -> bool {
        forall|i: int|
            0 <= i < self.propagators().len() ==> (#[trigger] self.propagators()[i]).satisfied_by(
                values,
            )
    }

    /// Whether the store allows each valuation that satisfies each
    /// propagator of `old` and that the store of `old` allowed.
    pub open spec fn keeps_solutions(&self, old: &Self) -> bool {
        forall|values: spec_fn(DomainId) -> int| #[trigger]
            old.solved_by(values) && old.store().allows(values) ==> self.store().allows(values)
    }

    /// Whether the store allows no valuation that satisfies each
    /// propagator.
    pub open spec fn has_no_solution(&self) -> bool {
        forall|values: spec_fn(DomainId) -> int|
            !(#[trigger] self.solved_by(values) && self.store().allows(values))
    }

    /// Whether `values` satisfies each propagator of `start`, gives each
    /// variable a value that its domain had at the root of `start`, and
    /// falsifies a predicate of each nogood that was learned since.
    pub open spec fn survives(&self, start: &Self, values: spec_fn(DomainId) -> int) -> bool {
        &&& start.solved_by(values)
        &&& start.store().allows_at_root(values)
        &&& respects(values, self.learned(), start.learned().len() as int)
    }

    /// Whether the root of the store allows each valuation that survives.
    pub open spec fn root_kept(&self, start: &Self) -> bool {
        forall|values: spec_fn(DomainId) -> int| #[trigger]
            self.survives(start, values) ==> self.store().allows_at_root(values)
    }

    /// Whether no valuation survives.
    pub open spec fn root_refuted(&self, start: &Self) -> bool {
        forall|values: spec_fn(DomainId) -> int| !#[trigger] self.survives(start, values)
    }

    /// What satisfies each propagator of a solver satisfies each of them
    /// later.
    pub proof fn lemma_still_solved(&self, old: &Self, values: spec_fn(DomainId) -> int)
        requires
            self.same_propagators(old),
            old.solved_by(values),
        ensures
            self.solved_by(values),
    {
        assert forall|i: int| 0 <= i < self.propagators().len() implies (
        #[trigger] self.propagators()[i]).satisfied_by(values) by {
            assert(alike(&self.propagators()[i], &old.propagators()[i]));
            assert(old.propagators()[i].satisfied_by(values));
        }
    }

    /// Solutions that are kept twice are kept.
    pub proof fn lemma_keeps_chain(&self, middle: &Self, first: &Self)
        requires
            self.keeps_solutions(middle),
            middle.keeps_solutions(first),
            middle.same_propagators(first),
        ensures
            self.keeps_solutions(first),
    {
        assert forall|values: spec_fn(DomainId) -> int| #[trigger]
            first.solved_by(values) && first.store().allows(values) implies self.store().allows(
            values,
        ) by {
            middle.lemma_still_solved(first, values);
        }
    }

    /// Where none of the solutions that were kept is left, there was none.
    pub proof fn lemma_refuted_chain(&self, first: &Self)
        requires
            self.has_no_solution(),
            self.keeps_solutions(first),
            self.same_propagators(first),
        ensures
            first.has_no_solution(),
    {
        assert forall|values: spec_fn(DomainId) -> int|
            !(#[trigger] first.solved_by(values) && first.store().allows(values)) by {
            if first.solved_by(values) && first.store().allows(values) {
                self.lemma_still_solved(first, values);
            }
        }
    }

    /// Whether the solver is at a fixed point: since the store last changed,
    /// the from-scratch propagation of each registered propagator has run
    /// on it, has reported no inconsistency and has left it as it was.
    pub closed spec fn settled(&self) -> bool {
        self.at_fixed_point
    }

    /// Whether the store is one of which each registered propagator's
    /// promise for its fixed points holds.
    pub open spec fn quiet(&self) -> bool {
        forall|i: int|
            0 <= i < self.propagators().len() ==> (#[trigger] self.propagators()[i]).at_fixed_point(
                self.store(),
            )
    }

    /// The store is well formed, each variable has watch lists, each
    /// propagator speaks of variables of the store, and at a fixed point no
    /// propagator waits and the store is quiet.
    pub open spec fn wf(&self) -> bool {
        &&& self.store().wf()
        &&& self.watch_list().num_domains() == self.store().num_domains()
        &&& self.propagators().len() <= u32::MAX
        &&& (forall|i: int|
            0 <= i < self.propagators().len() ==> (#[trigger] self.propagators()[i]).scope()
                <= self.store().num_domains())
        &&& (self.settled() ==> self.queued().len() == 0 && self.quiet())
    }

    /// Whether `self` has the propagators of `old`, in the variables that
    /// they speak of.
    pub open spec fn same_propagators(&self, old: &Self) -> bool {
        &&& self.propagators().len() == old.propagators().len()
        &&& (forall|i: int|
            0 <= i < old.propagators().len()
                ==> alike(&(#[trigger] self.propagators()[i]), &old.propagators()[i]))
    }

    pub fn new() -> (r: Self)
        ensures
            r.wf(),
            r.store().num_domains() == 0,
            r.store().trail_len() == 0,
            r.store().level() == 0,
            r.propagators().len() == 0,
            r.learned() == Seq::<Seq<Predicate>>::empty(),
    {
        ConstraintSatisfactionSolver {
            assignments: Assignments::new(),
            watch_list: WatchListCP::new(),
            propagators: Vec::new(),
            queue: PropagatorQueue::new(),
            resolver: ResolutionResolver::new(),
            semantic_minimiser: SemanticMinimiser::new(),
            counters: LearnedClauseStatistics::new(),
            at_fixed_point: false,
            learned: Ghost(Seq::empty()),
        }
    }

    pub fn assignments(&self) -> (r: &Assignments)
        ensures
            r == self.store(),
    {
        &self.assignments
    }

    pub fn get_counters(&self) -> (r: LearnedClauseStatistics)
        ensures
            r == self.counters(),
    {
        self.counters
    }

    pub fn num_propagators(&self) -> (r: usize)
        ensures
            r == self.propagators().len(),
    {
        self.propagators.len()
    }

    pub fn is_at_fixed_point(&self) -> (r: bool)
        ensures
            r == self.settled(),
    {
        self.at_fixed_point
    }

    /// Creates a variable with the domain `lower_bound..=upper_bound`.
    pub fn new_bounded_integer(&mut self, lower_bound: i32, upper_bound: i32) -> (r: DomainId)
        requires
            old(self).wf(),
            legal_value(lower_bound as int),
            legal_value(upper_bound as int),
            lower_bound <= upper_bound,
            old(self).store().num_domains() < u32::MAX,
        ensures
            final(self).wf(),
            final(self).same_propagators(old(self)),
            r.index() == old(self).store().num_domains(),
            final(self).store().num_domains() == old(self).store().num_domains() + 1,
            final(self).store().level() == old(self).store().level(),
            final(self).store().trail_len() == old(self).store().trail_len(),
            forall|v: int|
                #[trigger] final(self).store().contains(r, v) <==> lower_bound <= v <= upper_bound,
            forall|x: DomainId, v: int|
                x != r ==> (#[trigger] final(self).store().contains(x, v)
                    <==> old(self).store().contains(x, v)),
    {
        self.watch_list.grow();
        self.at_fixed_point = false;
        self.assignments.grow(lower_bound, upper_bound)
    }

    /// Creates a 0/1 variable and the literal that is true where it is 1.
    pub fn new_literal(&mut self) -> (r: Literal)
        requires
            old(self).wf(),
            old(self).store().num_domains() < u32::MAX,
        ensures
            final(self).wf(),
            final(self).same_propagators(old(self)),
            r.predicate() == (Predicate::LowerBound {
                domain_id: DomainId { id: old(self).store().num_domains() as u32 },
                lower_bound: 1,
            }),
            final(self).store().num_domains() == old(self).store().num_domains() + 1,
            final(self).store().level() == old(self).store().level(),
    {
        let id = self.new_bounded_integer(0, 1);
        Literal::new(Predicate::LowerBound { domain_id: id, lower_bound: 1 })
    }

    pub fn lower_bound(&self, var: DomainId) -> (r: i32)
        requires
            self.wf(),
            self.store().has(var),
        ensures
            r == self.store().lower(var),
    {
        self.assignments.get_lower_bound(var)
    }

    pub fn upper_bound(&self, var: DomainId) -> (r: i32)
        requires
            self.wf(),
            self.store().has(var),
        ensures
            r == self.store().upper(var),
    {
        self.assignments.get_upper_bound(var)
    }

    /// The watcher at position `w` of the list for the change `e` of the
    /// trail entry `i`.
    pub open spec fn watcher_at(&self, i: int, e: int, w: int) -> PropagatorVarId {
        self.watch_list().watchers(
            self.store().entry(i).predicate.domain(),
            events_of(self.store().entry(i))[e],
        )[w]
    }

    /// Whether `propagator` watches a change that one of the trail entries
    /// from position `from` on stands for.
    pub open spec fn watches_change(&self, from: int, propagator: PropagatorId) -> bool {
        exists|i: int, e: int, w: int|
            {
                &&& from <= i < self.store().trail_len()
                &&& 0 <= e < events_of(self.store().entry(i)).len()
                &&& 0 <= w < self.watch_list().watchers(
                    self.store().entry(i).predicate.domain(),
                    events_of(self.store().entry(i))[e],
                ).len()
                &&& (#[trigger] self.watcher_at(i, e, w)).propagator == propagator
            }
    }

    /// Lets the watchers of the variables that changed since the trail had
    /// the length `from` decide whether they are to run: each is told of
    /// the change under its local id, and waits to run if it asks for it.
    /// A propagator that waits goes on waiting, and no propagator comes to
    /// wait that watches none of the changes.
    fn notify_since(&mut self, from: usize)
        requires
            old(self).wf(),
            !old(self).settled(),
            from <= old(self).store().trail_len(),
        ensures
            final(self).wf(),
            !final(self).settled(),
            final(self).store() == old(self).store(),
            final(self).watch_list() == old(self).watch_list(),
            final(self).same_propagators(old(self)),
            final(self).counters() == old(self).counters(),
            final(self).learned() == old(self).learned(),
            from == old(self).store().trail_len() ==> final(self).queued() == old(self).queued(),
            forall|p: PropagatorId| #[trigger]
                is_queued(old(self).queued(), p) ==> is_queued(final(self).queued(), p),
            forall|p: PropagatorId| #[trigger]
                is_queued(final(self).queued(), p) ==> is_queued(old(self).queued(), p)
                    || old(self).watches_change(from as int, p),
    {
        let ghost start = *self;
        let length = self.assignments.num_trail_entries();
        let mut index = from;
        while index < length
            invariant
                self.wf(),
                !self.settled(),
                start.wf(),
                self.assignments == start.assignments,
                self.watch_list == start.watch_list,
                self.counters == start.counters,
                self.learned == start.learned,
                self.same_propagators(&start),
                length == self.assignments.trail_len(),
                from <= index <= length,
                index == from ==> self.queue@ == start.queue@,
                forall|p: PropagatorId| #[trigger]
                    is_queued(start.queue@, p) ==> is_queued(self.queue@, p),
                forall|p: PropagatorId| #[trigger]
                    is_queued(self.queue@, p) ==> is_queued(start.queue@, p)
                        || start.watches_change(from as int, p),
            decreases length - index,
        {
            proof {
                self.assignments.lemma_step(index as int);
            }
            let domain = self.assignments.get_trail_entry(index).predicate.get_domain();
            let events = events_of_entry(self.assignments.get_trail_entry(index));
            let mut e: usize = 0;
            while e < events.len()
                invariant
                    self.wf(),
                    !self.settled(),
                    start.wf(),
                    self.assignments == start.assignments,
                    self.watch_list == start.watch_list,
                    self.counters == start.counters,
                self.learned == start.learned,
                    self.same_propagators(&start),
                    self.assignments.has(domain),
                    e <= events.len(),
                    from <= index < self.assignments.trail_len(),
                    events@ == events_of(self.assignments.entry(index as int)),
                    domain == self.assignments.entry(index as int).predicate.domain(),
                    forall|p: PropagatorId| #[trigger]
                        is_queued(start.queue@, p) ==> is_queued(self.queue@, p),
                    forall|p: PropagatorId| #[trigger]
                        is_queued(self.queue@, p) ==> is_queued(start.queue@, p)
                            || start.watches_change(from as int, p),
                decreases events.len() - e,
            {
                let event = events[e];
                let watchers = self.watch_list.num_watchers(domain, event);
                let mut w: usize = 0;
                while w < watchers
                    invariant
                        self.wf(),
                        !self.settled(),
                        start.wf(),
                        self.assignments == start.assignments,
                        self.counters == start.counters,
                self.learned == start.learned,
                        self.same_propagators(&start),
                        self.watch_list == start.watch_list,
                        self.assignments.has(domain),
                        watchers == self.watch_list.watchers(domain, event).len(),
                        w <= watchers,
                        from <= index < self.assignments.trail_len(),
                        events@ == events_of(self.assignments.entry(index as int)),
                        domain == self.assignments.entry(index as int).predicate.domain(),
                        e < events.len(),
                        event == events@[e as int],
                        forall|p: PropagatorId| #[trigger]
                            is_queued(start.queue@, p) ==> is_queued(self.queue@, p),
                        forall|p: PropagatorId| #[trigger]
                            is_queued(self.queue@, p) ==> is_queued(start.queue@, p)
                                || start.watches_change(from as int, p),
                    decreases watchers - w,
                {
                    let watcher = self.watch_list.get_watcher(domain, event, w);
                    let propagator = watcher.propagator.0 as usize;
                    if propagator < self.propagators.len() {
                        let ghost before = *self;
                        assert(before.propagators()[propagator as int].scope()
                            <= self.assignments.num_domains());
                        let decision = self.propagators[propagator].notify(
                            PropagationContext::new(&self.assignments),
                            watcher.variable,
                            OpaqueDomainEvent::from(event),
                        );
                        proof {
                            assert forall|i: int|
                                0 <= i < before.propagators().len() implies alike(
                                &(#[trigger] self.propagators()[i]),
                                &before.propagators()[i],
                            ) by {}
                        }
                        if decision == EnqueueDecision::Enqueue {
                            let priority = self.propagators[propagator].priority();
                            let ghost waiting = self.queue@;
                            self.queue.enqueue_propagator(watcher.propagator, priority);
                            proof {
                                let now = self.queue@;
                                assert(start.watcher_at(index as int, e as int, w as int)
                                    == watcher);
                                assert(start.watches_change(from as int, watcher.propagator));
                                assert forall|p: PropagatorId| #[trigger]
                                    is_queued(start.queue@, p) implies is_queued(now, p) by {
                                    let k = choose|k: int|
                                        0 <= k < waiting.len() && (#[trigger] waiting[k]).propagator
                                            == p;
                                    assert(now[k].propagator == p);
                                }
                                assert forall|p: PropagatorId| #[trigger]
                                    is_queued(now, p) implies is_queued(start.queue@, p)
                                    || start.watches_change(from as int, p) by {
                                    let k = choose|k: int|
                                        0 <= k < now.len() && (#[trigger] now[k]).propagator == p;
                                    if k < waiting.len() {
                                        assert(waiting[k].propagator == p);
                                        assert(is_queued(waiting, p));
                                    }
                                }
                            }
                        }
                    }
                    w += 1;
                }
                e += 1;
            }
            index += 1;
        }
    }

    /// Runs one propagator, from scratch or not, and lets the watchers of
    /// what it changed decide whether they are to run. Returns whether the
    /// propagator changed the store.
    fn run_propagator(&mut self, index: usize, from_scratch: bool) -> (r: Result<
        bool,
        Inconsistency,
    >)
        requires
            old(self).wf(),
            !old(self).settled(),
            index < old(self).propagators().len(),
        ensures
            final(self).wf(),
            final(self).store().extends(old(self).store()),
            final(self).same_propagators(old(self)),
            final(self).counters() == old(self).counters(),
            final(self).learned() == old(self).learned(),
            final(self).watch_list() == old(self).watch_list(),
            r matches Err(e) ==> e.holds_in(final(self).store()),
            r matches Ok(changed)
                ==> changed == (final(self).store().trail_len() > old(self).store().trail_len()),
            from_scratch && r == Ok::<bool, Inconsistency>(false) ==> final(self).propagators()
                == old(self).propagators() && forall|later: Assignments|
                later.wf() && #[trigger] later.unchanged_since(final(self).store())
                    ==> final(self).propagators()[index as int].at_fixed_point(&later),
            r matches Ok(changed) ==> !changed && !old(self).settled() ==> final(self).queued()
                == old(self).queued(),
            r matches Ok(changed) ==> !changed ==> final(self).settled() == old(self).settled(),
            !old(self).settled() ==> !final(self).settled(),
            final(self).keeps_solutions(old(self)),
            r is Err ==> old(self).has_no_solution(),
    {
        let ghost start = *self;
        let before = self.assignments.num_trail_entries();
        let mut assignments = Assignments::new();
        core::mem::swap(&mut assignments, &mut self.assignments);
        let mut context = PropagationContextMut::new(assignments, PropagatorId(index as u32));
        proof {
            assert(context.reification_predicates() =~= Seq::<Predicate>::empty());
            assert(start.propagators()[index as int].scope() <= context.store().num_domains());
        }
        let result = if from_scratch {
            self.propagators[index].debug_propagate_from_scratch(&mut context)
        } else {
            self.propagators[index].propagate(&mut context)
        };
        self.assignments = context.into_assignments();
        proof {
            assert forall|i: int| 0 <= i < start.propagators().len() implies alike(
                &(#[trigger] self.propagators()[i]),
                &start.propagators()[i],
            ) by {}
            assert forall|values: spec_fn(DomainId) -> int| #[trigger]
                start.solved_by(values) && start.store().allows(
                    values,
                ) implies self.store().allows(values) by {
                assert(start.propagators()[index as int].satisfied_by(values));
            }
            if result is Err {
                assert forall|values: spec_fn(DomainId) -> int|
                    !(#[trigger] start.solved_by(values) && start.store().allows(values)) by {
                    if start.solved_by(values) {
                        assert(start.propagators()[index as int].satisfied_by(values));
                    }
                }
            }
        }
        let ghost run = *self;
        let outcome = self.take_status(result, before);
        proof {
            assert forall|i: int| 0 <= i < start.propagators().len() implies alike(
                &(#[trigger] self.propagators()[i]),
                &start.propagators()[i],
            ) by {
                assert(alike(&run.propagators()[i], &start.propagators()[i]));
            }
        }
        outcome
    }

    /// Takes what a propagator reported after it ran on a trail of `before`
    /// entries. An inconsistency is handed on as it is, and no propagator
    /// waits any more. Otherwise the result says whether the trail has
    /// grown, and the watchers of what changed decide whether they are to
    /// run.
    pub fn take_status(&mut self, status: PropagationStatusCP, before: usize) -> (r: Result<
        bool,
        Inconsistency,
    >)
        requires
            old(self).wf(),
            !old(self).settled(),
            before <= old(self).store().trail_len(),
        ensures
            final(self).wf(),
            !final(self).settled(),
            final(self).store() == old(self).store(),
            final(self).same_propagators(old(self)),
            final(self).counters() == old(self).counters(),
            final(self).learned() == old(self).learned(),
            final(self).watch_list() == old(self).watch_list(),
            match status {
                Err(e) => r == Err::<bool, Inconsistency>(e) && final(self).queued()
                    == Seq::<QueuedPropagator>::empty()
                        && final(self).propagators() == old(self).propagators(),
                Ok(_) => r == Ok::<bool, Inconsistency>(old(self).store().trail_len() > before),
            },
            status is Ok && old(self).store().trail_len() == before ==> final(self).queued()
                == old(self).queued() && final(self).propagators() == old(self).propagators(),
    {
        match status {
            Err(e) => {
                self.queue.clear();
                Err(e)
            },
            Ok(_) => {
                let changed = self.assignments.num_trail_entries() > before;
                if changed {
                    self.notify_since(before);
                }
                Ok(changed)
            },
        }
    }

    /// Runs the waiting propagators, and then each propagator from scratch,
    /// until a round of from-scratch propagation changes nothing.
    ///
    /// At a fixed point nothing is done: a second call changes nothing.
    pub fn propagate(&mut self) -> (r: Result<(), Inconsistency>)
        requires
            old(self).wf(),
        ensures
            final(self).wf(),
            final(self).store().extends(old(self).store()),
            final(self).same_propagators(old(self)),
            final(self).counters() == old(self).counters(),
            final(self).learned() == old(self).learned(),
            r matches Err(e) ==> e.holds_in(final(self).store()),
            r is Ok ==> final(self).settled() && final(self).quiet(),
            old(self).settled() ==> r is Ok && final(self).store() == old(self).store()
                && final(self).queued() == old(self).queued()
                && final(self).propagators() == old(self).propagators(),
            final(self).keeps_solutions(old(self)),
            r is Err ==> old(self).has_no_solution(),
    {
        proof {
            self.assignments.lemma_extends_reflexive();
        }
        if self.at_fixed_point {
            return Ok(());
        }
        let ghost start = *self;
        let mut done = false;
        while !done
            invariant
                self.wf(),
                start.wf(),
                start == *old(self),
                !start.settled(),
                self.store().extends(start.store()),
                self.same_propagators(&start),
                self.counters == start.counters,
                self.keeps_solutions(&start),
                self.learned == start.learned,
                done ==> self.settled(),
                !done ==> !self.settled(),
            decreases
                    (if done {
                        0int
                    } else {
                        1int
                    }),
                    self.store().slack(),
        {
            let ghost round = *self;
            proof {
                self.assignments.lemma_slack(&self.assignments);
            }
            let mut changed_any = false;
            // The waiting propagators, in the order of their priorities.
            while self.queue.len() > 0
                invariant
                    self.wf(),
                    start.wf(),
                    round.wf(),
                    start == *old(self),
                    !start.settled(),
                    !self.settled(),
                    self.store().extends(start.store()),
                    self.store().extends(round.store()),
                    self.same_propagators(&start),
                    self.counters == start.counters,
                    self.keeps_solutions(&start),
                self.learned == start.learned,
                    0 <= self.store().slack() <= round.store().slack(),
                    changed_any ==> self.store().slack() < round.store().slack(),
                decreases self.store().slack(), self.queue@.len(),
            {
                let ghost before = *self;
                let next = self.queue.pop().unwrap();
                let index = next.0 as usize;
                if index < self.propagators.len() {
                    let ghost popped = *self;
                    match self.run_propagator(index, false) {
                        Err(e) => {
                            proof {
                                self.assignments.lemma_extends_transitive(
                                    &before.assignments,
                                    &start.assignments,
                                );
                                self.lemma_same_propagators(&popped, &start);
                                popped.lemma_refuted_chain(&start);
                            }
                            return Err(e);
                        },
                        Ok(changed) => {
                            proof {
                                self.assignments.lemma_extends_transitive(
                                    &before.assignments,
                                    &start.assignments,
                                );
                                self.assignments.lemma_extends_transitive(
                                    &before.assignments,
                                    &round.assignments,
                                );
                                self.assignments.lemma_slack(&before.assignments);
                                self.lemma_same_propagators(&popped, &start);
                                self.lemma_keeps_chain(&popped, &start);
                            }
                            if changed {
                                changed_any = true;
                            }
                        },
                    }
                }
            }
            // Each propagator from scratch.
            let count = self.propagators.len();
            let mut index: usize = 0;
            while index < count
                invariant
                    self.wf(),
                    start.wf(),
                    round.wf(),
                    start == *old(self),
                    !start.settled(),
                    !self.settled(),
                    count == self.propagators().len(),
                    index <= count,
                    self.store().extends(start.store()),
                    self.store().extends(round.store()),
                    self.same_propagators(&start),
                    self.counters == start.counters,
                    self.keeps_solutions(&start),
                self.learned == start.learned,
                    0 <= self.store().slack() <= round.store().slack(),
                    changed_any ==> self.store().slack() < round.store().slack(),
                    !changed_any ==> self.queued().len() == 0,
                    !changed_any ==> forall|i: int, later: Assignments|
                        0 <= i < index && later.wf() && #[trigger] later.unchanged_since(
                            self.store(),
                        ) ==> (#[trigger] self.propagators()[i]).at_fixed_point(&later),
                decreases count - index,
            {
                let ghost before = *self;
                match self.run_propagator(index, true) {
                    Err(e) => {
                        proof {
                            self.assignments.lemma_extends_transitive(
                                &before.assignments,
                                &start.assignments,
                            );
                            self.lemma_same_propagators(&before, &start);
                            before.lemma_refuted_chain(&start);
                        }
                        return Err(e);
                    },
                    Ok(changed) => {
                        proof {
                            self.assignments.lemma_extends_transitive(
                                &before.assignments,
                                &start.assignments,
                            );
                            self.assignments.lemma_extends_transitive(
                                &before.assignments,
                                &round.assignments,
                            );
                            self.assignments.lemma_slack(&before.assignments);
                            self.lemma_same_propagators(&before, &start);
                            self.lemma_keeps_chain(&before, &start);
                            if !changed && !changed_any {
                                assert forall|i: int, later: Assignments|
                                    0 <= i < index + 1 && later.wf()
                                        && #[trigger] later.unchanged_since(
                                        self.store(),
                                    ) implies (#[trigger] self.propagators()[i]).at_fixed_point(
                                    &later,
                                ) by {
                                    if i < index {
                                        later.lemma_unchanged_transitive(
                                            self.store(),
                                            before.store(),
                                        );
                                        assert(before.propagators()[i].at_fixed_point(&later));
                                    }
                                }
                            }
                        }
                        if changed {
                            changed_any = true;
                        }
                    },
                }
                index += 1;
            }
            if !changed_any {
                proof {
                    self.assignments.lemma_extends_reflexive();
                    assert forall|i: int| 0 <= i < self.propagators().len() implies (
                    #[trigger] self.propagators()[i]).at_fixed_point(self.store()) by {
                        assert(self.store().unchanged_since(self.store()));
                    }
                }
                self.at_fixed_point = true;
                done = true;
            }
        }
        Ok(())
    }

    proof fn lemma_same_propagators(&self, middle: &Self, first: &Self)
        requires
            self.same_propagators(middle),
            middle.same_propagators(first),
        ensures
            self.same_propagators(first),
    {
        assert forall|i: int| 0 <= i < first.propagators().len() implies alike(
            &(#[trigger] self.propagators()[i]),
            &first.propagators()[i],
        ) by {
            assert(alike(&middle.propagators()[i], &first.propagators()[i]));
        }
    }

    /// Adds a propagator: initialises it at the root and propagates.
    /// Fails with the inconsistency that is found at the root; the
    /// propagator is registered all the same. The store keeps each
    /// valuation that it allowed and that satisfies the propagators, the
    /// new one among them, and the inconsistency is found only where there
    /// was no such valuation.
    pub fn add_propagator(&mut self, propagator: P) -> (r: Result<PropagatorId, Inconsistency>)
        requires
            old(self).wf(),
            old(self).store().level() == 0,
            propagator.scope() <= old(self).store().num_domains(),
            propagator.local_ids() <= u32::MAX,
            old(self).propagators().len() < u32::MAX,
        ensures
            final(self).wf(),
            final(self).store().extends(old(self).store()),
            final(self).propagators().len() == old(self).propagators().len() + 1,
            alike(&final(self).propagators()[old(self).propagators().len() as int], &propagator),
            forall|i: int|
                0 <= i < old(self).propagators().len()
                    ==> alike(&(#[trigger] final(self).propagators()[i]), &old(self).propagators()[i]),
            r matches Ok(id) ==> id.0 == old(self).propagators().len() && final(self).settled(),
            r matches Err(e) ==> e.holds_in(final(self).store()),
            final(self).learned() == old(self).learned(),
            forall|values: spec_fn(DomainId) -> int| #[trigger]
                propagator.satisfied_by(values) && old(self).solved_by(values)
                    && old(self).store().allows(values) ==> final(self).store().allows(values),
            r is Err ==> forall|values: spec_fn(DomainId) -> int|
                !(#[trigger] propagator.satisfied_by(values) && old(self).solved_by(values)
                    && old(self).store().allows(values)),
    {
        let ghost start = *self;
        let ghost given = propagator;
        let mut propagator = propagator;
        let id = PropagatorId(self.propagators.len() as u32);
        let mut watch_list = WatchListCP::new();
        core::mem::swap(&mut watch_list, &mut self.watch_list);
        let mut context = PropagatorConstructorContext::new(watch_list, id, &self.assignments);
        let initialised = propagator.initialise_at_root(&mut context);
        self.watch_list = context.into_watch_list();
        let priority = propagator.priority();
        self.propagators.push(propagator);
        self.at_fixed_point = false;
        let ghost registered = *self;
        proof {
            assert forall|values: spec_fn(DomainId) -> int| #[trigger]
                given.satisfied_by(values) && start.solved_by(
                    values,
                ) implies registered.solved_by(values) by {
                assert forall|i: int| 0 <= i < registered.propagators().len() implies (
                #[trigger] registered.propagators()[i]).satisfied_by(values) by {
                    if i < start.propagators().len() {
                        assert(registered.propagators()[i] == start.propagators()[i]);
                        assert(start.propagators()[i].satisfied_by(values));
                    }
                }
            }
            assert forall|i: int| 0 <= i < self.propagators().len() implies (
            #[trigger] self.propagators()[i]).scope() <= self.store().num_domains() by {
                if i < start.propagators().len() {
                    assert(self.propagators()[i] == start.propagators()[i]);
                }
            }
        }
        match initialised {
            Err(conflict_nogood) => {
                proof {
                    self.assignments.lemma_extends_reflexive();
                    assert forall|values: spec_fn(DomainId) -> int|
                        !(#[trigger] given.satisfied_by(values) && start.solved_by(values)
                            && start.store().allows(values)) by {
                        if given.satisfied_by(values) && start.store().allows(values) {
                            start.store().lemma_allowed_meets(values, conflict_nogood@);
                            assert(registered.propagators()[start.propagators().len() as int].satisfied_by(
                                values,
                            ));
                        }
                    }
                }
                return Err(Inconsistency::Conflict { conflict_nogood });
            },
            Ok(_) => {},
        }
        self.queue.enqueue_propagator(id, priority);
        let ghost waiting = *self;
        let outcome = self.propagate();
        proof {
            assert forall|values: spec_fn(DomainId) -> int| #[trigger]
                given.satisfied_by(values) && start.solved_by(values) && start.store().allows(
                    values,
                ) implies self.store().allows(values) && outcome is Ok by {
                assert(registered.solved_by(values));
                assert(waiting.propagators() == registered.propagators());
                assert(waiting.solved_by(values));
                assert(waiting.store().allows(values));
            }
        }
        match outcome {
            Err(e) => Err(e),
            Ok(_) => Ok(id),
        }
    }

    /// Whether each variable has one value left.
    pub fn all_fixed(&self) -> (r: bool)
        requires
            self.wf(),
        ensures
            r == forall|x: DomainId| self.store().has(x) ==> self.store().is_fixed(x),
    {
        let n = self.assignments.get_num_domains();
        proof {
            self.assignments.lemma_num_domains();
        }
        let mut i: usize = 0;
        while i < n
            invariant
                self.wf(),
                n == self.assignments.num_domains(),
                n <= u32::MAX,
                i <= n,
                forall|x: DomainId| x.index() < i ==> self.store().is_fixed(x),
            decreases n - i,
        {
            let x = DomainId::new(i as u32);
            if !self.assignments.is_domain_assigned(x) {
                return false;
            }
            proof {
                assert forall|y: DomainId| y.index() < i + 1 implies self.store().is_fixed(y) by {
                    if y.index() == i {
                        assert(y == x);
                    }
                }
            }
            i += 1;
        }
        true
    }

    /// Tells each propagator that the store went back.
    fn synchronise_propagators(&mut self)
        requires
            old(self).wf(),
            !old(self).settled(),
        ensures
            final(self).wf(),
            final(self).store() == old(self).store(),
            final(self).same_propagators(old(self)),
            final(self).counters() == old(self).counters(),
            final(self).learned() == old(self).learned(),
            final(self).queued() == old(self).queued(),
            final(self).settled() == old(self).settled(),
    {
        let ghost start = *self;
        let count = self.propagators.len();
        let mut index: usize = 0;
        while index < count
            invariant
                self.wf(),
                start.wf(),
                count == self.propagators().len(),
                index <= count,
                self.assignments == start.assignments,
                self.watch_list == start.watch_list,
                self.counters == start.counters,
                self.learned == start.learned,
                self.queue == start.queue,
                self.at_fixed_point == start.at_fixed_point,
                !start.settled(),
                self.same_propagators(&start),
            decreases count - index,
        {
            let ghost before = *self;
            assert(before.propagators()[index as int].scope() <= self.assignments.num_domains());
            let context = PropagationContext::new(&self.assignments);
            self.propagators[index].synchronise(&context);
            proof {
                assert forall|i: int| 0 <= i < start.propagators().len() implies alike(
                    &(#[trigger] self.propagators()[i]),
                    &start.propagators()[i],
                ) by {
                    assert(alike(&before.propagators()[i], &start.propagators()[i]));
                }
            }
            index += 1;
        }
    }

    /// Whether every predicate of the nogood but the first became true at
    /// the backjump level at the latest.
    proof fn lemma_nogood_levels(store: &Assignments, nogood: &LearnedNogood, k: int)
        requires
            store.wf(),
            store.entails(nogood.predicates@),
            latest_first(store, nogood.predicates@),
            nogood.predicates@.len() > 1,
            nogood.backjump_level == store.decision_level_of(nogood.predicates@[1])->0,
            1 <= k < nogood.predicates@.len(),
        ensures
            store.decision_level_of(nogood.predicates@[k]) matches Some(l) && l
                <= nogood.backjump_level,
    {
        let predicates = nogood.predicates@;
        let p = predicates[k];
        let q = predicates[1];
        assert(store.satisfies(p));
        assert(store.satisfies(q));
        assert(rank_of(store, q) >= rank_of(store, p));
        if store.trail_position(p) is Some {
            let i = store.trail_position(p)->0;
            let j = store.trail_position(q)->0;
            assert(store.is_position_of(i, p));
            assert(store.is_position_of(j, q));
            store.lemma_levels(i, j);
        }
    }

    /// Whether `decision` can be made: it speaks of a variable of the store,
    /// which neither satisfies nor falsifies it.
    pub open spec fn can_decide(&self, decision: Predicate) -> bool {
        self.store().has(decision.domain()) && !self.store().satisfies(decision)
            && !self.store().falsifies(decision)
    }

    /// Whether the store `after` is `before` with a new decision level that
    /// `decision` opens.
    pub open spec fn decided(before: &Assignments, after: &Assignments, decision: Predicate) -> bool {
        exists|opened: Assignments| #[trigger]
            opened.opened(before) && opened.wf() && after.posted(
                &opened,
                decision,
                ReasonView::Decision,
            )
    }

    /// Takes the decision of the brancher: where there is one that can be
    /// made, it opens a new decision level, and the watchers of what it
    /// changes decide whether they are to run. Returns whether the search
    /// goes on; where it does not, nothing changes.
    pub fn take_decision(&mut self, decision: Option<Predicate>) -> (r: bool)
        requires
            old(self).wf(),
        ensures
            final(self).wf(),
            final(self).same_propagators(old(self)),
            final(self).counters() == old(self).counters(),
            final(self).learned() == old(self).learned(),
            final(self).watch_list() == old(self).watch_list(),
            r == (decision matches Some(d) && old(self).can_decide(d)),
            !r ==> *final(self) == *old(self),
            r ==> !final(self).settled() && Self::decided(
                old(self).store(),
                final(self).store(),
                decision->0,
            ),
    {
        let decision = match decision {
            Some(decision) => decision,
            None => {
                return false;
            },
        };
        if decision.get_domain().id as usize >= self.assignments.get_num_domains()
            || self.assignments.is_predicate_satisfied(decision)
            || self.assignments.is_predicate_falsified(decision) {
            return false;
        }
        let ghost start = *self;
        let before = self.assignments.num_trail_entries();
        self.assignments.increase_decision_level();
        let ghost opened = self.assignments;
        let posted = self.assignments.post_predicate(decision, Reason::Decision);
        self.at_fixed_point = false;
        proof {
            let v = choose|v: int| #[trigger]
                start.store().contains(decision.domain(), v) && decision.holds(v);
            assert(opened.contains(decision.domain(), v));
            assert(posted is Ok);
            assert(opened.opened(start.store()));
        }
        let ghost made = *self;
        self.notify_since(before);
        proof {
            self.lemma_same_propagators(&made, &start);
        }
        true
    }

    /// Takes a learned nogood after the jump back: the first predicate of
    /// the nogood becomes false, for the reason that the others hold, and
    /// the watchers of what changes decide whether they are to run. A
    /// nogood without a predicate refutes the problem; where the first
    /// predicate cannot be made false, the inconsistency is returned. In
    /// both cases nothing changes but the record of what was learned, to
    /// which the nogood is added in every case.
    pub fn take_nogood(&mut self, nogood: &LearnedNogood) -> (r: Learned)
        requires
            old(self).wf(),
            !old(self).settled(),
            in_store(nogood.predicates@, old(self).store()),
            nogood.predicates@.len() > 0 ==> old(self).store().entails(
                nogood.predicates@.skip(1),
            ),
        ensures
            final(self).wf(),
            !final(self).settled(),
            final(self).same_propagators(old(self)),
            final(self).counters() == old(self).counters(),
            final(self).learned() == old(self).learned().push(nogood.predicates@),
            final(self).watch_list() == old(self).watch_list(),
            nogood.predicates@.len() == 0 ==> r is Refuted
                && final(self).store() == old(self).store()
                && final(self).propagators() == old(self).propagators()
                && final(self).queued() == old(self).queued(),
            nogood.predicates@.len() > 0 && old(self).store().falsifies(
                nogood.predicates@[0].negation(),
            ) ==> final(self).store() == old(self).store()
                && final(self).propagators() == old(self).propagators()
                && final(self).queued() == old(self).queued() && (r matches Learned::Failed(
                Inconsistency::EmptyDomain { predicate, reason },
            ) && predicate == nogood.predicates@[0].negation() && reason@
                == nogood.predicates@.skip(1)),
            nogood.predicates@.len() > 0 && !old(self).store().falsifies(
                nogood.predicates@[0].negation(),
            ) ==> r is Asserted && final(self).store().posted(
                old(self).store(),
                nogood.predicates@[0].negation(),
                ReasonView::Eager(nogood.predicates@.skip(1)),
            ),
    {
        proof {
            self.learned@ = self.learned@.push(nogood.predicates@);
        }
        if nogood.predicates.len() == 0 {
            return Learned::Refuted;
        }
        let ghost start = *self;
        let ghost tail = nogood.predicates@.skip(1);
        let asserting = nogood.predicates[0];
        let mut reason: Vec<Predicate> = Vec::new();
        let mut k: usize = 1;
        while k < nogood.predicates.len()
            invariant
                1 <= k <= nogood.predicates.len(),
                tail == nogood.predicates@.skip(1),
                reason@ == tail.take(k - 1),
            decreases nogood.predicates.len() - k,
        {
            reason.push(nogood.predicates[k]);
            proof {
                assert(tail.take(k as int) =~= tail.take(k - 1).push(tail[k - 1]));
            }
            k += 1;
        }
        proof {
            assert(tail.take(k - 1) =~= tail);
        }
        let negated = asserting.negate();
        let before = self.assignments.num_trail_entries();
        if self.assignments.is_predicate_falsified(negated) {
            Learned::Failed(
                Inconsistency::EmptyDomain {
                    predicate: negated,
                    reason: PropositionalConjunction::new(reason),
                },
            )
        } else {
            let _ = self.assignments.post_predicate(
                negated,
                Reason::Eager(PropositionalConjunction::new(reason)),
            );
            let ghost asserted = *self;
            self.notify_since(before);
            proof {
                self.lemma_same_propagators(&asserted, &start);
            }
            Learned::Asserted
        }
    }

    /// The root allows what survives after a step that leaves the root and
    /// the record of the nogoods as they were.
    proof fn lemma_root_kept(&self, before: &Self, start: &Self)
        requires
            before.root_kept(start),
            self.learned() == before.learned(),
            forall|values: spec_fn(DomainId) -> int| #[trigger]
                before.store().allows_at_root(values) ==> self.store().allows_at_root(values),
        ensures
            self.root_kept(start),
    {
        assert forall|values: spec_fn(DomainId) -> int| #[trigger]
            self.survives(start, values) implies self.store().allows_at_root(values) by {
            assert(before.survives(start, values));
        }
    }

    /// The root allows what survives after a propagation, and nothing
    /// survives a conflict that the propagation met at the root.
    proof fn lemma_propagated(&self, before: &Self, start: &Self, failed: bool)
        requires
            self.wf(),
            before.wf(),
            before.root_kept(start),
            before.same_propagators(start),
            self.learned() == before.learned(),
            self.store().extends(before.store()),
            self.keeps_solutions(before),
            failed ==> before.has_no_solution(),
        ensures
            self.root_kept(start),
            failed && self.store().level() == 0 ==> self.root_refuted(start),
    {
        assert forall|values: spec_fn(DomainId) -> int| #[trigger]
            self.survives(start, values) implies self.store().allows_at_root(values)
            && !(failed && self.store().level() == 0) by {
            assert(before.survives(start, values));
            if before.store().level() > 0 {
                self.store().lemma_root_extends(before.store(), values);
            } else {
                before.lemma_still_solved(start, values);
                before.store().lemma_root_is_store(values);
                self.store().lemma_root_is_store(values);
            }
        }
    }

    /// The root allows what survives after a nogood was taken that the
    /// store entails but for its first predicate. Nothing survives a nogood
    /// without a predicate, nor one that the root entails.
    proof fn lemma_nogood_taken(&self, before: &Self, start: &Self, nogood: Seq<Predicate>)
        requires
            self.wf(),
            before.wf(),
            before.root_kept(start),
            start.learned().len() <= before.learned().len(),
            self.learned() == before.learned().push(nogood),
            in_store(nogood, before.store()),
            nogood.len() > 0 ==> before.store().entails(nogood.skip(1)),
            nogood.len() == 0 || before.store().falsifies(nogood[0].negation())
                ==> self.store() == before.store(),
            nogood.len() > 0 && !before.store().falsifies(nogood[0].negation()) ==> exists|
                reason: ReasonView,
            |
                self.store().posted(before.store(), nogood[0].negation(), reason),
        ensures
            self.root_kept(start),
            nogood.len() == 0 ==> self.root_refuted(start),
            nogood.len() > 0 && before.store().falsifies(nogood[0].negation())
                && before.store().level() == 0 ==> self.root_refuted(start),
    {
        let last = before.learned().len() as int;
        assert(self.learned()[last] == nogood);
        assert forall|values: spec_fn(DomainId) -> int| #[trigger]
            self.survives(start, values) implies self.store().allows_at_root(values)
            && nogood.len() > 0 && !(before.store().falsifies(nogood[0].negation())
            && before.store().level() == 0) by {
            assert(!meets(values, self.learned()[last]));
            assert forall|k: int| start.learned().len() <= k < before.learned().len() implies !meets(
                values,
                #[trigger] before.learned()[k],
            ) by {
                assert(self.learned()[k] == before.learned()[k]);
            }
            assert(before.survives(start, values));
            assert(before.store().allows_at_root(values));
            let first = nogood[0];
            let v = values(first.domain());
            if before.store().level() == 0 {
                let tail = nogood.skip(1);
                before.store().lemma_root_is_store(values);
                self.store().lemma_root_is_store(values);
                before.store().lemma_allowed_meets(values, tail);
                assert forall|k: int| 1 <= k < nogood.len() implies (#[trigger] nogood[k]).holds(
                    values(nogood[k].domain()),
                ) by {
                    assert(tail[k - 1] == nogood[k]);
                }
                assert(!first.holds(v));
                assert(before.store().has(first.domain()));
                assert(before.store().contains(first.domain(), v));
                before.store().lemma_bounds(before.store().trail_len() as int, first.domain());
                lemma_double_negation(first, v);
                if !before.store().falsifies(first.negation()) {
                    lemma_negation_allowed(before.store(), self.store(), first, values);
                }
            } else if !before.store().falsifies(first.negation()) {
                self.store().lemma_root_extends(before.store(), values);
            }
        }
    }

    /// Searches for a solution: propagates to a fixed point, then lets the
    /// brancher decide; on a conflict it learns a nogood, jumps back and
    /// makes the first predicate of the nogood false. The search takes at
    /// most `budget` rounds of propagation, and each round ends as
    /// [`end_of_round`] says.
    ///
    /// A conflict at the root, or a learned nogood without a predicate,
    /// ends the search with `Unsatisfiable`. The search ends with `Unknown`
    /// where the budget runs out, where the brancher has no decision or one
    /// that cannot be made, and where a conflict cannot be analysed.
    ///
    /// Where the result is `Unsatisfiable`, there is no valuation that
    /// satisfies each propagator, gives each variable a value that its
    /// domain had at the root when the search began, and falsifies a
    /// predicate of each nogood that the search has learned. Where it has
    /// learned none, there is no solution within the root. Each nogood
    /// that the search learns is what conflict analysis extracts from a
    /// conflict above the root.
    pub fn satisfy_within<B: Brancher>(&mut self, brancher: &mut B, budget: usize) -> (r:
        SatisfactionResult)
        requires
            old(self).wf(),
        ensures
            final(self).wf(),
            final(self).same_propagators(old(self)),
            final(self).store().num_domains() == old(self).store().num_domains(),
            r matches SatisfactionResult::Satisfiable(solution) ==> {
                &&& final(self).settled()
                &&& solution.num_domains() == final(self).store().num_domains()
                &&& (forall|x: DomainId|
                    final(self).store().has(x) ==> #[trigger] final(self).store().is_fixed(x))
                &&& (forall|x: DomainId|
                    final(self).store().has(x) ==> final(self).store().contains(
                        x,
                        #[trigger] solution.value(x),
                    ))
            },
            r is Satisfiable ==> final(self).quiet(),
            r is Unsatisfiable ==> final(self).store().level() == 0,
            r is Unsatisfiable ==> forall|values: spec_fn(DomainId) -> int|
                !#[trigger] final(self).survives(old(self), values),
            r is Unsatisfiable && final(self).learned() == old(self).learned() ==> forall|
                values: spec_fn(DomainId) -> int,
            |
                !(#[trigger] old(self).solved_by(values) && old(self).store().allows_at_root(
                    values,
                )),
            final(self).learned().len() >= old(self).learned().len(),
            forall|k: int|
                old(self).learned().len() <= k < final(self).learned().len() ==> analysed(
                    #[trigger] final(self).learned()[k],
                ),
            budget == 0 ==> r is Unknown && *final(self) == *old(self),
            budget > 0 && old(self).settled() && (forall|x: DomainId|
                old(self).store().has(x) ==> #[trigger] old(self).store().is_fixed(x)) ==> r is Satisfiable
                && final(self).store() == old(self).store()
                    && final(self).propagators() == old(self).propagators(),
    {
        let ghost start = *self;
        let ghost owed = start.settled() && forall|x: DomainId|
            start.store().has(x) ==> #[trigger] start.store().is_fixed(x);
        let mut remaining = budget;
        let mut pending: Option<Inconsistency> = None;
        while remaining > 0
            invariant
                self.wf(),
                start.wf(),
                start == *old(self),
                owed == (start.settled() && forall|x: DomainId|
                    start.store().has(x) ==> #[trigger] start.store().is_fixed(x)),
                remaining <= budget,
                remaining == budget ==> *self == start && pending is None,
                remaining < budget ==> !owed,
                self.same_propagators(&start),
                self.store().num_domains() == start.store().num_domains(),
                pending matches Some(e) ==> e.holds_in(self.store()),
                self.learned().len() >= start.learned().len(),
                forall|k: int|
                    start.learned().len() <= k < self.learned().len() ==> analysed(
                        #[trigger] self.learned()[k],
                    ),
                self.root_kept(&start),
                pending is Some && self.store().level() == 0 ==> self.root_refuted(&start),
            decreases remaining,
        {
            remaining -= 1;
            let ghost round = *self;
            let ghost carried = pending is Some;
            let outcome = match pending.take() {
                Some(e) => Err(e),
                None => self.propagate(),
            };
            proof {
                self.lemma_same_propagators(&round, &start);
                if !carried {
                    self.lemma_propagated(&round, &start, outcome is Err);
                }
            }
            let level = self.assignments.get_decision_level();
            let consistent = outcome.is_ok();
            let mut fixed = false;
            let mut decided = false;
            let mut learned: Option<Learned> = None;
            match outcome {
                Ok(_) => {
                    fixed = self.all_fixed();
                    if !fixed {
                        let decision = brancher.next_decision(&self.assignments);
                        let ghost deciding = *self;
                        decided = self.take_decision(decision);
                        proof {
                            self.lemma_same_propagators(&deciding, &start);
                            if decided {
                                let opened = choose|opened: Assignments| #[trigger]
                                    opened.opened(deciding.store()) && opened.wf()
                                        && self.store().posted(
                                        &opened,
                                        decision->0,
                                        ReasonView::Decision,
                                    );
                                assert forall|values: spec_fn(DomainId) -> int| #[trigger]
                                    deciding.store().allows_at_root(
                                        values,
                                    ) implies self.store().allows_at_root(values) by {
                                    opened.lemma_root_opened(deciding.store(), values);
                                    self.store().lemma_root_extends(&opened, values);
                                }
                                self.lemma_root_kept(&deciding, &start);
                            }
                        }
                    }
                },
                Err(e) => {
                    if level > 0 {
                        proof {
                            lemma_nogood_entailed(e, &self.assignments);
                        }
                        let ghost failed = *self;
                        let conflict_nogood = e.into_conflict_nogood();
                        let mut assignments = Assignments::new();
                        core::mem::swap(&mut assignments, &mut self.assignments);
                        let mut context = ConflictAnalysisNogoodContext {
                            assignments,
                            conflict_nogood,
                            semantic_minimiser: self.semantic_minimiser,
                            counters: self.counters,
                        };
                        let ghost analysing = *self;
                        let resolved = self.resolver.resolve_conflict(
                            &mut context,
                            brancher,
                            &mut self.propagators,
                        );
                        proof {
                            assert forall|i: int| 0 <= i < start.propagators().len() implies alike(
                                &(#[trigger] self.propagators()[i]),
                                &start.propagators()[i],
                            ) by {
                                assert(alike(&analysing.propagators()[i], &start.propagators()[i]));
                            }
                        }
                        let ghost conflict_store = context.assignments;
                        let ghost extracted = resolved;
                        proof {
                            if extracted is Some {
                                let nogood = extracted->0;
                                let conflict = context.conflict_nogood@;
                                assert forall|t: int|
                                    0 <= t < conflict.len() implies conflict_store.has(
                                    (#[trigger] conflict[t]).domain(),
                                ) && conflict_store.satisfies(conflict[t]) by {
                                    conflict_store.lemma_expands(failed.store(), conflict[t]);
                                }
                                let (end, middle) = choose|
                                    end: ResolutionResolver,
                                    middle: LearnedClauseStatistics,
                                |
                                    {
                                        &&& #[trigger] end.extracts(
                                            &conflict_store,
                                            nogood.predicates@,
                                            middle,
                                            context.counters,
                                        )
                                        &&& end.heap_count() <= 1
                                        &&& end.placed(&conflict_store)
                                        &&& end.stems(&conflict_store, conflict)
                                        &&& end.complete(
                                            &conflict_store,
                                            conflict,
                                            conflict.len() as int,
                                            true,
                                        )
                                    };
                                assert(analysed(nogood.predicates@));
                            }
                        }
                        match resolved {
                            None => {
                                self.assignments = context.assignments;
                                self.counters = context.counters;
                                self.at_fixed_point = false;
                                self.queue.clear();
                                proof {
                                    assert forall|values: spec_fn(DomainId) -> int| #[trigger]
                                        failed.store().allows_at_root(
                                            values,
                                        ) implies self.store().allows_at_root(values) by {
                                        self.store().lemma_root_expands(failed.store(), values);
                                    }
                                    self.lemma_root_kept(&failed, &start);
                                }
                            },
                            Some(nogood) => {
                                context.backtrack(nogood.backjump_level, brancher);
                                self.assignments = context.assignments;
                                self.counters = context.counters;
                                self.at_fixed_point = false;
                                self.queue.clear();
                                let ghost jumped = *self;
                                self.synchronise_propagators();
                                proof {
                                    self.lemma_same_propagators(&jumped, &start);
                                    assert forall|values: spec_fn(DomainId) -> int| #[trigger]
                                        failed.store().allows_at_root(
                                            values,
                                        ) implies self.store().allows_at_root(values) by {
                                        conflict_store.lemma_root_expands(failed.store(), values);
                                        self.store().lemma_root_restored(
                                            &conflict_store,
                                            nogood.backjump_level as int,
                                            values,
                                        );
                                    }
                                    self.lemma_root_kept(&failed, &start);
                                    if nogood.predicates@.len() > 0 {
                                        let tail = nogood.predicates@.skip(1);
                                        assert forall|t: int|
                                            0 <= t < tail.len() implies self.store().satisfies(
                                            #[trigger] tail[t],
                                        ) by {
                                            Self::lemma_nogood_levels(
                                                &conflict_store,
                                                &nogood,
                                                t + 1,
                                            );
                                            self.assignments.lemma_restored_keeps(
                                                &conflict_store,
                                                nogood.backjump_level as int,
                                                nogood.predicates@[t + 1],
                                            );
                                        }
                                    }
                                }
                                let ghost learning = *self;
                                let taken = self.take_nogood(&nogood);
                                proof {
                                    self.lemma_same_propagators(&learning, &start);
                                    self.lemma_nogood_taken(&learning, &start, nogood.predicates@);
                                    assert forall|k: int|
                                        start.learned().len() <= k
                                            < self.learned().len() implies analysed(
                                        #[trigger] self.learned()[k],
                                    ) by {
                                        if k < learning.learned().len() {
                                            assert(self.learned()[k] == learning.learned()[k]);
                                        }
                                    }
                                }
                                learned = Some(taken);
                            },
                        }
                    }
                },
            }
            match end_of_round(consistent, level, fixed, decided, &learned) {
                RoundEnd::Solved => {
                    let solution = Solution::from_assignments(&self.assignments);
                    brancher.on_solution(&solution);
                    return SatisfactionResult::Satisfiable(solution);
                },
                RoundEnd::Refuted => {
                    proof {
                        if self.learned() == start.learned() {
                            assert forall|values: spec_fn(DomainId) -> int|
                                !(#[trigger] start.solved_by(values)
                                    && start.store().allows_at_root(values)) by {
                                if start.solved_by(values) && start.store().allows_at_root(values) {
                                    assert(self.survives(&start, values));
                                }
                            }
                        }
                    }
                    return SatisfactionResult::Unsatisfiable;
                },
                RoundEnd::Stopped => {
                    return SatisfactionResult::Unknown;
                },
                RoundEnd::GoesOn => {
                    if let Some(Learned::Failed(e)) = learned {
                        pending = Some(e);
                    }
                },
            }
        }
        SatisfactionResult::Unknown
    }
}

impl ConstraintSatisfactionSolver<BinPackingPropagator> {
    /// Whether the store, which has fixed each variable, is a packing for
    /// each of the constraints: each item is in one of the bins, and the
    /// load of each bin is the sum of the sizes of the items in it.
    pub open spec fn packed(&self) -> bool {
        forall|i: int|
            0 <= i < self.propagators().len() ==> is_packing(
                (#[trigger] self.propagators()[i]).loads(),
                self.propagators()[i].bins(),
                self.propagators()[i].sizes(),
                assigned_values(self.store()),
            )
    }

    /// Whether `values` is a solution of each constraint within the store.
    pub open spec fn all_packed_by(&self, values: spec_fn(DomainId) -> int) -> bool {
        forall|i: int|
            0 <= i < self.propagators().len() ==> (#[trigger] self.propagators()[i]).is_solution(
                self.store(),
                values,
            )
    }

    /// Whether `self` has the constraints of `old`: each with the same
    /// loads, bins and sizes.
    pub open spec fn same_constraints(&self, old: &Self) -> bool {
        &&& self.propagators().len() == old.propagators().len()
        &&& (forall|i: int|
            0 <= i < old.propagators().len() ==> (#[trigger] self.propagators()[i]).loads()
                == old.propagators()[i].loads() && self.propagators()[i].bins()
                == old.propagators()[i].bins() && self.propagators()[i].sizes()
                == old.propagators()[i].sizes())
    }

    /// A solver keeps the loads, bins and sizes of each constraint that was
    /// added to it.
    pub proof fn lemma_same_constraints(&self, old: &Self)
        requires
            self.same_propagators(old),
        ensures
            self.same_constraints(old),
    {
        assert forall|i: int| 0 <= i < old.propagators().len() implies (
        #[trigger] self.propagators()[i]).loads() == old.propagators()[i].loads()
            && self.propagators()[i].bins() == old.propagators()[i].bins()
            && self.propagators()[i].sizes() == old.propagators()[i].sizes() by {
            assert(alike(&self.propagators()[i], &old.propagators()[i]));
            self.propagators()[i].lemma_same_constraint(&old.propagators()[i]);
        }
    }

    /// Values that pack the items of a constraint of the solver pack them in
    /// the order in which they were posted too: the constraint keeps the
    /// items that it was made of, in the order of their sizes.
    pub proof fn lemma_posted_is_packed(
        &self,
        i: int,
        loads: Seq<DomainId>,
        bins: Seq<DomainId>,
        sizes: Seq<i32>,
    )
        requires
            self.packed(),
            0 <= i < self.propagators().len(),
            bins.len() == sizes.len(),
            self.propagators()[i].bins().len() == self.propagators()[i].sizes().len(),
            self.propagators()[i].loads() == loads,
            items_of(self.propagators()[i].bins(), self.propagators()[i].sizes()).to_multiset()
                == items_of(bins, sizes).to_multiset(),
        ensures
            is_packing(loads, bins, sizes, assigned_values(self.store())),
    {
        let propagator = self.propagators()[i];
        lemma_packing_rearranged(
            loads,
            propagator.bins(),
            propagator.sizes(),
            bins,
            sizes,
            assigned_values(self.store()),
        );
    }

    /// Searches for a packing as [`Self::satisfy_within`] searches for a
    /// solution, and holds the solution that is found against each
    /// constraint: the result is `Satisfiable` only where each constraint
    /// accepts the fixed values from scratch and has each of its items in
    /// one of its bins, and `Unknown` where one does not.
    ///
    /// On a solver at a fixed point with each variable fixed the search has
    /// nothing to do: the result is `Satisfiable` where the fixed values are
    /// a packing for each constraint, and `Unknown` where they are not.
    ///
    /// Where the result is `Unsatisfiable`, no packing gives each variable
    /// a value that its domain had at the root when the search began and
    /// falsifies a predicate of each nogood that the search has learned.
    /// Where the search began at the root and has learned no nogood, no
    /// valuation is a solution of each constraint within the store with
    /// which it began.
    pub fn satisfy_packing<B: Brancher>(&mut self, brancher: &mut B, budget: usize) -> (r:
        SatisfactionResult)
        requires
            old(self).wf(),
        ensures
            final(self).wf(),
            final(self).store().num_domains() == old(self).store().num_domains(),
            final(self).propagators().len() == old(self).propagators().len(),
            final(self).same_propagators(old(self)),
            final(self).same_constraints(old(self)),
            r matches SatisfactionResult::Satisfiable(solution) ==> {
                &&& final(self).packed()
                &&& solution.num_domains() == final(self).store().num_domains()
                &&& (forall|x: DomainId|
                    final(self).store().has(x) ==> #[trigger] final(self).store().is_fixed(x))
                &&& (forall|x: DomainId|
                    final(self).store().has(x)
                        ==> #[trigger] solution.value(x) == final(self).store().lower(x))
            },
            r is Unsatisfiable ==> final(self).store().level() == 0,
            r is Unsatisfiable ==> forall|values: spec_fn(DomainId) -> int|
                !#[trigger] final(self).survives(old(self), values),
            r is Unsatisfiable && final(self).learned() == old(self).learned() ==> forall|
                values: spec_fn(DomainId) -> int,
            |
                !(#[trigger] old(self).solved_by(values) && old(self).store().allows_at_root(
                    values,
                )),
            r is Unsatisfiable && final(self).learned() == old(self).learned()
                && old(self).store().level() == 0 && old(self).propagators().len() > 0 ==> forall|
                values: spec_fn(DomainId) -> int,
            |
                !#[trigger] old(self).all_packed_by(values),
            final(self).learned().len() >= old(self).learned().len(),
            forall|k: int|
                old(self).learned().len() <= k < final(self).learned().len() ==> analysed(
                    #[trigger] final(self).learned()[k],
                ),
            budget == 0 ==> r is Unknown && *final(self) == *old(self),
            budget > 0 && old(self).settled() && (forall|x: DomainId|
                old(self).store().has(x) ==> #[trigger] old(self).store().is_fixed(x)) ==> {
                &&& r is Satisfiable <==> old(self).packed()
                &&& r is Unknown <==> !old(self).packed()
                &&& final(self).propagators() == old(self).propagators()
                &&& final(self).store().extends(old(self).store())
                &&& final(self).store().trail_len() == old(self).store().trail_len()
            },
    {
        let ghost owed = budget > 0 && old(self).settled() && forall|x: DomainId|
            old(self).store().has(x) ==> #[trigger] old(self).store().is_fixed(x);
        let ghost entry = *self;
        let result = self.satisfy_within(brancher, budget);
        proof {
            self.lemma_same_constraints(&entry);
        }
        let solution = match result {
            SatisfactionResult::Satisfiable(solution) => solution,
            other => {
                proof {
                    if other is Unsatisfiable && self.learned() == entry.learned()
                        && entry.store().level() == 0 && entry.propagators().len() > 0 {
                        assert forall|values: spec_fn(DomainId) -> int|
                            !#[trigger] entry.all_packed_by(values) by {
                            if entry.all_packed_by(values) {
                                assert(entry.propagators()[0].is_solution(entry.store(), values));
                                entry.store().lemma_root_is_store(values);
                                assert forall|i: int|
                                    0 <= i < entry.propagators().len() implies (
                                #[trigger] entry.propagators()[i]).satisfied_by(values) by {
                                    assert(entry.propagators()[i].is_solution(
                                        entry.store(),
                                        values,
                                    ));
                                }
                                assert(entry.solved_by(values));
                            }
                        }
                    }
                }
                return other;
            },
        };
        let ghost found = *self;
        proof {
            assert forall|x: DomainId| self.store().has(x) implies #[trigger] solution.value(x)
                == self.store().lower(x) by {
                assert(self.store().contains(x, solution.value(x)));
                assert(self.store().is_fixed(x));
                self.assignments.lemma_bounds(self.assignments.trail_len() as int, x);
            }
            self.assignments.lemma_extends_reflexive();
        }
        let count = self.propagators.len();
        let mut index: usize = 0;
        while index < count
            invariant
                self.wf(),
                found.wf(),
                budget > 0,
                self.store().num_domains() == old(self).store().num_domains(),
                self.propagators() == found.propagators(),
                self.learned() == found.learned(),
                found.learned().len() >= old(self).learned().len(),
                forall|k: int|
                    old(self).learned().len() <= k < found.learned().len() ==> analysed(
                        #[trigger] found.learned()[k],
                    ),
                found.propagators().len() == old(self).propagators().len(),
                found.store().num_domains() == self.store().num_domains(),
                self.store().extends(found.store()),
                self.store().trail_len() == found.store().trail_len(),
                entry == *old(self),
                self.same_propagators(&entry),
                self.same_constraints(&entry),
                owed == (budget > 0 && old(self).settled() && forall|x: DomainId|
                    old(self).store().has(x) ==> #[trigger] old(self).store().is_fixed(x)),
                owed ==> found.store() == old(self).store() && found.propagators() == old(self).propagators(),
                count == self.propagators().len(),
                index <= count,
                forall|x: DomainId| found.store().has(x) ==> #[trigger] found.store().is_fixed(x),
                forall|x: DomainId|
                    found.store().has(x) ==> #[trigger] solution.value(x) == found.store().lower(
                        x,
                    ),
                forall|i: int|
                    0 <= i < index ==> is_packing(
                        (#[trigger] self.propagators()[i]).loads(),
                        self.propagators()[i].bins(),
                        self.propagators()[i].sizes(),
                        assigned_values(found.store()),
                    ),
            decreases count - index,
        {
            let ghost before = *self;
            proof {
                assert forall|x: DomainId| self.store().has(x) implies #[trigger] self.store().is_fixed(
                    x,
                ) by {
                    assert(found.store().is_fixed(x));
                    self.assignments.lemma_fixed_stays(found.store(), x);
                }
            }
            let accepted = self.accepts(index);
            proof {
                self.assignments.lemma_extends_transitive(before.store(), found.store());
                let propagator = self.propagators()[index as int];
                assert(propagator.scope() <= found.store().num_domains());
                propagator.lemma_within_scope(found.store().num_domains());
                assert forall|j: int| 0 <= j < propagator.loads().len() implies assigned_values(
                    before.store(),
                )(#[trigger] propagator.loads()[j]) == assigned_values(found.store())(
                    propagator.loads()[j],
                ) by {
                    assert(propagator.loads()[j].index() < found.store().num_domains());
                    assert(found.store().is_fixed(propagator.loads()[j]));
                    before.assignments.lemma_fixed_stays(found.store(), propagator.loads()[j]);
                }
                assert forall|i: int| 0 <= i < propagator.bins().len() implies assigned_values(
                    before.store(),
                )(#[trigger] propagator.bins()[i]) == assigned_values(found.store())(
                    propagator.bins()[i],
                ) by {
                    assert(propagator.bins()[i].index() < found.store().num_domains());
                    assert(found.store().is_fixed(propagator.bins()[i]));
                    before.assignments.lemma_fixed_stays(found.store(), propagator.bins()[i]);
                }
                if accepted {
                    lemma_packing_same(
                        propagator.loads(),
                        propagator.bins(),
                        propagator.sizes(),
                        assigned_values(before.store()),
                        assigned_values(found.store()),
                    );
                } else if is_packing(
                    propagator.loads(),
                    propagator.bins(),
                    propagator.sizes(),
                    assigned_values(found.store()),
                ) {
                    lemma_packing_same(
                        propagator.loads(),
                        propagator.bins(),
                        propagator.sizes(),
                        assigned_values(found.store()),
                        assigned_values(before.store()),
                    );
                }
            }
            if !accepted {
                proof {
                    if owed {
                        let propagator = old(self).propagators()[index as int];
                        assert(!is_packing(
                            propagator.loads(),
                            propagator.bins(),
                            propagator.sizes(),
                            assigned_values(old(self).store()),
                        ));
                        assert(!old(self).packed());
                    }
                }
                return SatisfactionResult::Unknown;
            }
            index += 1;
        }
        proof {
            assert forall|x: DomainId| self.store().has(x) implies #[trigger] self.store().is_fixed(
                x,
            ) by {
                assert(found.store().is_fixed(x));
                self.assignments.lemma_fixed_stays(found.store(), x);
            }
            assert forall|x: DomainId| self.store().has(x) implies #[trigger] solution.value(x)
                == self.store().lower(x) by {
                assert(found.store().is_fixed(x));
                self.assignments.lemma_fixed_stays(found.store(), x);
            }
            assert forall|i: int| 0 <= i < self.propagators().len() implies is_packing(
                (#[trigger] self.propagators()[i]).loads(),
                self.propagators()[i].bins(),
                self.propagators()[i].sizes(),
                assigned_values(self.store()),
            ) by {
                let propagator = self.propagators()[i];
                assert(propagator.scope() <= found.store().num_domains());
                propagator.lemma_within_scope(found.store().num_domains());
                assert forall|j: int| 0 <= j < propagator.loads().len() implies assigned_values(
                    found.store(),
                )(#[trigger] propagator.loads()[j]) == assigned_values(self.store())(
                    propagator.loads()[j],
                ) by {
                    assert(propagator.loads()[j].index() < found.store().num_domains());
                    assert(found.store().is_fixed(propagator.loads()[j]));
                    self.assignments.lemma_fixed_stays(found.store(), propagator.loads()[j]);
                }
                assert forall|k: int| 0 <= k < propagator.bins().len() implies assigned_values(
                    found.store(),
                )(#[trigger] propagator.bins()[k]) == assigned_values(self.store())(
                    propagator.bins()[k],
                ) by {
                    assert(propagator.bins()[k].index() < found.store().num_domains());
                    assert(found.store().is_fixed(propagator.bins()[k]));
                    self.assignments.lemma_fixed_stays(found.store(), propagator.bins()[k]);
                }
                lemma_packing_same(
                    propagator.loads(),
                    propagator.bins(),
                    propagator.sizes(),
                    assigned_values(found.store()),
                    assigned_values(self.store()),
                );
            }
        }
        SatisfactionResult::Satisfiable(solution)
    }

    /// Whether the store, which has fixed each variable, is a packing for
    /// the constraint at `index`: found by running the constraint from
    /// scratch on the store, which cannot change it.
    fn accepts(&mut self, index: usize) -> (r: bool)
        requires
            old(self).wf(),
            index < old(self).propagators().len(),
            forall|x: DomainId| old(self).store().has(x) ==> #[trigger] old(self).store().is_fixed(x),
        ensures
            final(self).wf(),
            final(self).propagators() == old(self).propagators(),
            final(self).counters() == old(self).counters(),
            final(self).learned() == old(self).learned(),
            final(self).store().extends(old(self).store()),
            final(self).store().trail_len() == old(self).store().trail_len(),
            r == is_packing(
                old(self).propagators()[index as int].loads(),
                old(self).propagators()[index as int].bins(),
                old(self).propagators()[index as int].sizes(),
                assigned_values(old(self).store()),
            ),
    {
        let ghost start = *self;
        let ghost propagator = self.propagators()[index as int];
        proof {
            assert(propagator.scope() <= self.store().num_domains());
            propagator.lemma_within_scope(self.store().num_domains());
            assert forall|j: int| 0 <= j < propagator.loads().len() implies self.store().is_fixed(
                #[trigger] propagator.loads()[j],
            ) by {
                assert(propagator.loads()[j].index() < self.store().num_domains());
            }
            assert forall|i: int| 0 <= i < propagator.bins().len() implies self.store().is_fixed(
                #[trigger] propagator.bins()[i],
            ) by {
                assert(propagator.bins()[i].index() < self.store().num_domains());
            }
            self.assignments.lemma_extends_reflexive();
        }
        if !self.propagators[index].items_are_placed(&self.assignments) {
            return false;
        }
        let mut assignments = Assignments::new();
        core::mem::swap(&mut assignments, &mut self.assignments);
        let mut context = PropagationContextMut::new(assignments, PropagatorId(index as u32));
        proof {
            assert(context.reification_predicates() =~= Seq::<Predicate>::empty());
        }
        let result = self.propagators[index].debug_propagate_from_scratch(&mut context);
        self.assignments = context.into_assignments();
        self.at_fixed_point = false;
        self.queue.clear();
        proof {
            self.assignments.lemma_fixed_is_final(start.store());
            if result is Err {
                let values = assigned_values(start.store());
                if is_packing(propagator.loads(), propagator.bins(), propagator.sizes(), values) {
                    assert forall|j: int| 0 <= j < propagator.loads().len() implies start.store().contains(
                        #[trigger] propagator.loads()[j],
                        values(propagator.loads()[j]),
                    ) by {
                        start.store().lemma_bounds(
                            start.store().trail_len() as int,
                            propagator.loads()[j],
                        );
                    }
                    assert forall|i: int| 0 <= i < propagator.bins().len() implies start.store().contains(
                        #[trigger] propagator.bins()[i],
                        values(propagator.bins()[i]),
                    ) by {
                        start.store().lemma_bounds(
                            start.store().trail_len() as int,
                            propagator.bins()[i],
                        );
                    }
                    assert forall|x: DomainId| start.store().has(x) implies #[trigger] start.store().contains(
                        x,
                        values(x),
                    ) by {
                        start.store().lemma_bounds(start.store().trail_len() as int, x);
                    }
                    assert(propagator.is_solution(start.store(), values));
                }
            }
            if result is Ok {
                assert forall|j: int| 0 <= j < propagator.loads().len() implies assigned_values(
                    start.store(),
                )(#[trigger] propagator.loads()[j]) == bin_sum(
                    propagator.bins(),
                    propagator.sizes(),
                    assigned_values(start.store()),
                    j,
                    propagator.bins().len() as int,
                ) by {}
                assert forall|i: int| 0 <= i < propagator.bins().len() implies 0
                    <= assigned_values(start.store())(#[trigger] propagator.bins()[i])
                    < propagator.loads().len() by {}
            }
        }
        result.is_ok()
    }
}

} // verus!
