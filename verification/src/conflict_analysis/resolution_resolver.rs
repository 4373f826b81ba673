//! Conflict analysis by resolution: the conflict is resolved with the
//! reasons of its predicates, latest first, until one predicate of the
//! current decision level is left.

use vstd::prelude::*;
use crate::assignments::Assignments;
use crate::branching::Brancher;
use crate::conflict_analysis::key_value_heap::{
    count_at_least, lemma_count_at_least_bounds, lemma_count_at_least_push,
    lemma_count_at_least_update, lemma_count_set_bounds, lemma_count_set_positive, KeyValueHeap,
};
use crate::conflict_analysis::learned_nogood::{
    count_distinct, saturated, saturating_sum, LearnedClauseStatistics, LearnedNogood,
};
use crate::conflict_analysis::predicate_id_generator::{PredicateId, PredicateIdGenerator};
use crate::conflict_analysis::recursive_minimiser::{undominated, RecursiveMinimiser};
use crate::conflict_analysis::semantic_minimiser::{
    bounds_differ, covered_by, covers, in_store, lemma_bounds_differ, lemma_narrow_is_one,
    lemma_selection_stays_narrow, lemma_summary_stays_narrow, narrow, summarises, Mode,
    SemanticMinimiser,
};
use crate::conjunction::PropositionalConjunction;
use crate::predicate::{DomainId, Predicate};
use crate::propagation::propagator::{alike, Propagator};
use crate::reason::Reason;

verus! {

/// What conflict analysis works on: the store in which the conflict arose,
/// the conflict, and the parts of the solver that take part in the analysis.
pub struct ConflictAnalysisNogoodContext {
    pub assignments: Assignments,
    pub conflict_nogood: PropositionalConjunction,
    pub semantic_minimiser: SemanticMinimiser,
    pub counters: LearnedClauseStatistics,
}

impl ConflictAnalysisNogoodContext {
    /// The store is well formed and satisfies each predicate of the
    /// conflict.
    pub open spec fn wf(&self) -> bool {
        &&& self.assignments.wf()
        &&& in_store(self.conflict_nogood@, &self.assignments)
        &&& self.assignments.entails(self.conflict_nogood@)
    }

    pub fn get_conflict_nogood(&self) -> (r: &PropositionalConjunction)
        ensures
            r == &self.conflict_nogood,
    {
        &self.conflict_nogood
    }

    /// Takes the store back to `level` and tells the brancher.
    pub fn backtrack<B: Brancher>(&mut self, level: usize, brancher: &mut B)
        requires
            old(self).assignments.wf(),
            level <= old(self).assignments.level(),
        ensures
            final(self).assignments.wf(),
            final(self).assignments.restored(&old(self).assignments, level as int),
            final(self).conflict_nogood == old(self).conflict_nogood,
            final(self).counters == old(self).counters,
    {
        self.assignments.backtrack(level);
        brancher.on_backtrack(level);
    }
}

/// The place of `p` on the trail: the position of the entry that made it
/// true, counted from one; zero where `p` held from the start.
pub open spec fn rank_of(store: &Assignments, p: Predicate) -> int {
    match store.trail_position(p) {
        Some(i) => i + 1,
        None => 0,
    }
}

/// Whether the predicates stand in the order of their trail positions,
/// latest first.
pub open spec fn latest_first(store: &Assignments, predicates: Seq<Predicate>) -> bool {
    forall|i: int, j: int|
        0 <= i <= j < predicates.len() ==> rank_of(store, predicates[i]) >= rank_of(
            store,
            predicates[j],
        )
}

/// The decision level at which each predicate of the nogood became true.
pub open spec fn levels_of(store: &Assignments, nogood: Seq<Predicate>) -> Seq<usize> {
    Seq::new(nogood.len(), |k: int| store.decision_level_of(nogood[k])->0 as usize)
}

/// The level to which a nogood jumps back: the level of its second
/// predicate, and the root where it has none.
pub open spec fn backjump_of(store: &Assignments, nogood: Seq<Predicate>) -> int {
    if nogood.len() > 1 {
        store.decision_level_of(nogood[1])->0
    } else {
        0
    }
}

/// The counts after a nogood was extracted: `taken` predicates were left
/// by the analysis, `summarised` of them were left by the first semantic
/// minimisation, and `kept` by the recursive one.
pub open spec fn counted(
    before: LearnedClauseStatistics,
    store: &Assignments,
    taken: int,
    summarised: int,
    kept: int,
    nogood: Seq<Predicate>,
) -> LearnedClauseStatistics {
    LearnedClauseStatistics {
        num_conflicts: before.num_conflicts,
        total_conflict_size: before.total_conflict_size,
        total_learned_clause_length: saturated(
            before.total_learned_clause_length as int,
            nogood.len() as int,
        ) as u64,
        num_semantic_removals: saturated(
            before.num_semantic_removals as int,
            if taken > summarised {
                taken - summarised
            } else {
                0
            },
        ) as u64,
        num_recursive_removals: saturated(
            before.num_recursive_removals as int,
            summarised - kept,
        ) as u64,
        total_backtrack_distance: saturated(
            before.total_backtrack_distance as int,
            store.level() - backjump_of(store, nogood),
        ) as u64,
        total_lbd: saturated(
            before.total_lbd as int,
            levels_of(store, nogood).to_set().len() as int,
        ) as u64,
    }
}

/// Whether `p` became true at the current decision level of `store`, above
/// the root.
pub open spec fn at_current_level(store: &Assignments, p: Predicate) -> bool {
    store.level() > 0 && store.decision_level_of(p) == Some(store.level() as int)
}

/// The predicates among the first `n` of `conflict` that became true at a
/// level between the root and the current one, in their order.
pub open spec fn lower_part(store: &Assignments, conflict: Seq<Predicate>, n: int) -> Seq<
    Predicate,
>
    decreases n,
{
    if n <= 0 {
        seq![]
    } else {
        let rest = lower_part(store, conflict, n - 1);
        if store.decision_level_of(conflict[n - 1]) matches Some(l) && 0 < l < store.level() {
            rest.push(conflict[n - 1])
        } else {
            rest
        }
    }
}

/// The number of different predicates among the first `n` of `conflict`
/// that became true at the current decision level.
pub open spec fn recent_count(store: &Assignments, conflict: Seq<Predicate>, n: int) -> int
    decreases n,
{
    if n <= 0 {
        0
    } else {
        recent_count(store, conflict, n - 1) + if at_current_level(store, conflict[n - 1])
            && !conflict.take(n - 1).contains(conflict[n - 1]) {
            1int
        } else {
            0
        }
    }
}

/// Whether `chain` leads from a predicate of `conflict` from predicate to
/// predicate, each step from a predicate that became true at the current
/// decision level to a predicate of its explanation.
pub open spec fn is_chain(store: &Assignments, conflict: Seq<Predicate>, chain: Seq<Predicate>) -> bool {
    &&& chain.len() > 0
    &&& conflict.contains(chain[0])
    &&& (forall|i: int|
        0 <= i < chain.len() - 1 ==> at_current_level(store, #[trigger] chain[i])
            && store.explanation(chain[i]) is Some && store.explanation(chain[i])->0.contains(
            chain[i + 1],
        ))
}

/// Whether `p` comes from `conflict` by steps from predicates of the current
/// decision level to the predicates of their explanations.
pub open spec fn stemmed(store: &Assignments, conflict: Seq<Predicate>, p: Predicate) -> bool {
    exists|chain: Seq<Predicate>| #[trigger] is_chain(store, conflict, chain) && chain.last() == p
}

/// A predicate of the explanation of a predicate of the current level that
/// comes from the conflict comes from the conflict.
pub proof fn lemma_stems_step(
    store: &Assignments,
    conflict: Seq<Predicate>,
    q: Predicate,
    p: Predicate,
)
    requires
        stemmed(store, conflict, q),
        at_current_level(store, q),
        store.explanation(q) is Some,
        store.explanation(q)->0.contains(p),
    ensures
        stemmed(store, conflict, p),
{
    let chain = choose|chain: Seq<Predicate>| #[trigger]
        is_chain(store, conflict, chain) && chain.last() == q;
    let longer = chain.push(p);
    assert(longer[0] == chain[0]);
    assert forall|i: int| 0 <= i < longer.len() - 1 implies at_current_level(
        store,
        #[trigger] longer[i],
    ) && store.explanation(longer[i]) is Some && store.explanation(longer[i])->0.contains(
        longer[i + 1],
    ) by {
        if i < chain.len() - 1 {
            assert(longer[i] == chain[i] && longer[i + 1] == chain[i + 1]);
        } else {
            assert(longer[i] == q && longer[i + 1] == p);
        }
    }
    assert(is_chain(store, conflict, longer) && longer.last() == p);
}

/// A predicate of the conflict comes from the conflict.
pub proof fn lemma_stems_first(store: &Assignments, conflict: Seq<Predicate>, p: Predicate)
    requires
        conflict.contains(p),
    ensures
        stemmed(store, conflict, p),
{
    let chain = seq![p];
    assert(chain[0] == p);
    assert(is_chain(store, conflict, chain) && chain.last() == p);
}

/// What comes from the conflict still does when reasons were expanded.
pub proof fn lemma_stems_expands(
    old: &Assignments,
    new: &Assignments,
    conflict: Seq<Predicate>,
    p: Predicate,
)
    requires
        old.wf(),
        new.wf(),
        new.expands(old),
        stemmed(old, conflict, p),
    ensures
        stemmed(new, conflict, p),
{
    let chain = choose|chain: Seq<Predicate>| #[trigger]
        is_chain(old, conflict, chain) && chain.last() == p;
    assert forall|i: int| 0 <= i < chain.len() - 1 implies at_current_level(
        new,
        #[trigger] chain[i],
    ) && new.explanation(chain[i]) is Some && new.explanation(chain[i])->0.contains(
        chain[i + 1],
    ) by {
        new.lemma_expands(old, chain[i]);
    }
    assert(is_chain(new, conflict, chain) && chain.last() == p);
}

/// Whether no trail entry has a reason that is still to be expanded.
pub open spec fn fully_explained(store: &Assignments) -> bool {
    forall|i: int| 0 <= i < store.trail_len() ==> !(#[trigger] store.entry(i).reason is Lazy)
}

/// Resolves a conflict into a nogood with one predicate of the current
/// decision level.
#[derive(Debug, Default)]
pub struct ResolutionResolver {
    /// Heap containing the current decision level predicates.
    /// It sorts the predicates based on trail position.
    heap_current_decision_level: KeyValueHeap,
    /// The generator is used in combination with the heap.
    predicate_id_generator: PredicateIdGenerator,
    /// Vector containing predicates above the current decision level.
    /// The vector may contain duplicates, but will be removed at the end.
    predicates_lower_decision_level: Vec<Predicate>,
    recursive_minimiser: RecursiveMinimiser,
}

fn rank(assignments: &Assignments, predicate: Predicate) -> (r: usize)
    requires
        assignments.wf(),
        assignments.has(predicate.domain()),
    ensures
        r == rank_of(assignments, predicate),
{
    let length = assignments.num_trail_entries();
    match assignments.get_trail_position(predicate) {
        Some(i) => {
            assert(i < length);
            i + 1
        },
        None => 0,
    }
}

/// The predicates in the order of their trail positions, latest first.
fn sort_latest_first(predicates: &Vec<Predicate>, assignments: &Assignments) -> (r: Vec<Predicate>)
    requires
        assignments.wf(),
        in_store(predicates@, assignments),
    ensures
        r@.to_multiset() == predicates@.to_multiset(),
        r@.len() == predicates@.len(),
        latest_first(assignments, r@),
        in_store(r@, assignments),
        assignments.entails(predicates@) ==> assignments.entails(r@),
        forall|k: int| 0 <= k < r@.len() ==> predicates@.contains(#[trigger] r@[k]),
        predicates@.no_duplicates() ==> r@.no_duplicates(),
{
    let mut sorted: Vec<Predicate> = Vec::new();
    let mut k: usize = 0;
    proof {
        assert(predicates@.take(0) =~= Seq::<Predicate>::empty());
    }
    while k < predicates.len()
        invariant
            assignments.wf(),
            in_store(predicates@, assignments),
            k <= predicates.len(),
            sorted@.len() == k,
            sorted@.to_multiset() == predicates@.take(k as int).to_multiset(),
            latest_first(assignments, sorted@),
            in_store(sorted@, assignments),
            assignments.entails(predicates@) ==> assignments.entails(sorted@),
        decreases predicates.len() - k,
    {
        let predicate = predicates[k];
        let place = rank(assignments, predicate);
        let mut at: usize = 0;
        while at < sorted.len() && rank(assignments, sorted[at]) >= place
            invariant
                assignments.wf(),
                in_store(sorted@, assignments),
                at <= sorted.len(),
                forall|i: int| 0 <= i < at ==> rank_of(assignments, sorted@[i]) >= place,
            decreases sorted.len() - at,
        {
            at += 1;
        }
        let ghost before = sorted@;
        sorted.insert(at, predicate);
        proof {
            let after = sorted@;
            vstd::seq_lib::to_multiset_insert(before, at as int, predicate);
            assert(predicates@.take(k + 1) =~= predicates@.take(k as int).push(predicate));
            vstd::seq_lib::to_multiset_build(predicates@.take(k as int), predicate);
            assert forall|i: int| 0 <= i < after.len() implies #[trigger] after[i] == if i < at {
                before[i]
            } else if i == at {
                predicate
            } else {
                before[i - 1]
            } by {}
            assert forall|i: int, j: int| 0 <= i <= j < after.len() implies rank_of(
                assignments,
                after[i],
            ) >= rank_of(assignments, after[j]) by {
                let i0 = if i < at {
                    i
                } else {
                    i - 1
                };
                let j0 = if j < at {
                    j
                } else {
                    j - 1
                };
                if i != at && j != at {
                    assert(rank_of(assignments, before[i0]) >= rank_of(assignments, before[j0]));
                } else if i == at && j != at {
                    if at < before.len() {
                        assert(rank_of(assignments, before[at as int]) >= rank_of(
                            assignments,
                            before[j0],
                        ));
                    }
                }
            }
            assert forall|i: int| 0 <= i < after.len() implies assignments.has(
                (#[trigger] after[i]).domain(),
            ) by {
                if i < at {
                    assert(assignments.has(before[i].domain()));
                } else if i > at {
                    assert(assignments.has(before[i - 1].domain()));
                }
            }
            if assignments.entails(predicates@) {
                assert forall|i: int| 0 <= i < after.len() implies assignments.satisfies(
                    #[trigger] after[i],
                ) by {
                    if i < at {
                        assert(assignments.satisfies(before[i]));
                    } else if i > at {
                        assert(assignments.satisfies(before[i - 1]));
                    } else {
                        assert(assignments.satisfies(predicates@[k as int]));
                    }
                }
            }
        }
        k += 1;
    }
    proof {
        assert(predicates@.take(k as int) =~= predicates@);
        sorted@.to_multiset_ensures();
        predicates@.to_multiset_ensures();
        assert forall|i: int| 0 <= i < sorted@.len() implies predicates@.contains(
            #[trigger] sorted@[i],
        ) by {
            assert(sorted@.contains(sorted@[i]));
            assert(sorted@.to_multiset().count(sorted@[i]) > 0);
            assert(predicates@.to_multiset().count(sorted@[i]) > 0);
        }
        if predicates@.no_duplicates() {
            predicates@.lemma_multiset_has_no_duplicates();
            sorted@.lemma_multiset_has_no_duplicates_conv();
        }
    }
    sorted
}

impl ResolutionResolver {
    /// The value of each key of the heap.
    pub closed spec fn heap_values(&self) -> Seq<u128> {
        self.heap_current_decision_level.values()
    }

    /// For each key of the heap, whether it is present.
    pub closed spec fn heap_flags(&self) -> Seq<bool> {
        self.heap_current_decision_level.flags()
    }

    /// The predicate of each id.
    pub closed spec fn ids(&self) -> Seq<Predicate> {
        self.predicate_id_generator@
    }

    /// The predicates that were met from the levels below the current one.
    pub closed spec fn lower(&self) -> Seq<Predicate> {
        self.predicates_lower_decision_level@
    }

    /// The depth to which recursive minimisation traces explanations.
    pub closed spec fn depth(&self) -> nat {
        self.recursive_minimiser.depth()
    }

    /// The number of predicates in the heap.
    pub open spec fn heap_count(&self) -> int {
        crate::conflict_analysis::key_value_heap::count_set(
            self.heap_flags(),
            self.heap_flags().len() as int,
        )
    }

    /// Each key of the heap has a predicate, and the store satisfies the
    /// predicates in the heap and those met from lower levels.
    pub closed spec fn sound(&self, store: &Assignments) -> bool {
        &&& self.heap_current_decision_level.wf()
        &&& self.heap_flags().len() <= self.ids().len()
        &&& self.heap_values().len() == self.heap_flags().len()
        &&& (forall|key: int|
            0 <= key < self.heap_flags().len() && #[trigger] self.heap_flags()[key] ==> store.has(
                self.ids()[key].domain(),
            ) && store.satisfies(self.ids()[key]))
        &&& in_store(self.lower(), store)
        &&& store.entails(self.lower())
    }

    /// Whether one predicate covers the predicates that became true at the
    /// current decision level among those of the lower levels, together
    /// with any one predicate of the heap.
    pub closed spec fn focused(&self, store: &Assignments) -> bool {
        &&& narrow(store, store.level_base(), self.lower())
        &&& (forall|key: int|
            0 <= key < self.heap_flags().len() && #[trigger] self.heap_flags()[key] ==> narrow(
                store,
                store.level_base(),
                self.lower().push(self.ids()[key]),
            ))
    }

    /// Whether each predicate that the analysis holds comes from `conflict`.
    pub open spec fn stems(&self, store: &Assignments, conflict: Seq<Predicate>) -> bool {
        &&& (forall|k: int|
            0 <= k < self.lower().len() ==> stemmed(store, conflict, #[trigger] self.lower()[k]))
        &&& (forall|q: Predicate| #[trigger] self.holds(q) ==> stemmed(store, conflict, q))
    }

    /// Expanding reasons leaves what the analysis holds coming from the
    /// conflict.
    proof fn lemma_resolver_stems_expands(
        &self,
        old: &Assignments,
        new: &Assignments,
        conflict: Seq<Predicate>,
    )
        requires
            old.wf(),
            new.wf(),
            new.expands(old),
            self.stems(old, conflict),
        ensures
            self.stems(new, conflict),
    {
        assert forall|k: int| 0 <= k < self.lower().len() implies stemmed(
            new,
            conflict,
            #[trigger] self.lower()[k],
        ) by {
            lemma_stems_expands(old, new, conflict, self.lower()[k]);
        }
        assert forall|q: Predicate| #[trigger] self.holds(q) implies stemmed(new, conflict, q) by {
            lemma_stems_expands(old, new, conflict, q);
        }
    }

    /// Taking in a predicate that comes from the conflict leaves what the
    /// analysis holds coming from the conflict.
    proof fn lemma_taken_in_stems(
        &self,
        before: &ResolutionResolver,
        store: &Assignments,
        conflict: Seq<Predicate>,
        predicate: Predicate,
    )
        requires
            before.stems(store, conflict),
            stemmed(store, conflict, predicate),
            self.lower() == before.lower() || self.lower() == before.lower().push(predicate),
            forall|q: Predicate| #[trigger] self.holds(q) ==> before.holds(q) || q == predicate,
        ensures
            self.stems(store, conflict),
    {
        assert forall|k: int| 0 <= k < self.lower().len() implies stemmed(
            store,
            conflict,
            #[trigger] self.lower()[k],
        ) by {
            if k < before.lower().len() {
                assert(self.lower()[k] == before.lower()[k]);
            }
        }
    }

    /// Whether `q` became true at the current decision level, or stands in
    /// for a predicate that did.
    pub open spec fn near(store: &Assignments, q: Predicate) -> bool {
        at_current_level(store, q) || exists|p: Predicate|
            at_current_level(store, p) && q == #[trigger] Self::stand_in(store, p)
    }

    /// Whether `q` became true at a level between the root and the current
    /// one.
    pub open spec fn between(store: &Assignments, q: Predicate) -> bool {
        store.decision_level_of(q) matches Some(l) && 0 < l < store.level()
    }

    /// Whether each predicate of the lower levels became true between the
    /// root and the current level.
    pub open spec fn lower_between(&self, store: &Assignments) -> bool {
        forall|k: int|
            0 <= k < self.lower().len() ==> Self::between(store, #[trigger] self.lower()[k])
    }

    /// Whether each predicate is in its place: the heap holds predicates of
    /// the current level or their stand-ins, and the predicates of the lower
    /// levels became true between the root and the current level, but for
    /// predicates of the current level and their stand-ins that were put
    /// there when the analysis stopped at a decision.
    pub open spec fn placed(&self, store: &Assignments) -> bool {
        &&& (forall|q: Predicate| #[trigger] self.holds(q) ==> Self::near(store, q))
        &&& (forall|k: int|
            0 <= k < self.lower().len() ==> Self::between(store, #[trigger] self.lower()[k])
                || Self::near(store, self.lower()[k]))
    }

    /// Whether the analysis holds no predicate.
    pub open spec fn holds_nothing(&self) -> bool {
        self.heap_count() == 0 && self.lower().len() == 0
    }

    /// Whether no predicate has left the heap yet: each key that has got a
    /// value is present, and no two keys stand for one predicate.
    pub closed spec fn untouched(&self) -> bool {
        &&& (forall|key: int|
            0 <= key < self.heap_flags().len() ==> self.heap_values()[key] == 0
                || #[trigger] self.heap_flags()[key])
        &&& self.ids().no_duplicates()
    }

    /// Whether the heap holds `p`.
    pub closed spec fn holds(&self, p: Predicate) -> bool {
        exists|key: int|
            0 <= key < self.heap_flags().len() && self.heap_flags()[key] && #[trigger] self.ids()[key]
                == p
    }

    /// Whether the predicate of `key` has been in the heap and has left it.
    pub closed spec fn gone(&self, key: int) -> bool {
        0 <= key < self.heap_flags().len() && !self.heap_flags()[key] && self.heap_values()[key]
            != 0
    }

    /// Whether the analysis has met `q`: `q` holds at the root, stands
    /// among the predicates of the lower levels, or has got an id, with
    /// which it is in the heap or has left it. Where `loosely` is set, the
    /// id may be that of the stand-in of `q`.
    pub open spec fn met(&self, store: &Assignments, q: Predicate, loosely: bool) -> bool {
        ||| !(store.decision_level_of(q) matches Some(l) && l > 0)
        ||| self.lower().contains(q)
        ||| self.ids().contains(q)
        ||| (loosely && self.ids().contains(Self::stand_in(store, q)))
    }

    /// Whether `p`, which has left the heap, did not get lost: it stands
    /// among the predicates of the lower levels, or the analysis has met
    /// each predicate of its explanation.
    pub open spec fn resolved(&self, store: &Assignments, p: Predicate, loosely: bool) -> bool {
        ||| self.lower().contains(p)
        ||| (store.explanation(p) matches Some(c) && forall|t: int|
            0 <= t < c.len() ==> self.met(store, #[trigger] c[t], loosely))
    }

    /// Whether nothing got lost: the analysis has met each of the first `n`
    /// predicates of the conflict, and each predicate that has left the
    /// heap is resolved.
    pub open spec fn complete(
        &self,
        store: &Assignments,
        conflict: Seq<Predicate>,
        n: int,
        loosely: bool,
    ) -> bool {
        &&& (forall|k: int| 0 <= k < n ==> self.met(store, #[trigger] conflict[k], loosely))
        &&& (forall|key: int| #[trigger]
            self.gone(key) ==> self.resolved(store, self.ids()[key], loosely))
    }

    /// Whether nothing got lost but, for the time being, `pending`.
    pub open spec fn complete_but(
        &self,
        store: &Assignments,
        conflict: Seq<Predicate>,
        pending: Predicate,
        loosely: bool,
    ) -> bool {
        &&& (forall|k: int|
            0 <= k < conflict.len() ==> self.met(store, #[trigger] conflict[k], loosely))
        &&& (forall|key: int| #[trigger]
            self.gone(key) ==> self.ids()[key] == pending || self.resolved(
                store,
                self.ids()[key],
                loosely,
            ))
    }

    /// What the analysis has met it has met when it holds more, and what
    /// was resolved stays resolved.
    proof fn lemma_met_kept(&self, before: &Self, store: &Assignments, loosely: bool)
        requires
            before.ids().len() <= self.ids().len(),
            before.lower().len() <= self.lower().len(),
            forall|key: int|
                0 <= key < before.ids().len() ==> #[trigger] self.ids()[key] == before.ids()[key],
            forall|k: int|
                0 <= k < before.lower().len() ==> #[trigger] self.lower()[k] == before.lower()[k],
        ensures
            forall|q: Predicate| #[trigger]
                before.met(store, q, loosely) ==> self.met(store, q, loosely),
            forall|p: Predicate| #[trigger]
                before.resolved(store, p, loosely) ==> self.resolved(store, p, loosely),
    {
        assert forall|q: Predicate| before.lower().contains(q) implies self.lower().contains(q) by {
            let k = choose|k: int| 0 <= k < before.lower().len() && before.lower()[k] == q;
            assert(self.lower()[k] == q);
        }
        assert forall|q: Predicate| before.ids().contains(q) implies self.ids().contains(q) by {
            let k = choose|k: int| 0 <= k < before.ids().len() && before.ids()[k] == q;
            assert(self.ids()[k] == q);
        }
        assert forall|q: Predicate| #[trigger] before.met(store, q, loosely) implies self.met(
            store,
            q,
            loosely,
        ) by {}
        assert forall|p: Predicate| #[trigger]
            before.resolved(store, p, loosely) implies self.resolved(store, p, loosely) by {
            if !before.lower().contains(p) {
                let c = store.explanation(p)->0;
                assert forall|t: int| 0 <= t < c.len() implies self.met(
                    store,
                    #[trigger] c[t],
                    loosely,
                ) by {
                    assert(before.met(store, c[t], loosely));
                }
            }
        }
    }

    /// Nothing gets lost where the analysis holds more and nothing else
    /// has left the heap.
    proof fn lemma_complete_kept(
        &self,
        before: &Self,
        store: &Assignments,
        conflict: Seq<Predicate>,
        n: int,
    )
        requires
            before.complete(store, conflict, n, false),
            before.heap_flags().len() <= before.ids().len(),
            before.ids().len() <= self.ids().len(),
            before.lower().len() <= self.lower().len(),
            forall|key: int|
                0 <= key < before.ids().len() ==> #[trigger] self.ids()[key] == before.ids()[key],
            forall|k: int|
                0 <= k < before.lower().len() ==> #[trigger] self.lower()[k] == before.lower()[k],
            forall|key: int| #[trigger] self.gone(key) ==> before.gone(key),
        ensures
            self.complete(store, conflict, n, false),
    {
        self.lemma_met_kept(before, store, false);
        assert forall|k: int| 0 <= k < n implies self.met(store, #[trigger] conflict[k], false) by {
            assert(before.met(store, conflict[k], false));
        }
        assert forall|key: int| #[trigger] self.gone(key) implies self.resolved(
            store,
            self.ids()[key],
            false,
        ) by {
            assert(before.gone(key));
            assert(before.resolved(store, before.ids()[key], false));
        }
    }

    /// Nothing gets lost but the pending predicate where the analysis
    /// holds more and nothing else has left the heap.
    proof fn lemma_complete_but_kept(
        &self,
        before: &Self,
        store: &Assignments,
        conflict: Seq<Predicate>,
        pending: Predicate,
    )
        requires
            before.complete_but(store, conflict, pending, false),
            before.heap_flags().len() <= before.ids().len(),
            before.ids().len() <= self.ids().len(),
            before.lower().len() <= self.lower().len(),
            forall|key: int|
                0 <= key < before.ids().len() ==> #[trigger] self.ids()[key] == before.ids()[key],
            forall|k: int|
                0 <= k < before.lower().len() ==> #[trigger] self.lower()[k] == before.lower()[k],
            forall|key: int| #[trigger] self.gone(key) ==> before.gone(key),
        ensures
            self.complete_but(store, conflict, pending, false),
    {
        self.lemma_met_kept(before, store, false);
        assert forall|k: int| 0 <= k < conflict.len() implies self.met(
            store,
            #[trigger] conflict[k],
            false,
        ) by {
            assert(before.met(store, conflict[k], false));
        }
        assert forall|key: int| #[trigger] self.gone(key) implies self.ids()[key] == pending
            || self.resolved(store, self.ids()[key], false) by {
            assert(before.gone(key));
            if before.ids()[key] != pending {
                assert(before.resolved(store, before.ids()[key], false));
            }
        }
    }

    /// After a predicate has left the heap, nothing got lost but that
    /// predicate.
    proof fn lemma_popped(
        &self,
        before: &Self,
        store: &Assignments,
        conflict: Seq<Predicate>,
        key: int,
        p: Predicate,
    )
        requires
            before.complete(store, conflict, conflict.len() as int, false),
            before.heap_flags().len() <= before.ids().len(),
            self.ids() == before.ids(),
            self.lower() == before.lower(),
            self.heap_values() == before.heap_values(),
            0 <= key < before.heap_flags().len(),
            self.heap_flags() == before.heap_flags().update(key, false),
            before.ids()[key] == p,
        ensures
            self.complete_but(store, conflict, p, false),
    {
        self.lemma_met_kept(before, store, false);
        assert forall|k: int| 0 <= k < conflict.len() implies self.met(
            store,
            #[trigger] conflict[k],
            false,
        ) by {
            assert(before.met(store, conflict[k], false));
        }
        assert forall|k: int| #[trigger] self.gone(k) implies self.ids()[k] == p || self.resolved(
            store,
            self.ids()[k],
            false,
        ) by {
            if k != key {
                assert(before.gone(k));
                assert(before.resolved(store, before.ids()[k], false));
            }
        }
    }

    /// After a predicate has left the heap and its stand-in was put among
    /// the predicates of the lower levels, nothing more got lost.
    proof fn lemma_drained(
        &self,
        before: &Self,
        store: &Assignments,
        conflict: Seq<Predicate>,
        pending: Predicate,
        key: int,
        p: Predicate,
    )
        requires
            before.complete_but(store, conflict, pending, false),
            before.heap_flags().len() <= before.ids().len(),
            self.ids() == before.ids(),
            self.lower() == before.lower().push(Self::stand_in(store, p)),
            self.heap_values() == before.heap_values(),
            0 <= key < before.heap_flags().len(),
            self.heap_flags() == before.heap_flags().update(key, false),
            before.ids()[key] == p,
        ensures
            self.complete_but(store, conflict, pending, false),
    {
        let stand = Self::stand_in(store, p);
        self.lemma_met_kept(before, store, false);
        assert(self.lower()[before.lower().len() as int] == stand);
        assert(self.lower().contains(stand));
        assert forall|k: int| 0 <= k < conflict.len() implies self.met(
            store,
            #[trigger] conflict[k],
            false,
        ) by {
            assert(before.met(store, conflict[k], false));
        }
        assert forall|k: int| #[trigger] self.gone(k) implies self.ids()[k] == pending
            || self.resolved(store, self.ids()[k], false) by {
            if k != key {
                assert(before.gone(k));
                if before.ids()[k] != pending {
                    assert(before.resolved(store, before.ids()[k], false));
                }
            } else if stand != p {
                let c = store.explanation(p)->0;
                assert(c.len() == 1 && c[0] == stand);
                assert forall|t: int| 0 <= t < c.len() implies self.met(
                    store,
                    #[trigger] c[t],
                    false,
                ) by {}
            }
        }
    }

    /// Where the id of a predicate of the heap has come to stand for the
    /// stand-in of the predicate, nothing got lost, loosely.
    proof fn lemma_replaced(
        &self,
        before: &Self,
        store: &Assignments,
        conflict: Seq<Predicate>,
        pending: Predicate,
        predicate: Predicate,
    )
        requires
            before.complete_but(store, conflict, pending, false),
            before.heap_flags().len() <= before.ids().len(),
            before.ids().no_duplicates(),
            before.holds(predicate),
            self.heap_flags() == before.heap_flags(),
            self.heap_values() == before.heap_values(),
            self.lower() == before.lower(),
            self.ids().len() == before.ids().len(),
            forall|k: int|
                0 <= k < before.ids().len() ==> #[trigger] self.ids()[k] == if before.ids()[k]
                    == predicate && forall|t: int| 0 <= t < k ==> before.ids()[t] != predicate {
                    Self::stand_in(store, predicate)
                } else {
                    before.ids()[k]
                },
        ensures
            self.complete_but(store, conflict, pending, true),
    {
        let held = choose|key: int|
            0 <= key < before.heap_flags().len() && before.heap_flags()[key]
                && #[trigger] before.ids()[key] == predicate;
        assert forall|k: int| 0 <= k < before.ids().len() && k != held implies #[trigger] self.ids()[k]
            == before.ids()[k] by {
            assert(before.ids()[k] != before.ids()[held]);
        }
        assert(self.ids()[held] == Self::stand_in(store, predicate)) by {
            assert forall|t: int| 0 <= t < held implies before.ids()[t] != predicate by {
                assert(before.ids()[t] != before.ids()[held]);
            }
        }
        assert forall|q: Predicate| #[trigger] before.met(store, q, false) implies self.met(
            store,
            q,
            true,
        ) by {
            if before.ids().contains(q) {
                let k = choose|k: int| 0 <= k < before.ids().len() && before.ids()[k] == q;
                if k != held {
                    assert(self.ids()[k] == q);
                } else {
                    assert(self.ids()[held] == Self::stand_in(store, q));
                }
            }
        }
        assert forall|k: int| 0 <= k < conflict.len() implies self.met(
            store,
            #[trigger] conflict[k],
            true,
        ) by {
            assert(before.met(store, conflict[k], false));
        }
        assert forall|k: int| #[trigger] self.gone(k) implies self.ids()[k] == pending
            || self.resolved(store, self.ids()[k], true) by {
            assert(before.gone(k));
            assert(k != held);
            let p = before.ids()[k];
            if p != pending {
                assert(before.resolved(store, p, false));
                if !before.lower().contains(p) {
                    let c = store.explanation(p)->0;
                    assert forall|t: int| 0 <= t < c.len() implies self.met(
                        store,
                        #[trigger] c[t],
                        true,
                    ) by {
                        assert(before.met(store, c[t], false));
                    }
                }
            }
        }
    }

    /// What got lost in no way got lost loosely in no way.
    proof fn lemma_loosely(&self, store: &Assignments, conflict: Seq<Predicate>, pending: Predicate)
        ensures
            self.complete_but(store, conflict, pending, false) ==> self.complete_but(
                store,
                conflict,
                pending,
                true,
            ),
            self.complete(store, conflict, conflict.len() as int, false) ==> self.complete(
                store,
                conflict,
                conflict.len() as int,
                true,
            ),
    {
        assert forall|q: Predicate| #[trigger] self.met(store, q, false) implies self.met(
            store,
            q,
            true,
        ) by {}
        assert forall|p: Predicate| #[trigger] self.resolved(store, p, false) implies self.resolved(
            store,
            p,
            true,
        ) by {
            if !self.lower().contains(p) {
                let c = store.explanation(p)->0;
                assert forall|t: int| 0 <= t < c.len() implies self.met(
                    store,
                    #[trigger] c[t],
                    true,
                ) by {
                    assert(self.met(store, c[t], false));
                }
            }
        }
        if self.complete_but(store, conflict, pending, false) {
            assert forall|k: int| 0 <= k < conflict.len() implies self.met(
                store,
                #[trigger] conflict[k],
                true,
            ) by {
                assert(self.met(store, conflict[k], false));
            }
            assert forall|k: int| #[trigger] self.gone(k) implies self.ids()[k] == pending
                || self.resolved(store, self.ids()[k], true) by {
                if self.ids()[k] != pending {
                    assert(self.resolved(store, self.ids()[k], false));
                }
            }
        }
        if self.complete(store, conflict, conflict.len() as int, false) {
            assert forall|k: int| 0 <= k < conflict.len() implies self.met(
                store,
                #[trigger] conflict[k],
                true,
            ) by {
                assert(self.met(store, conflict[k], false));
            }
            assert forall|k: int| #[trigger] self.gone(k) implies self.resolved(
                store,
                self.ids()[k],
                true,
            ) by {
                assert(self.resolved(store, self.ids()[k], false));
            }
        }
    }

    /// After the pending predicate was put among the predicates of the
    /// lower levels, nothing got lost.
    proof fn lemma_pending_pushed(
        &self,
        before: &Self,
        store: &Assignments,
        conflict: Seq<Predicate>,
        pending: Predicate,
    )
        requires
            before.complete_but(store, conflict, pending, true),
            self.ids() == before.ids(),
            self.heap_flags() == before.heap_flags(),
            self.heap_values() == before.heap_values(),
            self.lower() == before.lower().push(pending),
        ensures
            self.complete(store, conflict, conflict.len() as int, true),
    {
        self.lemma_met_kept(before, store, true);
        assert(self.lower()[before.lower().len() as int] == pending);
        assert(self.lower().contains(pending));
        assert forall|k: int| 0 <= k < conflict.len() implies self.met(
            store,
            #[trigger] conflict[k],
            true,
        ) by {
            assert(before.met(store, conflict[k], true));
        }
        assert forall|k: int| #[trigger] self.gone(k) implies self.resolved(
            store,
            self.ids()[k],
            true,
        ) by {
            assert(before.gone(k));
            if before.ids()[k] != pending {
                assert(before.resolved(store, before.ids()[k], true));
            }
        }
    }

    /// Expanding reasons loses nothing.
    proof fn lemma_complete_expands(
        &self,
        old: &Assignments,
        new: &Assignments,
        conflict: Seq<Predicate>,
        pending: Predicate,
    )
        requires
            old.wf(),
            new.wf(),
            new.expands(old),
            self.complete_but(old, conflict, pending, false),
        ensures
            self.complete_but(new, conflict, pending, false),
    {
        assert forall|q: Predicate| #[trigger] self.met(old, q, false) implies self.met(
            new,
            q,
            false,
        ) by {
            new.lemma_expands(old, q);
        }
        assert forall|k: int| 0 <= k < conflict.len() implies self.met(
            new,
            #[trigger] conflict[k],
            false,
        ) by {
            assert(self.met(old, conflict[k], false));
        }
        assert forall|k: int| #[trigger] self.gone(k) implies self.ids()[k] == pending
            || self.resolved(new, self.ids()[k], false) by {
            let p = self.ids()[k];
            if p != pending {
                assert(self.resolved(old, p, false));
                if !self.lower().contains(p) {
                    new.lemma_expands(old, p);
                    let c = old.explanation(p)->0;
                    assert forall|t: int| 0 <= t < c.len() implies self.met(
                        new,
                        #[trigger] c[t],
                        false,
                    ) by {
                        assert(self.met(old, c[t], false));
                    }
                }
            }
        }
    }

    /// Whether `raw` is what the analysis has left: the predicates of the
    /// lower levels, and after them the predicate of the heap that became
    /// true last, where the heap holds one.
    pub closed spec fn leaves(&self, raw: Seq<Predicate>) -> bool {
        if self.heap_count() == 0 {
            raw == self.lower()
        } else {
            exists|key: int|
                self.heap_current_decision_level.is_max(key) && raw == self.lower().push(
                    #[trigger] self.ids()[key],
                )
        }
    }

    /// Whether `nogood` is extracted from what the analysis has left by way
    /// of `raw`, `first` and `merged`, and `after` are the counts then:
    /// `first` summarises `raw` without equality merging, `merged`
    /// summarises with equality merging what of `first` does not follow
    /// from the rest, and `nogood` holds the predicates of `merged`.
    pub open spec fn extracts_through(
        &self,
        store: &Assignments,
        nogood: Seq<Predicate>,
        before: LearnedClauseStatistics,
        after: LearnedClauseStatistics,
        raw: Seq<Predicate>,
        first: Seq<Predicate>,
        merged: Seq<Predicate>,
    ) -> bool {
        let kept = undominated(store, first, self.depth());
        &&& self.leaves(raw)
        &&& summarises(first, raw, store, Mode::DisableEqualityMerging)
        &&& summarises(merged, kept, store, Mode::EnableEqualityMerging)
        &&& nogood.to_multiset() == merged.to_multiset()
        &&& after == counted(before, store, raw.len() as int, first.len() as int, kept.len() as int, nogood)
    }

    /// Whether `nogood` is extracted from what the analysis has left, and
    /// `after` are the counts then.
    pub open spec fn extracts(
        &self,
        store: &Assignments,
        nogood: Seq<Predicate>,
        before: LearnedClauseStatistics,
        after: LearnedClauseStatistics,
    ) -> bool {
        exists|raw: Seq<Predicate>, first: Seq<Predicate>, merged: Seq<Predicate>| #[trigger]
            self.extracts_through(store, nogood, before, after, raw, first, merged)
    }

    /// Whether each predicate of the lower levels became true below the
    /// current decision level.
    pub closed spec fn below(&self, store: &Assignments) -> bool {
        forall|k: int|
            0 <= k < self.lower().len() ==> store.satisfied_at(
                store.level_base(),
                #[trigger] self.lower()[k],
            )
    }

    /// Predicates of the lower levels that became true below the current
    /// one leave it to the heap which predicate became true at the current
    /// level.
    pub proof fn lemma_below_is_focused(&self, store: &Assignments)
        requires
            self.below(store),
        ensures
            self.focused(store),
    {
        let base = store.level_base();
        let lower = self.lower();
        let any = Predicate::LowerBound { domain_id: DomainId { id: 0 }, lower_bound: 0 };
        assert(covered_by(store, base, lower, any));
        assert forall|key: int|
            0 <= key < self.heap_flags().len() && #[trigger] self.heap_flags()[key] implies narrow(
            store,
            base,
            lower.push(self.ids()[key]),
        ) by {
            let q = self.ids()[key];
            let all = lower.push(q);
            assert forall|k: int|
                0 <= k < all.len() && !store.satisfied_at(base, #[trigger] all[k]) implies covers(
                q,
                all[k],
            ) by {
                if k < lower.len() {
                    assert(all[k] == lower[k]);
                }
            }
            assert(covered_by(store, base, all, q));
        }
    }

    /// The resolver is sound, and each predicate in the heap became true at
    /// the current decision level, above the root, and has its place in the
    /// order in which predicates became true as its value.
    pub closed spec fn consistent(&self, store: &Assignments) -> bool {
        &&& self.sound(store)
        &&& (forall|key: int|
            0 <= key < self.heap_flags().len() && #[trigger] self.heap_flags()[key] ==> {
                &&& store.decision_level_of(self.ids()[key]) == Some(store.level() as int)
                &&& store.level() > 0
                &&& self.heap_values()[key] == store.key_of(self.ids()[key])
            })
    }

    /// A consistent resolver is sound: what takes a sound resolver takes a
    /// consistent one.
    pub proof fn lemma_consistent_is_sound(&self, store: &Assignments)
        requires
            self.consistent(store),
        ensures
            self.sound(store),
    {
    }

    /// A resolver that holds no predicate, and traces explanations eight
    /// deep when it minimises.
    pub fn new() -> (r: ResolutionResolver)
        ensures
            r.heap_flags() == Seq::<bool>::empty(),
            r.heap_values() == Seq::<u128>::empty(),
            r.ids() == Seq::<Predicate>::empty(),
            r.lower() == Seq::<Predicate>::empty(),
            r.depth() == 8,
    {
        ResolutionResolver {
            heap_current_decision_level: KeyValueHeap::default(),
            predicate_id_generator: PredicateIdGenerator::new(),
            predicates_lower_decision_level: Vec::new(),
            recursive_minimiser: RecursiveMinimiser::default(),
        }
    }

    /// Clears all data structures to prepare for the new conflict analysis.
    pub fn clean_up(&mut self)
        ensures
            final(self).heap_flags() == Seq::<bool>::empty(),
            final(self).heap_values() == Seq::<u128>::empty(),
            final(self).ids() == Seq::<Predicate>::empty(),
            final(self).lower() == Seq::<Predicate>::empty(),
            final(self).depth() == old(self).depth(),
            forall|store: &Assignments| #[trigger] final(self).consistent(store),
            forall|store: &Assignments| #[trigger] final(self).sound(store),
            forall|store: &Assignments| #[trigger] final(self).below(store),
            forall|store: &Assignments| #[trigger] final(self).focused(store),
            final(self).untouched(),
    {
        self.predicates_lower_decision_level.clear();
        self.predicate_id_generator.clear();
        self.heap_current_decision_level.clear();
        proof {
            assert forall|store: &Assignments| #[trigger] self.focused(store) by {
                self.lemma_below_is_focused(store);
            }
        }
    }

    /// Takes `predicate` into the analysis: into the heap where it became
    /// true at the current decision level, into the list of the lower levels
    /// where it became true at a level between the root and the current
    /// one. A predicate that holds at the root is left out, and so is one
    /// that was in the heap before and has left it.
    pub fn add_predicate_to_conflict_nogood<B: Brancher>(
        &mut self,
        predicate: Predicate,
        assignments: &Assignments,
        brancher: &mut B,
    )
        requires
            assignments.wf(),
            old(self).consistent(assignments),
            assignments.has(predicate.domain()),
            assignments.satisfies(predicate),
        ensures
            final(self).consistent(assignments),
            final(self).sound(assignments),
            final(self).depth() == old(self).depth(),
            final(self).heap_flags().len() >= old(self).heap_flags().len(),
            old(self).heap_count() <= final(self).heap_count() <= old(self).heap_count() + 1,
            forall|bound: int|
                bound > assignments.key_of(predicate) ==> #[trigger] count_at_least(
                    final(self).heap_flags(),
                    final(self).heap_values(),
                    bound,
                    final(self).heap_flags().len() as int,
                ) == count_at_least(
                    old(self).heap_flags(),
                    old(self).heap_values(),
                    bound,
                    old(self).heap_flags().len() as int,
                ),
            assignments.decision_level_of(predicate) == Some(0int) ==> final(self).heap_flags()
                == old(self).heap_flags() && final(self).lower() == old(self).lower(),
            forall|key: int|
                0 <= key < final(self).heap_flags().len()
                    && #[trigger] final(self).heap_flags()[key]
                    ==> (key < old(self).heap_flags().len() && old(self).heap_flags()[key]
                    && final(self).heap_values()[key] == old(self).heap_values()[key])
                    || final(self).heap_values()[key] == assignments.key_of(
                    predicate,
                ),
            final(self).lower() == old(self).lower()
                || final(self).lower() == old(self).lower().push(predicate),
            assignments.level() > 0 && old(self).below(assignments) ==> final(self).below(
                assignments,
            ),
            assignments.decision_level_of(predicate) matches Some(l) && 0 < l
                < assignments.level() ==> final(self).lower() == old(self).lower().push(predicate)
                && final(self).heap_flags() == old(self).heap_flags(),
            assignments.decision_level_of(predicate) == Some(assignments.level() as int)
                && assignments.level() > 0 ==> final(self).lower() == old(self).lower()
                && exists|key: int|
                0 <= key < final(self).heap_flags().len() && #[trigger] final(self).ids()[key]
                    == predicate
                        && (final(self).heap_flags()[key]
                        || (key < old(self).heap_flags().len()
                        && old(self).heap_values()[key] != 0)),
            old(self).untouched() ==> final(self).untouched(),
            old(self).untouched() && assignments.decision_level_of(predicate) == Some(
                assignments.level() as int,
            ) && assignments.level() > 0 ==> final(self).heap_count() >= 1,
            old(self).untouched() ==> final(self).heap_count() == old(self).heap_count()
                + if at_current_level(assignments, predicate) && !old(self).holds(predicate) {
                1int
            } else {
                0
            },
            old(self).untouched() ==> forall|q: Predicate| #[trigger]
                final(self).holds(q) <==> old(self).holds(q) || (q == predicate
                    && at_current_level(assignments, predicate)),
            forall|q: Predicate| #[trigger]
                final(self).holds(q) ==> old(self).holds(q) || q == predicate,
            final(self).lower() == old(self).lower() || Self::between(assignments, predicate),
            final(self).ids() == old(self).ids() || (!old(self).ids().contains(predicate)
                && final(self).ids() == old(self).ids().push(predicate)),
            forall|key: int| #[trigger] final(self).gone(key) ==> old(self).gone(key),
            final(self).met(assignments, predicate, false),
            old(self).ids().no_duplicates() ==> final(self).ids().no_duplicates(),
    {
        let dec_level = assignments.get_decision_level_for_predicate(predicate);
        let level = match dec_level {
            Some(level) => level,
            None => 0,
        };
        // Ignore root level predicates.
        if level == 0 {
            // do nothing
        }
        // We distinguish between predicates from the current decision level and other predicates.
         else if level == assignments.get_decision_level() {
            let ghost start = *self;
            let predicate_id = self.predicate_id_generator.get_id(predicate);
            // Here we manually adjust the size of the heap to accommodate new elements.
            while self.heap_current_decision_level.len() <= predicate_id.id
                invariant
                    assignments.wf(),
                    self.consistent(assignments),
                    self.predicate_id_generator@ == if start.ids().contains(predicate) {
                        start.ids()
                    } else {
                        start.ids().push(predicate)
                    },
                    predicate_id.id < self.predicate_id_generator@.len(),
                    self.predicates_lower_decision_level@ == start.lower(),
                    self.recursive_minimiser == start.recursive_minimiser,
                    self.heap_flags().len() >= start.heap_flags().len(),
                    self.heap_count() == start.heap_count(),
                    forall|key: int|
                        0 <= key < start.heap_flags().len() ==> #[trigger] self.heap_flags()[key]
                            == start.heap_flags()[key] && self.heap_values()[key]
                            == start.heap_values()[key],
                    forall|key: int|
                        start.heap_flags().len() <= key < self.heap_flags().len()
                            ==> !#[trigger] self.heap_flags()[key],
                    forall|key: int|
                        start.heap_flags().len() <= key < self.heap_flags().len()
                            ==> #[trigger] self.heap_values()[key] == 0,
                    start.untouched() ==> self.untouched(),
                    forall|bound: int| #[trigger]
                        count_at_least(
                            self.heap_flags(),
                            self.heap_values(),
                            bound,
                            self.heap_flags().len() as int,
                        ) == count_at_least(
                            start.heap_flags(),
                            start.heap_values(),
                            bound,
                            start.heap_flags().len() as int,
                        ),
                decreases predicate_id.id + 1 - self.heap_flags().len(),
            {
                let ghost before = *self;
                self.heap_current_decision_level.grow(0);
                proof {
                    assert forall|bound: int| #[trigger]
                        count_at_least(
                            self.heap_flags(),
                            self.heap_values(),
                            bound,
                            self.heap_flags().len() as int,
                        ) == count_at_least(
                            before.heap_flags(),
                            before.heap_values(),
                            bound,
                            before.heap_flags().len() as int,
                        ) by {
                        lemma_count_at_least_push(
                            before.heap_flags(),
                            before.heap_values(),
                            0,
                            bound,
                            (before.heap_flags().len() + 1) as int,
                        );
                    }
                }
            }
            // Then we check whether the predicate was not already present in the heap, if this is
            // not the case then we insert it
            if !self.heap_current_decision_level.is_key_present(predicate_id.id)
                && self.heap_current_decision_level.get_value(predicate_id.id) == 0 {
                brancher.on_appearance_in_conflict_predicate(predicate);
                proof {
                    assignments.lemma_level_has_position(predicate);
                }
                match assignments.get_trail_position(predicate) {
                    Some(trail_position) => {
                        // The goal is to traverse predicate in reverse order of the trail.
                        //
                        // However some predicates may share the trail position. To remedy
                        // this, we make a tie-breaking scheme to prioritise implied
                        // predicates over explicit predicates. This is done by assigning
                        // explicitly set predicates the value `2 * trail_position`, whereas
                        // implied predicates get `2 * trail_position + 1`.
                        let heap_value: u128 = if assignments.get_trail_entry(
                            trail_position,
                        ).predicate == predicate {
                            (trail_position as u128) * 2
                        } else {
                            (trail_position as u128) * 2 + 1
                        };
                        let ghost before = *self;
                        self.heap_current_decision_level.restore_key(predicate_id.id, heap_value);
                        proof {
                            let key = predicate_id.id as int;
                            crate::conflict_analysis::key_value_heap::lemma_count_set_update(
                                before.heap_flags(),
                                key,
                                true,
                                before.heap_flags().len() as int,
                            );
                            assert forall|bound: int|
                                bound > assignments.key_of(predicate) implies #[trigger] count_at_least(
                                self.heap_flags(),
                                self.heap_values(),
                                bound,
                                self.heap_flags().len() as int,
                            ) == count_at_least(
                                start.heap_flags(),
                                start.heap_values(),
                                bound,
                                start.heap_flags().len() as int,
                            ) by {
                                lemma_count_at_least_update(
                                    before.heap_flags(),
                                    before.heap_values(),
                                    key,
                                    true,
                                    heap_value,
                                    bound,
                                    before.heap_flags().len() as int,
                                );
                            }
                            assert forall|k: int|
                                0 <= k < self.heap_flags().len()
                                    && #[trigger] self.heap_flags()[k] implies assignments.has(
                                self.ids()[k].domain(),
                            ) && assignments.satisfies(self.ids()[k])
                                && assignments.decision_level_of(self.ids()[k]) == Some(
                                assignments.level() as int,
                            ) && assignments.level() > 0 && self.heap_values()[k]
                                == assignments.key_of(self.ids()[k]) by {
                                if k != key {
                                    assert(before.heap_flags()[k]);
                                }
                            }
                        }
                    },
                    None => {},
                }
            }
            proof {
                let key = predicate_id.id as int;
                assert(self.ids()[key] == predicate);
                assert(self.ids().contains(predicate));
                assert(self.heap_flags()[key] || (key < start.heap_flags().len()
                    && start.heap_values()[key] != 0));
                if start.untouched() {
                    assert(self.untouched());
                    assert(self.heap_flags()[key]);
                    lemma_count_set_positive(self.heap_flags(), self.heap_flags().len() as int);
                    assert forall|q: Predicate| #[trigger]
                        self.holds(q) <==> start.holds(q) || q == predicate by {
                        if self.holds(q) {
                            let k = choose|k: int|
                                0 <= k < self.heap_flags().len() && self.heap_flags()[k]
                                    && #[trigger] self.ids()[k] == q;
                            if k != key {
                                assert(k < start.heap_flags().len() && start.heap_flags()[k]);
                                assert(start.ids()[k] == q);
                            }
                        }
                        if start.holds(q) {
                            let k = choose|k: int|
                                0 <= k < start.heap_flags().len() && start.heap_flags()[k]
                                    && #[trigger] start.ids()[k] == q;
                            assert(self.heap_flags()[k]);
                            assert(self.ids()[k] == q);
                        }
                    }
                }
            }
        } else {
            // We do not check for duplicate, we simply add the predicate.
            // Semantic minimisation will later remove duplicates and do other processing.
            proof {
                let extended = self.lower().push(predicate);
                if assignments.level() > 0 && self.below(assignments) {
                    assignments.lemma_level_has_position(predicate);
                    assignments.lemma_levels(
                        assignments.trail_position(predicate)->0,
                        assignments.trail_position(predicate)->0,
                    );
                    assignments.lemma_level_base(predicate);
                    assert forall|k: int| 0 <= k < extended.len() implies assignments.satisfied_at(
                        assignments.level_base(),
                        #[trigger] extended[k],
                    ) by {
                        if k < self.lower().len() {
                            assert(extended[k] == self.lower()[k]);
                        }
                    }
                }
                assert forall|k: int| 0 <= k < extended.len() implies assignments.has(
                    (#[trigger] extended[k]).domain(),
                ) && assignments.satisfies(extended[k]) by {
                    if k < self.lower().len() {
                        assert(extended[k] == self.lower()[k]);
                    }
                }
            }
            self.predicates_lower_decision_level.push(predicate);
            proof {
                assert(self.lower()[self.lower().len() - 1] == predicate);
            }
        }
        proof {
            let earlier = old(self).ids();
            if earlier.no_duplicates() && self.ids() != earlier {
                assert forall|i: int, j: int|
                    0 <= i < self.ids().len() && 0 <= j < self.ids().len() && i != j implies self.ids()[i]
                    != self.ids()[j] by {
                    if i < earlier.len() && j < earlier.len() {
                    } else if i < earlier.len() {
                        assert(earlier.contains(earlier[i]));
                    } else {
                        assert(earlier.contains(earlier[j]));
                    }
                }
            }
        }
    }

    /// Takes the predicate that became true last out of the heap.
    pub fn pop_predicate_from_conflict_nogood(&mut self) -> (r: Predicate)
        requires
            old(self).heap_count() > 0,
            exists|store: &Assignments| old(self).sound(store),
        ensures
            final(self).ids() == old(self).ids(),
            final(self).lower() == old(self).lower(),
            final(self).depth() == old(self).depth(),
            final(self).heap_values() == old(self).heap_values(),
            final(self).heap_count() == old(self).heap_count() - 1,
            forall|store: &Assignments| old(self).sound(store) ==> #[trigger] final(self).sound(store),
            forall|store: &Assignments|
                old(self).consistent(store) ==> #[trigger] final(self).consistent(store),
            exists|key: int|
                {
                    &&& 0 <= key < old(self).heap_flags().len()
                    &&& #[trigger] old(self).heap_flags()[key]
                    &&& r == old(self).ids()[key]
                    &&& final(self).heap_flags() == old(self).heap_flags().update(key, false)
                    &&& (forall|k: int|
                        0 <= k < old(self).heap_flags().len() && old(self).heap_flags()[k]
                            ==> old(self).heap_values()[k] <= old(self).heap_values()[key])
                },
    {
        let next_predicate_id = self.heap_current_decision_level.pop_max().unwrap();
        assert(old(self).heap_flags()[next_predicate_id as int]);
        self.predicate_id_generator.get_predicate(PredicateId { id: next_predicate_id }).unwrap()
    }

    /// The predicate in the heap that became true last.
    pub fn peek_predicate_from_conflict_nogood(&self) -> (r: Predicate)
        requires
            self.heap_count() > 0,
            exists|store: &Assignments| self.sound(store),
        ensures
            exists|key: int|
                0 <= key < self.heap_flags().len() && #[trigger] self.heap_flags()[key] && r
                    == self.ids()[key],
    {
        let next_predicate_id = self.heap_current_decision_level.peek_max().unwrap();
        assert(self.heap_flags()[next_predicate_id as int]);
        self.predicate_id_generator.get_predicate(PredicateId { id: next_predicate_id }).unwrap()
    }

    /// Lets the id of `predicate` stand for `replacement`: the first id
    /// that stood for `predicate`, where there is one. Its place in the heap
    /// stays.
    pub fn replace_predicate_in_conflict_nogood(
        &mut self,
        predicate: Predicate,
        replacement: Predicate,
    )
        ensures
            final(self).heap_flags() == old(self).heap_flags(),
            final(self).heap_values() == old(self).heap_values(),
            final(self).lower() == old(self).lower(),
            final(self).depth() == old(self).depth(),
            final(self).ids().len() == old(self).ids().len(),
            forall|k: int|
                0 <= k < old(self).ids().len()
                    ==> #[trigger] final(self).ids()[k] == if old(self).ids()[k] == predicate
                    && forall|t: int|
                    0 <= t < k ==> old(self).ids()[t] != predicate {
                    replacement
                } else {
                    old(self).ids()[k]
                },
            forall|store: &Assignments|
                old(self).sound(store) && store.has(replacement.domain()) && store.satisfies(
                    replacement,
                ) ==> #[trigger] final(self).sound(store),
    {
        self.predicate_id_generator.replace_predicate(predicate, replacement);
    }

    /// Expanding reasons leaves the resolver sound and consistent.
    proof fn lemma_resolver_expands(&self, old: &Assignments, new: &Assignments)
        requires
            old.wf(),
            new.wf(),
            new.expands(old),
        ensures
            self.sound(old) ==> self.sound(new),
            self.consistent(old) ==> self.consistent(new),
    {
        if self.sound(old) {
            assert forall|key: int|
                0 <= key < self.heap_flags().len() && #[trigger] self.heap_flags()[key] implies new.has(
                self.ids()[key].domain(),
            ) && new.satisfies(self.ids()[key]) by {
                new.lemma_expands(old, self.ids()[key]);
            }
            assert forall|k: int| 0 <= k < self.lower().len() implies new.has(
                (#[trigger] self.lower()[k]).domain(),
            ) && new.satisfies(self.lower()[k]) by {
                new.lemma_expands(old, self.lower()[k]);
            }
        }
        if self.consistent(old) {
            assert forall|key: int|
                0 <= key < self.heap_flags().len() && #[trigger] self.heap_flags()[key] implies {
                &&& new.decision_level_of(self.ids()[key]) == Some(new.level() as int)
                &&& new.level() > 0
                &&& self.heap_values()[key] == new.key_of(self.ids()[key])
            } by {
                new.lemma_expands(old, self.ids()[key]);
            }
        }
    }

    /// Whether there is a propagator to ask for the explanation of
    /// `predicate`: the trail entry that made it true has a reason that is
    /// still to be expanded, given by one of the `count` propagators.
    pub open spec fn can_ask(store: &Assignments, count: int, predicate: Predicate) -> bool {
        store.trail_position(predicate) matches Some(i) && (store.entry(i).reason matches Reason::Lazy(
            propagator,
            _,
        ) && propagator.0 < count)
    }

    /// Asks the propagator that posted `predicate` with a reason to expand
    /// for the explanation, and stores it in the place of the reason if the
    /// trail before the entry of `predicate` satisfies it. Returns whether
    /// `predicate` has an explanation now.
    fn expand_reason<P: Propagator>(
        assignments: &mut Assignments,
        propagators: &mut Vec<P>,
        predicate: Predicate,
    ) -> (r: bool)
        requires
            old(assignments).wf(),
            old(assignments).has(predicate.domain()),
            old(assignments).explanation(predicate) is None,
            forall|i: int|
                0 <= i < old(propagators)@.len() ==> (#[trigger] old(propagators)@[i]).scope()
                    <= old(assignments).num_domains(),
        ensures
            final(assignments).wf(),
            final(assignments).expands(old(assignments)),
            r == (final(assignments).explanation(predicate) is Some),
            !Self::can_ask(old(assignments), old(propagators)@.len() as int, predicate) ==> !r
                && *final(assignments) == *old(assignments) && final(propagators)@ == old(propagators)@,
            final(propagators)@.len() == old(propagators)@.len(),
            forall|i: int|
                0 <= i < old(propagators)@.len()
                    ==> alike(&(#[trigger] final(propagators)@[i]), &old(propagators)@[i]),
    {
        let ghost start = *assignments;
        proof {
            start.lemma_expands_transitive(&start, &start);
        }
        let position = match assignments.get_trail_position(predicate) {
            Some(position) => position,
            None => {
                return false;
            },
        };
        let lazy = match &assignments.get_trail_entry(position).reason {
            Reason::Lazy(propagator, code) => Some((*propagator, *code)),
            _ => None,
        };
        match lazy {
            Some((propagator, code)) => {
                let index = propagator.0 as usize;
                if index < propagators.len() {
                    let ghost before = propagators@;
                    assert(before[index as int].scope() <= assignments.num_domains());
                    let explanation = propagators[index].lazy_explanation(code, assignments);
                    proof {
                        assert forall|i: int| 0 <= i < before.len() implies alike(
                            &(#[trigger] propagators@[i]),
                            &before[i],
                        ) by {}
                    }
                    match explanation {
                        Some(explanation) => {
                            let stored = assignments.set_explanation(position, explanation);
                            proof {
                                assignments.lemma_expands(&start, predicate);
                            }
                            stored
                        },
                        None => false,
                    }
                } else {
                    false
                }
            },
            None => false,
        }
    }

    /// The predicate that takes the place of `predicate` when the analysis
    /// stops at a decision: the predicate itself where it is a decision or
    /// has no explanation of one predicate, else that one predicate.
    pub open spec fn stand_in(store: &Assignments, predicate: Predicate) -> Predicate {
        if !store.decided(predicate) && store.explanation(predicate) is Some && store.explanation(
            predicate,
        )->0.len() == 1 {
            store.explanation(predicate)->0[0]
        } else {
            predicate
        }
    }

    fn stand_in_for(assignments: &Assignments, predicate: Predicate) -> (r: Predicate)
        requires
            assignments.wf(),
            assignments.has(predicate.domain()),
            assignments.satisfies(predicate),
        ensures
            r == Self::stand_in(assignments, predicate),
            assignments.has(r.domain()),
            assignments.satisfies(r),
    {
        if assignments.is_decision_predicate(predicate) {
            return predicate;
        }
        // Note that we decompose [x == v] into the two predicates [x >= v] and [x <= v]:
        // such implied predicates are replaced with their reason.
        match assignments.get_propagation_reason(predicate) {
            Some(reason) => {
                if reason.len() == 1 {
                    proof {
                        assignments.lemma_explanation_earlier(predicate, 0);
                    }
                    reason[0]
                } else {
                    predicate
                }
            },
            None => predicate,
        }
    }

    /// Derives a nogood from the conflict of `context`.
    ///
    /// The predicates of the conflict that became true at the current
    /// decision level are resolved with their reasons, latest first, until
    /// one is left or a decision is met; the predicates of lower levels are
    /// collected, and those that hold at the root are dropped. A reason that
    /// is still to be expanded is expanded by the propagator that gave it,
    /// and stored. What is left is minimised and put in the order of the
    /// trail, latest first.
    ///
    /// The result is `None` only where a predicate to resolve has a reason
    /// that cannot be expanded. Where the current decision level holds no
    /// decision but the one that opened it, one predicate of the nogood at
    /// most became true at the current level: a nogood of two predicates or
    /// more jumps back below it.
    ///
    /// The conflict is counted, with the number of its different predicates
    /// of the current level and of its predicates of the levels between the
    /// root and the current one as its size. The nogood is extracted, as
    /// [`Self::extract_final_nogood`] does it, from what the analysis has
    /// left, which is nothing only where each predicate of the conflict
    /// holds at the root. What is left has one predicate in the heap at
    /// most; each predicate that is left comes from the conflict by steps
    /// from a predicate of the current level to a predicate of its
    /// explanation, and is in its place. Nothing got lost on the way: the
    /// analysis has met each predicate of the conflict, and each predicate
    /// that has left the heap stands among the predicates of the lower
    /// levels, or the analysis has met each predicate of its explanation.
    pub fn resolve_conflict<B: Brancher, P: Propagator>(
        &mut self,
        context: &mut ConflictAnalysisNogoodContext,
        brancher: &mut B,
        propagators: &mut Vec<P>,
    ) -> (r: Option<LearnedNogood>)
        requires
            old(context).wf(),
            forall|i: int|
                0 <= i < old(propagators)@.len() ==> (#[trigger] old(propagators)@[i]).scope()
                    <= old(context).assignments.num_domains(),
        ensures
            final(context).assignments.wf(),
            final(context).assignments.expands(&old(context).assignments),
            final(context).conflict_nogood == old(context).conflict_nogood,
            final(self).depth() == old(self).depth(),
            final(propagators)@.len() == old(propagators)@.len(),
            forall|i: int|
                0 <= i < old(propagators)@.len()
                    ==> alike(&(#[trigger] final(propagators)@[i]), &old(propagators)@[i]),
            fully_explained(&old(context).assignments) ==> r is Some,
            r matches Some(nogood) ==> {
                &&& in_store(nogood.predicates@, &final(context).assignments)
                &&& final(context).assignments.entails(nogood.predicates@)
                &&& latest_first(&final(context).assignments, nogood.predicates@)
                &&& nogood.backjump_level == if nogood.predicates@.len() > 1 {
                    final(context).assignments.decision_level_of(nogood.predicates@[1])->0
                } else {
                    0
                }
                &&& nogood.backjump_level <= final(context).assignments.level()
                &&& ((forall|k: int|
                    0 <= k < old(context).conflict_nogood@.len()
                        ==> old(context).assignments.decision_level_of(
                        #[trigger] old(context).conflict_nogood@[k],
                    )
                        == Some(0int)) ==> nogood.predicates@.len() == 0)
                &&& (old(context).assignments.decides_once() && nogood.predicates@.len() > 1
                    ==> nogood.backjump_level < final(context).assignments.level())
                &&& (nogood.predicates@.len() > 1
                    ==> nogood.backjump_level
                    <= final(context).assignments.decision_level_of(nogood.predicates@[0])->0)
            },
            final(context).counters.num_conflicts == saturated(
                old(context).counters.num_conflicts as int,
                1,
            ),
            final(context).counters.total_conflict_size == saturated(
                old(context).counters.total_conflict_size as int,
                saturated(
                    recent_count(
                        &old(context).assignments,
                        old(context).conflict_nogood@,
                        old(context).conflict_nogood@.len() as int,
                    ),
                    lower_part(
                        &old(context).assignments,
                        old(context).conflict_nogood@,
                        old(context).conflict_nogood@.len() as int,
                    ).len() as int,
                ),
            ),
            r matches Some(nogood) ==> exists|
                end: ResolutionResolver,
                middle: LearnedClauseStatistics,
            |
                {
                    &&& #[trigger] end.extracts(
                        &final(context).assignments,
                        nogood.predicates@,
                        middle,
                        final(context).counters,
                    )
                    &&& end.sound(&final(context).assignments)
                    &&& end.depth() == old(self).depth()
                    &&& end.heap_count() <= 1
                    &&& end.placed(&final(context).assignments)
                    &&& end.stems(&final(context).assignments, old(context).conflict_nogood@)
                    &&& end.complete(
                        &final(context).assignments,
                        old(context).conflict_nogood@,
                        old(context).conflict_nogood@.len() as int,
                        true,
                    )
                    &&& (end.holds_nothing() <==> forall|k: int|
                        0 <= k < old(context).conflict_nogood@.len()
                            ==> old(context).assignments.decision_level_of(
                            #[trigger] old(context).conflict_nogood@[k],
                        ) == Some(0int))
                    &&& middle.num_conflicts == final(context).counters.num_conflicts
                    &&& middle.total_conflict_size == final(context).counters.total_conflict_size
                    &&& middle.total_learned_clause_length
                        == old(context).counters.total_learned_clause_length
                    &&& middle.num_semantic_removals == old(context).counters.num_semantic_removals
                    &&& middle.num_recursive_removals == old(context).counters.num_recursive_removals
                    &&& middle.total_backtrack_distance == old(context).counters.total_backtrack_distance
                    &&& middle.total_lbd == old(context).counters.total_lbd
                },
    {
        self.clean_up();
        let ghost first = context.assignments;
        let ghost mut store = context.assignments;
        let ghost conflict = context.conflict_nogood@;
        let ghost scopes = propagators@;
        let ghost at_root = forall|k: int|
            0 <= k < conflict.len() ==> first.decision_level_of(#[trigger] conflict[k]) == Some(
                0int,
            );
        let ghost base = first.level_base();
        let ghost once = first.decides_once() && first.level() > 0;
        proof {
            assert(self.complete(&store, conflict, 0, false));
            first.lemma_expands_transitive(&first, &first);
            if first.level() == 0 {
                assert forall|k: int| 0 <= k < conflict.len() implies first.decision_level_of(
                    #[trigger] conflict[k],
                ) == Some(0int) by {
                    assert(first.satisfies(conflict[k]));
                    if first.trail_position(conflict[k]) is Some {
                        let i = first.trail_position(conflict[k])->0;
                        assert(first.is_position_of(i, conflict[k]));
                        first.lemma_levels(i, i);
                    }
                }
            }
        }

        // Initialise the data structures with the conflict nogood.
        let mut i: usize = 0;
        while i < context.conflict_nogood.len()
            invariant
                context.wf(),
                context.assignments == store,
                store == first,
                first == old(context).assignments,
                context.conflict_nogood == old(context).conflict_nogood,
                context.conflict_nogood@ == conflict,
                self.depth() == old(self).depth(),
                i <= conflict.len(),
                self.consistent(&store),
                (forall|k: int|
                    0 <= k < i ==> store.decision_level_of(#[trigger] conflict[k]) == Some(0int))
                    ==> self.heap_flags().len() == 0 && self.lower().len() == 0,
                first.level() > 0 ==> self.below(&store),
                self.untouched(),
                context.counters == old(context).counters,
                (exists|k: int|
                    0 <= k < i && store.decision_level_of(#[trigger] conflict[k]) != Some(0int))
                    ==> !self.holds_nothing(),
                self.lower() == lower_part(&store, conflict, i as int),
                self.heap_count() == recent_count(&store, conflict, i as int),
                self.complete(&store, conflict, i as int, false),
                self.stems(&store, conflict),
                self.lower_between(&store),
                forall|q: Predicate| #[trigger]
                    self.holds(q) <==> at_current_level(&store, q) && conflict.take(
                        i as int,
                    ).contains(q),
            decreases conflict.len() - i,
        {
            let predicate = context.conflict_nogood.get(i);
            let ghost before = *self;
            assert(store.has(conflict[i as int].domain()) && store.satisfies(conflict[i as int]));
            self.add_predicate_to_conflict_nogood(predicate, &context.assignments, brancher);
            proof {
                self.lemma_complete_kept(&before, &store, conflict, i as int);
                assert(self.complete(&store, conflict, i + 1, false));
                self.heap_current_decision_level.lemma_wf();
                lemma_count_set_bounds(self.heap_flags(), self.heap_flags().len() as int);
                if exists|k: int|
                    0 <= k < i + 1 && store.decision_level_of(#[trigger] conflict[k]) != Some(
                        0int,
                    ) {
                    let k = choose|k: int|
                        0 <= k < i + 1 && store.decision_level_of(#[trigger] conflict[k]) != Some(
                            0int,
                        );
                    if k < i {
                        assert(!before.holds_nothing());
                        before.heap_current_decision_level.lemma_wf();
                        lemma_count_set_bounds(
                            before.heap_flags(),
                            before.heap_flags().len() as int,
                        );
                        assert(self.heap_count() >= before.heap_count());
                        assert(self.lower().len() >= before.lower().len());
                    } else {
                        assert(conflict[k] == predicate);
                        assert(store.satisfies(predicate));
                        let level = store.decision_level_of(predicate)->0;
                        if store.trail_position(predicate) is Some {
                            let at = store.trail_position(predicate)->0;
                            assert(store.is_position_of(at, predicate));
                            store.lemma_levels(at, at);
                        }
                        assert(0 < level <= store.level());
                        if level < store.level() {
                            assert(self.lower() == before.lower().push(predicate));
                        } else {
                            assert(self.heap_count() >= 1);
                        }
                    }
                    assert(!self.holds_nothing());
                }
                assert(conflict[i as int] == predicate);
                lemma_stems_first(&store, conflict, predicate);
                self.lemma_taken_in_stems(&before, &store, conflict, predicate);
                assert(store.satisfies(predicate));
                if store.trail_position(predicate) is Some {
                    let at = store.trail_position(predicate)->0;
                    assert(store.is_position_of(at, predicate));
                    store.lemma_levels(at, at);
                }
                let earlier = conflict.take(i as int);
                let now = conflict.take(i + 1);
                assert(now =~= earlier.push(predicate));
                assert forall|q: Predicate| #[trigger]
                    self.holds(q) <==> at_current_level(&store, q) && now.contains(q) by {
                    if now.contains(q) {
                        let k = choose|k: int| 0 <= k < now.len() && now[k] == q;
                        if k < i {
                            assert(earlier[k] == q);
                        }
                    }
                    if earlier.contains(q) {
                        let k = choose|k: int| 0 <= k < earlier.len() && earlier[k] == q;
                        assert(now[k] == q);
                    }
                    assert(now[i as int] == predicate);
                }
            }
            i += 1;
        }
        proof {
            assert(conflict.take(conflict.len() as int) =~= conflict);
        }
        // Record conflict nogood size statistics.
        proof {
            self.heap_current_decision_level.lemma_wf();
        }
        let num_initial_conflict_predicates =
            self.heap_current_decision_level.num_nonremoved_elements() as u64;
        context.counters.num_conflicts = saturating_sum(context.counters.num_conflicts, 1);
        context.counters.total_conflict_size = saturating_sum(
            context.counters.total_conflict_size,
            saturating_sum(
                num_initial_conflict_predicates,
                self.predicates_lower_decision_level.len() as u64,
            ),
        );

        // Keep refining the conflict nogood until there is only one predicate from the current
        // decision level
        let mut stop = false;
        let ghost mut bound: int = 2 * (store.trail_len() as int) + 2;
        proof {
            assert forall|key: int|
                0 <= key < self.heap_flags().len()
                    && #[trigger] self.heap_flags()[key] implies self.heap_values()[key]
                <= bound by {
                store.lemma_level_has_position(self.ids()[key]);
            }
            lemma_count_at_least_bounds(
                self.heap_flags(),
                self.heap_values(),
                0,
                bound,
                self.heap_flags().len() as int,
            );
        }
        while !stop && self.heap_current_decision_level.num_nonremoved_elements() > 1
            invariant
                context.assignments.wf(),
                context.assignments == store,
                first.wf(),
                first == old(context).assignments,
                store.expands(&first),
                scopes == old(propagators)@,
                propagators@.len() == scopes.len(),
                forall|i: int|
                    0 <= i < scopes.len() ==> alike(&(#[trigger] propagators@[i]), &scopes[i]),
                forall|i: int|
                    0 <= i < scopes.len() ==> (#[trigger] scopes[i]).scope() <= first.num_domains(),
                context.conflict_nogood == old(context).conflict_nogood,
                context.conflict_nogood@ == conflict,
                self.depth() == old(self).depth(),
                self.sound(&store),
                !stop ==> self.consistent(&store),
                !stop ==> forall|key: int|
                    0 <= key < self.heap_flags().len() && #[trigger] self.heap_flags()[key]
                        ==> self.heap_values()[key] <= bound,
                0 <= bound,
                at_root ==> self.heap_flags().len() == 0 && self.lower().len() == 0,
                base == first.level_base(),
                base == store.level_base(),
                once == (first.decides_once() && first.level() > 0),
                once && !stop ==> self.below(&store),
                once && stop ==> self.focused(&store),
                !at_root ==> !self.holds_nothing(),
                self.stems(&store, conflict),
                !stop ==> self.complete(&store, conflict, conflict.len() as int, false),
                !stop ==> self.ids().no_duplicates(),
                stop ==> self.complete(&store, conflict, conflict.len() as int, true),
                stop ==> self.heap_count() <= 1,
                !stop ==> self.lower_between(&store),
                stop ==> self.placed(&store),
                context.counters.num_conflicts == saturated(
                    old(context).counters.num_conflicts as int,
                    1,
                ),
                context.counters.total_conflict_size == saturated(
                    old(context).counters.total_conflict_size as int,
                    saturated(
                        recent_count(&first, conflict, conflict.len() as int),
                        lower_part(&first, conflict, conflict.len() as int).len() as int,
                    ),
                ),
                conflict == old(context).conflict_nogood@,
                context.counters.total_learned_clause_length
                    == old(context).counters.total_learned_clause_length,
                context.counters.num_semantic_removals == old(context).counters.num_semantic_removals,
                context.counters.num_recursive_removals == old(context).counters.num_recursive_removals,
                context.counters.total_backtrack_distance == old(context).counters.total_backtrack_distance,
                context.counters.total_lbd == old(context).counters.total_lbd,
            decreases
                    (if stop {
                        0int
                    } else {
                        1int
                    }),
                    bound,
                    count_at_least(
                        self.heap_flags(),
                        self.heap_values(),
                        bound,
                        self.heap_flags().len() as int,
                    ),
        {
            let ghost before = *self;
            proof {
                lemma_count_at_least_bounds(
                    self.heap_flags(),
                    self.heap_values(),
                    0,
                    bound,
                    self.heap_flags().len() as int,
                );
                lemma_count_set_positive(self.heap_flags(), self.heap_flags().len() as int);
            }
            // Replace the predicate from the nogood that has been assigned last on the trail.
            //
            // This is done in two steps:
            // 1) Pop the predicate last assigned on the trail from the nogood.
            let next_predicate = self.pop_predicate_from_conflict_nogood();
            let ghost popped = choose|key: int|
                {
                    &&& 0 <= key < before.heap_flags().len()
                    &&& #[trigger] before.heap_flags()[key]
                    &&& next_predicate == before.ids()[key]
                    &&& self.heap_flags() == before.heap_flags().update(key, false)
                    &&& (forall|k: int|
                        0 <= k < before.heap_flags().len() && before.heap_flags()[k]
                            ==> before.heap_values()[k] <= before.heap_values()[key])
                };
            let ghost value = before.heap_values()[popped] as int;
            proof {
                self.lemma_popped(&before, &store, conflict, popped, next_predicate);
                assert(before.holds(next_predicate));
                assert(stemmed(&store, conflict, next_predicate));
                assert(at_current_level(&store, next_predicate));
                assert forall|q: Predicate| #[trigger] self.holds(q) implies before.holds(q) by {
                    let k = choose|k: int|
                        0 <= k < self.heap_flags().len() && self.heap_flags()[k]
                            && #[trigger] self.ids()[k] == q;
                    assert(before.heap_flags()[k] && before.ids()[k] == q);
                }
                assert(self.stems(&store, conflict));
                assert forall|q: Predicate| #[trigger] self.holds(q) implies at_current_level(
                    &store,
                    q,
                ) by {
                    let k = choose|k: int|
                        0 <= k < self.heap_flags().len() && self.heap_flags()[k]
                            && #[trigger] self.ids()[k] == q;
                    assert(before.heap_flags()[k]);
                }
                assert(value == store.key_of(next_predicate));
                store.lemma_level_has_position(next_predicate);
                lemma_count_at_least_update(
                    before.heap_flags(),
                    before.heap_values(),
                    popped,
                    false,
                    before.heap_values()[popped],
                    bound,
                    before.heap_flags().len() as int,
                );
                assert(before.heap_values().update(popped, before.heap_values()[popped])
                    =~= before.heap_values());
                lemma_count_at_least_bounds(
                    self.heap_flags(),
                    self.heap_values(),
                    value,
                    bound,
                    self.heap_flags().len() as int,
                );
                assert forall|key: int|
                    0 <= key < self.heap_flags().len()
                        && #[trigger] self.heap_flags()[key] implies self.heap_values()[key]
                    <= value by {
                    assert(before.heap_flags()[key]);
                }
            }

            // 2) Add the reason of the next_predicate to the nogood.

            // 2.a) Here we treat the special case: if the next predicate is a decision, this means
            // that we are done with analysis since the only remaining predicate in the heap is the
            // other decision.
            if context.assignments.is_decision_predicate(next_predicate) {
                // As a simple workaround, we add the currently analysed predicate to set of
                // predicates from the lower predicate level, and stop analysis.
                //
                // Semantic minimisation will ensure the bound predicates get converted into an
                // equality decision predicate.
                proof {
                    if once {
                        // The decision opened the level, so that any predicate that is
                        // left in the heap became true with it, and is the decision.
                        let i = store.trail_position(next_predicate)->0;
                        assert(store.is_position_of(i, next_predicate));
                        assert(first.entry(i).reason is Decision);
                        store.lemma_level_base(next_predicate);
                        assert(i == base);
                        assert forall|key: int|
                            0 <= key < self.heap_flags().len()
                                && #[trigger] self.heap_flags()[key] implies self.ids()[key]
                            == next_predicate by {
                            assert(before.heap_flags()[key]);
                            let p = before.ids()[key];
                            store.lemma_level_has_position(p);
                            store.lemma_level_base(p);
                            assert(before.heap_values()[key] <= before.heap_values()[popped]);
                        }
                    }
                }
                while self.heap_current_decision_level.num_nonremoved_elements() > 1
                    invariant
                        context.assignments.wf(),
                        context.assignments == store,
                        context.conflict_nogood == old(context).conflict_nogood,
                        self.depth() == old(self).depth(),
                        self.sound(&store),
                        store.has(next_predicate.domain()),
                        store.satisfies(next_predicate),
                        store.decided(next_predicate),
                        base == store.level_base(),
                        self.stems(&store, conflict),
                        stemmed(&store, conflict, next_predicate),
                        at_current_level(&store, next_predicate),
                        self.complete_but(&store, conflict, next_predicate, false),
                        self.ids().no_duplicates(),
                        forall|q: Predicate| #[trigger]
                            self.holds(q) ==> at_current_level(&store, q),
                        forall|k: int|
                            0 <= k < self.lower().len() ==> Self::between(
                                &store,
                                #[trigger] self.lower()[k],
                            ) || Self::near(&store, self.lower()[k]),
                        once ==> forall|key: int|
                            0 <= key < self.heap_flags().len() && #[trigger] self.heap_flags()[key]
                                ==> self.ids()[key] == next_predicate,
                        once ==> forall|k: int|
                            0 <= k < self.lower().len() && !store.satisfied_at(
                                base,
                                #[trigger] self.lower()[k],
                            ) ==> self.lower()[k] == next_predicate,
                    decreases self.heap_count(),
                {
                    let ghost earlier = *self;
                    let predicate = self.pop_predicate_from_conflict_nogood();
                    let predicate_replacement = Self::stand_in_for(&context.assignments, predicate);
                    let ghost popped_state = *self;
                    // We push to `predicates_lower_decision_level` since this structure will be
                    // used for creating the final nogood
                    self.predicates_lower_decision_level.push(predicate_replacement);
                    proof {
                        let left = choose|key: int|
                            {
                                &&& 0 <= key < earlier.heap_flags().len()
                                &&& #[trigger] earlier.heap_flags()[key]
                                &&& predicate == earlier.ids()[key]
                                &&& popped_state.heap_flags() == earlier.heap_flags().update(
                                    key,
                                    false,
                                )
                                &&& (forall|k: int|
                                    0 <= k < earlier.heap_flags().len() && earlier.heap_flags()[k]
                                        ==> earlier.heap_values()[k] <= earlier.heap_values()[key])
                            };
                        self.lemma_drained(
                            &earlier,
                            &store,
                            conflict,
                            next_predicate,
                            left,
                            predicate,
                        );
                        assert(earlier.holds(predicate));
                        assert(stemmed(&store, conflict, predicate));
                        if predicate_replacement != predicate {
                            assert(store.explanation(predicate)->0[0] == predicate_replacement);
                            lemma_stems_step(&store, conflict, predicate, predicate_replacement);
                        }
                        assert forall|q: Predicate| #[trigger]
                            popped_state.holds(q) implies earlier.holds(q) by {
                            let k = choose|k: int|
                                0 <= k < popped_state.heap_flags().len()
                                    && popped_state.heap_flags()[k]
                                    && #[trigger] popped_state.ids()[k] == q;
                            assert(earlier.heap_flags()[k] && earlier.ids()[k] == q);
                        }
                        assert forall|q: Predicate| #[trigger] self.holds(q) implies earlier.holds(
                            q,
                        ) by {
                            assert(popped_state.holds(q));
                        }
                        assert forall|k: int| 0 <= k < self.lower().len() implies stemmed(
                            &store,
                            conflict,
                            #[trigger] self.lower()[k],
                        ) by {
                            if k < earlier.lower().len() {
                                assert(self.lower()[k] == earlier.lower()[k]);
                            }
                        }
                        assert(at_current_level(&store, predicate));
                        assert(predicate_replacement == Self::stand_in(&store, predicate));
                        assert(Self::near(&store, predicate_replacement));
                        assert forall|k: int| 0 <= k < self.lower().len() implies Self::between(
                            &store,
                            #[trigger] self.lower()[k],
                        ) || Self::near(&store, self.lower()[k]) by {
                            if k < earlier.lower().len() {
                                assert(self.lower()[k] == earlier.lower()[k]);
                            }
                        }
                        assert(popped_state.sound(&store));
                        assert(self.heap_flags() == popped_state.heap_flags());
                        assert(self.ids() == popped_state.ids());
                        assert forall|k: int| 0 <= k < self.lower().len() implies store.has(
                            (#[trigger] self.lower()[k]).domain(),
                        ) && store.satisfies(self.lower()[k]) by {
                            if k < popped_state.lower().len() {
                                assert(self.lower()[k] == popped_state.lower()[k]);
                            }
                        }
                        assert(self.sound(&store));
                        if once {
                            assert(predicate == next_predicate);
                            assert(predicate_replacement == next_predicate);
                            assert forall|key: int|
                                0 <= key < self.heap_flags().len()
                                    && #[trigger] self.heap_flags()[key] implies self.ids()[key]
                                == next_predicate by {
                                assert(earlier.heap_flags()[key]);
                            }
                            assert forall|k: int|
                                0 <= k < self.lower().len() && !store.satisfied_at(
                                    base,
                                    #[trigger] self.lower()[k],
                                ) implies self.lower()[k] == next_predicate by {
                                if k < popped_state.lower().len() {
                                    assert(self.lower()[k] == earlier.lower()[k]);
                                }
                            }
                        }
                    }
                }
                // It could be the case that the final predicate in the nogood is implied, in
                // this case we eagerly replace it since the conflict analysis output assumes
                // that a single variable is propagating.
                let ghost emptied = *self;
                if self.heap_current_decision_level.num_nonremoved_elements() > 0 {
                    let predicate = self.peek_predicate_from_conflict_nogood();
                    let replacement = Self::stand_in_for(&context.assignments, predicate);
                    if replacement != predicate {
                        self.replace_predicate_in_conflict_nogood(predicate, replacement);
                        proof {
                            assert(emptied.holds(predicate));
                            self.lemma_replaced(
                                &emptied,
                                &store,
                                conflict,
                                next_predicate,
                                predicate,
                            );
                            assert(store.explanation(predicate)->0[0] == replacement);
                            lemma_stems_step(&store, conflict, predicate, replacement);
                            assert forall|q: Predicate| #[trigger] self.holds(q) implies stemmed(
                                &store,
                                conflict,
                                q,
                            ) && Self::near(&store, q) by {
                                let k = choose|k: int|
                                    0 <= k < self.heap_flags().len() && self.heap_flags()[k]
                                        && #[trigger] self.ids()[k] == q;
                                if q != replacement {
                                    assert(emptied.heap_flags()[k] && emptied.ids()[k] == q);
                                    assert(emptied.holds(q));
                                } else {
                                    assert(at_current_level(&store, predicate));
                                    assert(replacement == Self::stand_in(&store, predicate));
                                }
                            }
                        }
                    }
                }
                proof {
                    if self.ids() == emptied.ids() {
                        self.lemma_loosely(&store, conflict, next_predicate);
                    }
                }
                // The final predicate in the heap will get pushed in `extract_final_nogood`
                let ghost drained = *self;
                self.predicates_lower_decision_level.push(next_predicate);
                proof {
                    self.lemma_pending_pushed(&drained, &store, conflict, next_predicate);
                    assert(drained.sound(&store));
                    assert(self.heap_flags() == drained.heap_flags());
                    assert(self.ids() == drained.ids());
                    assert forall|k: int| 0 <= k < self.lower().len() implies store.has(
                        (#[trigger] self.lower()[k]).domain(),
                    ) && store.satisfies(self.lower()[k]) by {
                        if k < drained.lower().len() {
                            assert(self.lower()[k] == drained.lower()[k]);
                        }
                    }
                    assert(self.sound(&store));
                    assert forall|k: int| 0 <= k < self.lower().len() implies stemmed(
                        &store,
                        conflict,
                        #[trigger] self.lower()[k],
                    ) by {
                        if k < drained.lower().len() {
                            assert(self.lower()[k] == drained.lower()[k]);
                        }
                    }
                    assert forall|q: Predicate| #[trigger] self.holds(q) implies drained.holds(
                        q,
                    ) by {}
                    assert(self.stems(&store, conflict));
                    assert forall|q: Predicate| #[trigger] self.holds(q) implies Self::near(
                        &store,
                        q,
                    ) by {
                        assert(drained.holds(q));
                    }
                    assert forall|k: int| 0 <= k < self.lower().len() implies Self::between(
                        &store,
                        #[trigger] self.lower()[k],
                    ) || Self::near(&store, self.lower()[k]) by {
                        if k < drained.lower().len() {
                            assert(self.lower()[k] == drained.lower()[k]);
                        }
                    }
                    assert(self.placed(&store));
                    if once {
                        let lower = self.lower();
                        assert forall|k: int|
                            0 <= k < lower.len() && !store.satisfied_at(
                                base,
                                #[trigger] lower[k],
                            ) implies covers(next_predicate, lower[k]) by {
                            if k < drained.lower().len() {
                                assert(lower[k] == drained.lower()[k]);
                            }
                        }
                        assert(covered_by(&store, base, lower, next_predicate));
                        assert forall|key: int|
                            0 <= key < self.heap_flags().len()
                                && #[trigger] self.heap_flags()[key] implies narrow(
                            &store,
                            base,
                            lower.push(self.ids()[key]),
                        ) by {
                            let all = lower.push(self.ids()[key]);
                            assert forall|k: int|
                                0 <= k < all.len() && !store.satisfied_at(
                                    base,
                                    #[trigger] all[k],
                                ) implies covers(next_predicate, all[k]) by {
                                if k < lower.len() {
                                    assert(all[k] == lower[k]);
                                }
                            }
                            assert(covered_by(&store, base, all, next_predicate));
                        }
                        assert(self.focused(&store));
                    }
                }
                stop = true;
            } else {
                // 2.b) Standard case, get the reason for the predicate and add it to the nogood.
                let mut reason = context.assignments.get_propagation_reason(next_predicate);
                if reason.is_none() {
                    let ghost unexpanded = store;
                    proof {
                        assert forall|i: int| 0 <= i < propagators@.len() implies (
                        #[trigger] propagators@[i]).scope()
                            <= context.assignments.num_domains() by {
                            assert(scopes[i].scope() <= first.num_domains());
                        }
                        if fully_explained(&first) {
                            let position = store.trail_position(next_predicate)->0;
                            store.lemma_reason_valid(position);
                            assert(store.entry(position).reason is Lazy);
                            assert(first.entry(position).reason is Lazy);
                        }
                    }
                    let ghost before_expansion = propagators@;
                    if Self::expand_reason(&mut context.assignments, propagators, next_predicate) {
                        reason = context.assignments.get_propagation_reason(next_predicate);
                    }
                    proof {
                        store = context.assignments;
                        store.lemma_expands_transitive(&unexpanded, &first);
                        self.lemma_resolver_expands(&unexpanded, &store);
                        self.lemma_resolver_stems_expands(&unexpanded, &store, conflict);
                        self.lemma_complete_expands(&unexpanded, &store, conflict, next_predicate);
                        assert forall|k: int| 0 <= k < self.lower().len() implies Self::between(
                            &store,
                            #[trigger] self.lower()[k],
                        ) by {
                            store.lemma_expands(&unexpanded, self.lower()[k]);
                        }
                        lemma_stems_expands(&unexpanded, &store, conflict, next_predicate);
                        store.lemma_expands(&unexpanded, next_predicate);
                        assert forall|i: int| 0 <= i < scopes.len() implies alike(
                            &(#[trigger] propagators@[i]),
                            &scopes[i],
                        ) by {
                            assert(alike(&before_expansion[i], &scopes[i]));
                        }
                    }
                }
                match reason {
                    Some(reason) => {
                        let ghost after_pop = *self;
                        let ghost counters_then = context.counters;
                        let mut k: usize = 0;
                        while k < reason.len()
                            invariant
                                context.assignments.wf(),
                                context.assignments == store,
                                context.conflict_nogood == old(context).conflict_nogood,
                                self.depth() == old(self).depth(),
                                store.has(next_predicate.domain()),
                                store.explanation(next_predicate) == Some(reason@),
                                value == store.key_of(next_predicate),
                                k <= reason.len(),
                                self.consistent(&store),
                                store.level() == first.level(),
                                once == (first.decides_once() && first.level() > 0),
                                once ==> self.below(&store),
                                self.heap_count() >= 1,
                                context.counters == counters_then,
                                self.lower_between(&store),
                                self.stems(&store, conflict),
                                stemmed(&store, conflict, next_predicate),
                                at_current_level(&store, next_predicate),
                                self.complete_but(&store, conflict, next_predicate, false),
                                self.ids().no_duplicates(),
                                forall|t: int|
                                    0 <= t < k ==> self.met(&store, #[trigger] reason@[t], false),
                                forall|key: int|
                                    0 <= key < self.heap_flags().len()
                                        && #[trigger] self.heap_flags()[key]
                                        ==> self.heap_values()[key] <= value,
                                count_at_least(
                                    self.heap_flags(),
                                    self.heap_values(),
                                    value,
                                    self.heap_flags().len() as int,
                                ) == count_at_least(
                                    after_pop.heap_flags(),
                                    after_pop.heap_values(),
                                    value,
                                    after_pop.heap_flags().len() as int,
                                ),
                            decreases reason.len() - k,
                        {
                            proof {
                                store.lemma_explanation_earlier(next_predicate, k as int);
                            }
                            let ghost taking = *self;
                            self.add_predicate_to_conflict_nogood(
                                reason[k],
                                &context.assignments,
                                brancher,
                            );
                            proof {
                                self.lemma_complete_but_kept(
                                    &taking,
                                    &store,
                                    conflict,
                                    next_predicate,
                                );
                                self.lemma_met_kept(&taking, &store, false);
                                assert forall|t: int| 0 <= t < k + 1 implies self.met(
                                    &store,
                                    #[trigger] reason@[t],
                                    false,
                                ) by {
                                    if t < k {
                                        assert(taking.met(&store, reason@[t], false));
                                    }
                                }
                                assert(store.explanation(next_predicate)->0[k as int]
                                    == reason@[k as int]);
                                lemma_stems_step(&store, conflict, next_predicate, reason@[k as int]);
                                self.lemma_taken_in_stems(
                                    &taking,
                                    &store,
                                    conflict,
                                    reason@[k as int],
                                );
                            }
                            k += 1;
                        }
                        proof {
                            bound = value;
                            assert forall|key: int| #[trigger] self.gone(key) implies self.resolved(
                                &store,
                                self.ids()[key],
                                false,
                            ) by {
                                if self.ids()[key] == next_predicate {
                                    assert(store.explanation(next_predicate) == Some(reason@));
                                }
                            }
                        }
                    },
                    None => {
                        return None;
                    },
                }
            }
        }
        proof {
            if !stop {
                self.lemma_loosely(
                    &store,
                    conflict,
                    Predicate::LowerBound { domain_id: DomainId { id: 0 }, lower_bound: 0 },
                );
            }
            if once && !stop {
                self.lemma_below_is_focused(&store);
            }
            if !stop {
                assert forall|q: Predicate| #[trigger] self.holds(q) implies Self::near(
                    &store,
                    q,
                ) by {
                    let k = choose|k: int|
                        0 <= k < self.heap_flags().len() && self.heap_flags()[k]
                            && #[trigger] self.ids()[k] == q;
                    assert(at_current_level(&store, self.ids()[k]));
                }
                assert(self.placed(&store));
            }
        }
        let ghost end = *self;
        let ghost middle = context.counters;
        let nogood = self.extract_final_nogood(context, brancher);
        proof {
            assert(end.extracts(&store, nogood.predicates@, middle, context.counters));
            if at_root {
                lemma_count_set_bounds(end.heap_flags(), end.heap_flags().len() as int);
            }
        }
        Some(nogood)
    }

    /// Backjumps to the level of the learned nogood.
    pub fn process<B: Brancher>(
        &mut self,
        context: &mut ConflictAnalysisNogoodContext,
        brancher: &mut B,
        learned_nogood: &Option<LearnedNogood>,
    ) -> (r: Result<(), ()>)
        requires
            old(context).assignments.wf(),
            learned_nogood matches Some(nogood) && nogood.backjump_level <= old(context).assignments.level(),
        ensures
            r is Ok,
            *final(self) == *old(self),
            final(context).assignments.wf(),
            final(context).assignments.restored(
                &old(context).assignments,
                learned_nogood->0.backjump_level as int,
            ),
    {
        match learned_nogood {
            Some(nogood) => {
                context.backtrack(nogood.backjump_level, brancher);
            },
            None => {},
        }
        Ok(())
    }

    /// Builds the nogood from the predicate that is left in the heap and the
    /// predicates of the lower levels: minimises them and puts them in the
    /// order of the trail, latest first. The counts grow by the length of
    /// the nogood, the number of different levels of its predicates, the
    /// levels that it jumps back, and the predicates that each minimisation
    /// has taken away.
    pub fn extract_final_nogood<B: Brancher>(
        &mut self,
        context: &mut ConflictAnalysisNogoodContext,
        brancher: &mut B,
    ) -> (r: LearnedNogood)
        requires
            old(context).assignments.wf(),
            old(self).sound(&old(context).assignments),
        ensures
            final(context).assignments == old(context).assignments,
            final(context).conflict_nogood == old(context).conflict_nogood,
            final(self).depth() == old(self).depth(),
            in_store(r.predicates@, &old(context).assignments),
            old(context).assignments.entails(r.predicates@),
            latest_first(&old(context).assignments, r.predicates@),
            r.backjump_level == if r.predicates@.len() > 1 {
                old(context).assignments.decision_level_of(r.predicates@[1])->0
            } else {
                0
            },
            r.backjump_level <= old(context).assignments.level(),
            r.predicates@.len() > 1
                ==> r.backjump_level <= old(context).assignments.decision_level_of(r.predicates@[0])->0,
            old(self).heap_count() == 0 && old(self).lower().len() == 0 ==> r.predicates@.len()
                == 0,
            old(self).focused(&old(context).assignments) && old(context).assignments.level() > 0
                && r.predicates@.len() > 1 ==> r.backjump_level < old(context).assignments.level(),
            old(self).extracts(
                &old(context).assignments,
                r.predicates@,
                old(context).counters,
                final(context).counters,
            ),
    {
        let ghost store = context.assignments;
        let ghost base = store.level_base();
        let ghost focused = self.focused(&store);
        let ghost entered = *self;
        let ghost counters = context.counters;
        // The final nogood is composed of the predicates encountered from the lower decision
        // levels, plus the predicate remaining in the heap.
        proof {
            self.heap_current_decision_level.lemma_wf();
        }
        if self.heap_current_decision_level.num_nonremoved_elements() > 0 {
            let ghost before = *self;
            let last_predicate = self.pop_predicate_from_conflict_nogood();
            proof {
                let extended = self.lower().push(last_predicate);
                assert forall|k: int| 0 <= k < extended.len() implies store.has(
                    (#[trigger] extended[k]).domain(),
                ) && store.satisfies(extended[k]) by {
                    if k < self.lower().len() {
                        assert(extended[k] == before.lower()[k]);
                    }
                }
            }
            self.predicates_lower_decision_level.push(last_predicate);
        }
        let ghost raw = self.predicates_lower_decision_level@;
        assert(focused ==> narrow(&store, base, raw));
        assert(entered.leaves(raw));

        // First we minimise the nogood using semantic minimisation to remove duplicates but we
        // avoid equality merging (since some of these literals could potentially be removed by
        // recursive minimisation)
        let mut clean_nogood: Vec<Predicate> = context.semantic_minimiser.minimise(
            &self.predicates_lower_decision_level,
            &context.assignments,
            Mode::DisableEqualityMerging,
        );
        let semantic_removals = if self.predicates_lower_decision_level.len()
            > clean_nogood.len() {
            self.predicates_lower_decision_level.len() - clean_nogood.len()
        } else {
            0
        };
        let ghost first = clean_nogood@;
        proof {
            if focused {
                lemma_summary_stays_narrow(&store, base, raw, first, Mode::DisableEqualityMerging);
            }
        }

        // Then we perform recursive minimisation to remove the dominated predicates
        let recursive_removals = self.recursive_minimiser.remove_dominated_predicates(
            &mut clean_nogood,
            &context.assignments,
        );
        proof {
            let keep = |p: Predicate|
                !crate::conflict_analysis::recursive_minimiser::dominated(
                    &store,
                    first,
                    p,
                    self.recursive_minimiser.depth(),
                );
            assert forall|k: int| 0 <= k < clean_nogood@.len() implies store.has(
                (#[trigger] clean_nogood@[k]).domain(),
            ) && store.satisfies(clean_nogood@[k]) by {
                let p = clean_nogood@[k];
                assert(first.filter(keep).contains(p));
                first.lemma_filter_contains_rev(keep, p);
                let t = choose|t: int| 0 <= t < first.len() && first[t] == p;
                assert(store.has(first[t].domain()) && store.satisfies(first[t]));
            }
            first.lemma_filter_len(keep);
            if focused {
                assert forall|k: int| 0 <= k < clean_nogood@.len() implies first.contains(
                    #[trigger] clean_nogood@[k],
                ) by {
                    let p = clean_nogood@[k];
                    assert(first.filter(keep).contains(p));
                    first.lemma_filter_contains_rev(keep, p);
                }
                lemma_selection_stays_narrow(&store, base, first, clean_nogood@);
            }
        }

        // We perform a final semantic minimisation call which allows the merging of the equality
        // predicates which remain in the nogood
        let merged = context.semantic_minimiser.minimise(
            &clean_nogood,
            &context.assignments,
            Mode::EnableEqualityMerging,
        );

        // Sorting places the predicates that became true last at the first two positions.
        let sorted = sort_latest_first(&merged, &context.assignments);
        // The second highest decision level predicate is at position one.
        // This is the backjump level.
        let backjump_level = if sorted.len() > 1 {
            assert(store.satisfies(sorted@[1]));
            context.assignments.get_decision_level_for_predicate(sorted[1]).unwrap()
        } else {
            // For unit nogoods, the solver backtracks to the root level.
            0
        };
        proof {
            if sorted@.len() > 1 {
                let latest = sorted@[0];
                let second = sorted@[1];
                assert(store.satisfies(latest));
                assert(rank_of(&store, latest) >= rank_of(&store, second));
                if store.trail_position(second) is Some {
                    let i1 = store.trail_position(second)->0;
                    let i0 = store.trail_position(latest)->0;
                    assert(store.is_position_of(i1, second));
                    assert(store.is_position_of(i0, latest));
                    store.lemma_levels(i1, i0);
                }
            }
            if focused && store.level() > 0 && sorted@.len() > 1 {
                lemma_summary_stays_narrow(
                    &store,
                    base,
                    clean_nogood@,
                    merged@,
                    Mode::EnableEqualityMerging,
                );
                lemma_bounds_differ(merged@);
                lemma_selection_stays_narrow(&store, base, merged@, sorted@);
                assert(bounds_differ(sorted@)) by {
                    assert forall|i: int, j: int|
                        0 <= i < sorted@.len() && 0 <= j < sorted@.len() && (#[trigger] sorted@[i])
                            != (#[trigger] sorted@[j]) && sorted@[i].domain() == sorted@[j].domain()
                            && !(sorted@[i] is NotEqual) && !(sorted@[j]
                            is NotEqual) implies sorted@[i].constant() != sorted@[j].constant() by {
                        let a = choose|a: int| 0 <= a < merged@.len() && merged@[a] == sorted@[i];
                        let b = choose|b: int| 0 <= b < merged@.len() && merged@[b] == sorted@[j];
                        assert(merged@[a] != merged@[b]);
                    }
                }
                lemma_narrow_is_one(&store, base, sorted@, 0, 1);
                let latest = sorted@[0];
                let second = sorted@[1];
                assert(store.satisfies(latest));
                store.lemma_level_base(latest);
                store.lemma_level_base(second);
                assert(rank_of(&store, latest) >= rank_of(&store, second));
                if !store.satisfied_at(base, second) {
                    store.lemma_satisfied_at(base, latest);
                    store.lemma_satisfied_at(base, second);
                }
            }
        }

        // The asserting predicate may be bumped twice, which does no harm.
        let mut levels: Vec<usize> = Vec::new();
        let mut k: usize = 0;
        while k < sorted.len()
            invariant
                context.assignments == store,
                store.wf(),
                in_store(sorted@, &store),
                store.entails(sorted@),
                context.conflict_nogood == old(context).conflict_nogood,
                context.counters == counters,
                k <= sorted.len(),
                levels@ == levels_of(&store, sorted@).take(k as int),
            decreases sorted.len() - k,
        {
            brancher.on_appearance_in_conflict_predicate(sorted[k]);
            assert(store.satisfies(sorted@[k as int]));
            levels.push(context.assignments.get_decision_level_for_predicate(sorted[k]).unwrap());
            proof {
                let all = levels_of(&store, sorted@);
                assert(all.take(k + 1) =~= all.take(k as int).push(all[k as int]));
            }
            k += 1;
        }
        proof {
            let all = levels_of(&store, sorted@);
            assert(all.take(k as int) =~= all);
        }
        context.counters.total_lbd = saturating_sum(
            context.counters.total_lbd,
            count_distinct(&levels) as u64,
        );
        context.counters.total_learned_clause_length = saturating_sum(
            context.counters.total_learned_clause_length,
            sorted.len() as u64,
        );
        context.counters.num_semantic_removals = saturating_sum(
            context.counters.num_semantic_removals,
            semantic_removals as u64,
        );
        context.counters.num_recursive_removals = saturating_sum(
            context.counters.num_recursive_removals,
            recursive_removals as u64,
        );
        let current_level = context.assignments.get_decision_level();
        context.counters.total_backtrack_distance = saturating_sum(
            context.counters.total_backtrack_distance,
            (current_level - backjump_level) as u64,
        );
        proof {
            if old(self).heap_count() == 0 && old(self).lower().len() == 0 {
                assert(raw.len() == 0);
                assert(first.len() == 0) by {
                    if first.len() > 0 {
                        assert(crate::conflict_analysis::semantic_minimiser::mentions(
                            raw,
                            first[0].domain(),
                            raw.len() as int,
                        ));
                    }
                }
                assert(merged@.len() == 0) by {
                    if merged@.len() > 0 {
                        assert(crate::conflict_analysis::semantic_minimiser::mentions(
                            clean_nogood@,
                            merged@[0].domain(),
                            clean_nogood@.len() as int,
                        ));
                    }
                }
            }
        }
        proof {
            assert(clean_nogood@ == undominated(&store, first, entered.depth()));
            assert(entered.extracts_through(
                &store,
                sorted@,
                counters,
                context.counters,
                raw,
                first,
                merged@,
            ));
        }
        LearnedNogood { backjump_level, predicates: sorted }
    }
}

} // verus!
