//! Semantic minimisation: the least set of predicates that says what a
//! nogood says about each variable.

use vstd::prelude::*;
use crate::assignments::Assignments;
use crate::predicate::{DomainId, Predicate};

verus! {

/// Whether the bounds `[x >= v]` and `[x <= v]` of one variable are fused
/// into `[x == v]`.
#[derive(Clone, Copy, Debug, PartialEq, Eq, Structural)]
pub enum Mode {
    EnableEqualityMerging,
    DisableEqualityMerging,
}

/// Whether the value `v` of `x` meets every predicate of `predicates` that
/// speaks of `x`.
pub open spec fn holds_on(predicates: Seq<Predicate>, x: DomainId, v: int) -> bool {
    forall|k: int|
        0 <= k < predicates.len() && (#[trigger] predicates[k]).domain() == x
            ==> predicates[k].holds(v)
}

/// Whether the value `v` of `x` meets each of the first `n` predicates that
/// speaks of `x` and is a bound or an equality.
pub open spec fn bounds_hold(predicates: Seq<Predicate>, x: DomainId, n: int, v: int) -> bool {
    forall|t: int|
        0 <= t < n && (#[trigger] predicates[t]).domain() == x && !(predicates[t] is NotEqual)
            ==> predicates[t].holds(v)
}

/// Whether the value `v` of `x` meets each of the first `n` predicates that
/// speaks of `x` and excludes a value.
pub open spec fn exclusions_hold(predicates: Seq<Predicate>, x: DomainId, n: int, v: int) -> bool {
    forall|t: int|
        0 <= t < n && (#[trigger] predicates[t]).domain() == x && predicates[t] is NotEqual
            ==> predicates[t].holds(v)
}

/// Whether `a` and `b` admit the same values for each variable of `store`,
/// among the values with which the variable was created.
pub open spec fn same_meaning(a: Seq<Predicate>, b: Seq<Predicate>, store: &Assignments) -> bool {
    forall|x: DomainId, v: int|
        store.has(x) && store.initial_lower(x) <= v <= store.initial_upper(x) ==> (
        #[trigger] holds_on(a, x, v) <==> holds_on(b, x, v))
}

/// Whether each predicate speaks of a variable of `store`.
pub open spec fn in_store(predicates: Seq<Predicate>, store: &Assignments) -> bool {
    forall|k: int| 0 <= k < predicates.len() ==> store.has((#[trigger] predicates[k]).domain())
}

/// Whether the first `n` predicates hold one that speaks of `x`.
pub open spec fn mentions(predicates: Seq<Predicate>, x: DomainId, n: int) -> bool {
    exists|k: int| 0 <= k < n && k < predicates.len() && (#[trigger] predicates[k]).domain() == x
}

/// Whether `p` bounds `x` from below by `c`: as a lower bound or as an
/// equality.
pub open spec fn lower_source(p: Predicate, x: DomainId, c: int) -> bool {
    p.domain() == x && p.constant() == c && (p is LowerBound || p is Equal)
}

/// Whether `p` bounds `x` from above by `c`: as an upper bound or as an
/// equality.
pub open spec fn upper_source(p: Predicate, x: DomainId, c: int) -> bool {
    p.domain() == x && p.constant() == c && (p is UpperBound || p is Equal)
}

/// Whether one of `predicates` bounds `x` from below by `c`.
pub open spec fn gives_lower(predicates: Seq<Predicate>, x: DomainId, c: int) -> bool {
    exists|t: int| 0 <= t < predicates.len() && lower_source(#[trigger] predicates[t], x, c)
}

/// Whether one of `predicates` bounds `x` from above by `c`.
pub open spec fn gives_upper(predicates: Seq<Predicate>, x: DomainId, c: int) -> bool {
    exists|t: int| 0 <= t < predicates.len() && upper_source(#[trigger] predicates[t], x, c)
}

/// Whether `predicates` say `p` in so many words: an excluded value is one
/// of them, a bound is the bound of one of them or of an equality among
/// them, and an equality has both its bounds among them.
pub open spec fn drawn_from(p: Predicate, predicates: Seq<Predicate>) -> bool {
    match p {
        Predicate::LowerBound { .. } => gives_lower(predicates, p.domain(), p.constant()),
        Predicate::UpperBound { .. } => gives_upper(predicates, p.domain(), p.constant()),
        Predicate::NotEqual { .. } => predicates.contains(p),
        Predicate::Equal { .. } => gives_lower(predicates, p.domain(), p.constant())
            && gives_upper(predicates, p.domain(), p.constant()),
    }
}

/// Whether each predicate of `summary` is drawn from `predicates`.
pub open spec fn all_drawn_from(summary: Seq<Predicate>, predicates: Seq<Predicate>) -> bool {
    forall|k: int| 0 <= k < summary.len() ==> drawn_from(#[trigger] summary[k], predicates)
}

/// Whether `summary` holds for each variable an equality, or at most one
/// lower bound and then at most one upper bound; with equality merging the
/// two bounds of a variable are not on one value.
pub open spec fn bounds_once(summary: Seq<Predicate>, mode: Mode) -> bool {
    forall|j: int, k: int|
        0 <= j < k < summary.len() && (#[trigger] summary[j]).domain() == (
        #[trigger] summary[k]).domain() && !(summary[j] is NotEqual) && !(summary[k] is NotEqual)
            ==> summary[j] is LowerBound && summary[k] is UpperBound && (mode
            == Mode::EnableEqualityMerging ==> summary[j].constant() != summary[k].constant())
}

/// Whether each excluded value of `summary` meets the bounds and the
/// equalities that `summary` holds for its variable.
pub open spec fn holes_within(summary: Seq<Predicate>) -> bool {
    forall|j: int, k: int|
        0 <= j < summary.len() && 0 <= k < summary.len() && (#[trigger] summary[j]).domain() == (
        #[trigger] summary[k]).domain() && summary[j] is NotEqual && !(summary[k] is NotEqual)
            ==> summary[k].holds(summary[j].constant())
}

/// Whether each predicate of `summary` says more than with which values its
/// variable was created.
pub open spec fn informative(summary: Seq<Predicate>, store: &Assignments) -> bool {
    forall|k: int| 0 <= k < summary.len() ==> !store.satisfied_at(0, #[trigger] summary[k])
}

/// Whether `summary` is what semantic minimisation makes of `predicates`:
/// it says the same about each variable of `store`, in the words of
/// `predicates`, once, with at most one lower and one upper bound or an
/// equality for a variable, with each excluded value within them, and
/// without what the variables were created with. Without equality merging
/// it holds no equality.
pub open spec fn summarises(
    summary: Seq<Predicate>,
    predicates: Seq<Predicate>,
    store: &Assignments,
    mode: Mode,
) -> bool {
    &&& in_store(summary, store)
    &&& same_meaning(summary, predicates, store)
    &&& summary.no_duplicates()
    &&& all_drawn_from(summary, predicates)
    &&& bounds_once(summary, mode)
    &&& holes_within(summary)
    &&& informative(summary, store)
    &&& (mode == Mode::DisableEqualityMerging ==> forall|k: int|
        0 <= k < summary.len() ==> !(#[trigger] summary[k] is Equal))
}

/// A store that satisfies predicates satisfies any predicates of the same
/// meaning.
pub proof fn lemma_same_meaning_entailed(
    a: Seq<Predicate>,
    b: Seq<Predicate>,
    store: &Assignments,
)
    requires
        store.wf(),
        in_store(a, store),
        in_store(b, store),
        same_meaning(a, b, store),
        store.entails(a),
    ensures
        store.entails(b),
{
    assert forall|k: int| 0 <= k < b.len() implies store.satisfies(#[trigger] b[k]) by {
        let p = b[k];
        let x = p.domain();
        assert forall|v: int| #[trigger]
            store.contains_at(store.trail_len() as int, x, v) implies p.holds(v) by {
            store.lemma_monotone(0, store.trail_len() as int, x, v);
            store.lemma_initial(x);
            assert forall|t: int| 0 <= t < a.len() && (#[trigger] a[t]).domain() == x implies a[t].holds(
                v,
            ) by {
                assert(store.satisfies(a[t]));
            }
            assert(holds_on(a, x, v));
            assert(holds_on(b, x, v));
        }
    }
}

/// Removes from a nogood what it says twice.
#[derive(Clone, Copy, Debug, Default)]
pub struct SemanticMinimiser {}

impl SemanticMinimiser {
    pub fn new() -> SemanticMinimiser {
        SemanticMinimiser {  }
    }

    /// The predicates that say about each variable what `nogood` says about
    /// it: at most one lower bound and one upper bound, each only where it
    /// is tighter than the bound with which the variable was created, and
    /// the excluded values that lie within the bounds, each once and in the
    /// words of `nogood`. With
    /// equality merging a lower and an upper bound on one value become an
    /// equality; without it an equality becomes two bounds.
    pub fn minimise(&mut self, nogood: &Vec<Predicate>, assignments: &Assignments, mode: Mode) -> (r:
        Vec<Predicate>)
        requires
            assignments.wf(),
            in_store(nogood@, assignments),
        ensures
            in_store(r@, assignments),
            same_meaning(r@, nogood@, assignments),
            assignments.entails(nogood@) ==> assignments.entails(r@),
            forall|k: int|
                0 <= k < r@.len() ==> mentions(nogood@, (#[trigger] r@[k]).domain(), nogood@.len() as int),
            mode == Mode::DisableEqualityMerging ==> forall|k: int|
                0 <= k < r@.len() ==> !(#[trigger] r@[k] is Equal),
            r@.no_duplicates(),
            all_drawn_from(r@, nogood@),
            bounds_once(r@, mode),
            holes_within(r@),
            informative(r@, assignments),
            summarises(r@, nogood@, assignments, mode),
    {
        let mut result: Vec<Predicate> = Vec::new();
        let n = nogood.len();
        let mut i: usize = 0;
        while i < n
            invariant
                assignments.wf(),
                in_store(nogood@, assignments),
                n == nogood@.len(),
                i <= n,
                in_store(result@, assignments),
                forall|k: int|
                    0 <= k < result@.len() ==> mentions(
                        nogood@,
                        (#[trigger] result@[k]).domain(),
                        i as int,
                    ),
                forall|x: DomainId, v: int|
                    mentions(nogood@, x, i as int) && assignments.initial_lower(x) <= v
                        <= assignments.initial_upper(x) ==> (#[trigger] holds_on(result@, x, v)
                        <==> holds_on(nogood@, x, v)),
                mode == Mode::DisableEqualityMerging ==> forall|k: int|
                    0 <= k < result@.len() ==> !(#[trigger] result@[k] is Equal),
                result@.no_duplicates(),
                all_drawn_from(result@, nogood@),
                bounds_once(result@, mode),
                holes_within(result@),
                informative(result@, assignments),
            decreases n - i,
        {
            let x = nogood[i].get_domain();
            let ghost before = result@;
            if !Self::is_mentioned(nogood, x, i) {
                let summary = Self::summarise(nogood, assignments, x, mode);
                let mut t: usize = 0;
                while t < summary.len()
                    invariant
                        t <= summary.len(),
                        result@ == before + summary@.take(t as int),
                    decreases summary.len() - t,
                {
                    result.push(summary[t]);
                    proof {
                        assert(summary@.take(t + 1) =~= summary@.take(t as int).push(
                            summary@[t as int],
                        ));
                        assert(before + summary@.take(t + 1) =~= (before + summary@.take(
                            t as int,
                        )).push(summary@[t as int]));
                    }
                    t += 1;
                }
                proof {
                    assert(summary@.take(t as int) =~= summary@);
                    let now = result@;
                    assert(nogood@[i as int].domain() == x);
                    assert forall|k: int| 0 <= k < now.len() implies mentions(
                        nogood@,
                        (#[trigger] now[k]).domain(),
                        i + 1,
                    ) by {
                        if k < before.len() {
                            assert(now[k] == before[k]);
                            let w = choose|w: int|
                                0 <= w < i && w < nogood@.len() && (#[trigger] nogood@[w]).domain()
                                    == before[k].domain();
                            assert(0 <= w < i + 1 && nogood@[w].domain() == now[k].domain());
                        } else {
                            assert(now[k] == summary@[k - before.len()]);
                        }
                    }
                    assert forall|y: DomainId, v: int|
                        mentions(nogood@, y, i + 1) && assignments.initial_lower(y) <= v
                            <= assignments.initial_upper(y) implies (#[trigger] holds_on(now, y, v)
                        <==> holds_on(nogood@, y, v)) by {
                        if y == x {
                            assert forall|k: int|
                                0 <= k < before.len() implies (#[trigger] before[k]).domain()
                                != x by {
                                if before[k].domain() == x {
                                    assert(mentions(nogood@, x, i as int));
                                }
                            }
                            lemma_holds_on_concat(before, summary@, x, v);
                        } else {
                            let w = choose|w: int|
                                0 <= w < i + 1 && w < nogood@.len() && (
                                #[trigger] nogood@[w]).domain() == y;
                            assert(w < i);
                            assert(mentions(nogood@, y, i as int));
                            lemma_holds_on_concat(before, summary@, y, v);
                        }
                    }
                    assert forall|k: int| 0 <= k < now.len() implies assignments.has(
                        (#[trigger] now[k]).domain(),
                    ) by {
                        if k < before.len() {
                            assert(now[k] == before[k]);
                        } else {
                            assert(now[k] == summary@[k - before.len()]);
                        }
                    }
                    if mode == Mode::DisableEqualityMerging {
                        assert forall|k: int| 0 <= k < now.len() implies !(
                        #[trigger] now[k] is Equal) by {
                            if k < before.len() {
                                assert(now[k] == before[k]);
                            } else {
                                assert(now[k] == summary@[k - before.len()]);
                            }
                        }
                    }
                    assert forall|k: int| 0 <= k < before.len() implies (#[trigger] before[k]).domain()
                        != x by {
                        if before[k].domain() == x {
                            assert(mentions(nogood@, x, i as int));
                        }
                    }
                    assert forall|j: int, k: int| 0 <= j < k < now.len() implies now[j]
                        != now[k] by {
                        if k < before.len() {
                            assert(now[j] == before[j] && now[k] == before[k]);
                        } else if j < before.len() {
                            assert(now[j] == before[j]);
                            assert(now[k] == summary@[k - before.len()]);
                        } else {
                            assert(now[j] == summary@[j - before.len()]);
                            assert(now[k] == summary@[k - before.len()]);
                        }
                    }
                    assert forall|k: int| 0 <= k < now.len() implies drawn_from(
                        #[trigger] now[k],
                        nogood@,
                    ) by {
                        if k < before.len() {
                            assert(now[k] == before[k]);
                        } else {
                            assert(now[k] == summary@[k - before.len()]);
                        }
                    }
                    assert forall|k: int| 0 <= k < now.len() implies !assignments.satisfied_at(
                        0,
                        #[trigger] now[k],
                    ) by {
                        if k < before.len() {
                            assert(now[k] == before[k]);
                        } else {
                            assert(now[k] == summary@[k - before.len()]);
                        }
                    }
                    assert forall|j: int, k: int|
                        0 <= j < now.len() && 0 <= k < now.len() && (#[trigger] now[j]).domain() == (
                        #[trigger] now[k]).domain() && now[j] is NotEqual && !(now[k]
                            is NotEqual) implies now[k].holds(now[j].constant()) by {
                        if j < before.len() {
                            assert(now[j] == before[j]);
                        } else {
                            assert(now[j] == summary@[j - before.len()]);
                        }
                        if k < before.len() {
                            assert(now[k] == before[k]);
                        } else {
                            assert(now[k] == summary@[k - before.len()]);
                        }
                    }
                    assert forall|j: int, k: int|
                        0 <= j < k < now.len() && (#[trigger] now[j]).domain() == (
                        #[trigger] now[k]).domain() && !(now[j] is NotEqual) && !(now[k]
                            is NotEqual) implies now[j] is LowerBound && now[k] is UpperBound && (mode
                        == Mode::EnableEqualityMerging ==> now[j].constant()
                        != now[k].constant()) by {
                        if k < before.len() {
                            assert(now[j] == before[j] && now[k] == before[k]);
                        } else if j < before.len() {
                            assert(now[j] == before[j]);
                            assert(now[k] == summary@[k - before.len()]);
                        } else {
                            assert(now[j] == summary@[j - before.len()]);
                            assert(now[k] == summary@[k - before.len()]);
                        }
                    }
                }
            } else {
                proof {
                    assert forall|y: DomainId| mentions(nogood@, y, i + 1) implies mentions(
                        nogood@,
                        y,
                        i as int,
                    ) by {
                        let w = choose|w: int|
                            0 <= w < i + 1 && w < nogood@.len() && (#[trigger] nogood@[w]).domain()
                                == y;
                        if w == i {
                            assert(y == x);
                        }
                    }
                    assert forall|k: int| 0 <= k < result@.len() implies mentions(
                        nogood@,
                        (#[trigger] result@[k]).domain(),
                        i + 1,
                    ) by {
                        let w = choose|w: int|
                            0 <= w < i && w < nogood@.len() && (#[trigger] nogood@[w]).domain()
                                == result@[k].domain();
                        assert(0 <= w < i + 1 && nogood@[w].domain() == result@[k].domain());
                    }
                }
            }
            i += 1;
        }
        proof {
            assert forall|x: DomainId, v: int|
                assignments.has(x) && assignments.initial_lower(x) <= v
                    <= assignments.initial_upper(x) implies (#[trigger] holds_on(result@, x, v)
                <==> holds_on(nogood@, x, v)) by {
                if !mentions(nogood@, x, n as int) {
                    assert forall|k: int|
                        0 <= k < result@.len() implies (#[trigger] result@[k]).domain() != x by {}
                }
            }
            if assignments.entails(nogood@) {
                lemma_same_meaning_entailed(nogood@, result@, assignments);
            }
        }
        result
    }

    /// Whether one of the first `n` predicates speaks of `x`.
    fn is_mentioned(nogood: &Vec<Predicate>, x: DomainId, n: usize) -> (r: bool)
        requires
            n <= nogood@.len(),
        ensures
            r == mentions(nogood@, x, n as int),
    {
        let mut k: usize = 0;
        while k < n
            invariant
                k <= n <= nogood@.len(),
                forall|t: int| 0 <= t < k ==> (#[trigger] nogood@[t]).domain() != x,
            decreases n - k,
        {
            if nogood[k].get_domain() == x {
                return true;
            }
            k += 1;
        }
        false
    }

    /// What the predicates of `nogood` say about `x`.
    fn summarise(nogood: &Vec<Predicate>, assignments: &Assignments, x: DomainId, mode: Mode) -> (r:
        Vec<Predicate>)
        requires
            assignments.wf(),
            assignments.has(x),
        ensures
            forall|k: int| 0 <= k < r@.len() ==> (#[trigger] r@[k]).domain() == x,
            forall|v: int|
                assignments.initial_lower(x) <= v <= assignments.initial_upper(x) ==> (
                #[trigger] holds_on(r@, x, v) <==> holds_on(nogood@, x, v)),
            mode == Mode::DisableEqualityMerging ==> forall|k: int|
                0 <= k < r@.len() ==> !(#[trigger] r@[k] is Equal),
            r@.no_duplicates(),
            all_drawn_from(r@, nogood@),
            bounds_once(r@, mode),
            holes_within(r@),
            informative(r@, assignments),
    {
        let initial_lower = assignments.get_initial_lower_bound(x);
        let initial_upper = assignments.get_initial_upper_bound(x);
        let mut lower = initial_lower;
        let mut upper = initial_upper;
        let n = nogood.len();
        let mut k: usize = 0;
        while k < n
            invariant
                n == nogood@.len(),
                k <= n,
                initial_lower <= lower,
                upper <= initial_upper,
                forall|v: int|
                    initial_lower <= v <= initial_upper ==> (lower <= v <= upper
                        <==> #[trigger] bounds_hold(nogood@, x, k as int, v)),
                lower > initial_lower ==> gives_lower(nogood@, x, lower as int),
                upper < initial_upper ==> gives_upper(nogood@, x, upper as int),
            decreases n - k,
        {
            let ghost old_lower = lower;
            let ghost old_upper = upper;
            let predicate = nogood[k];
            if predicate.get_domain() == x {
                match predicate {
                    Predicate::LowerBound { lower_bound, .. } => {
                        if lower_bound > lower {
                            lower = lower_bound;
                        }
                    },
                    Predicate::UpperBound { upper_bound, .. } => {
                        if upper_bound < upper {
                            upper = upper_bound;
                        }
                    },
                    Predicate::Equal { equality_constant, .. } => {
                        if equality_constant > lower {
                            lower = equality_constant;
                        }
                        if equality_constant < upper {
                            upper = equality_constant;
                        }
                    },
                    Predicate::NotEqual { .. } => {},
                }
            }
            proof {
                if lower != old_lower {
                    assert(lower_source(nogood@[k as int], x, lower as int));
                }
                if upper != old_upper {
                    assert(upper_source(nogood@[k as int], x, upper as int));
                }
                assert forall|v: int| initial_lower <= v <= initial_upper implies (lower <= v
                    <= upper <==> #[trigger] bounds_hold(nogood@, x, k + 1, v)) by {
                    assert(old_lower <= v <= old_upper <==> bounds_hold(nogood@, x, k as int, v));
                    if bounds_hold(nogood@, x, k + 1, v) {
                        if predicate.domain() == x && !(predicate is NotEqual) {
                            assert(nogood@[k as int].holds(v));
                        }
                    }
                }
            }
            k += 1;
        }
        let mut summary: Vec<Predicate> = Vec::new();
        let emit_lower = lower > initial_lower;
        let emit_upper = upper < initial_upper;
        let merge = match mode {
            Mode::EnableEqualityMerging => emit_lower && emit_upper && lower == upper,
            Mode::DisableEqualityMerging => false,
        };
        if merge {
            summary.push(Predicate::equal(x, lower));
        } else {
            if emit_lower {
                summary.push(Predicate::lower_bound(x, lower));
            }
            if emit_upper {
                summary.push(Predicate::upper_bound(x, upper));
            }
        }
        let ghost bounds = summary@;
        proof {
            assert(all_drawn_from(bounds, nogood@));
            assert(bounds_once(bounds, mode));
            assert(bounds.no_duplicates());
            assignments.lemma_initial(x);
            assignments.lemma_bounds(0, x);
            assert forall|t: int| 0 <= t < bounds.len() implies !assignments.satisfied_at(
                0,
                #[trigger] bounds[t],
            ) by {
                if bounds[t] is UpperBound {
                    assert(assignments.contains_at(0, x, initial_upper as int));
                } else {
                    assert(assignments.contains_at(0, x, initial_lower as int));
                }
            }
            assert forall|t: int, v: int|
                0 <= t < bounds.len() && lower <= v <= upper implies #[trigger] bounds[t].holds(
                v,
            ) by {}
            assert forall|v: int| initial_lower <= v <= initial_upper implies (
            #[trigger] bounds_hold(bounds, x, bounds.len() as int, v) <==> lower <= v <= upper) by {
                if bounds_hold(bounds, x, bounds.len() as int, v) {
                    if merge {
                        assert(bounds[0].holds(v));
                    } else {
                        if emit_lower {
                            assert(bounds[0].holds(v));
                        }
                        if emit_upper {
                            assert(bounds[bounds.len() - 1].holds(v));
                        }
                    }
                }
            }
        }
        let mut k: usize = 0;
        while k < n
            invariant
                n == nogood@.len(),
                k <= n,
                bounds.len() <= summary@.len(),
                forall|t: int| 0 <= t < bounds.len() ==> #[trigger] summary@[t] == bounds[t],
                forall|t: int| 0 <= t < summary@.len() ==> (#[trigger] summary@[t]).domain() == x,
                forall|t: int|
                    bounds.len() <= t < summary@.len() ==> (#[trigger] summary@[t]) is NotEqual,
                forall|t: int| 0 <= t < bounds.len() ==> !(#[trigger] bounds[t] is NotEqual),
                mode == Mode::DisableEqualityMerging ==> forall|t: int|
                    0 <= t < bounds.len() ==> !(#[trigger] bounds[t] is Equal),
                forall|v: int|
                    lower <= v <= upper ==> (#[trigger] exclusions_hold(
                        summary@,
                        x,
                        summary@.len() as int,
                        v,
                    ) <==> exclusions_hold(nogood@, x, k as int, v)),
                summary@.no_duplicates(),
                all_drawn_from(summary@, nogood@),
                all_drawn_from(bounds, nogood@),
                bounds_once(bounds, mode),
                informative(summary@, assignments),
                initial_lower == assignments.initial_lower(x),
                initial_upper == assignments.initial_upper(x),
                initial_lower <= lower,
                upper <= initial_upper,
                assignments.wf(),
                assignments.has(x),
                forall|t: int|
                    bounds.len() <= t < summary@.len() ==> lower <= (
                    #[trigger] summary@[t]).constant() <= upper,
                forall|t: int, v: int|
                    0 <= t < bounds.len() && lower <= v <= upper ==> #[trigger] bounds[t].holds(
                        v,
                    ),
            decreases n - k,
        {
            let predicate = nogood[k];
            let ghost before = summary@;
            if predicate.get_domain() == x {
                if let Predicate::NotEqual { not_equal_constant, .. } = predicate {
                    if lower <= not_equal_constant && not_equal_constant <= upper && !Self::holds(
                        &summary,
                        predicate,
                    ) {
                        summary.push(predicate);
                    }
                }
            }
            proof {
                let now = summary@;
                assert forall|t: int| 0 <= t < before.len() implies #[trigger] now[t]
                    == before[t] by {}
                assert forall|t: int| 0 <= t < now.len() implies drawn_from(
                    #[trigger] now[t],
                    nogood@,
                ) by {
                    if t < before.len() {
                        assert(now[t] == before[t]);
                    } else {
                        assert(now[t] == nogood@[k as int]);
                    }
                }
                assert forall|t: int| 0 <= t < now.len() implies !assignments.satisfied_at(
                    0,
                    #[trigger] now[t],
                ) by {
                    if t < before.len() {
                        assert(now[t] == before[t]);
                    } else {
                        assignments.lemma_initial(x);
                        assert(assignments.contains_at(0, x, now[t].constant()));
                    }
                }
                assert forall|t: int| bounds.len() <= t < now.len() implies lower <= (
                #[trigger] now[t]).constant() <= upper by {
                    if t < before.len() {
                        assert(now[t] == before[t]);
                    }
                }
                assert forall|i: int, j: int| 0 <= i < j < now.len() implies now[i] != now[j] by {
                    if j < before.len() {
                        assert(now[i] == before[i] && now[j] == before[j]);
                    } else {
                        assert(now[i] == before[i]);
                        assert(before.contains(before[i]));
                    }
                }
                assert forall|v: int| lower <= v <= upper implies (#[trigger] exclusions_hold(
                    now,
                    x,
                    now.len() as int,
                    v,
                ) <==> exclusions_hold(nogood@, x, k + 1, v)) by {
                    assert(exclusions_hold(before, x, before.len() as int, v) <==> exclusions_hold(
                        nogood@,
                        x,
                        k as int,
                        v,
                    ));
                    if exclusions_hold(now, x, now.len() as int, v) {
                        assert forall|t: int|
                            0 <= t < before.len() && (#[trigger] before[t]).domain() == x
                                && before[t] is NotEqual implies before[t].holds(v) by {
                            assert(now[t] == before[t]);
                        }
                        assert forall|t: int|
                            0 <= t < k + 1 && (#[trigger] nogood@[t]).domain() == x && nogood@[t]
                                is NotEqual implies nogood@[t].holds(v) by {
                            if t == k {
                                if now.len() > before.len() {
                                    assert(now[before.len() as int] == predicate);
                                } else if before.contains(predicate) {
                                    let w = choose|w: int|
                                        0 <= w < before.len() && before[w] == predicate;
                                    assert(now[w] == predicate);
                                }
                            }
                        }
                    }
                    if exclusions_hold(nogood@, x, k + 1, v) {
                        assert(exclusions_hold(nogood@, x, k as int, v));
                        assert forall|t: int|
                            0 <= t < now.len() && (#[trigger] now[t]).domain() == x && now[t]
                                is NotEqual implies now[t].holds(v) by {
                            if t < before.len() {
                                assert(now[t] == before[t]);
                            } else {
                                assert(now[t] == predicate);
                                assert(nogood@[k as int].holds(v));
                            }
                        }
                    }
                }
            }
            k += 1;
        }
        proof {
            let all = summary@;
            assert forall|v: int| initial_lower <= v <= initial_upper implies (
            #[trigger] holds_on(all, x, v) <==> holds_on(nogood@, x, v)) by {
                assert(lower <= v <= upper <==> bounds_hold(nogood@, x, n as int, v));
                assert(bounds_hold(bounds, x, bounds.len() as int, v) <==> lower <= v <= upper);
                if holds_on(all, x, v) {
                    assert forall|t: int|
                        0 <= t < bounds.len() && (#[trigger] bounds[t]).domain() == x && !(bounds[t]
                            is NotEqual) implies bounds[t].holds(v) by {
                        assert(all[t] == bounds[t]);
                    }
                    assert(bounds_hold(nogood@, x, n as int, v));
                    assert(exclusions_hold(all, x, all.len() as int, v));
                    assert(exclusions_hold(nogood@, x, n as int, v));
                    assert forall|t: int|
                        0 <= t < n && (#[trigger] nogood@[t]).domain() == x implies nogood@[t].holds(
                        v,
                    ) by {}
                }
                if holds_on(nogood@, x, v) {
                    assert(bounds_hold(nogood@, x, n as int, v));
                    assert(exclusions_hold(nogood@, x, n as int, v));
                    assert(exclusions_hold(all, x, all.len() as int, v));
                    assert forall|t: int|
                        0 <= t < all.len() && (#[trigger] all[t]).domain() == x implies all[t].holds(
                        v,
                    ) by {
                        if t < bounds.len() {
                            assert(all[t] == bounds[t]);
                        }
                    }
                }
            }
            if mode == Mode::DisableEqualityMerging {
                assert forall|t: int| 0 <= t < all.len() implies !(#[trigger] all[t] is Equal) by {
                    if t < bounds.len() {
                        assert(all[t] == bounds[t]);
                    }
                }
            }
            assert forall|j: int, t: int|
                0 <= j < t < all.len() && (#[trigger] all[j]).domain() == (#[trigger] all[t]).domain()
                    && !(all[j] is NotEqual) && !(all[t] is NotEqual) implies all[j] is LowerBound
                && all[t] is UpperBound && (mode == Mode::EnableEqualityMerging
                ==> all[j].constant() != all[t].constant()) by {
                assert(all[j] == bounds[j] && all[t] == bounds[t]);
            }
            assert forall|j: int, t: int|
                0 <= j < all.len() && 0 <= t < all.len() && (#[trigger] all[j]).domain() == (
                #[trigger] all[t]).domain() && all[j] is NotEqual && !(all[t]
                    is NotEqual) implies all[t].holds(all[j].constant()) by {
                assert(all[t] == bounds[t]);
                assert(lower <= all[j].constant() <= upper);
            }
        }
        summary
    }

    fn holds(predicates: &Vec<Predicate>, predicate: Predicate) -> (r: bool)
        ensures
            r == predicates@.contains(predicate),
    {
        let mut k: usize = 0;
        while k < predicates.len()
            invariant
                k <= predicates.len(),
                forall|t: int| 0 <= t < k ==> predicates@[t] != predicate,
            decreases predicates.len() - k,
        {
            if predicates[k] == predicate {
                return true;
            }
            k += 1;
        }
        false
    }
}

/// Whether `p` is `q`, or one of the two bounds that the equality `q`
/// gives.
pub open spec fn covers(q: Predicate, p: Predicate) -> bool {
    p == q || (q is Equal && p.domain() == q.domain() && p.constant() == q.constant() && (p
        is LowerBound || p is UpperBound))
}

/// Whether `q` covers each of the predicates that the first `n` trail
/// entries do not satisfy.
pub open spec fn covered_by(
    store: &Assignments,
    n: int,
    predicates: Seq<Predicate>,
    q: Predicate,
) -> bool {
    forall|k: int|
        0 <= k < predicates.len() && !store.satisfied_at(n, #[trigger] predicates[k]) ==> covers(
            q,
            predicates[k],
        )
}

/// Whether one predicate covers all the predicates that the first `n` trail
/// entries do not satisfy.
pub open spec fn narrow(store: &Assignments, n: int, predicates: Seq<Predicate>) -> bool {
    exists|q: Predicate| covered_by(store, n, predicates, q)
}

/// Whether two different bounds or equalities of one variable among the
/// predicates have different constants.
pub open spec fn bounds_differ(predicates: Seq<Predicate>) -> bool {
    forall|i: int, j: int|
        0 <= i < predicates.len() && 0 <= j < predicates.len() && (#[trigger] predicates[i]) != (
        #[trigger] predicates[j]) && predicates[i].domain() == predicates[j].domain()
            && !(predicates[i] is NotEqual) && !(predicates[j] is NotEqual)
            ==> predicates[i].constant() != predicates[j].constant()
}

/// A predicate that is drawn from others, and that the first `n` trail
/// entries do not satisfy, is drawn from one that they do not satisfy.
pub proof fn lemma_drawn_from_unsatisfied(
    store: &Assignments,
    n: int,
    p: Predicate,
    predicates: Seq<Predicate>,
)
    requires
        drawn_from(p, predicates),
        !store.satisfied_at(n, p),
    ensures
        exists|t: int|
            0 <= t < predicates.len() && !store.satisfied_at(n, #[trigger] predicates[t]) && (
            predicates[t] == p || (!(p is NotEqual) && !(predicates[t] is NotEqual)
                && predicates[t].domain() == p.domain() && predicates[t].constant()
                == p.constant() && (predicates[t] is Equal || p is Equal)) ),
{
    let x = p.domain();
    let c = p.constant();
    match p {
        Predicate::NotEqual { .. } => {
            let t = choose|t: int| 0 <= t < predicates.len() && predicates[t] == p;
            assert(!store.satisfied_at(n, predicates[t]));
        },
        Predicate::LowerBound { .. } => {
            let t = choose|t: int|
                0 <= t < predicates.len() && lower_source(#[trigger] predicates[t], x, c);
            if store.satisfied_at(n, predicates[t]) {
                assert forall|v: int| #[trigger] store.contains_at(n, x, v) implies p.holds(v) by {
                    assert(predicates[t].holds(v));
                }
            }
            assert(!store.satisfied_at(n, predicates[t]));
        },
        Predicate::UpperBound { .. } => {
            let t = choose|t: int|
                0 <= t < predicates.len() && upper_source(#[trigger] predicates[t], x, c);
            if store.satisfied_at(n, predicates[t]) {
                assert forall|v: int| #[trigger] store.contains_at(n, x, v) implies p.holds(v) by {
                    assert(predicates[t].holds(v));
                }
            }
            assert(!store.satisfied_at(n, predicates[t]));
        },
        Predicate::Equal { .. } => {
            let l = choose|t: int|
                0 <= t < predicates.len() && lower_source(#[trigger] predicates[t], x, c);
            let u = choose|t: int|
                0 <= t < predicates.len() && upper_source(#[trigger] predicates[t], x, c);
            if store.satisfied_at(n, predicates[l]) && store.satisfied_at(n, predicates[u]) {
                assert forall|v: int| #[trigger] store.contains_at(n, x, v) implies p.holds(v) by {
                    assert(predicates[l].holds(v));
                    assert(predicates[u].holds(v));
                }
            }
            if !store.satisfied_at(n, predicates[l]) {
                assert(predicates[l] == p || predicates[l] is LowerBound);
            } else {
                assert(!store.satisfied_at(n, predicates[u]));
            }
        },
    }
}

/// Where one predicate covers what the first `n` trail entries do not
/// satisfy of some predicates, one does so of their summary.
pub proof fn lemma_summary_stays_narrow(
    store: &Assignments,
    n: int,
    predicates: Seq<Predicate>,
    summary: Seq<Predicate>,
    mode: Mode,
)
    requires
        narrow(store, n, predicates),
        all_drawn_from(summary, predicates),
        bounds_once(summary, mode),
    ensures
        narrow(store, n, summary),
{
    let q = choose|q: Predicate| covered_by(store, n, predicates, q);
    if exists|m: int|
        0 <= m < summary.len() && #[trigger] summary[m] is Equal && !store.satisfied_at(
            n,
            summary[m],
        ) {
        let m = choose|m: int|
            0 <= m < summary.len() && #[trigger] summary[m] is Equal && !store.satisfied_at(
                n,
                summary[m],
            );
        let merged = summary[m];
        lemma_drawn_from_unsatisfied(store, n, merged, predicates);
        let tm = choose|t: int|
            0 <= t < predicates.len() && !store.satisfied_at(n, #[trigger] predicates[t]) && (
            predicates[t] == merged || (!(merged is NotEqual) && !(predicates[t] is NotEqual)
                && predicates[t].domain() == merged.domain() && predicates[t].constant()
                == merged.constant() && (predicates[t] is Equal || merged is Equal)) );
        assert(covers(q, predicates[tm]));
        assert forall|k: int|
            0 <= k < summary.len() && !store.satisfied_at(n, #[trigger] summary[k]) implies covers(
            merged,
            summary[k],
        ) by {
            lemma_drawn_from_unsatisfied(store, n, summary[k], predicates);
            let t = choose|t: int|
                0 <= t < predicates.len() && !store.satisfied_at(n, #[trigger] predicates[t]) && (
                predicates[t] == summary[k] || (!(summary[k] is NotEqual) && !(predicates[t]
                    is NotEqual) && predicates[t].domain() == summary[k].domain()
                    && predicates[t].constant() == summary[k].constant() && (predicates[t]
                    is Equal || summary[k] is Equal)) );
            assert(covers(q, predicates[t]));
            if k != m {
                assert(summary[k].domain() == summary[m].domain());
                assert(!(summary[k] is NotEqual));
                if k < m {
                    assert(summary[k] is LowerBound && summary[m] is UpperBound);
                } else {
                    assert(summary[m] is LowerBound && summary[k] is UpperBound);
                }
            }
        }
        assert(covered_by(store, n, summary, merged));
    } else {
        assert forall|k: int|
            0 <= k < summary.len() && !store.satisfied_at(n, #[trigger] summary[k]) implies covers(
            q,
            summary[k],
        ) by {
            lemma_drawn_from_unsatisfied(store, n, summary[k], predicates);
            let t = choose|t: int|
                0 <= t < predicates.len() && !store.satisfied_at(n, #[trigger] predicates[t]) && (
                predicates[t] == summary[k] || (!(summary[k] is NotEqual) && !(predicates[t]
                    is NotEqual) && predicates[t].domain() == summary[k].domain()
                    && predicates[t].constant() == summary[k].constant() && (predicates[t]
                    is Equal || summary[k] is Equal)) );
            assert(covers(q, predicates[t]));
            assert(!(summary[k] is Equal));
        }
        assert(covered_by(store, n, summary, q));
    }
}

/// Where one predicate covers what the first `n` trail entries do not
/// satisfy of some predicates, it does so of any selection of them.
pub proof fn lemma_selection_stays_narrow(
    store: &Assignments,
    n: int,
    predicates: Seq<Predicate>,
    selection: Seq<Predicate>,
)
    requires
        narrow(store, n, predicates),
        forall|k: int| 0 <= k < selection.len() ==> predicates.contains(#[trigger] selection[k]),
    ensures
        narrow(store, n, selection),
{
    let q = choose|q: Predicate| covered_by(store, n, predicates, q);
    assert forall|k: int|
        0 <= k < selection.len() && !store.satisfied_at(n, #[trigger] selection[k]) implies covers(
        q,
        selection[k],
    ) by {
        let t = choose|t: int| 0 <= t < predicates.len() && predicates[t] == selection[k];
        assert(!store.satisfied_at(n, predicates[t]));
    }
    assert(covered_by(store, n, selection, q));
}

/// Among different predicates that one predicate covers as far as the first
/// `n` trail entries do not satisfy them, and whose bounds differ, those
/// entries satisfy all but one at most.
pub proof fn lemma_narrow_is_one(
    store: &Assignments,
    n: int,
    predicates: Seq<Predicate>,
    i: int,
    j: int,
)
    requires
        narrow(store, n, predicates),
        predicates.no_duplicates(),
        bounds_differ(predicates),
        0 <= i < predicates.len(),
        0 <= j < predicates.len(),
        i != j,
    ensures
        store.satisfied_at(n, predicates[i]) || store.satisfied_at(n, predicates[j]),
{
    let q = choose|q: Predicate| covered_by(store, n, predicates, q);
    if !store.satisfied_at(n, predicates[i]) && !store.satisfied_at(n, predicates[j]) {
        assert(covers(q, predicates[i]));
        assert(covers(q, predicates[j]));
        assert(predicates[i] != predicates[j]);
    }
}

/// A summary with equality merging holds no two different bounds or
/// equalities of one variable with one constant.
pub proof fn lemma_bounds_differ(summary: Seq<Predicate>)
    requires
        bounds_once(summary, Mode::EnableEqualityMerging),
    ensures
        bounds_differ(summary),
{
    assert forall|i: int, j: int|
        0 <= i < summary.len() && 0 <= j < summary.len() && (#[trigger] summary[i]) != (
        #[trigger] summary[j]) && summary[i].domain() == summary[j].domain() && !(summary[i]
            is NotEqual) && !(summary[j] is NotEqual) implies summary[i].constant()
        != summary[j].constant() by {
        if i < j {
            assert(summary[i] is LowerBound && summary[j] is UpperBound);
        } else if j < i {
            assert(summary[j] is LowerBound && summary[i] is UpperBound);
        }
    }
}

/// What two lists say together about a variable is what each says.
pub proof fn lemma_holds_on_concat(a: Seq<Predicate>, b: Seq<Predicate>, x: DomainId, v: int)
    ensures
        holds_on(a + b, x, v) <==> holds_on(a, x, v) && holds_on(b, x, v),
{
    let c = a + b;
    if holds_on(c, x, v) {
        assert forall|k: int| 0 <= k < a.len() && (#[trigger] a[k]).domain() == x implies a[k].holds(
            v,
        ) by {
            assert(c[k] == a[k]);
        }
        assert forall|k: int| 0 <= k < b.len() && (#[trigger] b[k]).domain() == x implies b[k].holds(
            v,
        ) by {
            assert(c[k + a.len()] == b[k]);
        }
    }
    if holds_on(a, x, v) && holds_on(b, x, v) {
        assert forall|k: int| 0 <= k < c.len() && (#[trigger] c[k]).domain() == x implies c[k].holds(
            v,
        ) by {
            if k < a.len() {
                assert(c[k] == a[k]);
            } else {
                assert(c[k] == b[k - a.len()]);
            }
        }
    }
}

} // verus!
