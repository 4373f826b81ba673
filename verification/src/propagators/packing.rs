//! What a packing is, and what the domains of a store say of the packings
//! that they admit.

use vstd::prelude::*;
use crate::assignments::Assignments;
use crate::predicate::DomainId;
use crate::propagators::bin_packing::{increasing_below, picked_sizes, picked_sum};
use crate::propagators::nosum::{chosen_sum, non_negative, prefix_sum};

verus! {

/// Whether `store` leaves `x` the one value `j`.
pub open spec fn fixed_to(store: &Assignments, x: DomainId, j: int) -> bool {
    store.contains(x, j) && store.is_fixed(x)
}

/// Whether `store` leaves `x` the value `j` among others.
pub open spec fn may_take(store: &Assignments, x: DomainId, j: int) -> bool {
    store.contains(x, j) && !store.is_fixed(x)
}

/// The sum of the sizes of the first `k` items that `values` puts in bin
/// `j`.
pub open spec fn bin_sum(
    bins: Seq<DomainId>,
    sizes: Seq<i32>,
    values: spec_fn(DomainId) -> int,
    j: int,
    k: int,
) -> int
    decreases k,
{
    if k <= 0 {
        0
    } else {
        bin_sum(bins, sizes, values, j, k - 1) + if values(bins[k - 1]) == j {
            sizes[k - 1] as int
        } else {
            0
        }
    }
}

/// The sum of the sizes of the first `k` items that `store` fixes to bin
/// `j`.
pub open spec fn required_sum(
    store: &Assignments,
    bins: Seq<DomainId>,
    sizes: Seq<i32>,
    j: int,
    k: int,
) -> int
    decreases k,
{
    if k <= 0 {
        0
    } else {
        required_sum(store, bins, sizes, j, k - 1) + if fixed_to(store, bins[k - 1], j) {
            sizes[k - 1] as int
        } else {
            0
        }
    }
}

/// The sum of the sizes of the first `k` items that `store` leaves free to
/// go to bin `j` or elsewhere.
pub open spec fn candidate_sum(
    store: &Assignments,
    bins: Seq<DomainId>,
    sizes: Seq<i32>,
    j: int,
    k: int,
) -> int
    decreases k,
{
    if k <= 0 {
        0
    } else {
        candidate_sum(store, bins, sizes, j, k - 1) + if may_take(store, bins[k - 1], j) {
            sizes[k - 1] as int
        } else {
            0
        }
    }
}

/// The sum of the sizes of those of the first `k` items that `store` leaves
/// free and `values` puts in bin `j`.
pub open spec fn chosen_candidate_sum(
    store: &Assignments,
    bins: Seq<DomainId>,
    sizes: Seq<i32>,
    values: spec_fn(DomainId) -> int,
    j: int,
    k: int,
) -> int
    decreases k,
{
    if k <= 0 {
        0
    } else {
        chosen_candidate_sum(store, bins, sizes, values, j, k - 1) + if may_take(
            store,
            bins[k - 1],
            j,
        ) && values(bins[k - 1]) == j {
            sizes[k - 1] as int
        } else {
            0
        }
    }
}

/// The sum of the loads that `values` gives to the first `m` bins without
/// bin `j`.
pub open spec fn other_loads_sum(
    loads: Seq<DomainId>,
    values: spec_fn(DomainId) -> int,
    j: int,
    m: int,
) -> int
    decreases m,
{
    if m <= 0 {
        0
    } else {
        other_loads_sum(loads, values, j, m - 1) + if m - 1 == j {
            0
        } else {
            values(loads[m - 1])
        }
    }
}

/// The sum over the first `m` bins of what `values` puts in each of them of
/// the first `k` items.
pub open spec fn all_bins_sum(
    bins: Seq<DomainId>,
    sizes: Seq<i32>,
    values: spec_fn(DomainId) -> int,
    m: int,
    k: int,
) -> int
    decreases m,
{
    if m <= 0 {
        0
    } else {
        all_bins_sum(bins, sizes, values, m - 1, k) + bin_sum(bins, sizes, values, m - 1, k)
    }
}

/// Whether `values` gives each of the variables a value of its domain.
pub open spec fn admits(
    store: &Assignments,
    variables: Seq<DomainId>,
    values: spec_fn(DomainId) -> int,
) -> bool {
    forall|i: int| 0 <= i < variables.len() ==> store.contains(#[trigger] variables[i], values(variables[i]))
}

/// Whether `values` puts each item in one of the `loads.len()` bins and
/// gives each bin the sum of the sizes of its items as its load.
pub open spec fn is_packing(
    loads: Seq<DomainId>,
    bins: Seq<DomainId>,
    sizes: Seq<i32>,
    values: spec_fn(DomainId) -> int,
) -> bool {
    &&& (forall|i: int| 0 <= i < bins.len() ==> 0 <= values(#[trigger] bins[i]) < loads.len())
    &&& (forall|j: int|
        0 <= j < loads.len() ==> values(#[trigger] loads[j]) == bin_sum(
            bins,
            sizes,
            values,
            j,
            bins.len() as int,
        ))
}

/// What is in a bin is what is fixed to it and what was chosen for it among
/// the free items.
pub proof fn lemma_bin_sum_split(
    store: &Assignments,
    bins: Seq<DomainId>,
    sizes: Seq<i32>,
    values: spec_fn(DomainId) -> int,
    j: int,
    k: int,
)
    requires
        store.wf(),
        admits(store, bins, values),
        forall|i: int| 0 <= i < bins.len() ==> store.has(#[trigger] bins[i]),
        non_negative(sizes),
        0 <= k <= bins.len() == sizes.len(),
    ensures
        bin_sum(bins, sizes, values, j, k) == required_sum(store, bins, sizes, j, k)
            + chosen_candidate_sum(store, bins, sizes, values, j, k),
        0 <= chosen_candidate_sum(store, bins, sizes, values, j, k) <= candidate_sum(
            store,
            bins,
            sizes,
            j,
            k,
        ),
        0 <= required_sum(store, bins, sizes, j, k),
        required_sum(store, bins, sizes, j, k) + candidate_sum(store, bins, sizes, j, k)
            <= prefix_sum(sizes, k),
    decreases k,
{
    if k > 0 {
        lemma_bin_sum_split(store, bins, sizes, values, j, k - 1);
        let x = bins[k - 1];
        assert(store.contains(x, values(x)));
        store.lemma_bounds(store.trail_len() as int, x);
    }
}

/// A free item that is put in the bin counts among the chosen ones, and one
/// that is not put there does not.
pub proof fn lemma_chosen_item(
    store: &Assignments,
    bins: Seq<DomainId>,
    sizes: Seq<i32>,
    values: spec_fn(DomainId) -> int,
    j: int,
    k: int,
    i: int,
)
    requires
        non_negative(sizes),
        0 <= i < k <= bins.len() == sizes.len(),
        may_take(store, bins[i], j),
    ensures
        values(bins[i]) == j ==> chosen_candidate_sum(store, bins, sizes, values, j, k)
            >= sizes[i],
        values(bins[i]) != j ==> chosen_candidate_sum(store, bins, sizes, values, j, k)
            <= candidate_sum(store, bins, sizes, j, k) - sizes[i],
        0 <= chosen_candidate_sum(store, bins, sizes, values, j, k) <= candidate_sum(
            store,
            bins,
            sizes,
            j,
            k,
        ),
    decreases k,
{
    if i < k - 1 {
        lemma_chosen_item(store, bins, sizes, values, j, k - 1, i);
    } else {
        lemma_chosen_bounds(store, bins, sizes, values, j, k - 1);
    }
}

pub proof fn lemma_chosen_bounds(
    store: &Assignments,
    bins: Seq<DomainId>,
    sizes: Seq<i32>,
    values: spec_fn(DomainId) -> int,
    j: int,
    k: int,
)
    requires
        non_negative(sizes),
        0 <= k <= bins.len() == sizes.len(),
    ensures
        0 <= chosen_candidate_sum(store, bins, sizes, values, j, k) <= candidate_sum(
            store,
            bins,
            sizes,
            j,
            k,
        ),
    decreases k,
{
    if k > 0 {
        lemma_chosen_bounds(store, bins, sizes, values, j, k - 1);
    }
}

/// Each item is in one bin: the bins together hold all sizes.
pub proof fn lemma_all_bins(
    bins: Seq<DomainId>,
    sizes: Seq<i32>,
    values: spec_fn(DomainId) -> int,
    m: int,
    k: int,
)
    requires
        0 <= m,
        0 <= k <= bins.len() == sizes.len(),
        forall|i: int| 0 <= i < bins.len() ==> 0 <= values(#[trigger] bins[i]) < m,
    ensures
        all_bins_sum(bins, sizes, values, m, k) == prefix_sum(sizes, k),
    decreases k,
{
    if k > 0 {
        lemma_all_bins(bins, sizes, values, m, k - 1);
        lemma_all_bins_step(bins, sizes, values, m, k);
    } else {
        lemma_all_bins_none(bins, sizes, values, m);
    }
}

proof fn lemma_all_bins_none(
    bins: Seq<DomainId>,
    sizes: Seq<i32>,
    values: spec_fn(DomainId) -> int,
    m: int,
)
    requires
        0 <= m,
    ensures
        all_bins_sum(bins, sizes, values, m, 0) == 0,
    decreases m,
{
    if m > 0 {
        lemma_all_bins_none(bins, sizes, values, m - 1);
    }
}

proof fn lemma_all_bins_step(
    bins: Seq<DomainId>,
    sizes: Seq<i32>,
    values: spec_fn(DomainId) -> int,
    m: int,
    k: int,
)
    requires
        0 <= m,
        0 < k <= bins.len() == sizes.len(),
    ensures
        all_bins_sum(bins, sizes, values, m, k) == all_bins_sum(bins, sizes, values, m, k - 1)
            + if 0 <= values(bins[k - 1]) < m {
            sizes[k - 1] as int
        } else {
            0
        },
    decreases m,
{
    if m > 0 {
        lemma_all_bins_step(bins, sizes, values, m - 1, k);
    }
}

/// In a packing the loads of the other bins and the load of bin `j` make up
/// what the first `m` bins hold.
pub proof fn lemma_other_loads(
    loads: Seq<DomainId>,
    bins: Seq<DomainId>,
    sizes: Seq<i32>,
    values: spec_fn(DomainId) -> int,
    j: int,
    m: int,
)
    requires
        is_packing(loads, bins, sizes, values),
        0 <= j < loads.len(),
        0 <= m <= loads.len(),
    ensures
        other_loads_sum(loads, values, j, m) + (if j < m {
            values(loads[j])
        } else {
            0
        }) == all_bins_sum(bins, sizes, values, m, bins.len() as int),
    decreases m,
{
    if m > 0 {
        lemma_other_loads(loads, bins, sizes, values, j, m - 1);
    }
}

/// The load of a bin in a packing is the sum of all sizes less the loads
/// of the other bins.
pub proof fn lemma_load_is_rest(
    loads: Seq<DomainId>,
    bins: Seq<DomainId>,
    sizes: Seq<i32>,
    values: spec_fn(DomainId) -> int,
    j: int,
)
    requires
        is_packing(loads, bins, sizes, values),
        bins.len() == sizes.len(),
        0 <= j < loads.len(),
    ensures
        values(loads[j]) == prefix_sum(sizes, sizes.len() as int) - other_loads_sum(
            loads,
            values,
            j,
            loads.len() as int,
        ),
{
    lemma_other_loads(loads, bins, sizes, values, j, loads.len() as int);
    lemma_all_bins(bins, sizes, values, loads.len() as int, bins.len() as int);
}

/// For each of the positions `picked`, whether `values` puts the item at
/// the position in bin `j`.
pub open spec fn chosen_mask(
    bins: Seq<DomainId>,
    values: spec_fn(DomainId) -> int,
    j: int,
    picked: Seq<usize>,
) -> Seq<bool> {
    Seq::new(picked.len(), |u: int| values(bins[picked[u] as int]) == j)
}

/// A list of positions below `n` in increasing order either ends with
/// `n - 1` or holds positions below `n - 1` only.
proof fn lemma_increasing_last(picked: Seq<usize>, n: int)
    requires
        increasing_below(picked, n),
        0 < n <= usize::MAX,
    ensures
        picked.contains((n - 1) as usize) ==> picked.len() > 0 && picked.last() == n - 1
            && increasing_below(picked.drop_last(), n - 1) && forall|i: usize|
            i < n - 1 ==> (#[trigger] picked.drop_last().contains(i) <==> picked.contains(i)),
        !picked.contains((n - 1) as usize) ==> increasing_below(picked, n - 1),
{
    if picked.contains((n - 1) as usize) {
        let t = choose|t: int| 0 <= t < picked.len() && picked[t] == (n - 1) as usize;
        let last = picked.len() - 1;
        if t < last {
            assert(picked[t] < picked[last]);
        }
        assert(t == last);
        assert(picked[last] == (n - 1) as usize);
        let rest = picked.drop_last();
        assert forall|u: int| 0 <= u < rest.len() implies (#[trigger] rest[u]) < n - 1 by {
            assert(picked[u] < picked[last]);
        }
        assert forall|u: int, w: int| 0 <= u < w < rest.len() implies rest[u] < rest[w] by {
            assert(picked[u] < picked[w]);
        }
        assert forall|i: usize| i < n - 1 implies (#[trigger] rest.contains(i)
            <==> picked.contains(i)) by {
            if rest.contains(i) {
                let u = choose|u: int| 0 <= u < rest.len() && rest[u] == i;
                assert(picked[u] == i);
            }
            if picked.contains(i) {
                let u = choose|u: int| 0 <= u < picked.len() && picked[u] == i;
                assert(u != last);
                assert(rest[u] == i);
            }
        }
    } else {
        assert forall|u: int| 0 <= u < picked.len() implies (#[trigger] picked[u]) < n - 1 by {
            if picked[u] == n - 1 {
                assert(picked.contains((n - 1) as usize));
            }
        }
    }
}

proof fn lemma_picked_sum_rest(sizes: Seq<i32>, picked: Seq<usize>, t: int)
    requires
        0 <= t < picked.len(),
    ensures
        picked_sum(sizes, picked.drop_last(), t) == picked_sum(sizes, picked, t),
    decreases t,
{
    if t > 0 {
        lemma_picked_sum_rest(sizes, picked, t - 1);
    }
}

proof fn lemma_chosen_sum_rest(sizes: Seq<i32>, chosen: Seq<bool>, t: int)
    requires
        0 <= t < sizes.len() == chosen.len(),
    ensures
        chosen_sum(sizes.drop_last(), chosen.drop_last(), t) == chosen_sum(sizes, chosen, t),
    decreases t,
{
    if t > 0 {
        lemma_chosen_sum_rest(sizes, chosen, t - 1);
    }
}

/// The sizes at the positions of the items that are fixed to the bin sum
/// to what the store requires of the bin.
pub proof fn lemma_required_list(
    store: &Assignments,
    bins: Seq<DomainId>,
    sizes: Seq<i32>,
    j: int,
    picked: Seq<usize>,
    n: int,
)
    requires
        0 <= n <= bins.len(),
        n <= usize::MAX,
        increasing_below(picked, n),
        forall|i: int|
            0 <= i < n ==> (picked.contains(i as usize) <==> fixed_to(store, #[trigger] bins[i], j)),
    ensures
        picked_sum(sizes, picked, picked.len() as int) == required_sum(store, bins, sizes, j, n),
    decreases n,
{
    if n > 0 {
        lemma_increasing_last(picked, n);
        assert(picked.contains((n - 1) as usize) <==> fixed_to(store, bins[n - 1], j));
        if picked.contains((n - 1) as usize) {
            let rest = picked.drop_last();
            assert forall|i: int| 0 <= i < n - 1 implies (rest.contains(i as usize) <==> fixed_to(
                store,
                #[trigger] bins[i],
                j,
            )) by {
                assert(picked.contains(i as usize) <==> fixed_to(store, bins[i], j));
            }
            lemma_required_list(store, bins, sizes, j, rest, n - 1);
            lemma_picked_sum_rest(sizes, picked, picked.len() - 1);
        } else {
            lemma_required_list(store, bins, sizes, j, picked, n - 1);
        }
    } else {
        assert(picked.len() == 0) by {
            if picked.len() > 0 {
                assert(picked[0] < 0);
            }
        }
    }
}

/// The sizes at the positions of the free items that may go to the bin sum
/// to what the store leaves open for the bin, and those of them that
/// `values` puts in the bin sum to what `values` chose for it.
pub proof fn lemma_candidate_list(
    store: &Assignments,
    bins: Seq<DomainId>,
    sizes: Seq<i32>,
    values: spec_fn(DomainId) -> int,
    j: int,
    picked: Seq<usize>,
    n: int,
)
    requires
        0 <= n <= bins.len(),
        n <= usize::MAX,
        increasing_below(picked, n),
        forall|i: int|
            0 <= i < n ==> (picked.contains(i as usize) <==> may_take(store, #[trigger] bins[i], j)),
    ensures
        picked_sum(sizes, picked, picked.len() as int) == candidate_sum(store, bins, sizes, j, n),
        chosen_sum(
            picked_sizes(sizes, picked),
            chosen_mask(bins, values, j, picked),
            picked.len() as int,
        ) == chosen_candidate_sum(store, bins, sizes, values, j, n),
    decreases n,
{
    if n > 0 {
        lemma_increasing_last(picked, n);
        assert(picked.contains((n - 1) as usize) <==> may_take(store, bins[n - 1], j));
        if picked.contains((n - 1) as usize) {
            let rest = picked.drop_last();
            assert forall|i: int| 0 <= i < n - 1 implies (rest.contains(i as usize) <==> may_take(
                store,
                #[trigger] bins[i],
                j,
            )) by {
                assert(picked.contains(i as usize) <==> may_take(store, bins[i], j));
            }
            lemma_candidate_list(store, bins, sizes, values, j, rest, n - 1);
            lemma_picked_sum_rest(sizes, picked, picked.len() - 1);
            let all_sizes = picked_sizes(sizes, picked);
            let all_chosen = chosen_mask(bins, values, j, picked);
            assert(picked_sizes(sizes, rest) =~= all_sizes.drop_last());
            assert(chosen_mask(bins, values, j, rest) =~= all_chosen.drop_last());
            lemma_chosen_sum_rest(all_sizes, all_chosen, picked.len() - 1);
        } else {
            lemma_candidate_list(store, bins, sizes, values, j, picked, n - 1);
        }
    } else {
        assert(picked.len() == 0) by {
            if picked.len() > 0 {
                assert(picked[0] < 0);
            }
        }
    }
}

/// The sum of the chosen sizes without the one at position `c`.
pub proof fn lemma_chosen_removed(sizes: Seq<i32>, chosen: Seq<bool>, c: int, k: int)
    requires
        sizes.len() == chosen.len(),
        0 <= c < sizes.len(),
        0 <= k <= sizes.len() - 1,
    ensures
        chosen_sum(sizes.remove(c), chosen.remove(c), k) == if k <= c {
            chosen_sum(sizes, chosen, k)
        } else {
            chosen_sum(sizes, chosen, k + 1) - if chosen[c] {
                sizes[c] as int
            } else {
                0
            }
        },
    decreases k,
{
    if k > 0 {
        lemma_chosen_removed(sizes, chosen, c, k - 1);
        assert(sizes.remove(c)[k - 1] == if k - 1 < c {
            sizes[k - 1]
        } else {
            sizes[k]
        });
        assert(chosen.remove(c)[k - 1] == if k - 1 < c {
            chosen[k - 1]
        } else {
            chosen[k]
        });
        assert(chosen_sum(sizes, chosen, k + 1) == chosen_sum(sizes, chosen, k) + if chosen[k] {
            sizes[k] as int
        } else {
            0
        });
        assert(chosen_sum(sizes, chosen, k) == chosen_sum(sizes, chosen, k - 1) + if chosen[k
            - 1] {
            sizes[k - 1] as int
        } else {
            0
        });
    }
}

/// The values that `store` gives to the variables that it has fixed: the
/// lower bound of each.
pub open spec fn assigned_values(store: &Assignments) -> spec_fn(DomainId) -> int {
    |x: DomainId| store.lower(x)
}

/// Whether `store` has fixed each of the variables.
pub open spec fn all_fixed(store: &Assignments, variables: Seq<DomainId>) -> bool {
    forall|i: int| 0 <= i < variables.len() ==> store.is_fixed(#[trigger] variables[i])
}

/// Where each item is fixed, what a later store requires of a bin is what
/// the fixed values put in it, and nothing is left open.
pub proof fn lemma_all_fixed_sums(
    earlier: &Assignments,
    later: &Assignments,
    bins: Seq<DomainId>,
    sizes: Seq<i32>,
    j: int,
    k: int,
)
    requires
        earlier.wf(),
        later.wf(),
        later.extends(earlier),
        all_fixed(earlier, bins),
        forall|i: int| 0 <= i < bins.len() ==> earlier.has(#[trigger] bins[i]),
        0 <= k <= bins.len() == sizes.len(),
    ensures
        required_sum(later, bins, sizes, j, k) == bin_sum(
            bins,
            sizes,
            assigned_values(earlier),
            j,
            k,
        ),
        candidate_sum(later, bins, sizes, j, k) == 0,
    decreases k,
{
    if k > 0 {
        lemma_all_fixed_sums(earlier, later, bins, sizes, j, k - 1);
        let x = bins[k - 1];
        assert(earlier.is_fixed(x));
        later.lemma_fixed_stays(earlier, x);
        assert(later.contains(x, j) <==> j == earlier.lower(x));
    }
}

/// What is in a bin depends on the values of the items only.
pub proof fn lemma_bin_sum_same(
    bins: Seq<DomainId>,
    sizes: Seq<i32>,
    first: spec_fn(DomainId) -> int,
    second: spec_fn(DomainId) -> int,
    j: int,
    k: int,
)
    requires
        0 <= k <= bins.len(),
        forall|i: int| 0 <= i < bins.len() ==> first(#[trigger] bins[i]) == second(bins[i]),
    ensures
        bin_sum(bins, sizes, first, j, k) == bin_sum(bins, sizes, second, j, k),
    decreases k,
{
    if k > 0 {
        lemma_bin_sum_same(bins, sizes, first, second, j, k - 1);
    }
}

/// Values that agree on the loads and the items are packings together.
pub proof fn lemma_packing_same(
    loads: Seq<DomainId>,
    bins: Seq<DomainId>,
    sizes: Seq<i32>,
    first: spec_fn(DomainId) -> int,
    second: spec_fn(DomainId) -> int,
)
    requires
        forall|j: int| 0 <= j < loads.len() ==> first(#[trigger] loads[j]) == second(loads[j]),
        forall|i: int| 0 <= i < bins.len() ==> first(#[trigger] bins[i]) == second(bins[i]),
        is_packing(loads, bins, sizes, first),
    ensures
        is_packing(loads, bins, sizes, second),
{
    assert forall|j: int| 0 <= j < loads.len() implies second(#[trigger] loads[j]) == bin_sum(
        bins,
        sizes,
        second,
        j,
        bins.len() as int,
    ) by {
        lemma_bin_sum_same(bins, sizes, first, second, j, bins.len() as int);
    }
}

/// A store that continues another requires of a bin what the other
/// requires, and besides that each item that it has newly fixed to the bin.
pub proof fn lemma_required_grows(
    earlier: &Assignments,
    later: &Assignments,
    bins: Seq<DomainId>,
    sizes: Seq<i32>,
    j: int,
    k: int,
    i: int,
)
    requires
        earlier.wf(),
        later.wf(),
        later.extends(earlier),
        non_negative(sizes),
        0 <= k <= bins.len() == sizes.len(),
        forall|t: int| 0 <= t < bins.len() ==> earlier.has(#[trigger] bins[t]),
    ensures
        required_sum(later, bins, sizes, j, k) >= required_sum(earlier, bins, sizes, j, k),
        0 <= i < k && fixed_to(later, bins[i], j) && !fixed_to(earlier, bins[i], j)
            ==> required_sum(later, bins, sizes, j, k) >= required_sum(earlier, bins, sizes, j, k)
            + sizes[i],
    decreases k,
{
    if k > 0 {
        lemma_required_grows(earlier, later, bins, sizes, j, k - 1, i);
        let x = bins[k - 1];
        assert(earlier.has(x));
        if fixed_to(earlier, x, j) {
            later.lemma_fixed_stays(earlier, x);
            earlier.lemma_bounds(earlier.trail_len() as int, x);
            assert(j == earlier.lower(x));
            assert(later.contains(x, j));
        }
    }
}

/// Stores with the same domains of the items require the same of a bin.
pub proof fn lemma_required_same(
    first: &Assignments,
    second: &Assignments,
    bins: Seq<DomainId>,
    sizes: Seq<i32>,
    j: int,
    k: int,
)
    requires
        first.wf(),
        second.wf(),
        0 <= k <= bins.len(),
        forall|t: int| 0 <= t < bins.len() ==> first.has(#[trigger] bins[t]) && second.has(bins[t]),
        forall|t: int, v: int|
            0 <= t < bins.len() ==> (#[trigger] first.contains(bins[t], v) <==> second.contains(
                bins[t],
                v,
            )),
    ensures
        required_sum(first, bins, sizes, j, k) == required_sum(second, bins, sizes, j, k),
        forall|t: int|
            0 <= t < bins.len() ==> first.is_fixed(#[trigger] bins[t]) == second.is_fixed(bins[t]),
    decreases k,
{
    assert forall|t: int| 0 <= t < bins.len() implies first.is_fixed(#[trigger] bins[t])
        == second.is_fixed(bins[t]) by {
        let x = bins[t];
        first.lemma_bounds(first.trail_len() as int, x);
        second.lemma_bounds(second.trail_len() as int, x);
        assert(first.contains(bins[t], first.lower(x)));
        assert(first.contains(bins[t], first.upper(x)));
        assert(second.contains(bins[t], second.lower(x)));
        assert(second.contains(bins[t], second.upper(x)));
        assert(first.contains(bins[t], second.lower(x)));
        assert(first.contains(bins[t], second.upper(x)));
    }
    if k > 0 {
        lemma_required_same(first, second, bins, sizes, j, k - 1);
        let x = bins[k - 1];
        assert(first.contains(x, j) <==> second.contains(x, j));
        assert(first.is_fixed(x) == second.is_fixed(x));
    }
}

/// Stores with the same domains require and leave open the same of a bin.
pub proof fn lemma_sums_same(
    first: &Assignments,
    second: &Assignments,
    bins: Seq<DomainId>,
    sizes: Seq<i32>,
    j: int,
    k: int,
)
    requires
        forall|x: DomainId, v: int| #[trigger] first.contains(x, v) <==> second.contains(x, v),
        forall|x: DomainId| #[trigger] first.is_fixed(x) == second.is_fixed(x),
    ensures
        required_sum(first, bins, sizes, j, k) == required_sum(second, bins, sizes, j, k),
        candidate_sum(first, bins, sizes, j, k) == candidate_sum(second, bins, sizes, j, k),
    decreases k,
{
    if k > 0 {
        lemma_sums_same(first, second, bins, sizes, j, k - 1);
        let x = bins[k - 1];
        assert(first.contains(x, j) <==> second.contains(x, j));
        assert(first.is_fixed(x) == second.is_fixed(x));
    }
}

} // verus!
