//! The NoSum test of Shaw's bin-packing constraint: a cheap proof that no
//! subset of a list of item sizes has a sum in a given interval.

use vstd::prelude::*;

verus! {

/// The sum of the first `k` sizes.
pub open spec fn prefix_sum(sizes: Seq<i32>, k: int) -> int
    decreases k,
{
    if k <= 0 {
        0
    } else {
        prefix_sum(sizes, k - 1) + sizes[k - 1]
    }
}

/// The sum of all sizes.
pub open spec fn total_size(sizes: Seq<i32>) -> int {
    prefix_sum(sizes, sizes.len() as int)
}

/// The sum of the last `c` sizes.
pub open spec fn tail_sum(sizes: Seq<i32>, c: int) -> int {
    total_size(sizes) - prefix_sum(sizes, sizes.len() - c)
}

/// The sum of the `k + 1` sizes that stand just before the last `c`.
pub open spec fn middle_sum(sizes: Seq<i32>, k: int, c: int) -> int {
    prefix_sum(sizes, sizes.len() - c) - prefix_sum(sizes, sizes.len() - c - k - 1)
}

pub open spec fn non_increasing(sizes: Seq<i32>) -> bool {
    forall|i: int, j: int| 0 <= i <= j < sizes.len() ==> sizes[i] >= sizes[j]
}

pub open spec fn non_negative(sizes: Seq<i32>) -> bool {
    forall|i: int| 0 <= i < sizes.len() ==> sizes[i] >= 0
}

/// Whether the first `k` sizes and the last `c` sizes together stay below
/// `alpha`, while one more of the sizes before the last `c` would reach it.
pub open spec fn fits(sizes: Seq<i32>, alpha: int, k: int, c: int) -> bool {
    &&& 0 <= k
    &&& 0 <= c
    &&& k + c + 1 <= sizes.len()
    &&& prefix_sum(sizes, k) + tail_sum(sizes, c) < alpha
    &&& alpha <= prefix_sum(sizes, k) + tail_sum(sizes, c + 1)
}

/// Whether the split `(k, c)` shows that no subset has a sum in
/// `alpha..=beta`: it fits below `alpha`, and the `k + 1` sizes just before
/// the last `c` already exceed `beta`.
pub open spec fn proves_gap(sizes: Seq<i32>, alpha: int, beta: int, k: int, c: int) -> bool {
    fits(sizes, alpha, k, c) && middle_sum(sizes, k, c) > beta
}

/// Whether the test prunes: the interval lies inside the range of the
/// subset sums, and some split proves a gap around it.
pub open spec fn prunes(sizes: Seq<i32>, alpha: int, beta: int) -> bool {
    &&& alpha > 0
    &&& beta < total_size(sizes)
    &&& exists|k: int, c: int| proves_gap(sizes, alpha, beta, k, c)
}

/// The sum of the sizes among the first `n` that `chosen` selects.
pub open spec fn chosen_sum(sizes: Seq<i32>, chosen: Seq<bool>, n: int) -> int
    decreases n,
{
    if n <= 0 {
        0
    } else {
        chosen_sum(sizes, chosen, n - 1) + if chosen[n - 1] {
            sizes[n - 1] as int
        } else {
            0
        }
    }
}

/// How many of the first `n` sizes `chosen` selects.
pub open spec fn chosen_count(chosen: Seq<bool>, n: int) -> int
    decreases n,
{
    if n <= 0 {
        0
    } else {
        chosen_count(chosen, n - 1) + if chosen[n - 1] {
            1int
        } else {
            0
        }
    }
}

/// The sum of the subset of `sizes` that `chosen` selects.
pub open spec fn subset_sum(sizes: Seq<i32>, chosen: Seq<bool>) -> int {
    chosen_sum(sizes, chosen, sizes.len() as int)
}

pub proof fn lemma_prefix_monotone(sizes: Seq<i32>, i: int, j: int)
    requires
        non_negative(sizes),
        0 <= i <= j <= sizes.len(),
    ensures
        0 <= prefix_sum(sizes, i) <= prefix_sum(sizes, j),
    decreases j,
{
    if i < j {
        lemma_prefix_monotone(sizes, i, j - 1);
    } else if j > 0 {
        lemma_prefix_monotone(sizes, i - 1, j - 1);
    }
}

/// For one `k` at most one `c` fits.
pub proof fn lemma_fits_unique(sizes: Seq<i32>, alpha: int, k: int, c: int, d: int)
    requires
        non_negative(sizes),
        fits(sizes, alpha, k, c),
        fits(sizes, alpha, k, d),
    ensures
        c == d,
{
    let n = sizes.len() as int;
    if c < d {
        lemma_prefix_monotone(sizes, n - d, n - c - 1);
    }
    if d < c {
        lemma_prefix_monotone(sizes, n - c, n - d - 1);
    }
}

proof fn lemma_chosen_bounds(sizes: Seq<i32>, chosen: Seq<bool>, n: int)
    requires
        non_increasing(sizes),
        non_negative(sizes),
        chosen.len() == sizes.len(),
        0 <= n <= sizes.len(),
    ensures
        0 <= chosen_count(chosen, n) <= n,
        chosen_sum(sizes, chosen, n) <= prefix_sum(sizes, chosen_count(chosen, n)),
        chosen_sum(sizes, chosen, n) >= prefix_sum(sizes, n) - prefix_sum(
            sizes,
            n - chosen_count(chosen, n),
        ),
        chosen_sum(sizes, chosen, n) >= 0,
    decreases n,
{
    if n > 0 {
        lemma_chosen_bounds(sizes, chosen, n - 1);
        let t = chosen_count(chosen, n - 1);
        if chosen[n - 1] {
            assert(sizes[t] >= sizes[n - 1]);
        } else if t > 0 {
            assert(sizes[n - 1 - t] >= sizes[n - 1]);
        }
    }
}

proof fn lemma_chosen_rest(sizes: Seq<i32>, chosen: Seq<bool>, m: int, n: int)
    requires
        non_negative(sizes),
        chosen.len() == sizes.len(),
        0 <= m <= n <= sizes.len(),
    ensures
        0 <= chosen_sum(sizes, chosen, n) - chosen_sum(sizes, chosen, m) <= prefix_sum(sizes, n)
            - prefix_sum(sizes, m),
    decreases n,
{
    if m < n {
        lemma_chosen_rest(sizes, chosen, m, n - 1);
    }
}

/// A split that proves a gap leaves no subset sum strictly between the sum
/// that fits below `alpha` and the sum that exceeds `beta`.
pub proof fn lemma_gap(
    sizes: Seq<i32>,
    alpha: int,
    beta: int,
    k: int,
    c: int,
    chosen: Seq<bool>,
)
    requires
        non_increasing(sizes),
        non_negative(sizes),
        chosen.len() == sizes.len(),
        proves_gap(sizes, alpha, beta, k, c),
    ensures
        subset_sum(sizes, chosen) <= prefix_sum(sizes, k) + tail_sum(sizes, c) || subset_sum(
            sizes,
            chosen,
        ) >= middle_sum(sizes, k, c),
{
    let n = sizes.len() as int;
    let m = n - c;
    let t = chosen_count(chosen, m);
    lemma_chosen_bounds(sizes, chosen, m);
    lemma_chosen_rest(sizes, chosen, m, n);
    if t <= k {
        lemma_prefix_monotone(sizes, t, k);
    } else {
        lemma_prefix_monotone(sizes, m - t, m - k - 1);
    }
}

/// Where the test prunes, no subset of the sizes has a sum in
/// `alpha..=beta`.
pub proof fn lemma_nosum_sound(sizes: Seq<i32>, alpha: int, beta: int, chosen: Seq<bool>)
    requires
        non_increasing(sizes),
        non_negative(sizes),
        chosen.len() == sizes.len(),
        prunes(sizes, alpha, beta),
    ensures
        !(alpha <= subset_sum(sizes, chosen) <= beta),
{
    let (k, c) = choose|k: int, c: int| proves_gap(sizes, alpha, beta, k, c);
    lemma_gap(sizes, alpha, beta, k, c, chosen);
}

/// What [`nosum`] returns when it prunes: the sums of the first split that
/// proves a gap.
pub open spec fn is_first_gap(
    sizes: Seq<i32>,
    alpha: int,
    beta: int,
    k: int,
    c: int,
) -> bool {
    &&& proves_gap(sizes, alpha, beta, k, c)
    &&& forall|j: int, d: int| 0 <= j < k && fits(sizes, alpha, j, d) ==> middle_sum(sizes, j, d) <= beta
}

/// Whether `below` and `above` are the two sums of the first split that
/// proves a gap around `alpha..=beta`: the sums that [`nosum`] returns when
/// it prunes.
#[verifier::opaque]
pub open spec fn first_gap_sums(
    sizes: Seq<i32>,
    alpha: int,
    beta: int,
    below: int,
    above: int,
) -> bool {
    exists|k: int, c: int|
        is_first_gap(sizes, alpha, beta, k, c) && below == prefix_sum(sizes, k) + tail_sum(
            sizes,
            c,
        ) && above == middle_sum(sizes, k, c)
}

/// What [`nosum`] returns when it passes its guard and does not prune: the
/// sums at the split `(k, c)` after which the first `k + 1` sizes reach
/// `alpha`.
pub open spec fn is_last_split(
    sizes: Seq<i32>,
    alpha: int,
    beta: int,
    k: int,
    c: int,
) -> bool {
    &&& fits(sizes, alpha, k, c)
    &&& middle_sum(sizes, k, c) <= beta
    &&& prefix_sum(sizes, k + 1) >= alpha
}

/// The sum of the sizes, of whatever sign, in integers wide enough for any
/// list.
fn sum_of(sizes: &[i32]) -> (r: i128)
    ensures
        r == total_size(sizes@),
{
    let mut sum: i128 = 0;
    let mut i: usize = 0;
    while i < sizes.len()
        invariant
            i <= sizes.len(),
            sum == prefix_sum(sizes@, i as int),
            -0x8000_0000 * i <= sum <= 0x8000_0000 * i,
        decreases sizes.len() - i,
    {
        assert(0x8000_0000 * (i + 1) <= 0x8000_0000 * 0x1_0000_0000_0000_0000) by (nonlinear_arith)
            requires
                i + 1 <= 0x1_0000_0000_0000_0000,
        ;
        sum += sizes[i] as i128;
        i += 1;
    }
    sum
}

/// Shaw's NoSum test. It looks for a number `k` of the largest sizes and a
/// number `c` of the smallest that together stay below `lower_bound`, such
/// that the `k + 1` sizes just above the `c` smallest exceed `upper_bound`.
/// Then every subset sum is at most the first sum or at least the second,
/// and the two sums are returned with `true`.
///
/// Where the lower bound is not positive or the upper bound is not below
/// the sum of the sizes there is nothing to look for, whatever the sizes
/// and the bounds are. Otherwise the sizes are non-negative and in
/// non-increasing order, their sum is a machine integer, and the bounds are
/// in order.
pub fn nosum(sizes: &[i32], lower_bound: i32, upper_bound: i32) -> (r: (bool, i32, i32))
    requires
        lower_bound > 0 && upper_bound < total_size(sizes@) ==> non_increasing(sizes@)
            && non_negative(sizes@) && total_size(sizes@) <= i32::MAX && lower_bound
            <= upper_bound,
    ensures
        r.0 == prunes(sizes@, lower_bound as int, upper_bound as int),
        lower_bound <= 0 || upper_bound >= total_size(sizes@) ==> r == (false, 0i32, 0i32),
        r.0 ==> exists|k: int, c: int|
            is_first_gap(sizes@, lower_bound as int, upper_bound as int, k, c) && r.1
                == prefix_sum(sizes@, k) + tail_sum(sizes@, c) && r.2 == middle_sum(sizes@, k, c),
        !r.0 && lower_bound > 0 && upper_bound < total_size(sizes@) ==> exists|k: int, c: int|
            is_last_split(sizes@, lower_bound as int, upper_bound as int, k, c) && r.1
                == prefix_sum(sizes@, k + 1) + tail_sum(sizes@, c) && r.2 == middle_sum(
                sizes@,
                k,
                c,
            ),
        r.0 ==> r.1 < lower_bound && upper_bound < r.2,
        r.0 ==> forall|chosen: Seq<bool>|
            chosen.len() == sizes@.len() ==> {
                let sum = #[trigger] subset_sum(sizes@, chosen);
                sum <= r.1 || sum >= r.2
            },
{
    let ghost s = sizes@;
    let ghost alpha = lower_bound as int;
    let ghost beta = upper_bound as int;
    if lower_bound <= 0 {
        return (false, 0, 0);
    }
    let wide_total = sum_of(sizes);
    if upper_bound as i128 >= wide_total {
        return (false, 0, 0);
    }
    let total = wide_total as i32;
    let length = sizes.len();
    let ghost n = length as int;
    proof {
        assert(n > 0) by {
            if n == 0 {
                assert(total_size(s) == 0);
            }
        }
        lemma_prefix_monotone(s, n - 1, n);
    }
    let mut sum_a: i32 = 0;
    let mut sum_c: i32 = 0;
    let mut k1: usize = 0;
    let mut k2: usize = 0;

    while sum_c + sizes[length - k2 - 1] < lower_bound
        invariant
            s == sizes@,
            n == length == sizes.len(),
            non_negative(s),
            total == total_size(s) <= i32::MAX,
            alpha == lower_bound,
            alpha <= upper_bound < total,
            k2 < length,
            sum_c == tail_sum(s, k2 as int),
            0 <= sum_c < alpha,
            0 <= tail_sum(s, k2 + 1) <= total,
        decreases length - k2,
    {
        sum_c += sizes[length - k2 - 1];
        k2 += 1;
        proof {
            if k2 < length {
                lemma_prefix_monotone(s, n - k2 - 1, n);
            }
        }
    }

    let mut sum_b: i32 = sizes[length - k2 - 1];

    proof {
        lemma_prefix_monotone(s, n - k2 - 1, n);
        assert(prefix_sum(s, 0) == 0);
        assert(fits(s, alpha, 0, k2 as int));
    }

    while sum_a < lower_bound && sum_b <= upper_bound
        invariant
            s == sizes@,
            n == length == sizes.len(),
            non_negative(s),
            non_increasing(s),
            total == total_size(s) <= i32::MAX,
            alpha == lower_bound,
            beta == upper_bound,
            0 < alpha <= beta < total,
            k1 <= length,
            k2 <= length,
            sum_a == prefix_sum(s, k1 as int),
            sum_c == tail_sum(s, k2 as int),
            sum_a < alpha ==> {
                &&& fits(s, alpha, k1 as int, k2 as int)
                &&& sum_b == middle_sum(s, k1 as int, k2 as int)
                &&& forall|j: int, d: int|
                    0 <= j < k1 && fits(s, alpha, j, d) ==> middle_sum(s, j, d) <= beta
            },
            sum_a >= alpha ==> {
                &&& k1 >= 1
                &&& is_last_split(s, alpha, beta, k1 - 1, k2 as int)
                &&& sum_b == middle_sum(s, k1 - 1, k2 as int)
                &&& forall|j: int, d: int|
                    0 <= j < k1 && fits(s, alpha, j, d) ==> middle_sum(s, j, d) <= beta
            },
        decreases length - k1,
    {
        let ghost old_k1 = k1 as int;
        let ghost old_k2 = k2 as int;
        proof {
            lemma_prefix_monotone(s, old_k1 + 1, n);
            lemma_prefix_monotone(s, old_k1, n - old_k2 - 1);
            assert forall|j: int, d: int|
                0 <= j < old_k1 + 1 && fits(s, alpha, j, d) implies middle_sum(s, j, d)
                <= beta by {
                if j == old_k1 {
                    lemma_fits_unique(s, alpha, j, d, old_k2);
                }
            }
        }
        k1 += 1;
        sum_a += sizes[k1 - 1];

        if sum_a < lower_bound {
            proof {
                // One more small size would have reached the bound before the
                // new large size was taken; the new size is no smaller.
                assert(s[old_k1] >= s[n - old_k2 - 1]);
                assert(old_k2 >= 1) by {
                    if old_k2 == 0 {
                        assert(tail_sum(s, 1) == s[n - 1]);
                    }
                }
                lemma_prefix_monotone(s, n - old_k2, n);
                lemma_prefix_monotone(s, n - old_k2 + 1, n);
                lemma_prefix_monotone(s, 0, n - old_k2 - old_k1 - 1);
                lemma_prefix_monotone(s, old_k1 + 1, n - old_k2 + 1);
                assert(prefix_sum(s, n - old_k2 + 1) == prefix_sum(s, n - old_k2) + s[n
                    - old_k2]);
            }
            k2 -= 1;
            sum_b += sizes[length - k2 - 1];
            sum_c -= sizes[length - k2 - 1];

            while sum_a + sum_c >= lower_bound
                invariant
                    s == sizes@,
                    n == length == sizes.len(),
                    non_negative(s),
                    non_increasing(s),
                    total == total_size(s) <= i32::MAX,
                    alpha == lower_bound,
                    k1 == old_k1 + 1,
                    k1 + k2 + 1 <= length,
                    sum_a == prefix_sum(s, k1 as int),
                    sum_a < alpha,
                    sum_c == tail_sum(s, k2 as int),
                    sum_b == middle_sum(s, k1 as int, k2 as int),
                    alpha <= prefix_sum(s, k1 as int) + tail_sum(s, k2 + 1),
                    0 <= sum_a + sum_c <= total,
                decreases k2,
            {
                proof {
                    assert(k2 >= 1) by {
                        if k2 == 0 {
                            assert(tail_sum(s, 0) == 0);
                        }
                    }
                    lemma_prefix_monotone(s, n - k2, n);
                    lemma_prefix_monotone(s, n - k2 + 1, n);
                    lemma_prefix_monotone(s, 0, n - k2 - k1);
                    lemma_prefix_monotone(s, n - k2 - k1, n - k2 + 1);
                    lemma_prefix_monotone(s, k1 as int, n - k2 + 1);
                    assert(prefix_sum(s, n - k2 + 1) == prefix_sum(s, n - k2) + s[n - k2]);
                    assert(prefix_sum(s, n - k2 - k1) == prefix_sum(s, n - k2 - k1 - 1) + s[n
                        - k2 - k1 - 1]);
                }
                k2 -= 1;
                sum_c -= sizes[length - k2 - 1];
                sum_b += sizes[length - k2 - 1] - sizes[length - k2 - k1 - 2];
            }
        }
    }

    proof {
        lemma_prefix_monotone(s, k1 as int, n - k2);
        lemma_prefix_monotone(s, n - k2, n);
        if sum_a < lower_bound {
            assert(is_first_gap(s, alpha, beta, k1 as int, k2 as int));
            assert(proves_gap(s, alpha, beta, k1 as int, k2 as int));
            assert forall|chosen: Seq<bool>| chosen.len() == s.len() implies {
                let sum = #[trigger] subset_sum(s, chosen);
                sum <= sum_a + sum_c || sum >= sum_b
            } by {
                lemma_gap(s, alpha, beta, k1 as int, k2 as int, chosen);
            }
        } else {
            assert(is_last_split(s, alpha, beta, k1 - 1, k2 as int));
            assert forall|j: int, d: int| fits(s, alpha, j, d) implies middle_sum(s, j, d)
                <= beta by {
                if j >= k1 {
                    lemma_prefix_monotone(s, k1 as int, j);
                    lemma_prefix_monotone(s, n - d, n);
                }
            }
        }
    }
    (sum_a < lower_bound, sum_a + sum_c, sum_b)
}

} // verus!
