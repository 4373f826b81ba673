//! Constraints that can be posted to the solver.

use vstd::prelude::*;
use crate::predicate::DomainId;
use crate::propagators::bin_packing::{items_of, BinPackingPropagator};
use crate::propagators::nosum::{non_increasing, non_negative, total_size};

verus! {

/// Creates the constraint that packs items of non-negative integer sizes in
/// bins with a non-negative integer capacity: `bins[i]` is the index of the
/// bin of item `i`, which has the size `sizes[i]`, and `loads[j]` is the sum
/// of the sizes of the items in bin `j`.
pub fn bin_packing(loads: Vec<DomainId>, bins: Vec<DomainId>, sizes: Vec<i32>) -> (r:
    BinPackingPropagator)
    requires
        bins.len() == sizes.len(),
        non_negative(sizes@),
        total_size(sizes@) <= i32::MAX,
        loads.len() <= i32::MAX,
        loads.len() + bins.len() <= u32::MAX,
    ensures
        r.loads() == loads@,
        r.bins().len() == bins.len(),
        r.sizes().len() == sizes.len(),
        non_increasing(r.sizes()),
        items_of(r.bins(), r.sizes()).to_multiset() == items_of(bins@, sizes@).to_multiset(),
{
    BinPackingPropagator::new(loads, bins, sizes)
}

} // verus!
