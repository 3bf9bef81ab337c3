//! Bringing a load up to date once its deliveries are known.

use vstd::prelude::*;
use crate::allocation::{
    allocated, lemma_allocated_keeps_volume, lemma_allocated_sum, lemma_volume_sum_step, price_sum,
    volume_sum,
};
use crate::consolidation::{
    consolidated, distinct_clients, lemma_consolidated_distinct, lemma_consolidated_sums, merge_fits,
};
use crate::types::{Load, LoadView};

verus! {

/// A load brought up to date: its total volume is that of its deliveries,
/// its price is apportioned over them, and then the deliveries to one client
/// are merged.
pub open spec fn updated(load: LoadView) -> LoadView {
    let total = volume_sum(load.deliveries);
    LoadView {
        deliveries: consolidated(allocated(load.deliveries, load.total_price, total as int)),
        total_cubicage: total,
        ..load
    }
}

/// Whether a load can be brought up to date within the fields' ranges: its
/// total volume fits, and after allocation so does every client's joined
/// delivery.
pub open spec fn can_update(load: LoadView) -> bool {
    &&& volume_sum(load.deliveries) <= u64::MAX
    &&& merge_fits(
        allocated(load.deliveries, load.total_price, volume_sum(load.deliveries) as int),
    )
}

/// What holds of every load that was brought up to date: its total volume
/// is that of its deliveries, their prices add up to the total price where
/// there is any volume, and no client appears twice.
pub proof fn lemma_updated_is_consistent(load: LoadView)
    ensures
        volume_sum(updated(load).deliveries) == updated(load).total_cubicage,
        updated(load).total_cubicage > 0 ==> price_sum(updated(load).deliveries)
            == load.total_price,
        distinct_clients(updated(load).deliveries),
{
    let total = volume_sum(load.deliveries) as int;
    let shared = allocated(load.deliveries, load.total_price, total);
    lemma_allocated_keeps_volume(load.deliveries, load.total_price, total);
    lemma_consolidated_sums(shared);
    lemma_consolidated_distinct(shared);
    if total > 0 {
        lemma_allocated_sum(load.deliveries, load.total_price);
    }
}

impl Load {
    /// Whether the volume of the deliveries together fits the total's field.
    pub fn volume_fits(&self) -> (fits: bool)
        ensures
            fits == (volume_sum(self@.deliveries) <= u64::MAX),
    {
        let ghost all = self@.deliveries;
        let mut total: u128 = 0;
        let mut i: usize = 0;
        while i < self.deliveries.len()
            invariant
                i <= self.deliveries.len(),
                all == self@.deliveries,
                total == volume_sum(all.take(i as int)),
                total <= i * 0xffff_ffff_ffff_ffff,
            decreases self.deliveries.len() - i,
        {
            proof {
                lemma_volume_sum_step(all, i as int);
            }
            total = total + (self.deliveries[i].cubicage as u128);
            i += 1;
        }
        assert(all.take(i as int) =~= all);
        total <= 0xffff_ffff_ffff_ffff
    }

    /// Brings the load up to date: total volume, then each delivery's price,
    /// then the merge of deliveries to one client.
    pub fn update_load_delivery_data(&mut self)
        requires
            can_update(old(self)@),
        ensures
            final(self)@ == updated(old(self)@),
            final(self).total_cubicage == volume_sum(final(self)@.deliveries),
            final(self).total_cubicage > 0 ==> price_sum(final(self)@.deliveries)
                == final(self).total_price,
            distinct_clients(final(self)@.deliveries),
    {
        proof {
            lemma_updated_is_consistent(self@);
        }
        self.calculate_total_cubicage();
        self.calculate_price_for_each_delivery();
        self.concat_bonus();
    }

    /// Brings the load up to date where that can be done within the fields'
    /// ranges; otherwise says no and leaves the load as it is.
    pub fn try_update_load_delivery_data(&mut self) -> (done: bool)
        ensures
            done == can_update(old(self)@),
            done ==> final(self)@ == updated(old(self)@),
            !done ==> final(self)@ == old(self)@,
    {
        if !self.volume_fits() {
            return false;
        }
        let mut work = self.clone();
        work.calculate_total_cubicage();
        work.calculate_price_for_each_delivery();
        if !work.try_concat_bonus() {
            return false;
        }
        *self = work;
        true
    }
}

} // verus!
