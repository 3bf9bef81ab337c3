//! Apportioning a load's freight price over its deliveries by volume.

use vstd::prelude::*;
use crate::math::{lemma_half_up_bounds, lemma_rounded_ratio_magnitude, round_price, rounded_ratio};
use crate::types::{DeliveryView, Load, LoadView};

verus! {

/// The volume of all deliveries of `deliveries` together.
pub open spec fn volume_sum(deliveries: Seq<DeliveryView>) -> nat
    decreases deliveries.len(),
{
    if deliveries.len() == 0 {
        0
    } else {
        volume_sum(deliveries.drop_last()) + deliveries.last().cubicage
    }
}

/// The price of all deliveries of `deliveries` together.
pub open spec fn price_sum(deliveries: Seq<DeliveryView>) -> int
    decreases deliveries.len(),
{
    if deliveries.len() == 0 {
        0
    } else {
        price_sum(deliveries.drop_last()) + deliveries.last().price
    }
}

/// The part of `total_price` that falls to a delivery of volume `volume` in
/// a load of volume `total_volume`, rounded to the nearest cent, half a cent
/// going away from zero.
pub open spec fn share(total_price: int, volume: nat, total_volume: int) -> int {
    rounded_ratio(total_price * volume, total_volume)
}

/// The rounded shares of all deliveries of `deliveries` together.
pub open spec fn share_sum(deliveries: Seq<DeliveryView>, total_price: int, total_volume: int) -> int
    decreases deliveries.len(),
{
    if deliveries.len() == 0 {
        0
    } else {
        share_sum(deliveries.drop_last(), total_price, total_volume) + share(
            total_price,
            deliveries.last().cubicage,
            total_volume,
        )
    }
}

/// The delivery `delivery` at the price `price`.
pub open spec fn with_price(delivery: DeliveryView, price: int) -> DeliveryView {
    DeliveryView { price, ..delivery }
}

/// The price that allocation gives to the delivery at `index`: its rounded
/// share, and for the first delivery also what the rounded shares together
/// leave of the total price.
pub open spec fn allocated_price(
    deliveries: Seq<DeliveryView>,
    total_price: int,
    total_volume: int,
    index: int,
) -> int {
    let rounded = share(total_price, deliveries[index].cubicage, total_volume);
    if index == 0 {
        rounded + (total_price - share_sum(deliveries, total_price, total_volume))
    } else {
        rounded
    }
}

/// The deliveries after allocation. A load without volume is left as it is.
pub open spec fn allocated(deliveries: Seq<DeliveryView>, total_price: int, total_volume: int) -> Seq<
    DeliveryView,
> {
    if total_volume <= 0 {
        deliveries
    } else {
        Seq::new(
            deliveries.len(),
            |i: int| with_price(deliveries[i], allocated_price(deliveries, total_price, total_volume, i)),
        )
    }
}

/// The volume of the first `count + 1` deliveries is that of the first
/// `count` and of the next one.
pub proof fn lemma_volume_sum_step(deliveries: Seq<DeliveryView>, count: int)
    requires
        0 <= count < deliveries.len(),
    ensures
        volume_sum(deliveries.take(count + 1)) == volume_sum(deliveries.take(count))
            + deliveries[count].cubicage,
{
    assert(deliveries.take(count + 1).drop_last() =~= deliveries.take(count));
}

/// The volume of a prefix is at most the volume of the whole.
pub proof fn lemma_volume_sum_prefix(deliveries: Seq<DeliveryView>, count: int)
    requires
        0 <= count <= deliveries.len(),
    ensures
        volume_sum(deliveries.take(count)) <= volume_sum(deliveries),
    decreases deliveries.len() - count,
{
    if count == deliveries.len() {
        assert(deliveries.take(count) =~= deliveries);
    } else {
        lemma_volume_sum_step(deliveries, count);
        lemma_volume_sum_prefix(deliveries, count + 1);
    }
}

/// The price of the first `count + 1` deliveries is that of the first
/// `count` and of the next one.
pub proof fn lemma_price_sum_step(deliveries: Seq<DeliveryView>, count: int)
    requires
        0 <= count < deliveries.len(),
    ensures
        price_sum(deliveries.take(count + 1)) == price_sum(deliveries.take(count))
            + deliveries[count].price,
{
    assert(deliveries.take(count + 1).drop_last() =~= deliveries.take(count));
}

/// The shares of the first `count + 1` deliveries are those of the first
/// `count` and of the next one.
pub proof fn lemma_share_sum_step(
    deliveries: Seq<DeliveryView>,
    total_price: int,
    total_volume: int,
    count: int,
)
    requires
        0 <= count < deliveries.len(),
    ensures
        share_sum(deliveries.take(count + 1), total_price, total_volume) == share_sum(
            deliveries.take(count),
            total_price,
            total_volume,
        ) + share(total_price, deliveries[count].cubicage, total_volume),
{
    assert(deliveries.take(count + 1).drop_last() =~= deliveries.take(count));
}

/// A rounded share is within half a cent of the exact share, has the sign of
/// the total price, and is no larger in magnitude than the total price where
/// the volume is no larger than the total volume.
pub proof fn lemma_share_error(total_price: int, volume: nat, total_volume: int)
    requires
        0 < total_volume,
    ensures
        -total_volume <= 2 * total_volume * share(total_price, volume, total_volume) - 2
            * total_price * volume <= total_volume,
        total_price >= 0 ==> share(total_price, volume, total_volume) >= 0,
        total_price <= 0 ==> share(total_price, volume, total_volume) <= 0,
        volume <= total_volume && total_price >= 0 ==> share(total_price, volume, total_volume)
            <= total_price,
        volume <= total_volume && total_price <= 0 ==> share(total_price, volume, total_volume)
            >= total_price,
{
    let numerator = total_price * volume;
    let magnitude = if numerator >= 0 { numerator } else { -numerator };
    lemma_half_up_bounds(magnitude, total_volume);
    lemma_rounded_ratio_magnitude(numerator, total_volume);
    let rounded = share(total_price, volume, total_volume);
    assert(total_price >= 0 ==> numerator >= 0) by (nonlinear_arith)
        requires
            numerator == total_price * volume,
            volume >= 0,
    ;
    assert(total_price <= 0 ==> numerator <= 0) by (nonlinear_arith)
        requires
            numerator == total_price * volume,
            volume >= 0,
    ;
    assert(-total_volume <= 2 * total_volume * rounded - 2 * total_price * volume <= total_volume)
        by (nonlinear_arith)
        requires
            numerator == total_price * volume,
            2 * total_volume * crate::math::half_up(magnitude, total_volume) <= 2 * magnitude
                + total_volume,
            2 * magnitude - total_volume < 2 * total_volume * crate::math::half_up(
                magnitude,
                total_volume,
            ),
            numerator >= 0 ==> rounded == crate::math::half_up(magnitude, total_volume)
                && magnitude == numerator,
            numerator < 0 ==> rounded == -crate::math::half_up(magnitude, total_volume)
                && magnitude == -numerator,
    ;
    if volume <= total_volume {
        assert(total_price >= 0 ==> rounded <= total_price) by (nonlinear_arith)
            requires
                2 * total_volume * rounded - 2 * total_price * volume <= total_volume,
                0 <= volume <= total_volume,
                0 < total_volume,
        ;
        assert(total_price <= 0 ==> rounded >= total_price) by (nonlinear_arith)
            requires
                -total_volume <= 2 * total_volume * rounded - 2 * total_price * volume,
                0 <= volume <= total_volume,
                0 < total_volume,
        ;
    }
}

/// The rounded shares of a list of deliveries together are within half a
/// cent per delivery of the exact share of the list's volume, and they have
/// the sign of the total price.
pub proof fn lemma_share_sum_error(deliveries: Seq<DeliveryView>, total_price: int, total_volume: int)
    requires
        0 < total_volume,
    ensures
        -deliveries.len() * total_volume <= 2 * total_volume * share_sum(
            deliveries,
            total_price,
            total_volume,
        ) - 2 * total_price * volume_sum(deliveries) <= deliveries.len() * total_volume,
        total_price >= 0 ==> share_sum(deliveries, total_price, total_volume) >= 0,
        total_price <= 0 ==> share_sum(deliveries, total_price, total_volume) <= 0,
    decreases deliveries.len(),
{
    let n = deliveries.len() as int;
    let s_all = share_sum(deliveries, total_price, total_volume);
    let w_all = volume_sum(deliveries) as int;
    if deliveries.len() == 0 {
        assert(-n * total_volume <= 2 * total_volume * s_all - 2 * total_price * w_all <= n
            * total_volume) by (nonlinear_arith)
            requires
                n == 0,
                s_all == 0,
                w_all == 0,
        ;
    } else {
        let rest = deliveries.drop_last();
        let last = deliveries.last();
        lemma_share_sum_error(rest, total_price, total_volume);
        lemma_share_error(total_price, last.cubicage, total_volume);
        let s_rest = share_sum(rest, total_price, total_volume);
        let s_last = share(total_price, last.cubicage, total_volume);
        let w_rest = volume_sum(rest) as int;
        let w_last = last.cubicage as int;
        let m = rest.len() as int;
        assert(m == n - 1);
        assert(-n * total_volume <= 2 * total_volume * s_all - 2 * total_price * w_all <= n
            * total_volume) by (nonlinear_arith)
            requires
                -m * total_volume <= 2 * total_volume * s_rest - 2 * total_price * w_rest <= m
                    * total_volume,
                -total_volume <= 2 * total_volume * s_last - 2 * total_price * w_last
                    <= total_volume,
                m == n - 1,
                s_all == s_rest + s_last,
                w_all == w_rest + w_last,
        ;
    }
}

/// The remainder that the first delivery takes is at most half a cent for
/// each delivery of the load, in either direction.
pub proof fn lemma_remainder_bound(deliveries: Seq<DeliveryView>, total_price: int)
    requires
        0 < volume_sum(deliveries),
    ensures
        -deliveries.len() <= 2 * (total_price - share_sum(
            deliveries,
            total_price,
            volume_sum(deliveries) as int,
        )) <= deliveries.len(),
{
    let total_volume = volume_sum(deliveries) as int;
    lemma_share_sum_error(deliveries, total_price, total_volume);
    let s = share_sum(deliveries, total_price, total_volume);
    let n = deliveries.len() as int;
    assert(-n <= 2 * (total_price - s) <= n) by (nonlinear_arith)
        requires
            -n * total_volume <= 2 * total_volume * s - 2 * total_price * total_volume <= n
                * total_volume,
            0 < total_volume,
    ;
}

/// After allocation the prices of the first `count` deliveries are their
/// rounded shares and the remainder.
proof fn lemma_allocated_prefix(
    deliveries: Seq<DeliveryView>,
    total_price: int,
    total_volume: int,
    count: int,
)
    requires
        0 < total_volume,
        1 <= count <= deliveries.len(),
    ensures
        price_sum(allocated(deliveries, total_price, total_volume).take(count)) == share_sum(
            deliveries.take(count),
            total_price,
            total_volume,
        ) + (total_price - share_sum(deliveries, total_price, total_volume)),
    decreases count,
{
    let after = allocated(deliveries, total_price, total_volume);
    lemma_price_sum_step(after, count - 1);
    lemma_share_sum_step(deliveries, total_price, total_volume, count - 1);
    if count == 1 {
        assert(after.take(0) =~= Seq::empty());
        assert(deliveries.take(0) =~= Seq::empty());
    } else {
        lemma_allocated_prefix(deliveries, total_price, total_volume, count - 1);
    }
}

/// Allocation distributes the whole price: in a load with volume the prices
/// of the deliveries add up to the total price, to the cent.
pub proof fn lemma_allocated_sum(deliveries: Seq<DeliveryView>, total_price: int)
    requires
        0 < volume_sum(deliveries),
    ensures
        price_sum(allocated(deliveries, total_price, volume_sum(deliveries) as int)) == total_price,
{
    let total_volume = volume_sum(deliveries) as int;
    let after = allocated(deliveries, total_price, total_volume);
    assert(deliveries.len() > 0);
    lemma_allocated_prefix(deliveries, total_price, total_volume, deliveries.len() as int);
    assert(after.take(deliveries.len() as int) =~= after);
    assert(deliveries.take(deliveries.len() as int) =~= deliveries);
}

/// Allocation changes prices only: each delivery keeps its volume, so the
/// load keeps its total volume.
pub proof fn lemma_allocated_keeps_volume(
    deliveries: Seq<DeliveryView>,
    total_price: int,
    total_volume: int,
)
    ensures
        volume_sum(allocated(deliveries, total_price, total_volume)) == volume_sum(deliveries),
    decreases deliveries.len(),
{
    let after = allocated(deliveries, total_price, total_volume);
    if total_volume > 0 {
        lemma_same_volumes(after, deliveries);
    }
}

/// Two lists of deliveries with the same volumes, place by place, have the
/// same total volume.
pub proof fn lemma_same_volumes(left: Seq<DeliveryView>, right: Seq<DeliveryView>)
    requires
        left.len() == right.len(),
        forall|i: int| 0 <= i < left.len() ==> left[i].cubicage == right[i].cubicage,
    ensures
        volume_sum(left) == volume_sum(right),
    decreases left.len(),
{
    if left.len() > 0 {
        lemma_same_volumes(left.drop_last(), right.drop_last());
    }
}

/// No delivery has more volume than the whole list.
pub proof fn lemma_volume_of_one(deliveries: Seq<DeliveryView>, index: int)
    requires
        0 <= index < deliveries.len(),
    ensures
        deliveries[index].cubicage <= volume_sum(deliveries),
{
    lemma_volume_sum_step(deliveries, index);
    lemma_volume_sum_prefix(deliveries, index + 1);
}

/// The rounded shares together are at least the first share where the total
/// price is not negative, and at most the first share where it is not
/// positive.
pub proof fn lemma_share_sum_covers_first(
    deliveries: Seq<DeliveryView>,
    total_price: int,
    total_volume: int,
)
    requires
        0 < total_volume,
        0 < deliveries.len(),
    ensures
        total_price >= 0 ==> share_sum(deliveries, total_price, total_volume) >= share(
            total_price,
            deliveries[0].cubicage,
            total_volume,
        ),
        total_price <= 0 ==> share_sum(deliveries, total_price, total_volume) <= share(
            total_price,
            deliveries[0].cubicage,
            total_volume,
        ),
    decreases deliveries.len(),
{
    lemma_share_error(total_price, deliveries.last().cubicage, total_volume);
    if deliveries.len() == 1 {
        assert(share_sum(deliveries.drop_last(), total_price, total_volume) == 0);
    } else {
        lemma_share_sum_covers_first(deliveries.drop_last(), total_price, total_volume);
    }
}

impl Load {
    /// Sets the load's total volume to the volume of its deliveries
    /// together, which is zero for a load without deliveries.
    pub fn calculate_total_cubicage(&mut self)
        requires
            volume_sum(old(self)@.deliveries) <= u64::MAX,
        ensures
            final(self)@ == (LoadView {
                total_cubicage: volume_sum(old(self)@.deliveries),
                ..old(self)@
            }),
    {
        let ghost all = self@.deliveries;
        let mut total: u64 = 0;
        let mut i: usize = 0;
        while i < self.deliveries.len()
            invariant
                i <= self.deliveries.len(),
                *self == *old(self),
                all == self@.deliveries,
                total == volume_sum(all.take(i as int)),
                volume_sum(all) <= u64::MAX,
            decreases self.deliveries.len() - i,
        {
            proof {
                lemma_volume_sum_step(all, i as int);
                lemma_volume_sum_prefix(all, i + 1);
            }
            total = total + self.deliveries[i].cubicage;
            i += 1;
        }
        assert(all.take(i as int) =~= all);
        self.total_cubicage = total;
    }

    /// Gives each delivery its part of the total price, by its part of the
    /// total volume, rounded to the cent; what the rounded parts leave of
    /// the total price, or exceed it by, goes to the first delivery. A load
    /// without volume is left as it is.
    pub fn calculate_price_for_each_delivery(&mut self)
        requires
            old(self).total_cubicage == volume_sum(old(self)@.deliveries),
        ensures
            final(self)@ == (LoadView {
                deliveries: allocated(
                    old(self)@.deliveries,
                    old(self).total_price as int,
                    old(self).total_cubicage as int,
                ),
                ..old(self)@
            }),
            old(self).total_cubicage > 0 ==> price_sum(final(self)@.deliveries)
                == old(self).total_price,
            old(self).total_cubicage == 0 ==> final(self)@ == old(self)@,
    {
        if self.total_cubicage == 0 {
            return ;
        }
        let ghost before = self@.deliveries;
        let ghost start = self@;
        let total_price = self.total_price;
        let total = self.total_cubicage;
        let ghost p = total_price as int;
        let ghost v = total as int;
        let n = self.deliveries.len();
        let mut rounded_total: i128 = 0;
        let mut i: usize = 0;
        while i < n
            invariant
                i <= n,
                n == self.deliveries.len(),
                n == before.len(),
                self.total_price == total_price,
                self.total_cubicage == total,
                self.license_plate@ == start.license_plate,
                p == total_price as int,
                v == total as int,
                0 < v,
                v == volume_sum(before),
                forall|k: int|
                    0 <= k < i ==> self.deliveries@[k]@ == with_price(
                        before[k],
                        share(p, before[k].cubicage, v),
                    ),
                forall|k: int| i <= k < n ==> self.deliveries@[k]@ == before[k],
                rounded_total == share_sum(before.take(i as int), p, v),
                -(i * 0x8000_0000_0000_0000) <= rounded_total <= i * 0x8000_0000_0000_0000,
            decreases n - i,
        {
            let volume = self.deliveries[i].cubicage;
            proof {
                lemma_volume_of_one(before, i as int);
                lemma_share_error(p, volume as nat, v);
                lemma_share_sum_step(before, p, v, i as int);
                assert(-0x8000_0000_0000_0000_0000_0000_0000_0000 <= (total_price as int) * (
                volume as int) <= 0x7fff_ffff_ffff_ffff_ffff_ffff_ffff_ffff) by (nonlinear_arith)
                    requires
                        -0x8000_0000_0000_0000 <= total_price as int <= 0x7fff_ffff_ffff_ffff,
                        0 <= volume as int <= 0xffff_ffff_ffff_ffff,
                ;
            }
            let rounded = round_price((total_price as i128) * (volume as i128), total);
            self.deliveries[i].price = rounded as i64;
            rounded_total = rounded_total + rounded;
            i += 1;
        }
        proof {
            assert(before.take(n as int) =~= before);
            lemma_volume_of_one(before, 0);
            lemma_share_error(p, before[0].cubicage, v);
            lemma_share_sum_covers_first(before, p, v);
            lemma_remainder_bound(before, p);
        }
        let first = (self.deliveries[0].price as i128) + ((total_price as i128) - rounded_total);
        self.deliveries[0].price = first as i64;
        proof {
            let after = allocated(before, p, v);
            assert forall|k: int| 0 <= k < n implies self.deliveries@[k]@ == after[k] by {}
            assert(self@.deliveries =~= after);
            lemma_allocated_sum(before, p);
        }
    }
}

} // verus!
