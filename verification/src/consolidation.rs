//! Merging the deliveries of a load that go to the same client.

use vstd::prelude::*;
use crate::allocation::{price_sum, volume_sum};
use crate::types::{Delivery, DeliveryView, Load, LoadView};

verus! {

/// A delivery to `to` that holds nothing yet.
pub open spec fn nothing_for(to: Seq<char>) -> DeliveryView {
    DeliveryView { danfe: Seq::empty(), key: Seq::empty(), to, quantity: 0, price: 0, cubicage: 0 }
}

/// The delivery `into` with `other` added to it: prices, quantities and
/// volumes add up, and the invoice numbers and access keys of `other` follow
/// those of `into`.
pub open spec fn joined(into: DeliveryView, other: DeliveryView) -> DeliveryView {
    DeliveryView {
        danfe: into.danfe + other.danfe,
        key: into.key + other.key,
        to: into.to,
        quantity: into.quantity + other.quantity,
        price: into.price + other.price,
        cubicage: into.cubicage + other.cubicage,
    }
}

/// All deliveries of `deliveries` to the client `to`, joined in their order.
pub open spec fn merged(deliveries: Seq<DeliveryView>, to: Seq<char>) -> DeliveryView
    decreases deliveries.len(),
{
    if deliveries.len() == 0 {
        nothing_for(to)
    } else {
        let before = merged(deliveries.drop_last(), to);
        if deliveries.last().to == to {
            joined(before, deliveries.last())
        } else {
            before
        }
    }
}

/// Whether no delivery before the one at `index` goes to the same client.
pub open spec fn is_first(deliveries: Seq<DeliveryView>, index: int) -> bool {
    forall|j: int| 0 <= j < index ==> (#[trigger] deliveries[j]).to != deliveries[index].to
}

/// For each client that the first `count` deliveries name, in the order in
/// which the clients first appear, all of that client's deliveries in
/// `deliveries` joined.
pub open spec fn merged_firsts(deliveries: Seq<DeliveryView>, count: int) -> Seq<DeliveryView>
    decreases count,
{
    if count <= 0 {
        Seq::empty()
    } else if is_first(deliveries, count - 1) {
        merged_firsts(deliveries, count - 1).push(merged(deliveries, deliveries[count - 1].to))
    } else {
        merged_firsts(deliveries, count - 1)
    }
}

/// The deliveries after consolidation: one per client, in the order in
/// which the clients first appear.
pub open spec fn consolidated(deliveries: Seq<DeliveryView>) -> Seq<DeliveryView> {
    merged_firsts(deliveries, deliveries.len() as int)
}

/// Whether a delivery's numbers fit the fields that hold them.
pub open spec fn fits(delivery: DeliveryView) -> bool {
    &&& delivery.quantity <= u16::MAX
    &&& i64::MIN <= delivery.price <= i64::MAX
    &&& delivery.cubicage <= u64::MAX
}

/// Whether every client's joined delivery fits.
pub open spec fn merge_fits(deliveries: Seq<DeliveryView>) -> bool {
    forall|i: int| 0 <= i < deliveries.len() ==> fits(#[trigger] merged(deliveries, deliveries[i].to))
}

/// Whether no two deliveries go to the same client.
pub open spec fn distinct_clients(deliveries: Seq<DeliveryView>) -> bool {
    forall|i: int, j: int| 0 <= i < j < deliveries.len() ==> deliveries[i].to != deliveries[j].to
}

/// Joining the first `count + 1` deliveries to a client is joining the first
/// `count` and then the next one, if it goes to that client.
pub proof fn lemma_merged_step(deliveries: Seq<DeliveryView>, to: Seq<char>, count: int)
    requires
        0 <= count < deliveries.len(),
    ensures
        merged(deliveries.take(count + 1), to) == if deliveries[count].to == to {
            joined(merged(deliveries.take(count), to), deliveries[count])
        } else {
            merged(deliveries.take(count), to)
        },
{
    assert(deliveries.take(count + 1).drop_last() =~= deliveries.take(count));
}

/// A joined delivery goes to the client it was joined for.
pub proof fn lemma_merged_client(deliveries: Seq<DeliveryView>, to: Seq<char>)
    ensures
        merged(deliveries, to).to == to,
    decreases deliveries.len(),
{
    if deliveries.len() > 0 {
        lemma_merged_client(deliveries.drop_last(), to);
    }
}

/// Whether one of the first `count` deliveries goes to the client `to`.
pub open spec fn occurs(deliveries: Seq<DeliveryView>, count: int, to: Seq<char>) -> bool {
    exists|i: int| 0 <= i < count && i < deliveries.len() && #[trigger] deliveries[i].to == to
}

/// Each joined delivery goes to a client that one of the first `count`
/// deliveries names, and no two of them go to the same client.
pub proof fn lemma_merged_firsts_clients(deliveries: Seq<DeliveryView>, count: int)
    requires
        0 <= count <= deliveries.len(),
    ensures
        merged_firsts(deliveries, count).len() <= count,
        forall|k: int|
            0 <= k < merged_firsts(deliveries, count).len() ==> occurs(
                deliveries,
                count,
                #[trigger] merged_firsts(deliveries, count)[k].to,
            ),
        distinct_clients(merged_firsts(deliveries, count)),
    decreases count,
{
    if count > 0 {
        lemma_merged_firsts_clients(deliveries, count - 1);
        let before = merged_firsts(deliveries, count - 1);
        let now = merged_firsts(deliveries, count);
        let to = deliveries[count - 1].to;
        lemma_merged_client(deliveries, to);
        assert forall|k: int| 0 <= k < now.len() implies occurs(
            deliveries,
            count,
            #[trigger] now[k].to,
        ) by {
            if k < before.len() {
                assert(now[k] == before[k]);
                assert(occurs(deliveries, count - 1, before[k].to));
                let i = choose|i: int|
                    0 <= i < count - 1 && i < deliveries.len() && #[trigger] deliveries[i].to
                        == before[k].to;
                assert(deliveries[i].to == now[k].to);
            } else {
                assert(deliveries[count - 1].to == now[k].to);
            }
        }
        if is_first(deliveries, count - 1) {
            assert forall|a: int, b: int| 0 <= a < b < now.len() implies now[a].to != now[b].to by {
                if b == before.len() {
                    assert(occurs(deliveries, count - 1, before[a].to));
                    let i = choose|i: int|
                        0 <= i < count - 1 && i < deliveries.len() && #[trigger] deliveries[i].to
                            == before[a].to;
                    assert(deliveries[i].to != deliveries[count - 1].to);
                }
            }
        }
    }
}

/// After consolidation no client appears twice.
pub proof fn lemma_consolidated_distinct(deliveries: Seq<DeliveryView>)
    ensures
        distinct_clients(consolidated(deliveries)),
        consolidated(deliveries).len() <= deliveries.len(),
{
    lemma_merged_firsts_clients(deliveries, deliveries.len() as int);
}

/// Where no client appears twice, joining the first `count` deliveries to
/// the client of the delivery at `index` gives that delivery itself once it
/// is among them, and nothing before.
proof fn lemma_merged_alone(deliveries: Seq<DeliveryView>, index: int, count: int)
    requires
        distinct_clients(deliveries),
        0 <= index < deliveries.len(),
        0 <= count <= deliveries.len(),
    ensures
        merged(deliveries.take(count), deliveries[index].to) == if count <= index {
            nothing_for(deliveries[index].to)
        } else {
            deliveries[index]
        },
    decreases count,
{
    let to = deliveries[index].to;
    if count > 0 {
        lemma_merged_alone(deliveries, index, count - 1);
        lemma_merged_step(deliveries, to, count - 1);
        if count - 1 == index {
            let alone = joined(nothing_for(to), deliveries[index]);
            assert(alone.danfe =~= deliveries[index].danfe);
            assert(alone.key =~= deliveries[index].key);
        }
    } else {
        assert(deliveries.take(0) =~= Seq::empty());
    }
}

/// Where no client appears twice, consolidation finds every delivery to be
/// the first and only one to its client.
proof fn lemma_merged_firsts_of_distinct(deliveries: Seq<DeliveryView>, count: int)
    requires
        distinct_clients(deliveries),
        0 <= count <= deliveries.len(),
    ensures
        merged_firsts(deliveries, count) == deliveries.take(count),
    decreases count,
{
    if count > 0 {
        lemma_merged_firsts_of_distinct(deliveries, count - 1);
        lemma_merged_alone(deliveries, count - 1, deliveries.len() as int);
        assert(deliveries.take(deliveries.len() as int) =~= deliveries);
        assert(is_first(deliveries, count - 1));
        assert(deliveries.take(count - 1).push(deliveries[count - 1]) =~= deliveries.take(count));
    } else {
        assert(deliveries.take(0) =~= Seq::empty());
    }
}

/// Consolidation leaves a list in which no client appears twice as it is.
pub proof fn lemma_consolidated_of_distinct(deliveries: Seq<DeliveryView>)
    requires
        distinct_clients(deliveries),
    ensures
        consolidated(deliveries) == deliveries,
{
    lemma_merged_firsts_of_distinct(deliveries, deliveries.len() as int);
    assert(deliveries.take(deliveries.len() as int) =~= deliveries);
}

/// Consolidation is idempotent: consolidating a second time changes
/// nothing.
pub proof fn lemma_consolidation_idempotent(deliveries: Seq<DeliveryView>)
    ensures
        consolidated(consolidated(deliveries)) == consolidated(deliveries),
{
    lemma_consolidated_distinct(deliveries);
    lemma_consolidated_of_distinct(consolidated(deliveries));
}

/// The delivery `delivery` after a further delivery `other` was taken up by
/// its client's first delivery: joined with it where both go to the same
/// client, unchanged otherwise.
pub open spec fn taken_up(delivery: DeliveryView, other: DeliveryView) -> DeliveryView {
    if delivery.to == other.to {
        joined(delivery, other)
    } else {
        delivery
    }
}

/// A client to whom no delivery goes has nothing joined.
proof fn lemma_merged_of_absent(deliveries: Seq<DeliveryView>, to: Seq<char>)
    requires
        !occurs(deliveries, deliveries.len() as int, to),
    ensures
        merged(deliveries, to) == nothing_for(to),
    decreases deliveries.len(),
{
    if deliveries.len() > 0 {
        let rest = deliveries.drop_last();
        assert(deliveries[deliveries.len() - 1].to != to);
        assert(!occurs(rest, rest.len() as int, to)) by {
            if occurs(rest, rest.len() as int, to) {
                let i = choose|i: int| 0 <= i < rest.len() && i < rest.len() && #[trigger] rest[i].to == to;
                assert(deliveries[i].to == to);
            }
        }
        lemma_merged_of_absent(rest, to);
    }
}

/// One more delivery at the end of a list changes the joined deliveries of
/// the clients found before it only by being taken up.
proof fn lemma_merged_firsts_with_last(deliveries: Seq<DeliveryView>, count: int)
    requires
        0 <= count < deliveries.len(),
    ensures
        merged_firsts(deliveries, count).len() == merged_firsts(
            deliveries.drop_last(),
            count,
        ).len(),
        forall|k: int|
            0 <= k < merged_firsts(deliveries, count).len() ==> #[trigger] merged_firsts(
                deliveries,
                count,
            )[k] == taken_up(merged_firsts(deliveries.drop_last(), count)[k], deliveries.last()),
    decreases count,
{
    if count > 0 {
        let rest = deliveries.drop_last();
        lemma_merged_firsts_with_last(deliveries, count - 1);
        assert(rest[count - 1] == deliveries[count - 1]);
        assert(is_first(deliveries, count - 1) == is_first(rest, count - 1)) by {
            if is_first(deliveries, count - 1) {
                assert forall|j: int| 0 <= j < count - 1 implies (#[trigger] rest[j]).to != rest[count
                    - 1].to by {
                    assert(deliveries[j].to != deliveries[count - 1].to);
                }
            }
            if is_first(rest, count - 1) {
                assert forall|j: int| 0 <= j < count - 1 implies (#[trigger] deliveries[j]).to
                    != deliveries[count - 1].to by {
                    assert(rest[j].to != rest[count - 1].to);
                }
            }
        }
        lemma_merged_client(rest, rest[count - 1].to);
    }
}

/// Every client that one of the first `count` deliveries names has a joined
/// delivery.
proof fn lemma_merged_firsts_cover(deliveries: Seq<DeliveryView>, count: int, index: int)
    requires
        0 <= index < count <= deliveries.len(),
    ensures
        occurs(
            merged_firsts(deliveries, count),
            merged_firsts(deliveries, count).len() as int,
            deliveries[index].to,
        ),
    decreases count,
{
    let now = merged_firsts(deliveries, count);
    let before = merged_firsts(deliveries, count - 1);
    let to = deliveries[index].to;
    if index < count - 1 {
        lemma_merged_firsts_cover(deliveries, count - 1, index);
        let k = choose|k: int| 0 <= k < before.len() && k < before.len() && #[trigger] before[k].to == to;
        assert(now[k].to == to);
    } else if is_first(deliveries, count - 1) {
        lemma_merged_client(deliveries, to);
        assert(now[now.len() - 1].to == to);
    } else {
        let j = choose|j: int|
            0 <= j < count - 1 && (#[trigger] deliveries[j]).to == deliveries[count - 1].to;
        lemma_merged_firsts_cover(deliveries, count - 1, j);
        let k = choose|k: int| 0 <= k < before.len() && k < before.len() && #[trigger] before[k].to == to;
        assert(now[k].to == to);
    }
}

/// Where no client appears twice and one further delivery is taken up, the
/// list gains that delivery's price and volume if its client is in the list,
/// and nothing otherwise.
proof fn lemma_taken_up_sums(before: Seq<DeliveryView>, after: Seq<DeliveryView>, other: DeliveryView)
    requires
        distinct_clients(before),
        after.len() == before.len(),
        forall|k: int| 0 <= k < before.len() ==> #[trigger] after[k] == taken_up(before[k], other),
    ensures
        occurs(before, before.len() as int, other.to) ==> price_sum(after) == price_sum(before)
            + other.price && volume_sum(after) == volume_sum(before) + other.cubicage,
        !occurs(before, before.len() as int, other.to) ==> price_sum(after) == price_sum(before)
            && volume_sum(after) == volume_sum(before),
    decreases before.len(),
{
    if before.len() > 0 {
        let b = before.drop_last();
        let a = after.drop_last();
        let n = before.len() - 1;
        assert forall|k: int| 0 <= k < b.len() implies #[trigger] a[k] == taken_up(b[k], other) by {
            assert(after[k] == taken_up(before[k], other));
        }
        assert(distinct_clients(b)) by {
            assert forall|i: int, j: int| 0 <= i < j < b.len() implies b[i].to != b[j].to by {
                assert(before[i].to != before[j].to);
            }
        }
        lemma_taken_up_sums(b, a, other);
        assert(after[n] == taken_up(before[n], other));
        if before[n].to == other.to {
            assert(!occurs(b, b.len() as int, other.to)) by {
                if occurs(b, b.len() as int, other.to) {
                    let i = choose|i: int| 0 <= i < b.len() && i < b.len() && #[trigger] b[i].to == other.to;
                    assert(before[i].to != before[n].to);
                }
            }
            assert(occurs(before, before.len() as int, other.to));
        } else {
            if occurs(before, before.len() as int, other.to) {
                let i = choose|i: int|
                    0 <= i < before.len() && i < before.len() && #[trigger] before[i].to == other.to;
                assert(b[i].to == other.to);
                assert(occurs(b, b.len() as int, other.to));
            }
            if occurs(b, b.len() as int, other.to) {
                let i = choose|i: int| 0 <= i < b.len() && i < b.len() && #[trigger] b[i].to == other.to;
                assert(before[i].to == other.to);
            }
        }
    }
}

/// Consolidation moves prices and volumes between deliveries and loses
/// none: the prices of the list add up to what they did before, and so do
/// the volumes.
pub proof fn lemma_consolidated_sums(deliveries: Seq<DeliveryView>)
    ensures
        price_sum(consolidated(deliveries)) == price_sum(deliveries),
        volume_sum(consolidated(deliveries)) == volume_sum(deliveries),
    decreases deliveries.len(),
{
    if deliveries.len() > 0 {
        let rest = deliveries.drop_last();
        let last = deliveries.last();
        let n = rest.len() as int;
        let before = consolidated(rest);
        let after = merged_firsts(deliveries, n);
        lemma_consolidated_sums(rest);
        lemma_merged_firsts_clients(rest, n);
        lemma_merged_firsts_with_last(deliveries, n);
        lemma_taken_up_sums(before, after, last);
        if is_first(deliveries, n) {
            assert(!occurs(rest, n, last.to)) by {
                if occurs(rest, n, last.to) {
                    let i = choose|i: int| 0 <= i < n && i < rest.len() && #[trigger] rest[i].to == last.to;
                    assert(deliveries[i].to != deliveries[n].to);
                }
            }
            assert(!occurs(before, before.len() as int, last.to)) by {
                if occurs(before, before.len() as int, last.to) {
                    let k = choose|k: int|
                        0 <= k < before.len() && k < before.len() && #[trigger] before[k].to == last.to;
                    assert(occurs(rest, n, before[k].to));
                }
            }
            lemma_merged_of_absent(rest, last.to);
            let all = merged(deliveries, last.to);
            assert(all == joined(nothing_for(last.to), last));
            assert(consolidated(deliveries) == after.push(all));
            assert(after.push(all).drop_last() =~= after);
        } else {
            let j = choose|j: int| 0 <= j < n && (#[trigger] deliveries[j]).to == deliveries[n].to;
            lemma_merged_firsts_cover(rest, n, j);
            assert(rest[j].to == last.to);
            assert(consolidated(deliveries) == after);
        }
    }
}

/// Adds copies of the strings of `source` at the end of `target`.
fn append_strings(target: &mut Vec<String>, source: &Vec<String>)
    ensures
        final(target).deep_view() == old(target).deep_view() + source.deep_view(),
{
    let ghost start = target.deep_view();
    let mut i: usize = 0;
    while i < source.len()
        invariant
            i <= source.len(),
            target.deep_view() == start + source.deep_view().take(i as int),
        decreases source.len() - i,
    {
        let ghost held = target.deep_view();
        target.push(source[i].clone());
        assert(target.deep_view() =~= held.push(source@[i as int]@));
        assert(start + source.deep_view().take(i + 1) =~= (start + source.deep_view().take(
            i as int,
        )).push(source@[i as int]@));
        i += 1;
    }
    assert(source.deep_view().take(i as int) =~= source.deep_view());
}

/// Whether a delivery before the one at `index` goes to the same client.
fn seen_before(deliveries: &Vec<Delivery>, index: usize) -> (seen: bool)
    requires
        index < deliveries.len(),
    ensures
        seen == !is_first(deliveries.deep_view(), index as int),
{
    let mut j: usize = 0;
    while j < index
        invariant
            j <= index,
            index < deliveries.len(),
            forall|k: int| 0 <= k < j ==> deliveries.deep_view()[k].to != deliveries.deep_view()[index as int].to,
        decreases index - j,
    {
        if deliveries[j].to == deliveries[index].to {
            assert(deliveries.deep_view()[j as int].to == deliveries.deep_view()[index as int].to);
            return true;
        }
        j += 1;
    }
    false
}

/// All deliveries that go to the client of the delivery at `index`, joined;
/// nothing where the joined numbers do not fit a delivery's fields.
fn merge_client(deliveries: &Vec<Delivery>, index: usize) -> (all: Option<Delivery>)
    requires
        index < deliveries.len(),
    ensures
        all.is_some() == fits(merged(deliveries.deep_view(), deliveries.deep_view()[index as int].to)),
        all.is_some() ==> all.unwrap()@ == merged(
            deliveries.deep_view(),
            deliveries.deep_view()[index as int].to,
        ),
{
    let ghost list = deliveries.deep_view();
    let ghost to = list[index as int].to;
    let mut danfe: Vec<String> = Vec::new();
    let mut key: Vec<String> = Vec::new();
    let mut quantity: u128 = 0;
    let mut price: i128 = 0;
    let mut cubicage: u128 = 0;
    let mut j: usize = 0;
    assert(list.take(0) =~= Seq::empty());
    assert(danfe.deep_view() =~= Seq::empty());
    assert(key.deep_view() =~= Seq::empty());
    while j < deliveries.len()
        invariant
            j <= deliveries.len(),
            index < deliveries.len(),
            list == deliveries.deep_view(),
            to == list[index as int].to,
            danfe.deep_view() == merged(list.take(j as int), to).danfe,
            key.deep_view() == merged(list.take(j as int), to).key,
            quantity == merged(list.take(j as int), to).quantity,
            price == merged(list.take(j as int), to).price,
            cubicage == merged(list.take(j as int), to).cubicage,
            quantity <= j * 0xffff,
            cubicage <= j * 0xffff_ffff_ffff_ffff,
            -(j * 0x8000_0000_0000_0000) <= price <= j * 0x8000_0000_0000_0000,
        decreases deliveries.len() - j,
    {
        proof {
            lemma_merged_step(list, to, j as int);
        }
        if deliveries[j].to == deliveries[index].to {
            append_strings(&mut danfe, &deliveries[j].danfe);
            append_strings(&mut key, &deliveries[j].key);
            quantity = quantity + (deliveries[j].quantity as u128);
            price = price + (deliveries[j].price as i128);
            cubicage = cubicage + (deliveries[j].cubicage as u128);
        }
        j += 1;
    }
    proof {
        assert(list.take(j as int) =~= list);
        lemma_merged_client(list, to);
    }
    if quantity > 0xffff || cubicage > 0xffff_ffff_ffff_ffff || price < -0x8000_0000_0000_0000
        || price > 0x7fff_ffff_ffff_ffff {
        return None;
    }
    Some(
        Delivery {
            danfe,
            key,
            to: deliveries[index].to.clone(),
            quantity: quantity as u16,
            price: price as i64,
            cubicage: cubicage as u64,
        },
    )
}

impl Load {
    /// Merges the deliveries that go to the same client, as `concat_bonus`
    /// does, where every client's joined numbers fit a delivery's fields;
    /// otherwise says no and leaves the load as it is.
    pub fn try_concat_bonus(&mut self) -> (done: bool)
        ensures
            done == merge_fits(old(self)@.deliveries),
            done ==> final(self)@ == (LoadView {
                deliveries: consolidated(old(self)@.deliveries),
                ..old(self)@
            }),
            !done ==> final(self)@ == old(self)@,
    {
        let ghost list = self@.deliveries;
        let mut kept: Vec<Delivery> = Vec::new();
        let mut i: usize = 0;
        assert(kept.deep_view() =~= merged_firsts(list, 0));
        while i < self.deliveries.len()
            invariant
                i <= self.deliveries.len(),
                *self == *old(self),
                list == self@.deliveries,
                forall|k: int| 0 <= k < i ==> fits(#[trigger] merged(list, list[k].to)),
                kept.deep_view() == merged_firsts(list, i as int),
            decreases self.deliveries.len() - i,
        {
            if !seen_before(&self.deliveries, i) {
                let ghost held = kept.deep_view();
                match merge_client(&self.deliveries, i) {
                    Some(all) => {
                        kept.push(all);
                        assert(kept.deep_view() =~= held.push(all@));
                    },
                    None => {
                        assert(!fits(merged(list, list[i as int].to)));
                        return false;
                    },
                }
            } else {
                let ghost j = choose|j: int|
                    0 <= j < i && (#[trigger] list[j]).to == list[i as int].to;
                assert(fits(merged(list, list[j].to)));
            }
            i += 1;
        }
        self.deliveries = kept;
        true
    }

    /// Merges the deliveries that go to the same client: the first delivery
    /// to a client takes up the price, quantity, volume, invoice numbers and
    /// access keys of the later ones, which leave the load.
    pub fn concat_bonus(&mut self)
        requires
            merge_fits(old(self)@.deliveries),
        ensures
            final(self)@ == (LoadView {
                deliveries: consolidated(old(self)@.deliveries),
                ..old(self)@
            }),
    {
        let _ = self.try_concat_bonus();
    }
}

} // verus!
