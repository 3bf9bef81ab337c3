//! Joining document records with commercial facts into carriers, loads and
//! deliveries.

use vstd::prelude::*;
use crate::data::parsing::{
    all_parse, facts_of, first_failure, grouped, outcomes_of, parse_email, parse_multiple, records_of,
    reports, warnings_of,
};
use crate::decimal::{decimal_text, parse_unsigned, unsigned_value, write_decimal};
use crate::pattern::{all_captured, email_pattern, lowercased, pattern_compiles};
use crate::allocation::volume_sum;
use crate::consolidation::{merged, merged_firsts};
use crate::load::{can_update, updated};
use crate::sequence::{loads_of, sequenced, SequenceList};
use crate::types::{
    facts_view, CarrierGroup, CarrierGroupView, Data, DataView, Delivery, DeliveryView, EmailData,
    EmailLoadData, Load, LoadNumber, LoadView, MultipleData, NumberedLoad, NumberedLoadView, Packet,
    PacketView, ParseErrors,
};

verus! {

/// The delivery that a document record stands for: one invoice, one access
/// key, and no price yet.
pub open spec fn delivery_of(record: DataView) -> DeliveryView {
    DeliveryView {
        danfe: seq![record.danfe],
        key: seq![record.key],
        to: record.to,
        quantity: record.quantity as nat,
        price: 0,
        cubicage: record.cubicage as nat,
    }
}

/// The load that the first record of a load opens: it holds that record's
/// delivery and takes plate and price from the commercial facts.
pub open spec fn opened_load(record: DataView, price: int, plate: Seq<char>) -> LoadView {
    LoadView {
        deliveries: seq![delivery_of(record)],
        license_plate: plate,
        total_price: price,
        total_cubicage: 0,
    }
}

/// The place of the group of the carrier `carrier` in `groups`, or their
/// number where the carrier has no group.
pub open spec fn carrier_index(groups: Seq<CarrierGroupView>, carrier: Seq<char>) -> int
    decreases groups.len(),
{
    if groups.len() == 0 {
        0
    } else if groups[0].carrier == carrier {
        0
    } else {
        1 + carrier_index(groups.drop_first(), carrier)
    }
}

/// The place of the load with the number `number` in `loads`, or their
/// number where no load has it.
pub open spec fn load_index(loads: Seq<NumberedLoadView>, number: LoadNumber) -> int
    decreases loads.len(),
{
    if loads.len() == 0 {
        0
    } else if loads[0].number == number {
        0
    } else {
        1 + load_index(loads.drop_first(), number)
    }
}

/// The loads `loads` of one carrier with the delivery of `record`: it goes
/// to the end of the load with the record's number, or it opens that load
/// after the others.
pub open spec fn loads_with(
    loads: Seq<NumberedLoadView>,
    record: DataView,
    price: int,
    plate: Seq<char>,
) -> Seq<NumberedLoadView> {
    let place = load_index(loads, record.load_number);
    if place == loads.len() {
        loads.push(
            NumberedLoadView { number: record.load_number, load: opened_load(record, price, plate) },
        )
    } else {
        loads.update(
            place,
            NumberedLoadView {
                load: LoadView {
                    deliveries: loads[place].load.deliveries.push(delivery_of(record)),
                    ..loads[place].load
                },
                ..loads[place]
            },
        )
    }
}

/// The groups `groups` with the delivery of `record`: it goes into the
/// group of the record's carrier, which is opened after the others where
/// the carrier has none.
pub open spec fn groups_with(
    groups: Seq<CarrierGroupView>,
    record: DataView,
    price: int,
    plate: Seq<char>,
) -> Seq<CarrierGroupView> {
    let place = carrier_index(groups, record.by);
    if place == groups.len() {
        groups.push(
            CarrierGroupView {
                carrier: record.by,
                loads: loads_with(Seq::empty(), record, price, plate),
                sequence: Seq::empty(),
            },
        )
    } else {
        groups.update(
            place,
            CarrierGroupView {
                loads: loads_with(groups[place].loads, record, price, plate),
                ..groups[place]
            },
        )
    }
}

/// The place of a carrier's group is the one place with no group of the
/// carrier before it and the carrier's group, or the end, at it.
pub proof fn lemma_carrier_index(groups: Seq<CarrierGroupView>, carrier: Seq<char>, place: int)
    requires
        0 <= place <= groups.len(),
        forall|q: int| 0 <= q < place ==> (#[trigger] groups[q]).carrier != carrier,
        place < groups.len() ==> groups[place].carrier == carrier,
    ensures
        carrier_index(groups, carrier) == place,
    decreases groups.len(),
{
    if groups.len() > 0 && place > 0 {
        assert(groups[0].carrier != carrier);
        let rest = groups.drop_first();
        assert forall|q: int| 0 <= q < place - 1 implies (#[trigger] rest[q]).carrier != carrier by {
            assert(groups[q + 1].carrier != carrier);
        }
        lemma_carrier_index(rest, carrier, place - 1);
    }
}

/// The place of a load is the one place with no load of that number before
/// it and the load of that number, or the end, at it.
pub proof fn lemma_load_index(loads: Seq<NumberedLoadView>, number: LoadNumber, place: int)
    requires
        0 <= place <= loads.len(),
        forall|q: int| 0 <= q < place ==> (#[trigger] loads[q]).number != number,
        place < loads.len() ==> loads[place].number == number,
    ensures
        load_index(loads, number) == place,
    decreases loads.len(),
{
    if loads.len() > 0 && place > 0 {
        assert(loads[0].number != number);
        let rest = loads.drop_first();
        assert forall|q: int| 0 <= q < place - 1 implies (#[trigger] rest[q]).number != number by {
            assert(loads[q + 1].number != number);
        }
        lemma_load_index(rest, number, place - 1);
    }
}

/// The delivery that the record `record` stands for.
fn make_delivery(record: &Data) -> (delivery: Delivery)
    ensures
        delivery@ == delivery_of(record@),
{
    let mut danfe: Vec<String> = Vec::new();
    danfe.push(record.danfe.clone());
    let mut key: Vec<String> = Vec::new();
    key.push(record.key.clone());
    assert(danfe.deep_view() =~= seq![record.danfe@]);
    assert(key.deep_view() =~= seq![record.key@]);
    Delivery {
        danfe,
        key,
        to: record.to.clone(),
        quantity: record.quantity,
        price: 0,
        cubicage: record.cubicage,
    }
}

/// Puts the delivery of `record` into the loads of one carrier.
fn add_to_loads(loads: &mut Vec<NumberedLoad>, record: &Data, fact: &EmailLoadData)
    ensures
        final(loads).deep_view() == loads_with(
            old(loads).deep_view(),
            record@,
            fact.price as int,
            fact.license_plate@,
        ),
{
    let ghost before = loads.deep_view();
    let mut place: usize = 0;
    while place < loads.len() && loads[place].number != record.load_number
        invariant
            place <= loads.len(),
            *loads == *old(loads),
            forall|q: int| 0 <= q < place ==> (#[trigger] before[q]).number != record.load_number,
            before == loads.deep_view(),
        decreases loads.len() - place,
    {
        assert(before[place as int].number == loads@[place as int].number);
        place += 1;
    }
    proof {
        if place < loads.len() {
            assert(before[place as int].number == loads@[place as int].number);
        }
        lemma_load_index(before, record.load_number, place as int);
    }
    let delivery = make_delivery(record);
    if place == loads.len() {
        let mut deliveries: Vec<Delivery> = Vec::new();
        deliveries.push(delivery);
        assert(deliveries.deep_view() =~= seq![delivery_of(record@)]);
        let load = Load {
            deliveries,
            license_plate: fact.license_plate.clone(),
            total_price: fact.price,
            total_cubicage: 0,
        };
        loads.push(NumberedLoad { number: record.load_number, load });
        assert(loads.deep_view() =~= loads_with(
            before,
            record@,
            fact.price as int,
            fact.license_plate@,
        ));
    } else {
        let ghost held = loads@[place as int].load.deliveries.deep_view();
        loads[place].load.deliveries.push(delivery);
        assert(loads@[place as int].load.deliveries.deep_view() =~= held.push(delivery_of(record@)));
        assert(loads.deep_view() =~= loads_with(
            before,
            record@,
            fact.price as int,
            fact.license_plate@,
        ));
    }
}

/// Puts the delivery of `record` into the group of its carrier.
pub fn add_delivery(groups: &mut Vec<CarrierGroup>, record: &Data, fact: &EmailLoadData)
    ensures
        final(groups).deep_view() == groups_with(
            old(groups).deep_view(),
            record@,
            fact.price as int,
            fact.license_plate@,
        ),
{
    let ghost before = groups.deep_view();
    let mut place: usize = 0;
    while place < groups.len() && groups[place].carrier != record.by
        invariant
            place <= groups.len(),
            *groups == *old(groups),
            forall|q: int| 0 <= q < place ==> (#[trigger] before[q]).carrier != record.by@,
            before == groups.deep_view(),
        decreases groups.len() - place,
    {
        assert(before[place as int].carrier == groups@[place as int].carrier@);
        place += 1;
    }
    proof {
        if place < groups.len() {
            assert(before[place as int].carrier == groups@[place as int].carrier@);
        }
        lemma_carrier_index(before, record.by@, place as int);
    }
    if place == groups.len() {
        let mut loads: Vec<NumberedLoad> = Vec::new();
        assert(loads.deep_view() =~= Seq::empty());
        add_to_loads(&mut loads, record, fact);
        groups.push(CarrierGroup { carrier: record.by.clone(), loads, sequence: Vec::new() });
        assert(groups.deep_view() =~= groups_with(
            before,
            record@,
            fact.price as int,
            fact.license_plate@,
        ));
    } else {
        add_to_loads(&mut groups[place].loads, record, fact);
        assert(groups.deep_view() =~= groups_with(
            before,
            record@,
            fact.price as int,
            fact.license_plate@,
        ));
    }
}

/// The warning for a record whose load has no commercial facts.
pub open spec fn missing_facts_warning(number: LoadNumber) -> Seq<char> {
    "No commercial facts for load "@ + decimal_text(number as nat)
}

/// The warning for a load whose totals do not fit the fields' ranges.
pub open spec fn limits_warning(number: LoadNumber) -> Seq<char> {
    "Totals out of range for load "@ + decimal_text(number as nat)
}

/// The warning for a load whose first invoice number is no number.
pub open spec fn key_warning(number: LoadNumber) -> Seq<char> {
    "No numeric invoice number to order load "@ + decimal_text(number as nat)
}

/// The records of all groups of `data`, group after group.
pub open spec fn all_records(data: Seq<(LoadNumber, Seq<DataView>)>) -> Seq<DataView>
    decreases data.len(),
{
    if data.len() == 0 {
        Seq::empty()
    } else {
        all_records(data.drop_last()) + data.last().1
    }
}

/// The groups that the records `records` build, and the warnings for the
/// records that were passed over. A record whose load has commercial facts
/// adds its delivery; one whose load has none leaves a warning.
pub open spec fn joined_records(
    records: Seq<DataView>,
    facts: Map<LoadNumber, (i64, Seq<char>)>,
) -> (Seq<CarrierGroupView>, Seq<Seq<char>>)
    decreases records.len(),
{
    if records.len() == 0 {
        (Seq::empty(), Seq::empty())
    } else {
        let before = joined_records(records.drop_last(), facts);
        let record = records.last();
        if facts.contains_key(record.load_number) {
            let fact = facts[record.load_number];
            (groups_with(before.0, record, fact.0 as int, fact.1), before.1)
        } else {
            (before.0, before.1.push(missing_facts_warning(record.load_number)))
        }
    }
}

/// A load brought up to date where that can be done within the fields'
/// ranges, and left as it is otherwise.
pub open spec fn brought_up(entry: NumberedLoadView) -> NumberedLoadView {
    if can_update(entry.load) {
        NumberedLoadView { load: updated(entry.load), ..entry }
    } else {
        entry
    }
}

/// The loads `loads`, each brought up to date where that can be done.
pub open spec fn loads_brought_up(loads: Seq<NumberedLoadView>) -> Seq<NumberedLoadView> {
    Seq::new(loads.len(), |i: int| brought_up(loads[i]))
}

/// The warnings for the loads of `loads` that cannot be brought up to date.
pub open spec fn limits_warnings(loads: Seq<NumberedLoadView>) -> Seq<Seq<char>>
    decreases loads.len(),
{
    if loads.len() == 0 {
        Seq::empty()
    } else if can_update(loads.last().load) {
        limits_warnings(loads.drop_last())
    } else {
        limits_warnings(loads.drop_last()).push(limits_warning(loads.last().number))
    }
}

/// The key by which a load is ordered: the first invoice number of its first
/// delivery, if that is an unsigned number of 64 bits.
pub open spec fn sequence_key(load: LoadView) -> Option<u64> {
    if load.deliveries.len() > 0 && load.deliveries[0].danfe.len() > 0 {
        match unsigned_value(load.deliveries[0].danfe[0], u64::MAX as nat) {
            Some(key) => Some(key as u64),
            None => None,
        }
    } else {
        None
    }
}

/// The loads of `loads` that have a key, each as its key and number, in
/// their order.
pub open spec fn keyed_entries(loads: Seq<NumberedLoadView>) -> Seq<(u64, LoadNumber)>
    decreases loads.len(),
{
    if loads.len() == 0 {
        Seq::empty()
    } else {
        match sequence_key(loads.last().load) {
            Some(key) => keyed_entries(loads.drop_last()).push((key, loads.last().number)),
            None => keyed_entries(loads.drop_last()),
        }
    }
}

/// The warnings for the loads of `loads` that have no key.
pub open spec fn key_warnings(loads: Seq<NumberedLoadView>) -> Seq<Seq<char>>
    decreases loads.len(),
{
    if loads.len() == 0 {
        Seq::empty()
    } else if sequence_key(loads.last().load) is Some {
        key_warnings(loads.drop_last())
    } else {
        key_warnings(loads.drop_last()).push(key_warning(loads.last().number))
    }
}

/// The numbers of the loads that have a key, in ascending order of their
/// keys; of two loads with the same key, the one that stands first in
/// `loads` comes first.
pub open spec fn sequence_of(loads: Seq<NumberedLoadView>) -> Seq<LoadNumber> {
    loads_of(sequenced(keyed_entries(loads)))
}

/// A carrier's group with its loads brought up to date and put in sequence.
pub open spec fn finished_group(group: CarrierGroupView) -> CarrierGroupView {
    CarrierGroupView {
        loads: loads_brought_up(group.loads),
        sequence: sequence_of(loads_brought_up(group.loads)),
        ..group
    }
}

/// The warnings that finishing a group leaves: first those for loads out of
/// range, then those for loads without a key.
pub open spec fn group_warnings(group: CarrierGroupView) -> Seq<Seq<char>> {
    limits_warnings(group.loads) + key_warnings(loads_brought_up(group.loads))
}

/// The groups `groups`, each finished.
pub open spec fn finished_groups(groups: Seq<CarrierGroupView>) -> Seq<CarrierGroupView> {
    Seq::new(groups.len(), |i: int| finished_group(groups[i]))
}

/// The warnings that finishing the groups leaves, group after group.
pub open spec fn finishing_warnings(groups: Seq<CarrierGroupView>) -> Seq<Seq<char>>
    decreases groups.len(),
{
    if groups.len() == 0 {
        Seq::empty()
    } else {
        finishing_warnings(groups.drop_last()) + group_warnings(groups.last())
    }
}

/// The outcome of a run over the records `data` and the commercial facts
/// `facts`: the records are joined with the facts, then every group is
/// finished; the warnings of the join come before those of finishing.
pub open spec fn merged_packet(
    data: Seq<(LoadNumber, Seq<DataView>)>,
    facts: Map<LoadNumber, (i64, Seq<char>)>,
) -> PacketView {
    let built = joined_records(all_records(data), facts);
    PacketView { loads: finished_groups(built.0), errors: built.1 + finishing_warnings(built.0) }
}

/// The text `start` followed by the load number `number`.
fn numbered_warning(start: &str, number: LoadNumber) -> (text: String)
    ensures
        text@ == start@ + decimal_text(number as nat),
{
    let mut text = String::from_str(start);
    let digits = write_decimal(number as u64);
    text.append(digits.as_str());
    text
}

/// Joins the records with the commercial facts.
fn join_records(data: &MultipleData, email: &EmailData) -> (built: (Vec<CarrierGroup>, Vec<String>))
    ensures
        (built.0.deep_view(), built.1.deep_view()) == joined_records(
            all_records(data.deep_view()),
            facts_view(email@),
        ),
{
    broadcast use vstd::std_specs::hash::group_hash_axioms;

    let ghost facts = facts_view(email@);
    let mut groups: Vec<CarrierGroup> = Vec::new();
    let mut errors: Vec<String> = Vec::new();
    let mut i: usize = 0;
    assert(groups.deep_view() =~= Seq::empty());
    assert(errors.deep_view() =~= Seq::empty());
    assert(data.deep_view().take(0) =~= Seq::empty());
    while i < data.len()
        invariant
            i <= data.len(),
            facts == facts_view(email@),
            (groups.deep_view(), errors.deep_view()) == joined_records(
                all_records(data.deep_view().take(i as int)),
                facts,
            ),
        decreases data.len() - i,
    {
        let ghost done = all_records(data.deep_view().take(i as int));
        let ghost group = data.deep_view()[i as int].1;
        let mut j: usize = 0;
        assert(done + group.take(0) =~= done);
        assert(group == data@[i as int].records.deep_view());
        while j < data[i].records.len()
            invariant
                i < data.len(),
                j <= data[i as int].records.len(),
                facts == facts_view(email@),
                group == data@[i as int].records.deep_view(),
                (groups.deep_view(), errors.deep_view()) == joined_records(
                    done + group.take(j as int),
                    facts,
                ),
            decreases data[i as int].records.len() - j,
        {
            let record = &data[i].records[j];
            proof {
                let now = done + group.take(j + 1);
                assert(now.drop_last() =~= done + group.take(j as int));
                assert(now.last() == record@);
            }
            match email.get(&record.load_number) {
                Some(fact) => {
                    add_delivery(&mut groups, record, fact);
                },
                None => {
                    let ghost held = errors.deep_view();
                    let warning = numbered_warning("No commercial facts for load ", record.load_number);
                    errors.push(warning);
                    assert(errors.deep_view() =~= held.push(
                        missing_facts_warning(record.load_number),
                    ));
                },
            }
            j += 1;
        }
        proof {
            assert(group.take(j as int) =~= group);
            assert(data.deep_view().take(i + 1).drop_last() =~= data.deep_view().take(i as int));
            assert(data.deep_view().take(i + 1).last() == data.deep_view()[i as int]);
        }
        i += 1;
    }
    assert(data.deep_view().take(i as int) =~= data.deep_view());
    (groups, errors)
}

/// The key by which the load `load` is ordered.
fn sequence_key_of(load: &Load) -> (key: Option<u64>)
    ensures
        key == sequence_key(load@),
{
    if load.deliveries.len() == 0 {
        return None;
    }
    if load.deliveries[0].danfe.len() == 0 {
        return None;
    }
    assert(load@.deliveries[0].danfe[0] == load.deliveries@[0].danfe@[0]@);
    parse_unsigned(load.deliveries[0].danfe[0].as_str(), 0xffff_ffff_ffff_ffff)
}

/// Brings the loads of a carrier up to date, each where that can be done,
/// and leaves a warning for each of the others.
fn bring_up_loads(loads: &mut Vec<NumberedLoad>, errors: &mut Vec<String>)
    ensures
        final(loads).deep_view() == loads_brought_up(old(loads).deep_view()),
        final(errors).deep_view() == old(errors).deep_view() + limits_warnings(
            old(loads).deep_view(),
        ),
{
    let ghost before = loads.deep_view();
    let ghost start = errors.deep_view();
    let n = loads.len();
    let mut i: usize = 0;
    assert(before.take(0) =~= Seq::empty());
    assert(start + limits_warnings(before.take(0)) =~= start);
    while i < n
        invariant
            i <= n,
            n == loads.len(),
            n == before.len(),
            forall|k: int| 0 <= k < i ==> (#[trigger] loads@[k])@ == brought_up(before[k]),
            forall|k: int| i <= k < n ==> (#[trigger] loads@[k])@ == before[k],
            errors.deep_view() == start + limits_warnings(before.take(i as int)),
        decreases n - i,
    {
        let number = loads[i].number;
        let done = loads[i].load.try_update_load_delivery_data();
        proof {
            assert(before.take(i + 1).drop_last() =~= before.take(i as int));
            assert(before.take(i + 1).last() == before[i as int]);
        }
        if !done {
            let ghost held = errors.deep_view();
            let warning = numbered_warning("Totals out of range for load ", number);
            errors.push(warning);
            assert(errors.deep_view() =~= held.push(limits_warning(number)));
            assert(errors.deep_view() =~= start + limits_warnings(before.take(i + 1)));
        }
        i += 1;
    }
    assert(before.take(n as int) =~= before);
    assert(loads.deep_view() =~= loads_brought_up(before));
}

/// The numbers of the loads that have a key, in ascending order of their
/// keys; each load without a key leaves a warning.
fn sequence_loads(loads: &Vec<NumberedLoad>, errors: &mut Vec<String>) -> (sequence: Vec<LoadNumber>)
    ensures
        sequence@ == sequence_of(loads.deep_view()),
        final(errors).deep_view() == old(errors).deep_view() + key_warnings(loads.deep_view()),
{
    let ghost all = loads.deep_view();
    let ghost start = errors.deep_view();
    let mut list = SequenceList::new();
    let mut i: usize = 0;
    assert(all.take(0) =~= Seq::empty());
    assert(start + key_warnings(all.take(0)) =~= start);
    while i < loads.len()
        invariant
            i <= loads.len(),
            all == loads.deep_view(),
            list.wf(),
            list@ == sequenced(keyed_entries(all.take(i as int))),
            errors.deep_view() == start + key_warnings(all.take(i as int)),
        decreases loads.len() - i,
    {
        let number = loads[i].number;
        proof {
            assert(all.take(i + 1).drop_last() =~= all.take(i as int));
            assert(all.take(i + 1).last() == all[i as int]);
            assert(all[i as int] == loads@[i as int]@);
        }
        match sequence_key_of(&loads[i].load) {
            Some(key) => {
                let ghost entries = keyed_entries(all.take(i as int));
                list.insert(key, number);
                assert(entries.push((key, number)).drop_last() =~= entries);
            },
            None => {
                let ghost held = errors.deep_view();
                let warning = numbered_warning("No numeric invoice number to order load ", number);
                errors.push(warning);
                assert(errors.deep_view() =~= held.push(key_warning(number)));
                assert(errors.deep_view() =~= start + key_warnings(all.take(i + 1)));
            },
        }
        i += 1;
    }
    assert(all.take(i as int) =~= all);
    list.loads()
}

/// Finishes a carrier's group: brings its loads up to date and puts them in
/// sequence.
pub fn finish_group(group: &mut CarrierGroup, errors: &mut Vec<String>)
    ensures
        final(group)@ == finished_group(old(group)@),
        final(errors).deep_view() == old(errors).deep_view() + group_warnings(old(group)@),
{
    let ghost start = errors.deep_view();
    let ghost before = group@;
    bring_up_loads(&mut group.loads, errors);
    let sequence = sequence_loads(&group.loads, errors);
    group.sequence = sequence;
    assert(errors.deep_view() =~= start + group_warnings(before));
}

/// Builds the outcome of a run from the records of the documents and the
/// commercial facts of the loads.
pub fn merge_data(data: &MultipleData, email: &EmailData) -> (packet: Packet)
    ensures
        packet@ == merged_packet(data.deep_view(), facts_view(email@)),
{
    let (mut groups, mut errors) = join_records(data, email);
    let ghost built = groups.deep_view();
    let ghost start = errors.deep_view();
    let n = groups.len();
    let mut i: usize = 0;
    assert(built.take(0) =~= Seq::empty());
    assert(start + finishing_warnings(built.take(0)) =~= start);
    while i < n
        invariant
            i <= n,
            n == groups.len(),
            n == built.len(),
            forall|k: int| 0 <= k < i ==> (#[trigger] groups@[k])@ == finished_group(built[k]),
            forall|k: int| i <= k < n ==> (#[trigger] groups@[k])@ == built[k],
            errors.deep_view() == start + finishing_warnings(built.take(i as int)),
        decreases n - i,
    {
        let ghost held = errors.deep_view();
        finish_group(&mut groups[i], &mut errors);
        proof {
            assert(built.take(i + 1).drop_last() =~= built.take(i as int));
            assert(built.take(i + 1).last() == built[i as int]);
            assert(errors.deep_view() =~= start + finishing_warnings(built.take(i + 1)));
        }
        i += 1;
    }
    assert(built.take(n as int) =~= built);
    assert(groups.deep_view() =~= finished_groups(built));
    Packet { loads: groups, errors }
}

/// Whether no two groups belong to the same carrier.
pub open spec fn distinct_carriers(groups: Seq<CarrierGroupView>) -> bool {
    forall|a: int, b: int| 0 <= a < b < groups.len() ==> groups[a].carrier != groups[b].carrier
}

/// Whether no two loads have the same number.
pub open spec fn distinct_numbers(loads: Seq<NumberedLoadView>) -> bool {
    forall|a: int, b: int| 0 <= a < b < loads.len() ==> loads[a].number != loads[b].number
}

/// Whether every carrier has one group and, within it, every load number
/// one load.
pub open spec fn well_grouped(groups: Seq<CarrierGroupView>) -> bool {
    &&& distinct_carriers(groups)
    &&& forall|g: int| 0 <= g < groups.len() ==> distinct_numbers(#[trigger] groups[g].loads)
}

/// The place of a carrier's group lies within the list, no group before it
/// belongs to the carrier, and the group at it does unless it is the end.
pub proof fn lemma_carrier_index_bounds(groups: Seq<CarrierGroupView>, carrier: Seq<char>)
    ensures
        0 <= carrier_index(groups, carrier) <= groups.len(),
        forall|q: int|
            0 <= q < carrier_index(groups, carrier) ==> (#[trigger] groups[q]).carrier != carrier,
        carrier_index(groups, carrier) < groups.len() ==> groups[carrier_index(
            groups,
            carrier,
        )].carrier == carrier,
    decreases groups.len(),
{
    if groups.len() > 0 && groups[0].carrier != carrier {
        let rest = groups.drop_first();
        lemma_carrier_index_bounds(rest, carrier);
        let place = carrier_index(groups, carrier);
        assert forall|q: int| 0 <= q < place implies (#[trigger] groups[q]).carrier != carrier by {
            if q > 0 {
                assert(rest[q - 1].carrier != carrier);
            }
        }
        if place < groups.len() {
            assert(rest[place - 1] == groups[place]);
        }
    }
}

/// The place of a load lies within the list, no load before it has the
/// number, and the load at it does unless it is the end.
pub proof fn lemma_load_index_bounds(loads: Seq<NumberedLoadView>, number: LoadNumber)
    ensures
        0 <= load_index(loads, number) <= loads.len(),
        forall|q: int| 0 <= q < load_index(loads, number) ==> (#[trigger] loads[q]).number != number,
        load_index(loads, number) < loads.len() ==> loads[load_index(loads, number)].number
            == number,
    decreases loads.len(),
{
    if loads.len() > 0 && loads[0].number != number {
        let rest = loads.drop_first();
        lemma_load_index_bounds(rest, number);
        let place = load_index(loads, number);
        assert forall|q: int| 0 <= q < place implies (#[trigger] loads[q]).number != number by {
            if q > 0 {
                assert(rest[q - 1].number != number);
            }
        }
        if place < loads.len() {
            assert(rest[place - 1] == loads[place]);
        }
    }
}

/// One more delivery keeps the loads of a carrier one to a number.
pub proof fn lemma_loads_with_distinct(
    loads: Seq<NumberedLoadView>,
    record: DataView,
    price: int,
    plate: Seq<char>,
)
    requires
        distinct_numbers(loads),
    ensures
        distinct_numbers(loads_with(loads, record, price, plate)),
{
    lemma_load_index_bounds(loads, record.load_number);
    let after = loads_with(loads, record, price, plate);
    let place = load_index(loads, record.load_number);
    assert forall|a: int, b: int| 0 <= a < b < after.len() implies after[a].number
        != after[b].number by {
        if place == loads.len() {
            if b == place {
                assert(loads[a].number != record.load_number);
            } else {
                assert(loads[a].number != loads[b].number);
            }
        } else {
            assert(loads[a].number != loads[b].number);
        }
    }
}

/// One more delivery keeps the groups one to a carrier and their loads one
/// to a number.
pub proof fn lemma_groups_with_well_grouped(
    groups: Seq<CarrierGroupView>,
    record: DataView,
    price: int,
    plate: Seq<char>,
)
    requires
        well_grouped(groups),
    ensures
        well_grouped(groups_with(groups, record, price, plate)),
{
    lemma_carrier_index_bounds(groups, record.by);
    let after = groups_with(groups, record, price, plate);
    let place = carrier_index(groups, record.by);
    if place == groups.len() {
        assert(distinct_numbers(Seq::<NumberedLoadView>::empty()));
        lemma_loads_with_distinct(Seq::empty(), record, price, plate);
    } else {
        assert(distinct_numbers(groups[place].loads));
        lemma_loads_with_distinct(groups[place].loads, record, price, plate);
    }
    assert forall|a: int, b: int| 0 <= a < b < after.len() implies after[a].carrier
        != after[b].carrier by {
        if place == groups.len() {
            if b == place {
                assert(groups[a].carrier != record.by);
            } else {
                assert(groups[a].carrier != groups[b].carrier);
            }
        } else {
            assert(groups[a].carrier != groups[b].carrier);
        }
    }
    assert forall|g: int| 0 <= g < after.len() implies distinct_numbers(
        #[trigger] after[g].loads,
    ) by {
        if g != place {
            assert(distinct_numbers(groups[g].loads));
        }
    }
}

/// Joining records with facts gives one group to a carrier and, within it,
/// one load to a number.
pub proof fn lemma_joined_records_well_grouped(
    records: Seq<DataView>,
    facts: Map<LoadNumber, (i64, Seq<char>)>,
)
    ensures
        well_grouped(joined_records(records, facts).0),
    decreases records.len(),
{
    if records.len() > 0 {
        lemma_joined_records_well_grouped(records.drop_last(), facts);
        let before = joined_records(records.drop_last(), facts);
        let record = records.last();
        if facts.contains_key(record.load_number) {
            let fact = facts[record.load_number];
            lemma_groups_with_well_grouped(before.0, record, fact.0 as int, fact.1);
        }
    }
}

/// The outcome of a run has one group to a carrier and, within each group,
/// one load to a number.
pub proof fn lemma_merged_packet_well_grouped(
    data: Seq<(LoadNumber, Seq<DataView>)>,
    facts: Map<LoadNumber, (i64, Seq<char>)>,
)
    ensures
        well_grouped(merged_packet(data, facts).loads),
{
    let built = joined_records(all_records(data), facts).0;
    let done = merged_packet(data, facts).loads;
    lemma_joined_records_well_grouped(all_records(data), facts);
    assert forall|a: int, b: int| 0 <= a < b < done.len() implies done[a].carrier
        != done[b].carrier by {
        assert(built[a].carrier != built[b].carrier);
    }
    assert forall|g: int| 0 <= g < done.len() implies distinct_numbers(#[trigger] done[g].loads) by {
        assert(distinct_numbers(built[g].loads));
        let before = built[g].loads;
        let after = done[g].loads;
        assert forall|a: int, b: int| 0 <= a < b < after.len() implies after[a].number
            != after[b].number by {
            assert(before[a].number != before[b].number);
        }
    }
}

/// Whether every delivery of the load has the price zero.
pub open spec fn unpriced(load: LoadView) -> bool {
    forall|d: int| 0 <= d < load.deliveries.len() ==> (#[trigger] load.deliveries[d]).price == 0
}

/// Whether every delivery of every load of every group has the price zero.
pub open spec fn all_unpriced(groups: Seq<CarrierGroupView>) -> bool {
    forall|g: int, l: int|
        0 <= g < groups.len() && 0 <= l < groups[g].loads.len() ==> unpriced(
            #[trigger] groups[g].loads[l].load,
        )
}

/// One more delivery keeps the loads of a carrier without prices.
proof fn lemma_loads_with_unpriced(
    loads: Seq<NumberedLoadView>,
    record: DataView,
    price: int,
    plate: Seq<char>,
)
    requires
        forall|l: int| 0 <= l < loads.len() ==> unpriced(#[trigger] loads[l].load),
    ensures
        forall|l: int|
            0 <= l < loads_with(loads, record, price, plate).len() ==> unpriced(
                #[trigger] loads_with(loads, record, price, plate)[l].load,
            ),
{
    lemma_load_index_bounds(loads, record.load_number);
    let after = loads_with(loads, record, price, plate);
    let place = load_index(loads, record.load_number);
    assert forall|l: int| 0 <= l < after.len() implies unpriced(#[trigger] after[l].load) by {
        if l == place {
            if place < loads.len() {
                assert(unpriced(loads[place].load));
                let held = loads[place].load.deliveries;
                let now = after[l].load.deliveries;
                assert forall|d: int| 0 <= d < now.len() implies (#[trigger] now[d]).price == 0 by {
                    if d < held.len() {
                        assert(held[d].price == 0);
                    }
                }
            }
        } else {
            assert(unpriced(loads[l].load));
        }
    }
}

/// Joining records with facts sets no price: every delivery has the price
/// zero until its load is brought up to date.
pub proof fn lemma_joined_records_unpriced(records: Seq<DataView>, facts: Map<LoadNumber, (i64, Seq<char>)>)
    ensures
        all_unpriced(joined_records(records, facts).0),
    decreases records.len(),
{
    if records.len() > 0 {
        lemma_joined_records_unpriced(records.drop_last(), facts);
        let before = joined_records(records.drop_last(), facts).0;
        let record = records.last();
        if facts.contains_key(record.load_number) {
            let fact = facts[record.load_number];
            let price = fact.0 as int;
            let plate = fact.1;
            lemma_carrier_index_bounds(before, record.by);
            let place = carrier_index(before, record.by);
            let after = groups_with(before, record, price, plate);
            if place == before.len() {
                lemma_loads_with_unpriced(Seq::empty(), record, price, plate);
            } else {
                assert forall|l: int| 0 <= l < before[place].loads.len() implies unpriced(
                    #[trigger] before[place].loads[l].load,
                ) by {}
                lemma_loads_with_unpriced(before[place].loads, record, price, plate);
            }
            assert forall|g: int, l: int|
                0 <= g < after.len() && 0 <= l < after[g].loads.len() implies unpriced(
                #[trigger] after[g].loads[l].load,
            ) by {
                if g != place {
                    assert(unpriced(before[g].loads[l].load));
                }
            }
        }
    }
}

/// Joining deliveries without prices gives a delivery without a price.
proof fn lemma_merged_unpriced(deliveries: Seq<DeliveryView>, to: Seq<char>)
    requires
        forall|d: int| 0 <= d < deliveries.len() ==> (#[trigger] deliveries[d]).price == 0,
    ensures
        merged(deliveries, to).price == 0,
    decreases deliveries.len(),
{
    if deliveries.len() > 0 {
        let rest = deliveries.drop_last();
        assert forall|d: int| 0 <= d < rest.len() implies (#[trigger] rest[d]).price == 0 by {
            assert(deliveries[d].price == 0);
        }
        lemma_merged_unpriced(rest, to);
        assert(deliveries[deliveries.len() - 1].price == 0);
    }
}

/// Merging deliveries without prices gives deliveries without prices.
proof fn lemma_merged_firsts_unpriced(deliveries: Seq<DeliveryView>, count: int)
    requires
        0 <= count <= deliveries.len(),
        forall|d: int| 0 <= d < deliveries.len() ==> (#[trigger] deliveries[d]).price == 0,
    ensures
        forall|k: int|
            0 <= k < merged_firsts(deliveries, count).len() ==> (#[trigger] merged_firsts(
                deliveries,
                count,
            )[k]).price == 0,
    decreases count,
{
    if count > 0 {
        lemma_merged_firsts_unpriced(deliveries, count - 1);
        lemma_merged_unpriced(deliveries, deliveries[count - 1].to);
        let before = merged_firsts(deliveries, count - 1);
        let now = merged_firsts(deliveries, count);
        assert forall|k: int| 0 <= k < now.len() implies (#[trigger] now[k]).price == 0 by {
            if k < before.len() {
                assert(before[k].price == 0);
                assert(now[k] == before[k]);
            }
        }
    }
}

/// A load without volume whose deliveries have no prices has none after it
/// was brought up to date either.
pub proof fn lemma_no_volume_no_price(load: LoadView)
    requires
        volume_sum(load.deliveries) == 0,
        unpriced(load),
    ensures
        unpriced(updated(load)),
{
    lemma_merged_firsts_unpriced(load.deliveries, load.deliveries.len() as int);
}

/// In the outcome of a run every load with the total volume zero has the
/// price zero on each of its deliveries.
pub proof fn lemma_merged_packet_no_volume_no_price(
    data: Seq<(LoadNumber, Seq<DataView>)>,
    facts: Map<LoadNumber, (i64, Seq<char>)>,
    group: int,
    place: int,
)
    requires
        0 <= group < merged_packet(data, facts).loads.len(),
        0 <= place < merged_packet(data, facts).loads[group].loads.len(),
        merged_packet(data, facts).loads[group].loads[place].load.total_cubicage == 0,
    ensures
        unpriced(merged_packet(data, facts).loads[group].loads[place].load),
{
    let built = joined_records(all_records(data), facts).0;
    lemma_joined_records_unpriced(all_records(data), facts);
    let before = built[group].loads[place];
    assert(unpriced(before.load));
    assert(merged_packet(data, facts).loads[group].loads[place] == brought_up(before));
    if can_update(before.load) {
        lemma_no_volume_no_price(before.load);
    }
}

/// What the search for commercial facts finds in the text of a dispatch
/// e-mail, read as facts: the text is put into lower case and searched for
/// the e-mail pattern.
pub open spec fn mail_facts(text: Seq<char>) -> Result<
    Map<LoadNumber, (i64, Seq<char>)>,
    crate::data::parsing::Fault,
> {
    facts_of(all_captured(email_pattern(), lowercased(text)))
}

/// The outcome of a run over the documents `files` and the commercial facts
/// `facts`, where every document gives a record: the records are grouped,
/// joined with the facts and finished; the warnings of the documents come
/// first, in the order of the documents, then those of the join, then those
/// of finishing.
pub open spec fn run_packet(files: Seq<Seq<u8>>, facts: Map<LoadNumber, (i64, Seq<char>)>) -> PacketView {
    let outcomes = outcomes_of(files);
    let merged = merged_packet(grouped(records_of(outcomes)), facts);
    PacketView { loads: merged.loads, errors: warnings_of(outcomes) + merged.errors }
}

/// One run, from the bytes of the documents and the text of the dispatch
/// e-mail to the packet.
///
/// The e-mail is read first, then the documents in their order, and the run
/// is given up with the error of the first of these that fails: the search
/// refuses the e-mail pattern, a match in the e-mail gives no facts, or a
/// document gives no record. Otherwise the records are merged with the
/// facts, and the packet holds every warning of the run.
pub fn merge_documents(files: &Vec<Vec<u8>>, text: &String) -> (packet: Result<Packet, ParseErrors>)
    ensures
        packet is Ok == (pattern_compiles(email_pattern()) && mail_facts(text@) is Ok && all_parse(
            files.deep_view(),
        )),
        packet matches Ok(found) ==> found@ == run_packet(
            files.deep_view(),
            mail_facts(text@)->Ok_0,
        ),
        packet matches Err(error) ==> (if !pattern_compiles(email_pattern()) {
            error is PatternError
        } else if mail_facts(text@) is Err {
            reports(error, mail_facts(text@)->Err_0)
        } else {
            exists|place: int| first_failure(files.deep_view(), place, error)
        }),
{
    let email_data = match parse_email(text) {
        Ok(data) => data,
        Err(error) => {
            return Err(error);
        },
    };
    let (records, mut warnings) = match parse_multiple(files) {
        Ok(batch) => batch,
        Err(error) => {
            return Err(error);
        },
    };
    let mut packet = merge_data(&records, &email_data);
    let ghost first = warnings.deep_view();
    let ghost second = packet.errors.deep_view();
    warnings.append(&mut packet.errors);
    assert(warnings.deep_view() =~= first + second);
    packet.errors = warnings;
    Ok(packet)
}

} // verus!
