use std::collections::HashMap;

use rateio::data::parsing::{parse_email, parse_multiple};
use rateio::merge::{add_delivery, finish_group, merge_data, merge_documents};
use rateio::types::ParseErrors;
use rateio::types::{CarrierGroup, Data, EmailLoadData, LoadRecords, Packet};

fn record(danfe: &str, to: &str, by: &str, quantity: u16, load_number: u32, cubicage: u64) -> Data {
    Data {
        danfe: danfe.to_string(),
        to: to.to_string(),
        by: by.to_string(),
        quantity,
        load_number,
        cubicage,
        key: format!("key-{}", danfe),
    }
}

fn fact(price: i64, plate: &str) -> EmailLoadData {
    EmailLoadData { price, license_plate: plate.to_string() }
}

fn groups_of(records: Vec<Data>) -> Vec<LoadRecords> {
    let mut groups: Vec<LoadRecords> = Vec::new();
    for data in records {
        match groups.iter_mut().find(|group| group.load_number == data.load_number) {
            Some(group) => group.records.push(data),
            None => groups.push(LoadRecords { load_number: data.load_number, records: vec![data] }),
        }
    }
    groups
}

fn carrier<'a>(packet: &'a Packet, name: &str) -> &'a CarrierGroup {
    packet.loads.iter().find(|group| group.carrier == name).unwrap()
}

#[test]
fn records_and_facts_are_merged() {
    let data = groups_of(vec![
        record("300", "ana", "fast", 1, 100001, 360),
        record("100", "bob", "fast", 2, 100002, 500),
        record("301", "bia", "fast", 3, 100001, 840),
        record("200", "cid", "slow", 4, 100003, 100),
        record("302", "ana", "fast", 5, 100001, 1080),
    ]);
    let mut email = HashMap::new();
    email.insert(100001, fact(10000, "aaa1111"));
    email.insert(100002, fact(5000, "bbb2222"));
    email.insert(100003, fact(700, "ccc3333"));

    let packet = merge_data(&data, &email);
    assert_eq!(packet.errors, Vec::<String>::new());
    let names: Vec<&str> = packet.loads.iter().map(|group| group.carrier.as_str()).collect();
    assert_eq!(names, vec!["fast", "slow"]);

    let fast = carrier(&packet, "fast");
    let numbers: Vec<u32> = fast.loads.iter().map(|entry| entry.number).collect();
    assert_eq!(numbers, vec![100001, 100002]);
    assert_eq!(fast.sequence, vec![100002, 100001]);

    let first = &fast.loads[0].load;
    assert_eq!(first.license_plate, "aaa1111");
    assert_eq!(first.total_price, 10000);
    assert_eq!(first.total_cubicage, 2280);
    assert_eq!(first.deliveries.len(), 2);
    assert_eq!(first.deliveries[0].to, "ana");
    assert_eq!(first.deliveries[0].price, 1579 + 4737);
    assert_eq!(first.deliveries[0].quantity, 6);
    assert_eq!(first.deliveries[0].cubicage, 1440);
    assert_eq!(first.deliveries[0].danfe, vec!["300", "302"]);
    assert_eq!(first.deliveries[0].key, vec!["key-300", "key-302"]);
    assert_eq!(first.deliveries[1].to, "bia");
    assert_eq!(first.deliveries[1].price, 3684);
    assert_eq!(first.deliveries.iter().map(|d| d.price).sum::<i64>(), first.total_price);

    let second = &fast.loads[1].load;
    assert_eq!(second.deliveries.len(), 1);
    assert_eq!(second.deliveries[0].price, 5000);
    assert_eq!(second.total_cubicage, 500);

    let slow = carrier(&packet, "slow");
    assert_eq!(slow.sequence, vec![100003]);
    assert_eq!(slow.loads[0].load.deliveries[0].price, 700);
    assert_eq!(slow.loads[0].load.license_plate, "ccc3333");
}

#[test]
fn record_without_facts_is_passed_over_with_a_warning() {
    let data = groups_of(vec![
        record("1", "ana", "fast", 1, 100001, 10),
        record("2", "bob", "fast", 1, 555, 10),
        record("3", "cid", "fast", 1, 100001, 10),
    ]);
    let mut email = HashMap::new();
    email.insert(100001, fact(100, "aaa1111"));
    let packet = merge_data(&data, &email);
    assert_eq!(packet.errors, vec!["No commercial facts for load 555"]);
    assert_eq!(packet.loads.len(), 1);
    assert_eq!(packet.loads[0].loads.len(), 1);
    assert_eq!(packet.loads[0].loads[0].load.deliveries.len(), 2);
}

#[test]
fn nothing_in_gives_nothing_out() {
    let packet = merge_data(&Vec::new(), &HashMap::new());
    assert_eq!(packet.loads.len(), 0);
    assert_eq!(packet.errors.len(), 0);
    let empty = Packet::default();
    assert_eq!(empty.loads.len(), 0);
    assert_eq!(empty.errors.len(), 0);
}

#[test]
fn same_load_number_under_two_carriers_gives_two_loads() {
    let data = groups_of(vec![
        record("1", "ana", "fast", 1, 100001, 10),
        record("2", "bob", "slow", 1, 100001, 30),
    ]);
    let mut email = HashMap::new();
    email.insert(100001, fact(100, "aaa1111"));
    let packet = merge_data(&data, &email);
    assert_eq!(packet.loads.len(), 2);
    assert_eq!(carrier(&packet, "fast").loads[0].load.deliveries[0].price, 100);
    assert_eq!(carrier(&packet, "slow").loads[0].load.deliveries[0].price, 100);
}

#[test]
fn load_without_volume_keeps_zero_prices() {
    let data = groups_of(vec![
        record("1", "ana", "fast", 1, 100001, 0),
        record("2", "bob", "fast", 1, 100001, 0),
    ]);
    let mut email = HashMap::new();
    email.insert(100001, fact(100, "aaa1111"));
    let packet = merge_data(&data, &email);
    let load = &packet.loads[0].loads[0].load;
    assert_eq!(load.total_cubicage, 0);
    assert_eq!(load.deliveries.iter().map(|d| d.price).collect::<Vec<_>>(), vec![0, 0]);
    assert_eq!(packet.errors.len(), 0);
}

#[test]
fn load_without_numeric_invoice_is_left_out_of_the_sequence() {
    let data = groups_of(vec![
        record("20", "ana", "fast", 1, 100001, 10),
        record("x1", "bob", "fast", 1, 100002, 10),
        record("10", "cid", "fast", 1, 100003, 10),
        record("", "dan", "fast", 1, 100004, 10),
    ]);
    let mut email = HashMap::new();
    for number in [100001, 100002, 100003, 100004] {
        email.insert(number, fact(100, "aaa1111"));
    }
    let packet = merge_data(&data, &email);
    let fast = carrier(&packet, "fast");
    assert_eq!(fast.sequence, vec![100003, 100001]);
    assert_eq!(fast.loads.len(), 4);
    assert_eq!(fast.loads[1].load.deliveries[0].price, 100);
    assert_eq!(
        packet.errors,
        vec![
            "No numeric invoice number to order load 100002",
            "No numeric invoice number to order load 100004",
        ]
    );
}

#[test]
fn loads_with_one_key_stand_in_order_of_arrival() {
    let data = groups_of(vec![
        record("7", "ana", "fast", 1, 3, 10),
        record("7", "bob", "fast", 1, 1, 10),
        record("5", "cid", "fast", 1, 2, 10),
    ]);
    let mut email = HashMap::new();
    for number in [1, 2, 3] {
        email.insert(number, fact(100, "aaa1111"));
    }
    let packet = merge_data(&data, &email);
    assert_eq!(carrier(&packet, "fast").sequence, vec![2, 3, 1]);
}

#[test]
fn load_out_of_range_is_left_as_it_is_with_a_warning() {
    let data = groups_of(vec![
        record("1", "ana", "fast", 40000, 100001, 10),
        record("2", "ana", "fast", 40000, 100001, 10),
        record("3", "bob", "fast", 1, 100002, 10),
    ]);
    let mut email = HashMap::new();
    email.insert(100001, fact(100, "aaa1111"));
    email.insert(100002, fact(200, "bbb2222"));
    let packet = merge_data(&data, &email);
    assert_eq!(packet.errors, vec!["Totals out of range for load 100001"]);
    let fast = carrier(&packet, "fast");
    assert_eq!(fast.loads[0].load.deliveries.len(), 2);
    assert_eq!(fast.loads[0].load.deliveries[0].price, 0);
    assert_eq!(fast.loads[0].load.total_cubicage, 0);
    assert_eq!(fast.loads[1].load.deliveries[0].price, 200);
    assert_eq!(fast.sequence, vec![100001, 100002]);
}

#[test]
fn deliveries_are_added_to_groups_one_by_one() {
    let mut groups: Vec<CarrierGroup> = Vec::new();
    add_delivery(&mut groups, &record("1", "ana", "fast", 1, 9, 10), &fact(100, "aaa1111"));
    add_delivery(&mut groups, &record("2", "bob", "slow", 2, 9, 20), &fact(100, "aaa1111"));
    add_delivery(&mut groups, &record("3", "cid", "fast", 3, 8, 30), &fact(300, "ccc3333"));
    add_delivery(&mut groups, &record("4", "dan", "fast", 4, 9, 40), &fact(999, "zzz9999"));
    assert_eq!(groups.len(), 2);
    assert_eq!(groups[0].carrier, "fast");
    assert_eq!(groups[0].loads.len(), 2);
    assert_eq!(groups[0].loads[0].number, 9);
    assert_eq!(groups[0].loads[0].load.total_price, 100);
    assert_eq!(groups[0].loads[0].load.license_plate, "aaa1111");
    assert_eq!(groups[0].loads[0].load.deliveries.len(), 2);
    assert_eq!(groups[0].loads[0].load.deliveries[1].to, "dan");
    assert_eq!(groups[0].loads[0].load.deliveries[1].price, 0);
    assert_eq!(groups[0].loads[1].number, 8);
    assert_eq!(groups[1].carrier, "slow");
    assert_eq!(groups[1].sequence, Vec::<u32>::new());

    let mut errors = vec!["kept".to_string()];
    finish_group(&mut groups[0], &mut errors);
    assert_eq!(errors, vec!["kept"]);
    assert_eq!(groups[0].sequence, vec![9, 8]);
    assert_eq!(groups[0].loads[0].load.total_cubicage, 50);
    assert_eq!(groups[0].loads[0].load.deliveries[0].price, 20);
    assert_eq!(groups[0].loads[0].load.deliveries[1].price, 80);
}

#[test]
fn documents_and_email_give_the_packet() {
    let files: Vec<Vec<u8>> = [
        ("300", "ana", "fast", "1", "carga 100001 cubicagem 0,36 m3"),
        ("301", "bia", "fast", "1", "carga 100001 cubicagem 0,84 m3"),
        ("302", "cid", "fast", "1", "carga 100001 cubicagem 1,08 m3"),
    ]
    .iter()
    .map(|(danfe, to, by, quantity, info)| {
        format!(
            "<nfe><dest><xNome>{}</xNome></dest><transporta><xNome>{}</xNome></transporta><qVol>{}</qVol><nFat>{}</nFat><infCpl>{}</infCpl><chNFe>k{}</chNFe></nfe>",
            to, by, quantity, danfe, info, danfe
        )
        .into_bytes()
    })
    .collect();
    let (data, warnings) = parse_multiple(&files).unwrap();
    assert_eq!(warnings.len(), 0);
    let email = parse_email(&"Carga: 100001 Placa: abc-1234 Frete: 0.100,00".to_string()).unwrap();
    let packet = merge_data(&data, &email);
    assert_eq!(packet.errors.len(), 0);
    let load = &packet.loads[0].loads[0].load;
    assert_eq!(load.license_plate, "abc-1234");
    assert_eq!(load.total_price, 10000);
    assert_eq!(load.deliveries.iter().map(|d| d.price).collect::<Vec<_>>(), vec![1579, 3684, 4737]);
    assert_eq!(packet.loads[0].sequence, vec![100001]);
}

fn xml(danfe: &str, to: &str, by: &str, quantity: &str, info: &str) -> Vec<u8> {
    format!(
        "<nfe><dest><xNome>{}</xNome></dest><transporta><xNome>{}</xNome></transporta><qVol>{}</qVol><nFat>{}</nFat><infCpl>{}</infCpl><chNFe>k{}</chNFe></nfe>",
        to, by, quantity, danfe, info, danfe
    )
    .into_bytes()
}

#[test]
fn whole_run_gives_the_packet_with_every_warning() {
    let files = vec![
        xml("20", "ana", "fast", "1", "carga 100001 cubicagem 1,0 m3"),
        xml("x", "bob", "fast", "many", "carga 100002 cubicagem 1,0 m3"),
        xml("10", "cid", "fast", "1", "carga 555 cubicagem 1,0 m3"),
        xml("11", "dan", "slow", "1", "carga 100001"),
    ];
    let text = "Carga 100001 placa abc1234 frete 1.000,00 carga 100002 placa xyz9876 frete 2.000,00";
    let packet = merge_documents(&files, &text.to_string()).unwrap();
    assert_eq!(
        packet.errors,
        vec![
            "Failed on parse quantity : many",
            "No matches for cubicage",
            "No commercial facts for load 555",
            "No numeric invoice number to order load 100002",
        ]
    );
    let names: Vec<&str> = packet.loads.iter().map(|group| group.carrier.as_str()).collect();
    assert_eq!(names, vec!["fast", "slow"]);
    let fast = &packet.loads[0];
    assert_eq!(fast.loads.iter().map(|entry| entry.number).collect::<Vec<_>>(), vec![100001, 100002]);
    assert_eq!(fast.sequence, vec![100001]);
    assert_eq!(fast.loads[0].load.deliveries[0].price, 100000);
    assert_eq!(fast.loads[0].load.license_plate, "abc1234");
    assert_eq!(fast.loads[1].load.deliveries[0].price, 200000);
    let slow = &packet.loads[1];
    assert_eq!(slow.loads[0].number, 100001);
    assert_eq!(slow.loads[0].load.total_cubicage, 0);
    assert_eq!(slow.loads[0].load.deliveries[0].price, 0);
    assert_eq!(slow.sequence, vec![100001]);
}

#[test]
fn whole_run_without_documents_or_facts() {
    let packet = merge_documents(&Vec::new(), &String::new()).unwrap();
    assert_eq!(packet.loads.len(), 0);
    assert_eq!(packet.errors.len(), 0);

    let files = vec![xml("20", "ana", "fast", "1", "carga 100001 cubicagem 1,0 m3")];
    let packet = merge_documents(&files, &"no facts here".to_string()).unwrap();
    assert_eq!(packet.loads.len(), 0);
    assert_eq!(packet.errors, vec!["No commercial facts for load 100001"]);
}

#[test]
fn whole_run_is_given_up_with_the_first_document_that_fails() {
    let mut broken = b"<a><nFat>".to_vec();
    broken.extend_from_slice(&[0xff, 0xfe]);
    broken.extend_from_slice(b"</nFat></a>");
    let files = vec![xml("20", "ana", "fast", "1", "carga 100001"), broken, b"<a></b>".to_vec()];
    let text = "carga 100001 placa abc1234 frete 1.000,00".to_string();
    assert!(matches!(merge_documents(&files, &text), Err(ParseErrors::EncodingXMLError(_))));
}
