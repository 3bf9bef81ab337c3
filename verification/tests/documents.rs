use quick_xml::events::{BytesText, Event};
use quick_xml::reader::Reader;
use rateio::data::parsing::{
    assemble, build_record, cubicage_from, email_data_from, group_record, load_number_from,
    parse_email, parse_file, parse_multiple, quantity_from, text_from,
};
use rateio::data::tags::{match_text, store_decoded, store_text, FieldMap};
use rateio::types::{Data, ParseErrors};

const CORRECT: &str = r#"<?xml version="1.0" encoding="UTF-8"?>
<nfeProc versao="4.00">
  <NFe>
    <infNFe Id="NFe78493">
      <ide>
        <nNF>1</nNF>
      </ide>
      <emit>
        <xNome>sender</xNome>
      </emit>
      <dest>
        <xNome>test</xNome>
        <enderDest>
          <xLgr>street</xLgr>
        </enderDest>
      </dest>
      <transp>
        <transporta>
          <xNome>test3</xNome>
        </transporta>
        <vol>
          <qVol>10000</qVol>
        </vol>
      </transp>
      <cobr>
        <fat>
          <nFat>12345</nFat>
        </fat>
      </cobr>
      <infAdic>
        <infCpl>Pedido 77 CARGA: 3245 Cubicagem: 3,431 M3 entregar pela manha</infCpl>
      </infAdic>
    </infNFe>
  </NFe>
  <protNFe>
    <infProt>
      <chNFe>78493</chNFe>
    </infProt>
  </protNFe>
</nfeProc>
"#;

const WRONG: &str = r#"<?xml version="1.0" encoding="UTF-8"?>
<nfeProc versao="4.00">
  <NFe>
    <infNFe>
      <emit>
        <xNome>sender</xNome>
      </emit>
    </infNFe>
  </NFe>
</nfeProc>
"#;

fn document(danfe: &str, to: &str, by: &str, quantity: &str, info: &str, key: &str) -> Vec<u8> {
    format!(
        "<nfeProc><NFe><infNFe><dest><xNome>{}</xNome></dest><transp><transporta><xNome>{}</xNome></transporta><vol><qVol>{}</qVol></vol></transp><cobr><fat><nFat>{}</nFat></fat></cobr><infAdic><infCpl>{}</infCpl></infAdic></infNFe></NFe><protNFe><infProt><chNFe>{}</chNFe></infProt></protNFe></nfeProc>",
        to, by, quantity, danfe, info, key
    )
    .into_bytes()
}

fn broken_text() -> BytesText<'static> {
    let mut reader = Reader::from_reader(&b"<a>\xff\xfe</a>"[..]);
    loop {
        match reader.read_event().unwrap() {
            Event::Text(text) => return text.into_owned(),
            Event::Eof => panic!("no text in the document"),
            _ => {}
        }
    }
}

fn slots(fields: &FieldMap) -> Vec<&String> {
    [&fields.danfe, &fields.to, &fields.by, &fields.info, &fields.quantity, &fields.access_key]
        .into_iter()
        .filter_map(|slot| slot.as_ref())
        .collect()
}

fn groups(parts: &[Option<&str>]) -> Vec<Option<String>> {
    parts.iter().map(|part| part.map(|text| text.to_string())).collect()
}

#[test]
fn test_match_text() {
    let mut flags: u8 = 1;
    let mut data = FieldMap::new();

    let base_text = "test";
    let text = BytesText::new(&base_text);

    for power in 0..=7 {
        flags <<= power;
        let _ = match_text(&flags, &text, &mut data);
    }

    for v in slots(&data) {
        assert_eq!(v, base_text);
    }

    let all_flags: u8 = 255;
    let mut data = FieldMap::new();
    let _ = match_text(&all_flags, &text, &mut data);
    for v in slots(&data) {
        assert_eq!(v, base_text);
    }
}

#[test]
fn match_text_fills_the_slots_of_the_set_flags_only() {
    let text = BytesText::new("abc");
    let mut data = FieldMap::new();
    assert!(match_text(&0, &text, &mut data).is_ok());
    assert_eq!(slots(&data).len(), 0);

    assert!(match_text(&0b00000101, &text, &mut data).is_ok());
    assert_eq!(data.danfe.as_deref(), Some("abc"));
    assert_eq!(data.by.as_deref(), Some("abc"));
    assert_eq!(data.to, None);
    assert_eq!(data.info, None);
    assert_eq!(data.quantity, None);
    assert_eq!(data.access_key, None);

    let later = BytesText::new("xyz");
    assert!(match_text(&0b00100001, &later, &mut data).is_ok());
    assert_eq!(data.danfe.as_deref(), Some("xyz"));
    assert_eq!(data.by.as_deref(), Some("abc"));
    assert_eq!(data.access_key.as_deref(), Some("xyz"));

    let mut all = FieldMap::new();
    assert!(match_text(&255, &text, &mut all).is_ok());
    assert_eq!(slots(&all).len(), 6);
}

#[test]
fn match_text_hands_on_what_cannot_be_decoded() {
    let broken = broken_text();
    let mut data = FieldMap::new();
    data.to = Some("kept".to_string());
    assert!(match_text(&255, &broken, &mut data).is_err());
    assert_eq!(data.to.as_deref(), Some("kept"));
    assert_eq!(data.danfe, None);
}

#[test]
fn store_decoded_stores_a_text_and_hands_back_an_error() {
    let mut data = FieldMap::new();
    assert!(store_decoded(&0b00000011, Ok("abc".to_string()), &mut data).is_ok());
    assert_eq!(data.danfe.as_deref(), Some("abc"));
    assert_eq!(data.to.as_deref(), Some("abc"));
    assert_eq!(data.by, None);

    let error = broken_text().decode().unwrap_err();
    let expected = error.clone();
    assert_eq!(store_decoded(&255, Err(error), &mut data), Err(expected));
    assert_eq!(data.danfe.as_deref(), Some("abc"));
    assert_eq!(data.to.as_deref(), Some("abc"));
    assert_eq!(data.by, None);
    assert_eq!(data.access_key, None);
}

#[test]
fn store_text_writes_each_flagged_slot() {
    let mut data = FieldMap::new();
    store_text(&0b00001000, "info", &mut data);
    store_text(&0b00010000, "7", &mut data);
    store_text(&0b00000010, "client", &mut data);
    assert_eq!(data.info.as_deref(), Some("info"));
    assert_eq!(data.quantity.as_deref(), Some("7"));
    assert_eq!(data.to.as_deref(), Some("client"));
    assert_eq!(data.danfe, None);
}

#[test]
fn test_parse_email() {
    let email = String::from(
        r#"
            carga 123456 Placa 1234asz fRetE 1.342,87
            CArgA : 345678 PlAca: 1234asz fRetE : 8.342,93
            Carga: 891234 Placa: 124-asz fRetE:1.342,87
        "#,
    );

    let data = parse_email(&email).unwrap();

    let first_load = data.get(&123456).unwrap();
    assert_eq!(first_load.price as f64 / 100.0, 1342.87);
    assert_eq!(first_load.license_plate, "1234asz");

    let second_load = data.get(&345678).unwrap();
    assert_eq!(second_load.price as f64 / 100.0, 8342.93);
    assert_eq!(second_load.license_plate, "1234asz");

    let third_load = data.get(&891234).unwrap();
    assert_eq!(third_load.price as f64 / 100.0, 1342.87);
    assert_eq!(third_load.license_plate, "124-asz");
}

#[test]
fn email_scenario_gives_one_fact() {
    let data = parse_email(&"carga 123456 placa 1234asz frete 1.342,87".to_string()).unwrap();
    assert_eq!(data.len(), 1);
    let fact = data.get(&123456).unwrap();
    assert_eq!(fact.price, 134287);
    assert_eq!(fact.license_plate, "1234asz");
}

#[test]
fn email_is_searched_in_lower_case() {
    let data = parse_email(&"CARGA 123456 PLACA ABC1D23 FRETE 2.000,00".to_string()).unwrap();
    let fact = data.get(&123456).unwrap();
    assert_eq!(fact.price, 200000);
    assert_eq!(fact.license_plate, "abc1d23");
}

#[test]
fn later_fact_for_a_load_replaces_the_earlier() {
    let text = "carga 123456 placa aaa1111 frete 1.000,00 carga 123456 placa bbb2222 frete 2.000,00";
    let data = parse_email(&text.to_string()).unwrap();
    assert_eq!(data.len(), 1);
    let fact = data.get(&123456).unwrap();
    assert_eq!(fact.price, 200000);
    assert_eq!(fact.license_plate, "bbb2222");
}

#[test]
fn email_without_facts_gives_none() {
    assert_eq!(parse_email(&"nothing to see".to_string()).unwrap().len(), 0);
    assert_eq!(parse_email(&"carga 12345 placa 1234asz frete 1.342,87".to_string()).unwrap().len(), 0);
    assert_eq!(parse_email(&String::new()).unwrap().len(), 0);
}

#[test]
fn matches_that_cannot_be_read_give_up_the_run() {
    let fine = groups(&[Some("all"), Some("123456"), Some("abc1234"), Some("1.342,87")]);
    let data = email_data_from(&vec![fine.clone()]).unwrap();
    assert_eq!(data.get(&123456).unwrap().price, 134287);

    let no_number = groups(&[Some("all"), Some("12x456"), Some("abc1234"), Some("1.342,87")]);
    match email_data_from(&vec![fine.clone(), no_number]) {
        Err(ParseErrors::ParseInt(text)) => assert_eq!(text, "12x456"),
        other => panic!("unexpected: {:?}", other.map(|data| data.len())),
    }

    let no_price = groups(&[Some("all"), Some("123456"), Some("abc1234"), Some("1,3,4")]);
    match email_data_from(&vec![no_price, fine.clone()]) {
        Err(ParseErrors::ParseFloat(text)) => assert_eq!(text, "1,3,4"),
        other => panic!("unexpected: {:?}", other.map(|data| data.len())),
    }

    let both = groups(&[Some("all"), Some("9999999999"), Some("abc1234"), Some("x")]);
    match email_data_from(&vec![both]) {
        Err(ParseErrors::ParseInt(text)) => assert_eq!(text, "9999999999"),
        other => panic!("unexpected: {:?}", other.map(|data| data.len())),
    }

    let short = groups(&[Some("all")]);
    match email_data_from(&vec![short]) {
        Err(ParseErrors::ParseInt(text)) => assert_eq!(text, ""),
        other => panic!("unexpected: {:?}", other.map(|data| data.len())),
    }
}

#[test]
fn test_parse_file() -> Result<(), ParseErrors> {
    let (data, errors) = parse_file(CORRECT.as_bytes())?;

    assert_eq!(data.danfe, "12345");
    assert_eq!(data.cubicage as f64 / 1000.0, 3.431);
    assert_eq!(data.to, "test");
    assert_eq!(data.by, "test3");
    assert_eq!(data.quantity, 10000);
    assert_eq!(data.load_number, 3245);
    assert_eq!(data.key, "78493");

    assert_eq!(errors.len(), 0);

    let (data, errors) = parse_file(WRONG.as_bytes())?;

    assert_eq!(data.danfe, "");
    assert_eq!(data.cubicage as f64 / 1000.0, 0.0);
    assert_eq!(data.to, "");
    assert_eq!(data.by, "");
    assert_eq!(data.quantity, 0);
    assert_eq!(data.load_number, 0);
    assert_eq!(data.key, "");

    assert_eq!(errors.len(), 6); // cubicage and load number are in the same tag

    Ok(())
}

#[test]
fn missing_fields_leave_their_warnings_in_order() {
    let (_, errors) = parse_file(WRONG.as_bytes()).unwrap();
    assert_eq!(
        errors,
        vec![
            "No Data for Info",
            "No Quantity from parsed data!",
            "No DANFE",
            "No client data",
            "No carrier data",
            "No NF-e Key",
        ]
    );
}

#[test]
fn document_without_complementary_information() {
    let xml = "<nfeProc><dest><xNome>client</xNome></dest><transporta><xNome>carrier</xNome></transporta><qVol>3</qVol><nFat>42</nFat><chNFe>999</chNFe></nfeProc>";
    let (data, errors) = parse_file(xml.as_bytes()).unwrap();
    assert_eq!(data.load_number, 0);
    assert_eq!(data.cubicage, 0);
    assert_eq!(data.danfe, "42");
    assert_eq!(data.to, "client");
    assert_eq!(data.by, "carrier");
    assert_eq!(data.quantity, 3);
    assert_eq!(data.key, "999");
    assert_eq!(errors, vec!["No Data for Info"]);
}

#[test]
fn complementary_information_without_the_numbers() {
    let xml = document("1", "a", "b", "2", "nothing here", "k");
    let (data, errors) = parse_file(&xml).unwrap();
    assert_eq!(data.load_number, 0);
    assert_eq!(data.cubicage, 0);
    assert_eq!(errors, vec!["No matches for load", "No matches for cubicage"]);

    let xml = document("1", "a", "b", "2", "carga 77", "k");
    let (data, errors) = parse_file(&xml).unwrap();
    assert_eq!(data.load_number, 77);
    assert_eq!(data.cubicage, 0);
    assert_eq!(errors, vec!["No matches for cubicage"]);

    let xml = document("1", "a", "b", "2", "cubicagem 1,5 m3", "k");
    let (data, errors) = parse_file(&xml).unwrap();
    assert_eq!(data.load_number, 0);
    assert_eq!(data.cubicage, 1500);
    assert_eq!(errors, vec!["No matches for load"]);
}

#[test]
fn numbers_that_do_not_fit_leave_warnings() {
    let xml = document("1", "a", "b", "70000", "carga 99999999999 cubicagem 99999999999999999999,0 m3", "k");
    let (data, errors) = parse_file(&xml).unwrap();
    assert_eq!(data.load_number, 0);
    assert_eq!(data.cubicage, 0);
    assert_eq!(data.quantity, 0);
    assert_eq!(
        errors,
        vec![
            "Failed on parse load number: 99999999999",
            "Failed on parse cubicage: 99999999999999999999,0",
            "Failed on parse quantity : 70000",
        ]
    );
}

#[test]
fn display_name_goes_to_the_record_it_stands_in() {
    let xml = "<a><xNome>nobody</xNome><dest><xNome>client</xNome><x><xNome>inner</xNome></x></dest><transporta><xNome>carrier</xNome></transporta></a>";
    let (data, _) = parse_file(xml.as_bytes()).unwrap();
    assert_eq!(data.to, "inner");
    assert_eq!(data.by, "carrier");
}

#[test]
fn last_text_of_a_field_wins() {
    let xml = "<a><nFat>1</nFat><nFat>2</nFat><qVol>5</qVol><qVol>6</qVol></a>";
    let (data, _) = parse_file(xml.as_bytes()).unwrap();
    assert_eq!(data.danfe, "2");
    assert_eq!(data.quantity, 6);
}

#[test]
fn malformed_stream_ends_the_reading_with_a_warning() {
    let xml = "<a><nFat>12</nFat><qVol>5</wrong><chNFe>9</chNFe></a>";
    let (data, errors) = parse_file(xml.as_bytes()).unwrap();
    assert_eq!(data.danfe, "12");
    assert_eq!(data.quantity, 5);
    assert_eq!(data.key, "");
    assert!(errors[0].starts_with("Failed on read data from xml: "));
    assert!(errors[0].contains(" at position "));
    assert_eq!(
        &errors[1..],
        &["No Data for Info", "No client data", "No carrier data", "No NF-e Key"]
    );
}

#[test]
fn text_that_cannot_be_decoded_gives_up_the_run() {
    let mut xml = b"<a><nFat>".to_vec();
    xml.extend_from_slice(&[0xff, 0xfe]);
    xml.extend_from_slice(b"</nFat></a>");
    match parse_file(&xml) {
        Err(ParseErrors::EncodingXMLError(_)) => {}
        other => panic!("unexpected: {:?}", other),
    }
}

#[test]
fn empty_document_gives_the_empty_record() {
    let (data, errors) = parse_file(b"").unwrap();
    assert_eq!(data.danfe, "");
    assert_eq!(data.load_number, 0);
    assert_eq!(errors.len(), 6);
}

#[test]
fn long_document_is_read_to_its_end() {
    let mut xml = String::from("<a>");
    for i in 0..2000 {
        xml.push_str(&format!("<b n=\"{}\">text {}</b><!-- c --><c/>", i, i));
    }
    xml.push_str("<nFat>777</nFat></a>");
    let (data, _) = parse_file(xml.as_bytes()).unwrap();
    assert_eq!(data.danfe, "777");
}

#[test]
fn searches_give_number_or_warning() {
    let mut errors = Vec::new();
    assert_eq!(load_number_from(&Some(groups(&[Some("carga 12"), Some("12")])), &mut errors), 12);
    assert_eq!(errors.len(), 0);
    assert_eq!(load_number_from(&None, &mut errors), 0);
    assert_eq!(load_number_from(&Some(groups(&[Some("carga")])), &mut errors), 0);
    assert_eq!(load_number_from(&Some(groups(&[Some("carga"), None])), &mut errors), 0);
    assert_eq!(load_number_from(&Some(groups(&[Some("x"), Some("4294967296")])), &mut errors), 0);
    assert_eq!(load_number_from(&Some(groups(&[Some("x"), Some("4294967295")])), &mut errors), u32::MAX);
    assert_eq!(
        errors,
        vec![
            "No matches for load",
            "Couldnt get the match for load",
            "Couldnt get the match for load",
            "Failed on parse load number: 4294967296",
        ]
    );

    let mut errors = Vec::new();
    assert_eq!(cubicage_from(&Some(groups(&[Some("x"), Some("3,431")])), &mut errors), 3431);
    assert_eq!(cubicage_from(&None, &mut errors), 0);
    assert_eq!(cubicage_from(&Some(groups(&[Some("x"), None])), &mut errors), 0);
    assert_eq!(cubicage_from(&Some(groups(&[Some("x"), Some("3.4")])), &mut errors), 0);
    assert_eq!(
        errors,
        vec![
            "No matches for cubicage",
            "Couldnt get the match for cubicage",
            "Failed on parse cubicage: 3.4",
        ]
    );

    let mut errors = Vec::new();
    assert_eq!(quantity_from(&Some("65535".to_string()), &mut errors), 65535);
    assert_eq!(quantity_from(&Some("65536".to_string()), &mut errors), 0);
    assert_eq!(quantity_from(&None, &mut errors), 0);
    assert_eq!(errors, vec!["Failed on parse quantity : 65536", "No Quantity from parsed data!"]);

    let mut errors = Vec::new();
    assert_eq!(text_from(&Some("abc".to_string()), "missing", &mut errors), "abc");
    assert_eq!(text_from(&None, "missing", &mut errors), "");
    assert_eq!(errors, vec!["missing"]);
}

#[test]
fn record_is_assembled_from_slots_and_searches() {
    let mut fields = FieldMap::new();
    fields.danfe = Some("55".to_string());
    fields.quantity = Some("8".to_string());
    fields.by = Some("carrier".to_string());
    let searches = Some((Some(groups(&[Some("carga 9"), Some("9")])), None));
    let (data, errors) = assemble(&fields, &searches, vec!["before".to_string()]);
    assert_eq!(data.danfe, "55");
    assert_eq!(data.quantity, 8);
    assert_eq!(data.by, "carrier");
    assert_eq!(data.to, "");
    assert_eq!(data.key, "");
    assert_eq!(data.load_number, 9);
    assert_eq!(data.cubicage, 0);
    assert_eq!(errors, vec!["before", "No matches for cubicage", "No client data", "No NF-e Key"]);
}

#[test]
fn record_is_built_by_searching_the_information() {
    let mut fields = FieldMap::new();
    fields.info = Some("CARGA : 123 cubicagem:0,36m3".to_string());
    let (data, errors) = build_record(&fields, Vec::new()).unwrap();
    assert_eq!(data.load_number, 123);
    assert_eq!(data.cubicage, 360);
    assert_eq!(errors.len(), 5);

    fields.info = Some("carga 1 carga 2 cubicagem 1,0 m3 cubicagem 2,0 m3".to_string());
    let (data, _) = build_record(&fields, Vec::new()).unwrap();
    assert_eq!(data.load_number, 1);
    assert_eq!(data.cubicage, 1000);
}

fn record(load_number: u32, danfe: &str) -> Data {
    Data {
        danfe: danfe.to_string(),
        to: "client".to_string(),
        by: "carrier".to_string(),
        quantity: 1,
        load_number,
        cubicage: 1,
        key: "k".to_string(),
    }
}

#[test]
fn records_are_grouped_by_load_number() {
    let mut all = Vec::new();
    group_record(&mut all, record(7, "a"));
    group_record(&mut all, record(3, "b"));
    group_record(&mut all, record(7, "c"));
    group_record(&mut all, record(3, "d"));
    group_record(&mut all, record(9, "e"));
    let shape: Vec<(u32, Vec<&str>)> = all
        .iter()
        .map(|group| (group.load_number, group.records.iter().map(|r| r.danfe.as_str()).collect()))
        .collect();
    assert_eq!(shape, vec![(7, vec!["a", "c"]), (3, vec!["b", "d"]), (9, vec!["e"])]);
}

#[test]
fn batch_of_documents_is_parsed_and_grouped() {
    let files = vec![
        document("10", "a", "x", "1", "carga 5 cubicagem 1,0 m3", "k1"),
        document("11", "b", "x", "2", "carga 6 cubicagem 2,0 m3", "k2"),
        document("12", "c", "y", "3", "carga 5", "k3"),
        WRONG.as_bytes().to_vec(),
    ];
    let (data, errors) = parse_multiple(&files).unwrap();
    let shape: Vec<(u32, Vec<&str>)> = data
        .iter()
        .map(|group| (group.load_number, group.records.iter().map(|r| r.danfe.as_str()).collect()))
        .collect();
    assert_eq!(shape, vec![(5, vec!["10", "12"]), (6, vec!["11"]), (0, vec![""])]);
    assert_eq!(errors.len(), 7);
    assert_eq!(errors[0], "No matches for cubicage");

    let (data, errors) = parse_multiple(&Vec::new()).unwrap();
    assert_eq!(data.len(), 0);
    assert_eq!(errors.len(), 0);
}

#[test]
fn batch_keeps_the_order_of_the_documents() {
    let files = vec![
        document("1", "a", "x", "no", "carga 9 cubicagem 1,0 m3", "k1"),
        document("2", "b", "x", "1", "carga 8", "k2"),
        document("3", "c", "x", "1", "carga 9 cubicagem 1,0 m3", "k3"),
        document("4", "d", "x", "1", "cubicagem 1,0 m3", "k4"),
        document("5", "e", "x", "1", "carga 8 cubicagem 2,0 m3", "k5"),
    ];
    let (data, errors) = parse_multiple(&files).unwrap();
    let shape: Vec<(u32, Vec<&str>)> = data
        .iter()
        .map(|group| (group.load_number, group.records.iter().map(|r| r.danfe.as_str()).collect()))
        .collect();
    assert_eq!(shape, vec![(9, vec!["1", "3"]), (8, vec!["2", "5"]), (0, vec!["4"])]);
    assert_eq!(
        errors,
        vec!["Failed on parse quantity : no", "No matches for cubicage", "No matches for load"]
    );
    for (index, file) in files.iter().enumerate() {
        let (record, _) = parse_file(file).unwrap();
        assert_eq!(record.danfe, (index + 1).to_string());
    }
}

#[test]
fn batch_is_given_up_with_its_first_broken_document() {
    let mut broken = b"<a><nFat>".to_vec();
    broken.extend_from_slice(&[0xff]);
    broken.extend_from_slice(b"</nFat></a>");
    let files = vec![document("10", "a", "x", "1", "carga 5", "k1"), broken];
    assert!(matches!(parse_multiple(&files), Err(ParseErrors::EncodingXMLError(_))));
}

#[test]
fn errors_are_put_in_words() {
    assert_eq!(ParseErrors::ParseInt("12x".to_string()).message(), "Couldn't parse int value: 12x");
    assert_eq!(
        ParseErrors::ParseFloat("1,2,3".to_string()).message(),
        "Couldn't parse float value: 1,2,3"
    );
    let broken = broken_text();
    let error = broken.decode().unwrap_err();
    assert!(ParseErrors::EncodingXMLError(error).message().starts_with("Failed on Decode: "));
}
