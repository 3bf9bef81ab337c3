use rateio::data::{extract, DocumentEvent, Extractor};
use rateio::files::is_xml_file;
use rateio::pattern::{cubicage, email_text, load};
use rateio::types::{clone_deliveries, clone_strings, Data, Delivery, EmailLoadData, Load};

fn enter(name: &str) -> DocumentEvent {
    DocumentEvent::Enter(name.as_bytes().to_vec())
}

fn exit(name: &str) -> DocumentEvent {
    DocumentEvent::Exit(name.as_bytes().to_vec())
}

fn text(content: &str) -> DocumentEvent {
    DocumentEvent::Text(content.to_string())
}

fn field(name: &str, content: &str) -> Vec<DocumentEvent> {
    vec![enter(name), text(content), exit(name)]
}

#[test]
fn tag_stream_gives_the_record() {
    let mut events = vec![enter("nfe")];
    events.extend(field("nFat", "12345"));
    events.push(enter("dest"));
    events.extend(field("xNome", "client"));
    events.push(exit("dest"));
    events.push(enter("transporta"));
    events.extend(field("xNome", "carrier"));
    events.push(exit("transporta"));
    events.extend(field("qVol", "10"));
    events.extend(field("infCpl", "Carga 3245 cubicagem 3,431 m3"));
    events.extend(field("chNFe", "78493"));
    events.push(exit("nfe"));
    let (data, errors) = extract(&events).unwrap();
    assert_eq!(data.danfe, "12345");
    assert_eq!(data.to, "client");
    assert_eq!(data.by, "carrier");
    assert_eq!(data.quantity, 10);
    assert_eq!(data.load_number, 3245);
    assert_eq!(data.cubicage, 3431);
    assert_eq!(data.key, "78493");
    assert_eq!(errors.len(), 0);
}

#[test]
fn stream_without_complementary_information_leaves_a_warning() {
    let mut events = Vec::new();
    events.extend(field("nFat", "1"));
    events.push(enter("dest"));
    events.extend(field("xNome", "client"));
    events.push(exit("dest"));
    events.push(enter("transporta"));
    events.extend(field("xNome", "carrier"));
    events.push(exit("transporta"));
    events.extend(field("qVol", "2"));
    events.extend(field("chNFe", "3"));
    let (data, errors) = extract(&events).unwrap();
    assert_eq!(data.load_number, 0);
    assert_eq!(data.cubicage, 0);
    assert_eq!(errors, vec!["No Data for Info"]);
}

#[test]
fn empty_stream_gives_the_empty_record() {
    let (data, errors) = extract(&Vec::new()).unwrap();
    assert_eq!(data.danfe, "");
    assert_eq!(data.to, "");
    assert_eq!(data.by, "");
    assert_eq!(data.key, "");
    assert_eq!(data.quantity, 0);
    assert_eq!(data.load_number, 0);
    assert_eq!(data.cubicage, 0);
    assert_eq!(errors.len(), 6);
}

#[test]
fn text_under_both_records_goes_to_client_and_carrier() {
    let events = vec![enter("dest"), enter("transporta"), enter("xNome"), text("both"), exit("xNome")];
    let (data, _) = extract(&events).unwrap();
    assert_eq!(data.to, "both");
    assert_eq!(data.by, "both");
}

#[test]
fn flags_toggle_so_a_tag_entered_twice_is_left() {
    let events = vec![enter("nFat"), enter("nFat"), text("lost"), enter("qVol"), text("4")];
    let (data, _) = extract(&events).unwrap();
    assert_eq!(data.danfe, "");
    assert_eq!(data.quantity, 4);
}

#[test]
fn text_outside_any_field_is_dropped() {
    let events = vec![text("a"), enter("other"), text("b"), exit("other"), enter("xNome"), text("c")];
    let (data, errors) = extract(&events).unwrap();
    assert_eq!(data.to, "");
    assert_eq!(data.by, "");
    assert_eq!(errors.len(), 6);
}

#[test]
fn malformed_stream_stops_the_extractor() {
    let mut events = field("nFat", "7");
    events.push(DocumentEvent::Malformed("broken here".to_string()));
    events.extend(field("qVol", "9"));
    events.push(DocumentEvent::Malformed("again".to_string()));
    let (data, errors) = extract(&events).unwrap();
    assert_eq!(data.danfe, "7");
    assert_eq!(data.quantity, 0);
    assert_eq!(errors[0], "broken here");
    assert_eq!(errors[1], "No Data for Info");
    assert_eq!(errors.len(), 6);
}

#[test]
fn extractor_is_fed_step_by_step() {
    let mut state = Extractor::new();
    assert_eq!((state.flags, state.backtrack, state.stopped), (0, 0, false));
    state.feed(&enter("dest"));
    assert_eq!((state.flags, state.backtrack), (0, 1));
    state.feed(&enter("xNome"));
    assert_eq!((state.flags, state.backtrack), (2, 1));
    state.feed(&text("client"));
    assert_eq!(state.fields.to.as_deref(), Some("client"));
    state.feed(&exit("xNome"));
    state.feed(&exit("dest"));
    assert_eq!((state.flags, state.backtrack), (0, 0));
    state.feed(&DocumentEvent::Malformed("stop".to_string()));
    assert!(state.stopped);
    state.feed(&enter("nFat"));
    assert_eq!(state.flags, 0);
    let (data, errors) = state.finish().unwrap();
    assert_eq!(data.to, "client");
    assert_eq!(errors[0], "stop");
}

#[test]
fn documents_are_known_by_their_names() {
    assert!(is_xml_file("a.xml"));
    assert!(is_xml_file("/data/in/35240112345678.xml"));
    assert!(is_xml_file("dir.xml/readme"));
    assert!(is_xml_file("a.xml.bak"));
    assert!(is_xml_file(".xml"));
    assert!(!is_xml_file(""));
    assert!(!is_xml_file("xml"));
    assert!(!is_xml_file("a.XML"));
    assert!(!is_xml_file("a.xm"));
    assert!(!is_xml_file("a.x.m.l"));
    assert!(!is_xml_file("notes.txt"));
    assert!(is_xml_file("célula.xml"));
}

#[test]
fn patterns_are_what_the_searches_use() {
    assert_eq!(load(), r"carga *:* *([0-9]+)");
    assert_eq!(cubicage(), r"cubicagem *:* *([0-9]+,[0-9]+) *m3");
    assert_eq!(
        email_text(),
        r"carga *:* *([0-9]{6}) *placa *:* *([0-9a-z]{3,4}-* *[0-9a-z]{3,4}) *frete *:* *([0-9]\.[0-9]{3},[0-9]{2})"
    );
}

#[test]
fn copies_hold_what_was_copied() {
    let strings = vec!["a".to_string(), "bc".to_string()];
    assert_eq!(clone_strings(&strings), strings);

    let delivery = Delivery {
        danfe: vec!["1".to_string()],
        key: vec!["k".to_string()],
        to: "x".to_string(),
        quantity: 3,
        price: -4,
        cubicage: 5,
    };
    let copy = delivery.clone();
    assert_eq!(copy.danfe, delivery.danfe);
    assert_eq!(copy.key, delivery.key);
    assert_eq!(copy.to, "x");
    assert_eq!((copy.quantity, copy.price, copy.cubicage), (3, -4, 5));

    let load = Load {
        deliveries: vec![delivery],
        license_plate: "p".to_string(),
        total_price: 9,
        total_cubicage: 5,
    };
    let copy = load.clone();
    assert_eq!(copy.deliveries.len(), 1);
    assert_eq!(copy.license_plate, "p");
    assert_eq!((copy.total_price, copy.total_cubicage), (9, 5));
    assert_eq!(clone_deliveries(&load.deliveries)[0].to, "x");

    let data = Data {
        danfe: "d".to_string(),
        to: "t".to_string(),
        by: "b".to_string(),
        quantity: 1,
        load_number: 2,
        cubicage: 3,
        key: "k".to_string(),
    };
    let copy = data.clone();
    assert_eq!((copy.danfe.as_str(), copy.to.as_str(), copy.by.as_str(), copy.key.as_str()), ("d", "t", "b", "k"));
    assert_eq!((copy.quantity, copy.load_number, copy.cubicage), (1, 2, 3));

    let fact = EmailLoadData { price: 7, license_plate: "q".to_string() };
    let copy = fact.clone();
    assert_eq!((copy.price, copy.license_plate.as_str()), (7, "q"));

    let empty = Delivery::default();
    assert_eq!(empty.danfe.len() + empty.key.len() + empty.to.len(), 0);
    assert_eq!((empty.quantity, empty.price, empty.cubicage), (0, 0, 0));
    let empty = Load::default();
    assert_eq!(empty.deliveries.len(), 0);
    assert_eq!((empty.total_price, empty.total_cubicage), (0, 0));
}
