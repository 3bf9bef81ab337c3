//! The records that flow through the library and their mathematical views.

use std::collections::HashMap;
use vstd::prelude::*;

verus! {

/// Identifier of a load.
pub type LoadNumber = u32;

/// Number of packages of a delivery.
pub type Quantity = u16;

/// A volume, in litres (thousandths of a cubic metre).
pub type Cubicage = u64;

/// An amount of money, in cents. The share of a delivery can be negative
/// after the rounding remainder was charged to it.
pub type Price = i64;

/// Name of a carrier.
pub type Carrier = String;

/// Name of a client.
pub type Client = String;

/// Plate of a vehicle.
pub type LicensePlate = String;

/// Invoice number, as printed on the document.
pub type DANFE = String;

/// Access key of a document.
pub type Key = String;

/// A warning: something was missing or unreadable and the run went on.
pub type Warning = String;

/// What one shipping document says.
#[derive(Debug)]
pub struct Data {
    pub danfe: DANFE,
    pub to: Client,
    pub by: Carrier,
    pub quantity: Quantity,
    pub load_number: LoadNumber,
    pub cubicage: Cubicage,
    pub key: Key,
}

/// A document record as plain values.
pub ghost struct DataView {
    pub danfe: Seq<char>,
    pub to: Seq<char>,
    pub by: Seq<char>,
    pub quantity: Quantity,
    pub load_number: LoadNumber,
    pub cubicage: Cubicage,
    pub key: Seq<char>,
}

impl View for Data {
    type V = DataView;

    open spec fn view(&self) -> DataView {
        DataView {
            danfe: self.danfe@,
            to: self.to@,
            by: self.by@,
            quantity: self.quantity,
            load_number: self.load_number,
            cubicage: self.cubicage,
            key: self.key@,
        }
    }
}

impl DeepView for Data {
    type V = DataView;

    open spec fn deep_view(&self) -> DataView {
        self@
    }
}

impl Clone for Data {
    fn clone(&self) -> (copy: Self)
        ensures
            copy@ == self@,
    {
        Data {
            danfe: self.danfe.clone(),
            to: self.to.clone(),
            by: self.by.clone(),
            quantity: self.quantity,
            load_number: self.load_number,
            cubicage: self.cubicage,
            key: self.key.clone(),
        }
    }
}

/// One client's part of a load.
#[derive(Debug)]
pub struct Delivery {
    pub danfe: Vec<DANFE>,
    pub key: Vec<Key>,
    pub to: Client,
    pub quantity: Quantity,
    pub price: Price,
    pub cubicage: Cubicage,
}

/// A delivery as plain values.
pub ghost struct DeliveryView {
    pub danfe: Seq<Seq<char>>,
    pub key: Seq<Seq<char>>,
    pub to: Seq<char>,
    pub quantity: nat,
    pub price: int,
    pub cubicage: nat,
}

impl View for Delivery {
    type V = DeliveryView;

    open spec fn view(&self) -> DeliveryView {
        DeliveryView {
            danfe: self.danfe.deep_view(),
            key: self.key.deep_view(),
            to: self.to@,
            quantity: self.quantity as nat,
            price: self.price as int,
            cubicage: self.cubicage as nat,
        }
    }
}

impl DeepView for Delivery {
    type V = DeliveryView;

    open spec fn deep_view(&self) -> DeliveryView {
        self@
    }
}

/// A copy of a list of strings.
pub fn clone_strings(list: &Vec<String>) -> (copy: Vec<String>)
    ensures
        copy.deep_view() == list.deep_view(),
{
    let mut copy: Vec<String> = Vec::new();
    let mut i: usize = 0;
    while i < list.len()
        invariant
            i <= list.len(),
            copy.len() == i,
            forall|k: int| 0 <= k < i ==> copy@[k]@ == list@[k]@,
        decreases list.len() - i,
    {
        copy.push(list[i].clone());
        i += 1;
    }
    assert(copy.deep_view() =~= list.deep_view());
    copy
}

impl Clone for Delivery {
    fn clone(&self) -> (copy: Self)
        ensures
            copy@ == self@,
    {
        Delivery {
            danfe: clone_strings(&self.danfe),
            key: clone_strings(&self.key),
            to: self.to.clone(),
            quantity: self.quantity,
            price: self.price,
            cubicage: self.cubicage,
        }
    }
}

impl Default for Delivery {
    fn default() -> (empty: Self)
        ensures
            empty@ == (DeliveryView {
                danfe: Seq::empty(),
                key: Seq::empty(),
                to: Seq::empty(),
                quantity: 0,
                price: 0,
                cubicage: 0,
            }),
    {
        let empty = Delivery {
            danfe: Vec::new(),
            key: Vec::new(),
            to: String::new(),
            quantity: 0,
            price: 0,
            cubicage: 0,
        };
        assert(empty.danfe.deep_view() =~= Seq::empty());
        assert(empty.key.deep_view() =~= Seq::empty());
        empty
    }
}

/// A shipment: the deliveries that share one vehicle and one freight price.
#[derive(Debug)]
pub struct Load {
    pub deliveries: Vec<Delivery>,
    pub license_plate: LicensePlate,
    pub total_price: Price,
    pub total_cubicage: Cubicage,
}

/// A load as plain values.
pub ghost struct LoadView {
    pub deliveries: Seq<DeliveryView>,
    pub license_plate: Seq<char>,
    pub total_price: int,
    pub total_cubicage: nat,
}

impl View for Load {
    type V = LoadView;

    open spec fn view(&self) -> LoadView {
        LoadView {
            deliveries: self.deliveries.deep_view(),
            license_plate: self.license_plate@,
            total_price: self.total_price as int,
            total_cubicage: self.total_cubicage as nat,
        }
    }
}

impl DeepView for Load {
    type V = LoadView;

    open spec fn deep_view(&self) -> LoadView {
        self@
    }
}

/// A copy of a list of deliveries.
pub fn clone_deliveries(list: &Vec<Delivery>) -> (copy: Vec<Delivery>)
    ensures
        copy.deep_view() == list.deep_view(),
{
    let mut copy: Vec<Delivery> = Vec::new();
    let mut i: usize = 0;
    while i < list.len()
        invariant
            i <= list.len(),
            copy.len() == i,
            forall|k: int| 0 <= k < i ==> copy@[k]@ == list@[k]@,
        decreases list.len() - i,
    {
        copy.push(list[i].clone());
        i += 1;
    }
    assert(copy.deep_view() =~= list.deep_view());
    copy
}

impl Clone for Load {
    fn clone(&self) -> (copy: Self)
        ensures
            copy@ == self@,
    {
        Load {
            deliveries: clone_deliveries(&self.deliveries),
            license_plate: self.license_plate.clone(),
            total_price: self.total_price,
            total_cubicage: self.total_cubicage,
        }
    }
}

impl Default for Load {
    fn default() -> (empty: Self)
        ensures
            empty@ == (LoadView {
                deliveries: Seq::empty(),
                license_plate: Seq::empty(),
                total_price: 0,
                total_cubicage: 0,
            }),
    {
        let empty = Load {
            deliveries: Vec::new(),
            license_plate: String::new(),
            total_price: 0,
            total_cubicage: 0,
        };
        assert(empty.deliveries.deep_view() =~= Seq::empty());
        empty
    }
}

/// The commercial facts of one load, as a dispatch e-mail gives them.
#[derive(Debug)]
pub struct EmailLoadData {
    pub price: Price,
    pub license_plate: LicensePlate,
}

impl Clone for EmailLoadData {
    fn clone(&self) -> (copy: Self)
        ensures
            copy.price == self.price,
            copy.license_plate@ == self.license_plate@,
    {
        EmailLoadData { price: self.price, license_plate: self.license_plate.clone() }
    }
}

/// The commercial facts of the loads, by load number. A load that is named
/// again takes the place of the one named before.
pub type EmailData = HashMap<LoadNumber, EmailLoadData>;

/// Commercial facts as plain values: for each load number the price and
/// the plate.
pub open spec fn facts_view(data: Map<LoadNumber, EmailLoadData>) -> Map<LoadNumber, (i64, Seq<char>)> {
    Map::new(
        |number: LoadNumber| data.contains_key(number),
        |number: LoadNumber| (data[number].price, data[number].license_plate@),
    )
}

/// The records of the documents that name one load number, in the order in
/// which the documents were read.
#[derive(Debug)]
pub struct LoadRecords {
    pub load_number: LoadNumber,
    pub records: Vec<Data>,
}

/// The records of a batch of documents, grouped by load number; the groups
/// stand in the order in which their load numbers first came up.
pub type MultipleData = Vec<LoadRecords>;

impl View for LoadRecords {
    type V = (LoadNumber, Seq<DataView>);

    open spec fn view(&self) -> (LoadNumber, Seq<DataView>) {
        (self.load_number, self.records.deep_view())
    }
}

impl DeepView for LoadRecords {
    type V = (LoadNumber, Seq<DataView>);

    open spec fn deep_view(&self) -> (LoadNumber, Seq<DataView>) {
        self@
    }
}

/// A load under its number.
#[derive(Debug)]
pub struct NumberedLoad {
    pub number: LoadNumber,
    pub load: Load,
}

/// A numbered load as plain values.
pub ghost struct NumberedLoadView {
    pub number: LoadNumber,
    pub load: LoadView,
}

impl View for NumberedLoad {
    type V = NumberedLoadView;

    open spec fn view(&self) -> NumberedLoadView {
        NumberedLoadView { number: self.number, load: self.load@ }
    }
}

impl DeepView for NumberedLoad {
    type V = NumberedLoadView;

    open spec fn deep_view(&self) -> NumberedLoadView {
        self@
    }
}

/// The loads of one carrier, each number once, in the order in which the
/// numbers first came up.
pub type LoadsByNumberData = Vec<NumberedLoad>;

/// What one carrier hauls: its loads, and the load numbers in ascending
/// order of the loads' first invoice numbers.
#[derive(Debug)]
pub struct CarrierGroup {
    pub carrier: Carrier,
    pub loads: LoadsByNumberData,
    pub sequence: Vec<LoadNumber>,
}

/// A carrier's group as plain values.
pub ghost struct CarrierGroupView {
    pub carrier: Seq<char>,
    pub loads: Seq<NumberedLoadView>,
    pub sequence: Seq<LoadNumber>,
}

impl View for CarrierGroup {
    type V = CarrierGroupView;

    open spec fn view(&self) -> CarrierGroupView {
        CarrierGroupView {
            carrier: self.carrier@,
            loads: self.loads.deep_view(),
            sequence: self.sequence@,
        }
    }
}

impl DeepView for CarrierGroup {
    type V = CarrierGroupView;

    open spec fn deep_view(&self) -> CarrierGroupView {
        self@
    }
}

/// The groups of all carriers, each carrier once, in the order in which the
/// carriers first came up.
pub type Loads = Vec<CarrierGroup>;

/// The outcome of a run: the carriers' groups and the warnings.
#[derive(Debug)]
pub struct Packet {
    pub loads: Loads,
    pub errors: Vec<Warning>,
}

/// A packet as plain values.
pub ghost struct PacketView {
    pub loads: Seq<CarrierGroupView>,
    pub errors: Seq<Seq<char>>,
}

impl View for Packet {
    type V = PacketView;

    open spec fn view(&self) -> PacketView {
        PacketView { loads: self.loads.deep_view(), errors: self.errors.deep_view() }
    }
}

impl Default for Packet {
    fn default() -> (empty: Self)
        ensures
            empty@ == (PacketView { loads: Seq::empty(), errors: Seq::empty() }),
    {
        let empty = Packet { loads: Vec::new(), errors: Vec::new() };
        assert(empty.loads.deep_view() =~= Seq::empty());
        assert(empty.errors.deep_view() =~= Seq::empty());
        empty
    }
}

/// `quick_xml::errors::Error`, why a document could not be read. The
/// library hands it on and never looks inside.
#[verifier::external_type_specification]
#[verifier::external_body]
pub struct ExXmlError(quick_xml::errors::Error);

/// Why a run was given up.
#[derive(Debug)]
pub enum ParseErrors {
    /// A text that should write a whole number does not: the text.
    ParseInt(String),
    /// A text that should write a decimal number does not: the text.
    ParseFloat(String),
    /// A document could not be opened or read at all.
    XMLError(quick_xml::errors::Error),
    /// The text of a document could not be decoded.
    EncodingXMLError(quick_xml::encoding::EncodingError),
    /// A pattern was refused by the search.
    PatternError(regex::Error),
}

/// Calls `format!` with `{}` on a `quick_xml::errors::Error`: the error in
/// words. Nothing is claimed of the text.
#[verifier::external_body]
fn xml_error_text(error: &quick_xml::errors::Error) -> (text: String) {
    format!("{}", error)
}

/// Calls `format!` with `{}` on a `quick_xml::encoding::EncodingError`: the
/// error in words. Nothing is claimed of the text.
#[verifier::external_body]
fn encoding_error_text(error: &quick_xml::encoding::EncodingError) -> (text: String) {
    format!("{}", error)
}

/// Calls `format!` with `{}` on a `regex::Error`: the error in words.
/// Nothing is claimed of the text.
#[verifier::external_body]
fn pattern_error_text(error: &regex::Error) -> (text: String) {
    format!("{}", error)
}

impl ParseErrors {
    /// How the message for this error begins; the rest names the text or
    /// gives the outside error in its own words.
    pub open spec fn message_start(&self) -> Seq<char> {
        match self {
            ParseErrors::ParseInt(_) => "Couldn't parse int value: "@,
            ParseErrors::ParseFloat(_) => "Couldn't parse float value: "@,
            ParseErrors::XMLError(_) => "Couldn't parse xml: "@,
            ParseErrors::EncodingXMLError(_) => "Failed on Decode: "@,
            ParseErrors::PatternError(_) => "Couldn't use pattern: "@,
        }
    }

    /// The error in words.
    pub fn message(&self) -> (text: String)
        ensures
            text@.len() >= self.message_start().len(),
            text@.take(self.message_start().len() as int) == self.message_start(),
            self matches ParseErrors::ParseInt(value) ==> text@ == self.message_start() + value@,
            self matches ParseErrors::ParseFloat(value) ==> text@ == self.message_start() + value@,
    {
        let (mut text, rest) = match self {
            ParseErrors::ParseInt(value) => (
                String::from_str("Couldn't parse int value: "),
                value.clone(),
            ),
            ParseErrors::ParseFloat(value) => (
                String::from_str("Couldn't parse float value: "),
                value.clone(),
            ),
            ParseErrors::XMLError(error) => (
                String::from_str("Couldn't parse xml: "),
                xml_error_text(error),
            ),
            ParseErrors::EncodingXMLError(error) => (
                String::from_str("Failed on Decode: "),
                encoding_error_text(error),
            ),
            ParseErrors::PatternError(error) => (
                String::from_str("Couldn't use pattern: "),
                pattern_error_text(error),
            ),
        };
        text.append(rest.as_str());
        assert(text@.take(self.message_start().len() as int) =~= self.message_start());
        text
    }
}

} // verus!
