//! From the tag stream of a document to its record, and from the text of a
//! dispatch e-mail to the commercial facts of the loads.

use vstd::prelude::*;
use crate::data::extractor::{
    extracted, lemma_run_push, run, DocumentEvent, EventView, Extractor,
};
use crate::data::tags::{decoded_text, match_tag, match_text, FieldMap, FieldsView};
use crate::decimal::{
    cubicage_value, decimal_text, parse_cubicage, parse_price, parse_unsigned, price_value,
    unsigned_value, write_decimal,
};
use crate::pattern::{
    all_captured, captured, cubicage, cubicage_pattern, email_pattern, email_text, find_all,
    find_first, groups_view, load, load_pattern, lowercase, lowercased, matches_view,
    pattern_compiles, Groups,
};
use crate::types::{
    facts_view, Data, DataView, EmailData, EmailLoadData, LoadNumber, LoadRecords, MultipleData,
    ParseErrors, Warning,
};

verus! {

/// The warnings `warnings`, and after them `warning` if there is one.
pub open spec fn with_warning(warnings: Seq<Seq<char>>, warning: Option<Seq<char>>) -> Seq<
    Seq<char>,
> {
    match warning {
        Some(text) => warnings.push(text),
        None => warnings,
    }
}

/// The first group in brackets of a match, if the match has one and it took
/// part.
pub open spec fn first_group(groups: Seq<Option<Seq<char>>>) -> Option<Seq<char>> {
    if groups.len() > 1 {
        groups[1]
    } else {
        None
    }
}

/// The load number that a search for it gave, and the warning where it gave
/// none: the text had no match, the match had no digits, or the digits write
/// no number of 32 bits. Without a number the load number is zero.
pub open spec fn load_number_found(found: Option<Seq<Option<Seq<char>>>>) -> (
    LoadNumber,
    Option<Seq<char>>,
) {
    match found {
        None => (0, Some("No matches for load"@)),
        Some(groups) => match first_group(groups) {
            None => (0, Some("Couldnt get the match for load"@)),
            Some(digits) => match unsigned_value(digits, u32::MAX as nat) {
                Some(number) => (number as u32, None),
                None => (0, Some("Failed on parse load number: "@ + digits)),
            },
        },
    }
}

/// The volume in litres that a search for it gave, and the warning where it
/// gave none: the text had no match, the match had no number, or the number
/// does not fit. Without a number the volume is zero.
pub open spec fn cubicage_found(found: Option<Seq<Option<Seq<char>>>>) -> (u64, Option<Seq<char>>) {
    match found {
        None => (0, Some("No matches for cubicage"@)),
        Some(groups) => match first_group(groups) {
            None => (0, Some("Couldnt get the match for cubicage"@)),
            Some(number) => match cubicage_value(number) {
                Some(litres) => (litres as u64, None),
                None => (0, Some("Failed on parse cubicage: "@ + number)),
            },
        },
    }
}

/// The quantity that the quantity slot gives, and the warning where it gives
/// none: the slot is empty, or its text writes no number of 16 bits.
pub open spec fn quantity_found(slot: Option<Seq<char>>) -> (u16, Option<Seq<char>>) {
    match slot {
        None => (0, Some("No Quantity from parsed data!"@)),
        Some(text) => match unsigned_value(text, u16::MAX as nat) {
            Some(quantity) => (quantity as u16, None),
            None => (0, Some("Failed on parse quantity : "@ + text)),
        },
    }
}

/// The text of a slot, and the warning `missing` where the slot is empty;
/// the text is then empty.
pub open spec fn text_found(slot: Option<Seq<char>>, missing: Seq<char>) -> (
    Seq<char>,
    Option<Seq<char>>,
) {
    match slot {
        Some(text) => (text, None),
        None => (Seq::empty(), Some(missing)),
    }
}

/// The record that the slots `fields` give, with the warnings that follow
/// `warnings`. `searches` holds what the searches for the load number and
/// for the volume found in the complementary information, and nothing where
/// that slot is empty. Each field that is missing or unreadable leaves a
/// warning and keeps its zero or empty value. The warnings stand in the
/// order: load number, volume (or one warning for both where there is no
/// complementary information), quantity, invoice number, client, carrier,
/// access key.
pub open spec fn assembled(
    fields: FieldsView,
    searches: Option<(Option<Seq<Option<Seq<char>>>>, Option<Seq<Option<Seq<char>>>>)>,
    warnings: Seq<Seq<char>>,
) -> (DataView, Seq<Seq<char>>) {
    let load = match searches {
        Some(found) => load_number_found(found.0),
        None => (0u32, Some("No Data for Info"@)),
    };
    let volume = match searches {
        Some(found) => cubicage_found(found.1),
        None => (0u64, None),
    };
    let quantity = quantity_found(fields.quantity);
    let danfe = text_found(fields.danfe, "No DANFE"@);
    let to = text_found(fields.to, "No client data"@);
    let by = text_found(fields.by, "No carrier data"@);
    let key = text_found(fields.access_key, "No NF-e Key"@);
    (
        DataView {
            danfe: danfe.0,
            to: to.0,
            by: by.0,
            quantity: quantity.0,
            load_number: load.0,
            cubicage: volume.0,
            key: key.0,
        },
        with_warning(
            with_warning(
                with_warning(
                    with_warning(
                        with_warning(with_warning(with_warning(warnings, load.1), volume.1), quantity.1),
                        danfe.1,
                    ),
                    to.1,
                ),
                by.1,
            ),
            key.1,
        ),
    )
}

/// The text `start` followed by the text `rest`.
fn warning_with(start: &str, rest: &str) -> (text: String)
    ensures
        text@ == start@ + rest@,
{
    let mut text = String::from_str(start);
    text.append(rest);
    text
}

/// The text that the first group in brackets of a match matched.
fn first_group_of(groups: &Groups) -> (group: Option<&String>)
    ensures
        group.deep_view() == first_group(groups_view(groups@)),
{
    if groups.len() > 1 {
        match &groups[1] {
            Some(text) => Some(text),
            None => None,
        }
    } else {
        None
    }
}

/// The load number that the search `found` gave; where it gave none, zero,
/// and a warning goes to `errors`.
pub fn load_number_from(found: &Option<Groups>, errors: &mut Vec<Warning>) -> (number: LoadNumber)
    ensures
        number == load_number_found(searched(*found)).0,
        final(errors).deep_view() == with_warning(
            old(errors).deep_view(),
            load_number_found(searched(*found)).1,
        ),
{
    let ghost held = errors.deep_view();
    match found {
        None => {
            errors.push(String::from_str("No matches for load"));
            assert(errors.deep_view() =~= held.push("No matches for load"@));
            0
        },
        Some(groups) => match first_group_of(groups) {
            None => {
                errors.push(String::from_str("Couldnt get the match for load"));
                assert(errors.deep_view() =~= held.push("Couldnt get the match for load"@));
                0
            },
            Some(digits) => match parse_unsigned(digits.as_str(), 0xffff_ffff) {
                Some(number) => {
                    assert(errors.deep_view() =~= held);
                    number as u32
                },
                None => {
                    errors.push(warning_with("Failed on parse load number: ", digits.as_str()));
                    assert(errors.deep_view() =~= held.push(
                        "Failed on parse load number: "@ + digits@,
                    ));
                    0
                },
            },
        },
    }
}

/// What a search found, as plain values.
pub open spec fn searched(found: Option<Groups>) -> Option<Seq<Option<Seq<char>>>> {
    match found {
        Some(groups) => Some(groups_view(groups@)),
        None => None,
    }
}

/// The volume that the search `found` gave; where it gave none, zero, and
/// a warning goes to `errors`.
pub fn cubicage_from(found: &Option<Groups>, errors: &mut Vec<Warning>) -> (litres: u64)
    ensures
        litres == cubicage_found(searched(*found)).0,
        final(errors).deep_view() == with_warning(
            old(errors).deep_view(),
            cubicage_found(searched(*found)).1,
        ),
{
    let ghost held = errors.deep_view();
    match found {
        None => {
            errors.push(String::from_str("No matches for cubicage"));
            assert(errors.deep_view() =~= held.push("No matches for cubicage"@));
            0
        },
        Some(groups) => match first_group_of(groups) {
            None => {
                errors.push(String::from_str("Couldnt get the match for cubicage"));
                assert(errors.deep_view() =~= held.push("Couldnt get the match for cubicage"@));
                0
            },
            Some(number) => match parse_cubicage(number.as_str()) {
                Some(litres) => {
                    assert(errors.deep_view() =~= held);
                    litres
                },
                None => {
                    errors.push(warning_with("Failed on parse cubicage: ", number.as_str()));
                    assert(errors.deep_view() =~= held.push("Failed on parse cubicage: "@ + number@));
                    0
                },
            },
        },
    }
}

/// The quantity that the quantity slot gives; where it gives none, zero,
/// and a warning goes to `errors`.
pub fn quantity_from(slot: &Option<String>, errors: &mut Vec<Warning>) -> (quantity: u16)
    ensures
        quantity == quantity_found(slot.deep_view()).0,
        final(errors).deep_view() == with_warning(
            old(errors).deep_view(),
            quantity_found(slot.deep_view()).1,
        ),
{
    let ghost held = errors.deep_view();
    match slot {
        None => {
            errors.push(String::from_str("No Quantity from parsed data!"));
            assert(errors.deep_view() =~= held.push("No Quantity from parsed data!"@));
            0
        },
        Some(text) => match parse_unsigned(text.as_str(), 0xffff) {
            Some(quantity) => {
                assert(errors.deep_view() =~= held);
                quantity as u16
            },
            None => {
                errors.push(warning_with("Failed on parse quantity : ", text.as_str()));
                assert(errors.deep_view() =~= held.push("Failed on parse quantity : "@ + text@));
                0
            },
        },
    }
}

/// The text of a slot; where the slot is empty, the empty text, and the
/// warning `missing` goes to `errors`.
pub fn text_from(slot: &Option<String>, missing: &str, errors: &mut Vec<Warning>) -> (text: String)
    ensures
        text@ == text_found(slot.deep_view(), missing@).0,
        final(errors).deep_view() == with_warning(
            old(errors).deep_view(),
            text_found(slot.deep_view(), missing@).1,
        ),
{
    let ghost held = errors.deep_view();
    match slot {
        Some(text) => {
            assert(errors.deep_view() =~= held);
            text.clone()
        },
        None => {
            errors.push(String::from_str(missing));
            assert(errors.deep_view() =~= held.push(missing@));
            String::new()
        },
    }
}

/// What a pair of searches found, as plain values.
pub open spec fn searches_view(searches: Option<(Option<Groups>, Option<Groups>)>) -> Option<
    (Option<Seq<Option<Seq<char>>>>, Option<Seq<Option<Seq<char>>>>),
> {
    match searches {
        Some(found) => Some((searched(found.0), searched(found.1))),
        None => None,
    }
}

/// Assembles the record of a document from its slots and from what the
/// searches for load number and volume found in the complementary
/// information (nothing where that slot is empty). Warnings go to the end of
/// `errors`.
pub fn assemble(
    fields: &FieldMap,
    searches: &Option<(Option<Groups>, Option<Groups>)>,
    errors: Vec<Warning>,
) -> (record: (Data, Vec<Warning>))
    ensures
        (record.0@, record.1.deep_view()) == assembled(
            fields@,
            searches_view(*searches),
            errors.deep_view(),
        ),
{
    let mut errors = errors;
    let mut load_number: LoadNumber = 0;
    let mut cubicage: u64 = 0;
    match searches {
        Some(found) => {
            load_number = load_number_from(&found.0, &mut errors);
            cubicage = cubicage_from(&found.1, &mut errors);
        },
        None => {
            let ghost held = errors.deep_view();
            errors.push(String::from_str("No Data for Info"));
            assert(errors.deep_view() =~= held.push("No Data for Info"@));
        },
    }
    let quantity = quantity_from(&fields.quantity, &mut errors);
    let danfe = text_from(&fields.danfe, "No DANFE", &mut errors);
    let to = text_from(&fields.to, "No client data", &mut errors);
    let by = text_from(&fields.by, "No carrier data", &mut errors);
    let key = text_from(&fields.access_key, "No NF-e Key", &mut errors);
    (Data { danfe, to, by, quantity, load_number, cubicage, key }, errors)
}

/// What the searches for load number and volume find in the complementary
/// information `info`, which is put into lower case first; nothing where
/// there is no such information.
pub open spec fn info_searches(info: Option<Seq<char>>) -> Option<
    (Option<Seq<Option<Seq<char>>>>, Option<Seq<Option<Seq<char>>>>),
> {
    match info {
        Some(text) => Some(
            (
                captured(load_pattern(), lowercased(text)),
                captured(cubicage_pattern(), lowercased(text)),
            ),
        ),
        None => None,
    }
}

/// The record of a document with the slots `fields`, if the two patterns
/// that search the complementary information compile; where there is no
/// such information, no pattern is needed.
pub open spec fn built_record(fields: FieldsView, warnings: Seq<Seq<char>>) -> Option<
    (DataView, Seq<Seq<char>>),
> {
    if fields.info is None || (pattern_compiles(load_pattern()) && pattern_compiles(cubicage_pattern())) {
        Some(assembled(fields, info_searches(fields.info), warnings))
    } else {
        None
    }
}

/// Builds the record of a document from its slots: searches the
/// complementary information for load number and volume and assembles the
/// record. Warnings go to the end of `errors`. The run is given up only
/// where the search refuses a pattern.
pub fn build_record(fields: &FieldMap, errors: Vec<Warning>) -> (record: Result<
    (Data, Vec<Warning>),
    ParseErrors,
>)
    ensures
        record is Ok == built_record(fields@, errors.deep_view()) is Some,
        record is Ok ==> built_record(fields@, errors.deep_view()) == Some(
            (record.unwrap().0@, record.unwrap().1.deep_view()),
        ),
        record is Err ==> record.unwrap_err() is PatternError,
{
    let searches = match &fields.info {
        Some(value) => {
            let info = lowercase(value.as_str());
            let load_found = match find_first(load(), info.as_str()) {
                Ok(found) => found,
                Err(error) => {
                    return Err(ParseErrors::PatternError(error));
                },
            };
            let cubicage_found = match find_first(cubicage(), info.as_str()) {
                Ok(found) => found,
                Err(error) => {
                    return Err(ParseErrors::PatternError(error));
                },
            };
            Some((load_found, cubicage_found))
        },
        None => None,
    };
    Ok(assemble(fields, &searches, errors))
}

/// `quick_xml::reader::Reader`, the reader of a document's tag stream. The
/// library holds one while it reads a document and never looks inside.
#[verifier::external_type_specification]
#[verifier::external_body]
#[verifier::reject_recursive_types(R)]
pub struct ExReader<R>(quick_xml::reader::Reader<R>);

/// One step of a document's tag stream, as the reader gives it.
pub enum TagEvent {
    /// A tag opens: its name.
    Start(Vec<u8>),
    /// A tag closes: its name.
    End(Vec<u8>),
    /// Text between tags, not yet decoded.
    Text(quick_xml::events::BytesText<'static>),
    /// The document ends.
    Eof,
    /// Anything else: comments, declarations and the like.
    Other,
    /// The stream is malformed at this point.
    Malformed(quick_xml::errors::Error),
}

/// The bytes that a reader was made from.
pub uninterp spec fn reader_source(reader: quick_xml::reader::Reader<&[u8]>) -> Seq<u8>;

/// Whether a reader takes the white space off the ends of every text.
pub uninterp spec fn reader_trims(reader: quick_xml::reader::Reader<&[u8]>) -> bool;

/// How many events a reader has given so far.
pub uninterp spec fn reader_count(reader: quick_xml::reader::Reader<&[u8]>) -> nat;

/// What `quick_xml::reader::Reader::read_event` gives when it is called for
/// the time numbered `count`, from zero, on a reader made from the bytes
/// `source` that trims texts or not as `trims` says.
pub uninterp spec fn event_at(source: Seq<u8>, trims: bool, count: nat) -> TagEvent;

/// What `quick_xml::reader::Reader::buffer_position` gives once such a
/// reader has given `count` events.
pub uninterp spec fn position_at(source: Seq<u8>, trims: bool, count: nat) -> u64;

/// What `quick_xml::reader::Reader::error_position` gives once such a
/// reader has given `count` events.
pub uninterp spec fn error_position_at(source: Seq<u8>, trims: bool, count: nat) -> u64;

/// How a `quick_xml::errors::Error` prints with `{:?}`.
pub uninterp spec fn error_text(error: quick_xml::errors::Error) -> Seq<char>;

/// Calls `quick_xml::reader::Reader::from_reader` on the bytes of a
/// document. The contract claims that the reader is made from these bytes,
/// has given no event yet, and does not trim texts, which is the default of
/// `quick_xml::reader::Config`.
#[verifier::external_body]
fn open_reader<'a>(xml: &'a [u8]) -> (reader: quick_xml::reader::Reader<&'a [u8]>)
    ensures
        reader_source(reader) == xml@,
        reader_count(reader) == 0,
        !reader_trims(reader),
{
    quick_xml::reader::Reader::from_reader(xml)
}

/// Calls `quick_xml::reader::Config::trim_text` on the configuration of a
/// reader that has given no event yet. The contract claims that the reader
/// then trims texts or not as `trim` says, and is otherwise as before.
#[verifier::external_body]
fn trim_text<'a>(reader: &mut quick_xml::reader::Reader<&'a [u8]>, trim: bool)
    requires
        reader_count(*old(reader)) == 0,
    ensures
        reader_trims(*final(reader)) == trim,
        reader_source(*final(reader)) == reader_source(*old(reader)),
        reader_count(*final(reader)) == 0,
{
    reader.config_mut().trim_text(trim);
}

/// Calls `quick_xml::reader::Reader::read_event` and hands on what it
/// returns, one variant for one. The contract claims that the event is the
/// value named `event_at` for the reader's bytes, its trimming and the
/// number of events it gave before, and that the reader has then given one
/// event more and is otherwise as before.
#[verifier::external_body]
fn next_event<'a>(reader: &mut quick_xml::reader::Reader<&'a [u8]>) -> (event: TagEvent)
    ensures
        event == event_at(
            reader_source(*old(reader)),
            reader_trims(*old(reader)),
            reader_count(*old(reader)),
        ),
        reader_count(*final(reader)) == reader_count(*old(reader)) + 1,
        reader_source(*final(reader)) == reader_source(*old(reader)),
        reader_trims(*final(reader)) == reader_trims(*old(reader)),
{
    match reader.read_event() {
        Ok(quick_xml::events::Event::Start(tag)) => TagEvent::Start(tag.name().as_ref().to_vec()),
        Ok(quick_xml::events::Event::End(tag)) => TagEvent::End(tag.name().as_ref().to_vec()),
        Ok(quick_xml::events::Event::Text(text)) => TagEvent::Text(text.into_owned()),
        Ok(quick_xml::events::Event::Eof) => TagEvent::Eof,
        Ok(_) => TagEvent::Other,
        Err(error) => TagEvent::Malformed(error),
    }
}

/// Calls `quick_xml::reader::Reader::buffer_position`: how many bytes the
/// reader has taken. The contract claims only that the number is the value
/// named `position_at`.
#[verifier::external_body]
fn buffer_position<'a>(reader: &quick_xml::reader::Reader<&'a [u8]>) -> (position: u64)
    ensures
        position == position_at(reader_source(*reader), reader_trims(*reader), reader_count(*reader)),
{
    reader.buffer_position()
}

/// Calls `quick_xml::reader::Reader::error_position`: where the last error
/// was found. The contract claims only that the number is the value named
/// `error_position_at`.
#[verifier::external_body]
fn error_position<'a>(reader: &quick_xml::reader::Reader<&'a [u8]>) -> (position: u64)
    ensures
        position == error_position_at(
            reader_source(*reader),
            reader_trims(*reader),
            reader_count(*reader),
        ),
{
    reader.error_position()
}

/// Calls `format!` with `{:?}` on a `quick_xml::errors::Error`: the error as
/// its type prints it. The contract claims only that the text is the value
/// named `error_text`.
#[verifier::external_body]
fn read_error_text(error: &quick_xml::errors::Error) -> (text: String)
    ensures
        text@ == error_text(*error),
{
    format!("{:?}", error)
}

/// How the warning for a malformed tag stream begins.
pub open spec fn malformed_start() -> Seq<char> {
    "Failed on read data from xml: "@
}

/// The warning for a tag stream that is malformed at `position`: what the
/// reader says of it, and where.
pub open spec fn malformed_text(error: quick_xml::errors::Error, position: u64) -> Seq<char> {
    malformed_start() + error_text(error) + " at position "@ + decimal_text(position as nat)
}

/// The warning for a reader that gave an event and took no bytes for it.
pub open spec fn stalled_text(position: u64) -> Seq<char> {
    "Reading of xml did not advance at position "@ + decimal_text(position as nat)
}

/// The warning for a tag stream that is malformed at `position`.
fn malformed_warning(error: &quick_xml::errors::Error, position: u64) -> (text: String)
    ensures
        text@ == malformed_text(*error, position),
{
    let mut text = String::from_str("Failed on read data from xml: ");
    text.append(read_error_text(error).as_str());
    text.append(" at position ");
    text.append(write_decimal(position).as_str());
    text
}

/// The warning for a reader that did not advance at `position`.
fn stalled_warning(position: u64) -> (text: String)
    ensures
        text@ == stalled_text(position),
{
    let mut text = String::from_str("Reading of xml did not advance at position ");
    text.append(write_decimal(position).as_str());
    text
}

/// How many bytes a document of `length` bytes has left once its reader
/// stands at `position`.
pub open spec fn left_at(length: nat, position: u64) -> nat {
    if position <= length {
        (length - position) as nat
    } else {
        0
    }
}

/// The measure with which the reading of a document of `length` bytes
/// starts: one more than its bytes, so that the end can still be read when
/// no byte is left.
pub open spec fn first_left(length: nat) -> nat {
    if length < u64::MAX {
        length + 1
    } else {
        length
    }
}

/// Why a text event cannot be decoded, if it is one that cannot.
pub open spec fn undecodable(event: TagEvent) -> Option<quick_xml::encoding::EncodingError> {
    match event {
        TagEvent::Text(text) => match decoded_text(text) {
            Err(error) => Some(error),
            Ok(_) => None,
        },
        _ => None,
    }
}

/// What the extractor is handed for an event of the reader: a tag that
/// opens or closes, a decoded text, and nothing for anything else.
pub open spec fn handed(event: TagEvent) -> Seq<EventView> {
    match event {
        TagEvent::Start(name) => seq![EventView::Enter(name@)],
        TagEvent::End(name) => seq![EventView::Exit(name@)],
        TagEvent::Text(text) => match decoded_text(text) {
            Ok(held) => seq![EventView::Text(held)],
            Err(_) => Seq::empty(),
        },
        _ => Seq::empty(),
    }
}

/// What is read of the document `xml` from the event numbered `count` on,
/// while `left` measures what the reader had left before it: the events
/// handed to the extractor, and the decoding error that ended the reading,
/// if one did.
///
/// The end of the document ends the reading. A malformed stream ends it
/// with a warning that says what the reader found and where. A text that
/// cannot be decoded ends it with the decoding error. After any other event
/// the reader must have fewer bytes left than before; where it has not, the
/// reading ends with a warning of its own.
pub open spec fn read_on(xml: Seq<u8>, count: nat, left: nat) -> (
    Seq<EventView>,
    Option<quick_xml::encoding::EncodingError>,
)
    decreases left,
{
    let event = event_at(xml, true, count);
    match event {
        TagEvent::Eof => (Seq::empty(), None),
        TagEvent::Malformed(error) => (
            seq![
                EventView::Malformed(
                    malformed_text(error, error_position_at(xml, true, count + 1)),
                ),
            ],
            None,
        ),
        _ => if undecodable(event) is Some {
            (Seq::empty(), undecodable(event))
        } else {
            let position = position_at(xml, true, count + 1);
            let now = left_at(xml.len(), position);
            let rest = if now < left {
                read_on(xml, count + 1, now)
            } else {
                (seq![EventView::Malformed(stalled_text(position))], None)
            };
            (handed(event) + rest.0, rest.1)
        },
    }
}

/// What is read of the document `xml` from its start.
pub open spec fn document_events(xml: Seq<u8>) -> (
    Seq<EventView>,
    Option<quick_xml::encoding::EncodingError>,
) {
    read_on(xml, 0, first_left(xml.len()))
}

/// Why the reading of a document was given up.
pub ghost enum ParseFault {
    /// A text could not be decoded: the decoding error.
    Undecodable(quick_xml::encoding::EncodingError),
    /// The search refused a pattern.
    Pattern,
}

/// The record of the document `xml` with the warnings of its reading, or
/// why the reading was given up: a text could not be decoded, or the record
/// needs a pattern that does not compile.
pub open spec fn parsed(xml: Seq<u8>) -> Result<(DataView, Seq<Seq<char>>), ParseFault> {
    let reading = document_events(xml);
    match reading.1 {
        Some(error) => Err(ParseFault::Undecodable(error)),
        None => match extracted(reading.0) {
            Some(outcome) => Ok(outcome),
            None => Err(ParseFault::Pattern),
        },
    }
}

/// Whether the error `error` is the one that the fault `fault` gives.
pub open spec fn failed_with(error: ParseErrors, fault: ParseFault) -> bool {
    match fault {
        ParseFault::Undecodable(cause) => error == ParseErrors::EncodingXMLError(cause),
        ParseFault::Pattern => error is PatternError,
    }
}

/// Whether `record` is what `outcome` says: the same record and warnings,
/// or the error of the same fault.
pub open spec fn parsed_as(
    record: Result<(Data, Vec<Warning>), ParseErrors>,
    outcome: Result<(DataView, Seq<Seq<char>>), ParseFault>,
) -> bool {
    match record {
        Ok(found) => outcome == Ok::<(DataView, Seq<Seq<char>>), ParseFault>(
            (found.0@, found.1.deep_view()),
        ),
        Err(error) => outcome matches Err(fault) && failed_with(error, fault),
    }
}

/// Reads the record of one document from its bytes.
///
/// The tag stream is read event by event and handed to the field extractor,
/// and the record is built from what the extractor found when the document
/// ends. A malformed stream leaves a warning and ends the reading early; the
/// record is then built from what was found up to there. So does a reader
/// that gives an event and takes no bytes for it. The run is given up only
/// where a text cannot be decoded or the search refuses a pattern.
pub fn parse_file(xml: &[u8]) -> (record: Result<(Data, Vec<Warning>), ParseErrors>)
    ensures
        parsed_as(record, parsed(xml@)),
{
    let mut reader = open_reader(xml);
    trim_text(&mut reader, true);
    let mut state = Extractor::new();
    let ghost source = xml@;
    let ghost mut done: Seq<EventView> = Seq::empty();
    let ghost mut count: nat = 0;
    let length: u64 = xml.len() as u64;
    let mut left: u64 = if length < u64::MAX {
        length + 1
    } else {
        length
    };
    let mut reading = true;
    assert(done + read_on(source, 0, left as nat).0 =~= read_on(source, 0, left as nat).0);
    while reading
        invariant
            source == xml@,
            length == source.len(),
            reader_source(reader) == source,
            reader_trims(reader),
            reader_count(reader) == count,
            state@ == run(done),
            reading ==> !state.stopped,
            reading ==> document_events(source) == (
                done + read_on(source, count, left as nat).0,
                read_on(source, count, left as nat).1,
            ),
            !reading ==> document_events(source) == (
                done,
                None::<quick_xml::encoding::EncodingError>,
            ),
        decreases left + (if reading { 1int } else { 0int }),
    {
        let ghost rest = read_on(source, count, left as nat);
        let ghost event_now = event_at(source, true, count);
        let ghost start = done;
        match next_event(&mut reader) {
            TagEvent::Malformed(error) => {
                let position = error_position(&reader);
                let warning = DocumentEvent::Malformed(malformed_warning(&error, position));
                proof {
                    lemma_run_push(done, warning@);
                    assert(done + rest.0 =~= done.push(warning@));
                    done = done.push(warning@);
                }
                state.feed(&warning);
                reading = false;
            },
            TagEvent::Start(name) => {
                proof {
                    lemma_run_push(done, EventView::Enter(name@));
                    assert(start + handed(event_now) =~= done.push(EventView::Enter(name@)));
                    done = done.push(EventView::Enter(name@));
                }
                match_tag(name.as_slice(), &mut state.flags, &mut state.backtrack);
            },
            TagEvent::End(name) => {
                proof {
                    lemma_run_push(done, EventView::Exit(name@));
                    assert(start + handed(event_now) =~= done.push(EventView::Exit(name@)));
                    done = done.push(EventView::Exit(name@));
                }
                match_tag(name.as_slice(), &mut state.flags, &mut state.backtrack);
            },
            TagEvent::Text(text) => {
                match match_text(&state.flags, &text, &mut state.fields) {
                    Ok(_) => {
                        proof {
                            let held = decoded_text(text)->Ok_0;
                            lemma_run_push(done, EventView::Text(held));
                            assert(start + handed(event_now) =~= done.push(EventView::Text(held)));
                            done = done.push(EventView::Text(held));
                        }
                    },
                    Err(error) => {
                        proof {
                            assert(undecodable(event_now) == Some(error));
                            assert(done + rest.0 =~= done);
                        }
                        return Err(ParseErrors::EncodingXMLError(error));
                    },
                }
            },
            TagEvent::Eof => {
                proof {
                    assert(done + rest.0 =~= done);
                }
                reading = false;
            },
            TagEvent::Other => {
                proof {
                    assert(start + handed(event_now) =~= done);
                }
            },
        }
        if reading {
            let position = buffer_position(&reader);
            let now: u64 = if position <= length {
                length - position
            } else {
                0
            };
            if now < left {
                proof {
                    let further = read_on(source, count + 1, now as nat);
                    assert(start + rest.0 =~= done + further.0);
                }
                left = now;
            } else {
                let warning = DocumentEvent::Malformed(stalled_warning(position));
                proof {
                    lemma_run_push(done, warning@);
                    assert(start + rest.0 =~= done.push(warning@));
                    done = done.push(warning@);
                }
                state.feed(&warning);
                reading = false;
            }
        }
        proof {
            count = count + 1;
        }
    }
    state.finish()
}

/// The text that the group at `index` of a match matched, and the empty
/// text where the match has no such group or the group took no part.
pub open spec fn group_text(groups: Seq<Option<Seq<char>>>, index: int) -> Seq<char> {
    if 0 <= index < groups.len() && groups[index] is Some {
        groups[index].unwrap()
    } else {
        Seq::empty()
    }
}

/// Why a match in a dispatch e-mail gives no commercial facts.
pub ghost enum Fault {
    /// The text of the load number writes no number of 32 bits.
    Number(Seq<char>),
    /// The text of the price writes no amount that fits.
    Amount(Seq<char>),
}

/// The commercial facts that one match gives: load number, price in cents
/// and plate, from the first, third and second group in brackets. The load
/// number is looked at first.
pub open spec fn fact_of(groups: Seq<Option<Seq<char>>>) -> Result<(LoadNumber, i64, Seq<char>), Fault> {
    match unsigned_value(group_text(groups, 1), u32::MAX as nat) {
        None => Err(Fault::Number(group_text(groups, 1))),
        Some(number) => match price_value(group_text(groups, 3)) {
            None => Err(Fault::Amount(group_text(groups, 3))),
            Some(cents) => Ok((number as u32, cents as i64, group_text(groups, 2))),
        },
    }
}

/// The commercial facts that the matches give, by load number; a load that
/// is named again takes the place of the one named before. The first match
/// that gives no facts is the fault of the whole.
pub open spec fn facts_of(matches: Seq<Seq<Option<Seq<char>>>>) -> Result<
    Map<LoadNumber, (i64, Seq<char>)>,
    Fault,
>
    decreases matches.len(),
{
    if matches.len() == 0 {
        Ok(Map::empty())
    } else {
        match facts_of(matches.drop_last()) {
            Err(fault) => Err(fault),
            Ok(facts) => match fact_of(matches.last()) {
                Err(fault) => Err(fault),
                Ok(fact) => Ok(facts.insert(fact.0, (fact.1, fact.2))),
            },
        }
    }
}

/// Whether the error `error` reports the fault `fault`.
pub open spec fn reports(error: ParseErrors, fault: Fault) -> bool {
    match fault {
        Fault::Number(text) => error matches ParseErrors::ParseInt(held) && held@ == text,
        Fault::Amount(text) => error matches ParseErrors::ParseFloat(held) && held@ == text,
    }
}

/// The text that the group at `index` of a match matched.
fn group_text_of(groups: &Groups, index: usize) -> (text: String)
    ensures
        text@ == group_text(groups_view(groups@), index as int),
{
    if index < groups.len() {
        match &groups[index] {
            Some(text) => text.clone(),
            None => String::new(),
        }
    } else {
        String::new()
    }
}

/// The commercial facts that the matches `matches` of the e-mail pattern
/// give. The run is given up at the first match whose load number or price
/// cannot be read.
pub fn email_data_from(matches: &Vec<Groups>) -> (data: Result<EmailData, ParseErrors>)
    ensures
        data is Ok == facts_of(matches_view(matches@)) is Ok,
        data is Ok ==> facts_of(matches_view(matches@)) == Ok::<_, Fault>(
            facts_view(data.unwrap()@),
        ),
        data matches Err(error) ==> (facts_of(matches_view(matches@)) matches Err(fault)
            && reports(error, fault)),
{
    broadcast use vstd::std_specs::hash::group_hash_axioms;

    let ghost all = matches_view(matches@);
    let mut data: EmailData = EmailData::new();
    let mut i: usize = 0;
    assert(all.take(0) =~= Seq::empty());
    assert(facts_view(data@) =~= Map::empty());
    while i < matches.len()
        invariant
            i <= matches.len(),
            all == matches_view(matches@),
            facts_of(all.take(i as int)) == Ok::<_, Fault>(facts_view(data@)),
        decreases matches.len() - i,
    {
        proof {
            assert(all.take(i + 1).drop_last() =~= all.take(i as int));
            assert(all.take(i + 1).last() == groups_view(matches@[i as int]@));
        }
        let number_text = group_text_of(&matches[i], 1);
        let load_number = match parse_unsigned(number_text.as_str(), 0xffff_ffff) {
            Some(number) => number as u32,
            None => {
                proof {
                    lemma_facts_fault(all, i + 1);
                }
                return Err(ParseErrors::ParseInt(number_text));
            },
        };
        let price_text = group_text_of(&matches[i], 3);
        let price = match parse_price(price_text.as_str()) {
            Some(cents) => cents,
            None => {
                proof {
                    lemma_facts_fault(all, i + 1);
                }
                return Err(ParseErrors::ParseFloat(price_text));
            },
        };
        let license_plate = group_text_of(&matches[i], 2);
        let ghost held = facts_view(data@);
        data.insert(load_number, EmailLoadData { price, license_plate });
        assert(facts_view(data@) =~= held.insert(load_number, (price, license_plate@)));
        i += 1;
    }
    assert(all.take(i as int) =~= all);
    Ok(data)
}

/// A fault among the first `count` matches is the fault of the whole.
pub proof fn lemma_facts_fault(matches: Seq<Seq<Option<Seq<char>>>>, count: int)
    requires
        0 <= count <= matches.len(),
        facts_of(matches.take(count)) is Err,
    ensures
        facts_of(matches) == facts_of(matches.take(count)),
    decreases matches.len() - count,
{
    if count == matches.len() {
        assert(matches.take(count) =~= matches);
    } else {
        assert(matches.take(count + 1).drop_last() =~= matches.take(count));
        lemma_facts_fault(matches, count + 1);
    }
}

/// Reads the commercial facts of the loads from the text of a dispatch
/// e-mail: the text is put into lower case and searched for the e-mail
/// pattern, and each match gives the facts of one load.
pub fn parse_email(text: &String) -> (data: Result<EmailData, ParseErrors>)
    ensures
        !pattern_compiles(email_pattern()) ==> data is Err && data.unwrap_err() is PatternError,
        pattern_compiles(email_pattern()) ==> ({
            let found = facts_of(all_captured(email_pattern(), lowercased(text@)));
            &&& data is Ok == found is Ok
            &&& data is Ok ==> found == Ok::<_, Fault>(facts_view(data.unwrap()@))
            &&& data matches Err(error) ==> (found matches Err(fault) && reports(error, fault))
        }),
{
    let lower = lowercase(text.as_str());
    match find_all(email_text(), lower.as_str()) {
        Ok(matches) => email_data_from(&matches),
        Err(error) => Err(ParseErrors::PatternError(error)),
    }
}

/// The place of the group with the load number `number` in `groups`, or
/// their number where no group has it.
pub open spec fn group_index(groups: Seq<(LoadNumber, Seq<DataView>)>, number: LoadNumber) -> int
    decreases groups.len(),
{
    if groups.len() == 0 {
        0
    } else if groups[0].0 == number {
        0
    } else {
        1 + group_index(groups.drop_first(), number)
    }
}

/// The groups `groups` with the record `record`: it goes to the end of the
/// group of its load number, or it opens that group after the others.
pub open spec fn grouped_with(groups: Seq<(LoadNumber, Seq<DataView>)>, record: DataView) -> Seq<
    (LoadNumber, Seq<DataView>),
> {
    let place = group_index(groups, record.load_number);
    if place == groups.len() {
        groups.push((record.load_number, seq![record]))
    } else {
        groups.update(place, (groups[place].0, groups[place].1.push(record)))
    }
}

/// The records `records` grouped by load number.
pub open spec fn grouped(records: Seq<DataView>) -> Seq<(LoadNumber, Seq<DataView>)>
    decreases records.len(),
{
    if records.len() == 0 {
        Seq::empty()
    } else {
        grouped_with(grouped(records.drop_last()), records.last())
    }
}

/// The place of a group is the one place with no group of that number
/// before it and the group of that number, or the end, at it.
pub proof fn lemma_group_index(groups: Seq<(LoadNumber, Seq<DataView>)>, number: LoadNumber, place: int)
    requires
        0 <= place <= groups.len(),
        forall|q: int| 0 <= q < place ==> (#[trigger] groups[q]).0 != number,
        place < groups.len() ==> groups[place].0 == number,
    ensures
        group_index(groups, number) == place,
    decreases groups.len(),
{
    if groups.len() > 0 && place > 0 {
        assert(groups[0].0 != number);
        let rest = groups.drop_first();
        assert forall|q: int| 0 <= q < place - 1 implies (#[trigger] rest[q]).0 != number by {
            assert(groups[q + 1].0 != number);
        }
        lemma_group_index(rest, number, place - 1);
    }
}

/// The place of a group lies within the list, no group before it has the
/// number, and the group at it does unless it is the end.
pub proof fn lemma_group_index_bounds(groups: Seq<(LoadNumber, Seq<DataView>)>, number: LoadNumber)
    ensures
        0 <= group_index(groups, number) <= groups.len(),
        forall|q: int| 0 <= q < group_index(groups, number) ==> (#[trigger] groups[q]).0 != number,
        group_index(groups, number) < groups.len() ==> groups[group_index(groups, number)].0
            == number,
    decreases groups.len(),
{
    if groups.len() > 0 && groups[0].0 != number {
        let rest = groups.drop_first();
        lemma_group_index_bounds(rest, number);
        let place = group_index(groups, number);
        assert forall|q: int| 0 <= q < place implies (#[trigger] groups[q]).0 != number by {
            if q > 0 {
                assert(rest[q - 1].0 != number);
            }
        }
        if place < groups.len() {
            assert(rest[place - 1] == groups[place]);
        }
    }
}

/// Whether every group holds records of its own load number only, and no
/// two groups have the same number.
pub open spec fn well_sorted(groups: Seq<(LoadNumber, Seq<DataView>)>) -> bool {
    &&& forall|a: int, b: int| 0 <= a < b < groups.len() ==> groups[a].0 != groups[b].0
    &&& forall|g: int, r: int|
        0 <= g < groups.len() && 0 <= r < groups[g].1.len() ==> (#[trigger] groups[g].1[r]).load_number
            == groups[g].0
}

/// Grouping puts every record under its own load number, and gives each
/// load number one group.
pub proof fn lemma_grouped_well_sorted(records: Seq<DataView>)
    ensures
        well_sorted(grouped(records)),
    decreases records.len(),
{
    if records.len() > 0 {
        let before = grouped(records.drop_last());
        let record = records.last();
        let after = grouped(records);
        lemma_grouped_well_sorted(records.drop_last());
        lemma_group_index_bounds(before, record.load_number);
        let place = group_index(before, record.load_number);
        assert forall|a: int, b: int| 0 <= a < b < after.len() implies after[a].0 != after[b].0 by {
            if place == before.len() && b == place {
                assert(before[a].0 != record.load_number);
            } else {
                assert(before[a].0 != before[b].0);
            }
        }
        assert forall|g: int, r: int|
            0 <= g < after.len() && 0 <= r < after[g].1.len() implies (#[trigger] after[g].1[r]).load_number
            == after[g].0 by {
            if g == place {
                if place < before.len() && r < before[g].1.len() {
                    assert(before[g].1[r].load_number == before[g].0);
                }
            } else {
                assert(before[g].1[r].load_number == before[g].0);
            }
        }
    }
}

/// The records of `records` with the load number `number`, in their order.
pub open spec fn records_with(records: Seq<DataView>, number: LoadNumber) -> Seq<DataView>
    decreases records.len(),
{
    if records.len() == 0 {
        Seq::empty()
    } else if records.last().load_number == number {
        records_with(records.drop_last(), number).push(records.last())
    } else {
        records_with(records.drop_last(), number)
    }
}

/// Where no record has the load number, none is found with it.
proof fn lemma_records_with_none(records: Seq<DataView>, number: LoadNumber)
    requires
        forall|i: int| 0 <= i < records.len() ==> (#[trigger] records[i]).load_number != number,
    ensures
        records_with(records, number) == Seq::<DataView>::empty(),
    decreases records.len(),
{
    if records.len() > 0 {
        let rest = records.drop_last();
        assert(records[records.len() - 1].load_number != number);
        assert forall|i: int| 0 <= i < rest.len() implies (#[trigger] rest[i]).load_number
            != number by {
            assert(records[i].load_number != number);
        }
        lemma_records_with_none(rest, number);
    }
}

/// Grouping loses and adds nothing: the group of a load number holds the
/// records with that number, all of them and in their order, no group is
/// empty, and every record's load number has a group.
pub proof fn lemma_grouped_holds_records(records: Seq<DataView>)
    ensures
        forall|g: int|
            0 <= g < grouped(records).len() ==> (#[trigger] grouped(records)[g]).1 == records_with(
                records,
                grouped(records)[g].0,
            ) && grouped(records)[g].1.len() > 0,
        forall|i: int|
            0 <= i < records.len() ==> group_index(
                grouped(records),
                (#[trigger] records[i]).load_number,
            ) < grouped(records).len(),
    decreases records.len(),
{
    if records.len() > 0 {
        let rest = records.drop_last();
        let record = records.last();
        let number = record.load_number;
        let before = grouped(rest);
        let after = grouped(records);
        lemma_grouped_holds_records(rest);
        lemma_grouped_well_sorted(rest);
        lemma_group_index_bounds(before, number);
        let place = group_index(before, number);
        if place == before.len() {
            assert forall|i: int| 0 <= i < rest.len() implies (#[trigger] rest[i]).load_number
                != number by {
                lemma_group_index_bounds(before, rest[i].load_number);
            }
            lemma_records_with_none(rest, number);
        }
        assert forall|g: int| 0 <= g < after.len() implies (#[trigger] after[g]).1 == records_with(
            records,
            after[g].0,
        ) && after[g].1.len() > 0 by {
            if g < before.len() {
                assert(before[g].1 == records_with(rest, before[g].0));
                if g != place && place < before.len() {
                    assert(before[g].0 != before[place].0);
                }
            }
        }
        assert forall|i: int| 0 <= i < records.len() implies group_index(
            after,
            (#[trigger] records[i]).load_number,
        ) < after.len() by {
            let wanted = records[i].load_number;
            let found = if i < rest.len() {
                group_index(before, wanted)
            } else {
                place
            };
            if i < rest.len() {
                assert(rest[i] == records[i]);
                assert(found < before.len());
            }
            lemma_group_index_bounds(before, wanted);
            assert forall|q: int| 0 <= q < found implies (#[trigger] after[q]).0 != wanted by {
                assert(before[q].0 != wanted);
            }
            lemma_group_index(after, wanted, found);
        }
    }
}

/// Puts the record `data` into the group of its load number.
pub fn group_record(all_data: &mut MultipleData, data: Data)
    ensures
        final(all_data).deep_view() == grouped_with(old(all_data).deep_view(), data@),
{
    let ghost before = all_data.deep_view();
    let mut place: usize = 0;
    while place < all_data.len() && all_data[place].load_number != data.load_number
        invariant
            place <= all_data.len(),
            *all_data == *old(all_data),
            before == all_data.deep_view(),
            forall|q: int| 0 <= q < place ==> (#[trigger] before[q]).0 != data.load_number,
        decreases all_data.len() - place,
    {
        assert(before[place as int].0 == all_data@[place as int].load_number);
        place += 1;
    }
    proof {
        if place < all_data.len() {
            assert(before[place as int].0 == all_data@[place as int].load_number);
        }
        lemma_group_index(before, data.load_number, place as int);
    }
    let ghost record = data@;
    if place == all_data.len() {
        let load_number = data.load_number;
        let mut records: Vec<Data> = Vec::new();
        records.push(data);
        assert(records.deep_view() =~= seq![record]);
        all_data.push(LoadRecords { load_number, records });
        assert(all_data.deep_view() =~= grouped_with(before, record));
    } else {
        let ghost held = all_data@[place as int].records.deep_view();
        all_data[place].records.push(data);
        assert(all_data@[place as int].records.deep_view() =~= held.push(record));
        assert(all_data.deep_view() =~= grouped_with(before, record));
    }
}

/// The records of the outcomes `outcomes`, one of each, in their order.
pub open spec fn records_of(outcomes: Seq<(DataView, Seq<Seq<char>>)>) -> Seq<DataView> {
    Seq::new(outcomes.len(), |i: int| outcomes[i].0)
}

/// The warnings of the outcomes `outcomes`, those of one outcome after those
/// of the one before.
pub open spec fn warnings_of(outcomes: Seq<(DataView, Seq<Seq<char>>)>) -> Seq<Seq<char>>
    decreases outcomes.len(),
{
    if outcomes.len() == 0 {
        Seq::empty()
    } else {
        warnings_of(outcomes.drop_last()) + outcomes.last().1
    }
}

/// Whether every document of `files` gives a record.
pub open spec fn all_parse(files: Seq<Seq<u8>>) -> bool {
    forall|i: int| 0 <= i < files.len() ==> (#[trigger] parsed(files[i])) is Ok
}

/// The record and the warnings of each document of `files`, in their order.
pub open spec fn outcomes_of(files: Seq<Seq<u8>>) -> Seq<(DataView, Seq<Seq<char>>)> {
    Seq::new(files.len(), |i: int| parsed(files[i])->Ok_0)
}

/// Whether the document at `place` is the first of `files` that gives no
/// record, and `error` is the error of its fault.
pub open spec fn first_failure(files: Seq<Seq<u8>>, place: int, error: ParseErrors) -> bool {
    &&& 0 <= place < files.len()
    &&& forall|i: int| 0 <= i < place ==> (#[trigger] parsed(files[i])) is Ok
    &&& parsed(files[place]) matches Err(fault) && failed_with(error, fault)
}

/// Reads the records of a batch of documents, each given as its bytes, and
/// groups them by load number; the warnings of all documents follow one
/// another in the order of the documents. The run is given up at the first
/// document that gives no record, with the error of that document.
pub fn parse_multiple(files: &Vec<Vec<u8>>) -> (batch: Result<(MultipleData, Vec<Warning>), ParseErrors>)
    ensures
        batch is Ok == all_parse(files.deep_view()),
        batch matches Ok(found) ==> found.0.deep_view() == grouped(
            records_of(outcomes_of(files.deep_view())),
        ) && found.1.deep_view() == warnings_of(outcomes_of(files.deep_view())),
        batch matches Err(error) ==> exists|place: int|
            first_failure(files.deep_view(), place, error),
{
    let ghost all = files.deep_view();
    let mut all_data: MultipleData = Vec::new();
    let mut errors: Vec<Warning> = Vec::new();
    let ghost mut outcomes: Seq<(DataView, Seq<Seq<char>>)> = Seq::empty();
    let mut i: usize = 0;
    assert(records_of(outcomes) =~= Seq::empty());
    assert(all_data.deep_view() =~= grouped(records_of(outcomes)));
    assert(errors.deep_view() =~= warnings_of(outcomes));
    while i < files.len()
        invariant
            i <= files.len(),
            all == files.deep_view(),
            outcomes.len() == i,
            forall|k: int| 0 <= k < i ==> (#[trigger] parsed(all[k])) is Ok,
            forall|k: int| 0 <= k < i ==> outcomes[k] == parsed(all[k])->Ok_0,
            all_data.deep_view() == grouped(records_of(outcomes)),
            errors.deep_view() == warnings_of(outcomes),
        decreases files.len() - i,
    {
        assert(all[i as int] == files@[i as int]@);
        let (data, mut parse_errors) = match parse_file(files[i].as_slice()) {
            Ok(parsed) => parsed,
            Err(error) => {
                proof {
                    assert(first_failure(all, i as int, error));
                    assert(!(parsed(all[i as int]) is Ok));
                }
                return Err(error);
            },
        };
        let ghost outcome = (data@, parse_errors.deep_view());
        let ghost held = errors.deep_view();
        errors.append(&mut parse_errors);
        proof {
            assert(errors.deep_view() =~= held + outcome.1);
            let longer = outcomes.push(outcome);
            assert(longer.drop_last() =~= outcomes);
            assert(records_of(longer).drop_last() =~= records_of(outcomes));
            assert(records_of(longer).last() == data@);
            outcomes = longer;
        }
        group_record(&mut all_data, data);
        i += 1;
    }
    proof {
        assert(outcomes =~= outcomes_of(all));
    }
    Ok((all_data, errors))
}

} // verus!
