//! How tags and text of a shipping document act on the extractor's state.

use vstd::prelude::*;
use crate::constants::{
    ACCESS_KEY_FLAG, ACCESS_KEY_TAG, DANFE_FLAG, DANFE_TAG, LOAD_CUBICAGE_FLAG, LOAD_CUBICAGE_TAG,
    QUANTITY_FLAG, QUANTITY_TAG, RAZAO_SOCIAL_BACKTRACK_FLAG, RAZAO_SOCIAL_FIRST_TAG,
    RAZAO_SOCIAL_FLAG, SHIPPING_COMPANY_BACKTRACK_FLAG, SHIPPING_COMPANY_FIRST_TAG,
    SHIPPING_COMPANY_FLAG, X_NOME,
};
use crate::data::flags::{check_flag, update_flag};

verus! {

/// The field flags after a display-name tag: the client's flag toggles where
/// the reader is inside the client's record, and the carrier's flag where it
/// is inside the carrier's.
pub open spec fn flags_after_name(flags: u8, backtrack: u8) -> u8 {
    let client = if backtrack & RAZAO_SOCIAL_BACKTRACK_FLAG == RAZAO_SOCIAL_BACKTRACK_FLAG {
        flags ^ RAZAO_SOCIAL_FLAG
    } else {
        flags
    };
    if backtrack & SHIPPING_COMPANY_BACKTRACK_FLAG == SHIPPING_COMPANY_BACKTRACK_FLAG {
        client ^ SHIPPING_COMPANY_FLAG
    } else {
        client
    }
}

/// The field flags and the backtrack flags after the start or the end of the
/// tag `tag`. A tag with a field of its own toggles that field's flag, a tag
/// that encloses a record toggles that record's backtrack flag, the
/// display-name tag acts as `flags_after_name` says, and any other tag
/// leaves both sets as they are.
pub open spec fn after_tag(tag: Seq<u8>, flags: u8, backtrack: u8) -> (u8, u8) {
    if tag == DANFE_TAG@ {
        (flags ^ DANFE_FLAG, backtrack)
    } else if tag == LOAD_CUBICAGE_TAG@ {
        (flags ^ LOAD_CUBICAGE_FLAG, backtrack)
    } else if tag == RAZAO_SOCIAL_FIRST_TAG@ {
        (flags, backtrack ^ RAZAO_SOCIAL_BACKTRACK_FLAG)
    } else if tag == SHIPPING_COMPANY_FIRST_TAG@ {
        (flags, backtrack ^ SHIPPING_COMPANY_BACKTRACK_FLAG)
    } else if tag == X_NOME@ {
        (flags_after_name(flags, backtrack), backtrack)
    } else if tag == QUANTITY_TAG@ {
        (flags ^ QUANTITY_FLAG, backtrack)
    } else if tag == ACCESS_KEY_TAG@ {
        (flags ^ ACCESS_KEY_FLAG, backtrack)
    } else {
        (flags, backtrack)
    }
}

/// Whether the tag name `name` is the tag `tag`, byte for byte.
fn is_tag<const N: usize>(name: &[u8], tag: &[u8; N]) -> (same: bool)
    ensures
        same == (name@ == tag@),
{
    if name.len() != N {
        return false;
    }
    let mut i: usize = 0;
    while i < N
        invariant
            name@.len() == N,
            tag@.len() == N,
            i <= N,
            forall|k: int| 0 <= k < i ==> name@[k] == tag@[k],
        decreases N - i,
    {
        if name[i] != tag[i] {
            return false;
        }
        i += 1;
    }
    assert(name@ =~= tag@);
    true
}

/// Applies the start or the end of the tag `tag_name` to the two flag sets.
pub fn match_tag(tag_name: &[u8], flags: &mut u8, backtrack: &mut u8)
    ensures
        (*final(flags), *final(backtrack)) == after_tag(tag_name@, *old(flags), *old(backtrack)),
{
    if is_tag(tag_name, &DANFE_TAG) {
        update_flag(flags, DANFE_FLAG);
    } else if is_tag(tag_name, &LOAD_CUBICAGE_TAG) {
        update_flag(flags, LOAD_CUBICAGE_FLAG);
    } else if is_tag(tag_name, &RAZAO_SOCIAL_FIRST_TAG) {
        update_flag(backtrack, RAZAO_SOCIAL_BACKTRACK_FLAG);
    } else if is_tag(tag_name, &SHIPPING_COMPANY_FIRST_TAG) {
        update_flag(backtrack, SHIPPING_COMPANY_BACKTRACK_FLAG);
    } else if is_tag(tag_name, &X_NOME) {
        if check_flag(backtrack, RAZAO_SOCIAL_BACKTRACK_FLAG) {
            update_flag(flags, RAZAO_SOCIAL_FLAG);
        }
        if check_flag(backtrack, SHIPPING_COMPANY_BACKTRACK_FLAG) {
            update_flag(flags, SHIPPING_COMPANY_FLAG);
        }
    } else if is_tag(tag_name, &QUANTITY_TAG) {
        update_flag(flags, QUANTITY_FLAG);
    } else if is_tag(tag_name, &ACCESS_KEY_TAG) {
        update_flag(flags, ACCESS_KEY_FLAG);
    }
}

/// A tag that is entered and then left restores both flag sets: each bit it
/// touches is flipped twice.
pub proof fn lemma_tag_twice_restores(tag: Seq<u8>, flags: u8, backtrack: u8)
    ensures
        ({
            let once = after_tag(tag, flags, backtrack);
            after_tag(tag, once.0, once.1) == (flags, backtrack)
        }),
{
    assert(((flags ^ 1u8) ^ 1u8) == flags) by (bit_vector);
    assert(((flags ^ 2u8) ^ 2u8) == flags) by (bit_vector);
    assert(((flags ^ 4u8) ^ 4u8) == flags) by (bit_vector);
    assert(((flags ^ 8u8) ^ 8u8) == flags) by (bit_vector);
    assert(((flags ^ 16u8) ^ 16u8) == flags) by (bit_vector);
    assert(((flags ^ 32u8) ^ 32u8) == flags) by (bit_vector);
    assert((((flags ^ 2u8) ^ 4u8) ^ 2u8) ^ 4u8 == flags) by (bit_vector);
    assert(((backtrack ^ 1u8) ^ 1u8) == backtrack) by (bit_vector);
    assert(((backtrack ^ 2u8) ^ 2u8) == backtrack) by (bit_vector);
}

/// `quick_xml::events::BytesText`, the text of a text event as the reader
/// found it. The library hands it to `decode` and never looks inside.
#[verifier::external_type_specification]
#[verifier::external_body]
pub struct ExBytesText<'a>(quick_xml::events::BytesText<'a>);

/// `quick_xml::encoding::EncodingError`, why a text could not be decoded.
/// The library hands it on and never looks inside.
#[verifier::external_type_specification]
#[verifier::external_body]
pub struct ExEncodingError(quick_xml::encoding::EncodingError);

/// The texts found so far, one slot for each field of a document.
#[derive(Debug)]
pub struct FieldMap {
    pub danfe: Option<String>,
    pub to: Option<String>,
    pub by: Option<String>,
    pub info: Option<String>,
    pub quantity: Option<String>,
    pub access_key: Option<String>,
}

/// The slots as plain values.
pub ghost struct FieldsView {
    pub danfe: Option<Seq<char>>,
    pub to: Option<Seq<char>>,
    pub by: Option<Seq<char>>,
    pub info: Option<Seq<char>>,
    pub quantity: Option<Seq<char>>,
    pub access_key: Option<Seq<char>>,
}

impl View for FieldMap {
    type V = FieldsView;

    open spec fn view(&self) -> FieldsView {
        FieldsView {
            danfe: self.danfe.deep_view(),
            to: self.to.deep_view(),
            by: self.by.deep_view(),
            info: self.info.deep_view(),
            quantity: self.quantity.deep_view(),
            access_key: self.access_key.deep_view(),
        }
    }
}

/// The slots with nothing found.
pub open spec fn no_fields() -> FieldsView {
    FieldsView { danfe: None, to: None, by: None, info: None, quantity: None, access_key: None }
}

/// What the slot `slot` holds after the text `text` was read under the
/// field flags `flags`: the text where the flag `flag` is set, and what it
/// held before otherwise.
pub open spec fn slot_after(slot: Option<Seq<char>>, flags: u8, flag: u8, text: Seq<char>) -> Option<
    Seq<char>,
> {
    if flags & flag == flag {
        Some(text)
    } else {
        slot
    }
}

/// The slots after the text `text` was read under the field flags `flags`:
/// every field whose flag is set takes the text, in place of what it held.
pub open spec fn stored(fields: FieldsView, flags: u8, text: Seq<char>) -> FieldsView {
    FieldsView {
        danfe: slot_after(fields.danfe, flags, DANFE_FLAG, text),
        to: slot_after(fields.to, flags, RAZAO_SOCIAL_FLAG, text),
        by: slot_after(fields.by, flags, SHIPPING_COMPANY_FLAG, text),
        info: slot_after(fields.info, flags, LOAD_CUBICAGE_FLAG, text),
        quantity: slot_after(fields.quantity, flags, QUANTITY_FLAG, text),
        access_key: slot_after(fields.access_key, flags, ACCESS_KEY_FLAG, text),
    }
}

impl FieldMap {
    /// Slots with nothing found.
    pub fn new() -> (fields: Self)
        ensures
            fields@ == no_fields(),
    {
        FieldMap { danfe: None, to: None, by: None, info: None, quantity: None, access_key: None }
    }
}

/// Stores the text `text` in the slot of every field whose flag is set in
/// `flags`.
pub fn store_text(flags: &u8, text: &str, tmp_data: &mut FieldMap)
    ensures
        final(tmp_data)@ == stored(old(tmp_data)@, *flags, text@),
{
    if check_flag(flags, DANFE_FLAG) {
        tmp_data.danfe = Some(String::from_str(text));
    }
    if check_flag(flags, RAZAO_SOCIAL_FLAG) {
        tmp_data.to = Some(String::from_str(text));
    }
    if check_flag(flags, SHIPPING_COMPANY_FLAG) {
        tmp_data.by = Some(String::from_str(text));
    }
    if check_flag(flags, LOAD_CUBICAGE_FLAG) {
        tmp_data.info = Some(String::from_str(text));
    }
    if check_flag(flags, QUANTITY_FLAG) {
        tmp_data.quantity = Some(String::from_str(text));
    }
    if check_flag(flags, ACCESS_KEY_FLAG) {
        tmp_data.access_key = Some(String::from_str(text));
    }
}

/// What `quick_xml::events::BytesText::decode` makes of a text event: the
/// text that its bytes write, or why they write none.
pub uninterp spec fn decoded_text(text: quick_xml::events::BytesText) -> Result<
    Seq<char>,
    quick_xml::encoding::EncodingError,
>;

/// The outcome of a decoding as plain values.
pub open spec fn decoding_view(decoded: Result<String, quick_xml::encoding::EncodingError>) -> Result<
    Seq<char>,
    quick_xml::encoding::EncodingError,
> {
    match decoded {
        Ok(held) => Ok(held@),
        Err(error) => Err(error),
    }
}

/// Calls `quick_xml::events::BytesText::decode`, which reads the bytes of a
/// text event in the document's encoding. The contract claims only that the
/// result is the value named `decoded_text`, which depends on the event
/// alone.
#[verifier::external_body]
fn decode(text: &quick_xml::events::BytesText) -> (decoded: Result<
    String,
    quick_xml::encoding::EncodingError,
>)
    ensures
        decoding_view(decoded) == decoded_text(*text),
{
    text.decode().map(|decoded| decoded.into_owned())
}

/// Decodes the text event `text` and stores what it holds in the slot of
/// every field whose flag is set in `flags`. Where the text cannot be
/// decoded the slots stay as they are.
pub fn match_text(flags: &u8, text: &quick_xml::events::BytesText, tmp_data: &mut FieldMap) -> (done:
    Result<(), quick_xml::encoding::EncodingError>)
    ensures
        done is Ok == decoded_text(*text) is Ok,
        decoded_text(*text) matches Ok(held) ==> final(tmp_data)@ == stored(
            old(tmp_data)@,
            *flags,
            held,
        ),
        decoded_text(*text) matches Err(error) ==> done == Err::<
            (),
            quick_xml::encoding::EncodingError,
        >(error) && final(tmp_data)@ == old(tmp_data)@,
{
    store_decoded(flags, decode(text), tmp_data)
}

/// Stores what the decoding of a text event gave. A decoded text goes to the
/// slot of every field whose flag is set in `flags`; a decoding error is
/// handed back as it is, and the slots stay as they are.
pub fn store_decoded(
    flags: &u8,
    decoded: Result<String, quick_xml::encoding::EncodingError>,
    tmp_data: &mut FieldMap,
) -> (done: Result<(), quick_xml::encoding::EncodingError>)
    ensures
        decoded matches Ok(text) ==> done is Ok && final(tmp_data)@ == stored(
            old(tmp_data)@,
            *flags,
            text@,
        ),
        decoded matches Err(error) ==> done == Err::<(), quick_xml::encoding::EncodingError>(error)
            && final(tmp_data)@ == old(tmp_data)@,
{
    match decoded {
        Ok(text_data) => {
            store_text(flags, text_data.as_str(), tmp_data);
            Ok(())
        },
        Err(error) => Err(error),
    }
}

} // verus!
