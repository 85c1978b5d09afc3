//! Trusted surface over the JSON parser.
//!
//! The feed wraps each update in a JSON envelope holding a `data`
//! member with the quote's text fields. serde_json's parsing, member
//! lookup and string extraction are deterministic in the frame text, so
//! the library names each extracted field as a function of the text and
//! performs the whole extraction in one trusted function; everything
//! downstream of it — numeric validation, state, emission — is
//! verified against those names.

use vstd::prelude::*;
use crate::engine::{FieldsModel, RawFields};

verus! {

/// Whether a text is a well-formed JSON document: exactly the texts
/// that serde_json's parser accepts.
pub uninterp spec fn json_doc_wf(s: Seq<char>) -> bool;

/// The `s` member of the document's `data` member, when the document
/// has one and it is a JSON string.
pub uninterp spec fn field_s_of(s: Seq<char>) -> Option<Seq<char>>;

/// The `b` member of the document's `data` member, as `field_s_of`.
pub uninterp spec fn field_b_of(s: Seq<char>) -> Option<Seq<char>>;

/// The `a` member of the document's `data` member, as `field_s_of`.
pub uninterp spec fn field_a_of(s: Seq<char>) -> Option<Seq<char>>;

/// The `B` member of the document's `data` member, as `field_s_of`.
pub uninterp spec fn field_bq_of(s: Seq<char>) -> Option<Seq<char>>;

/// The `A` member of the document's `data` member, as `field_s_of`.
pub uninterp spec fn field_aq_of(s: Seq<char>) -> Option<Seq<char>>;

/// The decoded quote fields of a frame text, one name per field.
pub open spec fn fields_of(s: Seq<char>) -> FieldsModel {
    FieldsModel {
        symbol: field_s_of(s),
        bid: field_b_of(s),
        ask: field_a_of(s),
        bid_qty: field_bq_of(s),
        ask_qty: field_aq_of(s),
    }
}

/// Relies on serde_json::from_str::<Value>, Value::get and
/// Value::as_str: parsing is deterministic in the text and succeeds
/// exactly on well-formed JSON documents; `get` with a string index
/// looks the key up in an object (`None` on any other value or a
/// missing key); `as_str` hands back a JSON string's characters
/// (`None` on any other value). Each extracted field is therefore a
/// function of the frame text alone.
#[verifier::external_body]
pub(crate) fn extract_quote_fields(text: &str) -> (r: Option<RawFields>)
    ensures
        r is Some <==> json_doc_wf(text@),
        r matches Some(f) ==> {
            &&& f@.symbol == field_s_of(text@)
            &&& f@.bid == field_b_of(text@)
            &&& f@.ask == field_a_of(text@)
            &&& f@.bid_qty == field_bq_of(text@)
            &&& f@.ask_qty == field_aq_of(text@)
        },
{
    let v: serde_json::Value = match serde_json::from_str(text) {
        Ok(v) => v,
        Err(_) => {
            return None;
        },
    };
    let d = v.get("data");
    let f = |k: &str| d.and_then(|d| d.get(k)).and_then(|x| x.as_str()).map(String::from);
    Some(RawFields { symbol: f("s"), bid: f("b"), ask: f("a"), bid_qty: f("B"), ask_qty: f("A") })
}

} // verus!
