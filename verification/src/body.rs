//! Changes to the body of a request or a response.
//!
//! A body is rewritten only where the `Content-Type` header says that it is
//! text, and only where its bytes are text.

use crate::action::TextModify;
use crate::headers::{field_values, first_value, has_field, header_fields, text_of, value_text};
use crate::text::{chars_of, contains_chars, occurs_in};
use http::header::{HeaderMap, HeaderValue};
use vstd::prelude::*;
use vstd::string::StrSliceExecFns;
use vstd::utf8::{decode_utf8, encode_utf8, valid_utf8};

verus! {

/// The body of a request or a response, as far as it was read.
#[derive(Debug, Clone)]
pub enum Payload {
    /// The body was not read. It goes on as it came.
    Streamed,
    /// The body was read to its end; these are its bytes.
    Drained(Vec<u8>),
    /// Reading the body failed; this is what the failure says of itself.
    Failed(String),
}

/// A body, with its bytes and its text as sequences.
pub enum PayloadView {
    Streamed,
    Drained(Seq<u8>),
    Failed(Seq<char>),
}

impl View for Payload {
    type V = PayloadView;

    open spec fn view(&self) -> PayloadView {
        match self {
            Payload::Streamed => PayloadView::Streamed,
            Payload::Drained(bytes) => PayloadView::Drained(bytes@),
            Payload::Failed(why) => PayloadView::Failed(why@),
        }
    }
}

/// `std::str::from_utf8` reads bytes as text where they are valid UTF-8, and
/// refuses them where they are not.
#[verifier::external_body]
fn utf8_text(bytes: &[u8]) -> (out: Option<&str>)
    ensures
        out is Some == valid_utf8(bytes@),
        out matches Some(text) ==> text@ == decode_utf8(bytes@),
{
    std::str::from_utf8(bytes).ok()
}

/// Whether the headers announce a body of text: the first value of
/// `Content-Type` holds `text` or `javascript` somewhere, in this spelling.
pub open spec fn announces_text(fields: Map<Seq<char>, Seq<Seq<u8>>>) -> bool {
    has_field(fields, "content-type"@) && {
        let kind = text_of(field_values(fields, "content-type"@)[0]);
        occurs_in(kind, "text"@) || occurs_in(kind, "javascript"@)
    }
}

/// Whether the headers announce a body of text.
pub fn is_text_content(headers: &HeaderMap<HeaderValue>) -> (out: bool)
    ensures
        out == announces_text(header_fields(*headers)),
{
    match first_value(headers, "content-type") {
        None => false,
        Some(value) => {
            let kind = chars_of(value_text(&value).as_str());
            let text = chars_of("text");
            if contains_chars(&kind, &text) {
                true
            } else {
                let javascript = chars_of("javascript");
                contains_chars(&kind, &javascript)
            }
        },
    }
}

/// The bytes of a body after the action: where the bytes are text, the bytes
/// of the text that the action makes of it; else the bytes as they are.
pub open spec fn body_rewritten(action: TextModify, bytes: Seq<u8>) -> Seq<u8> {
    if valid_utf8(bytes) {
        encode_utf8(action.applied(decode_utf8(bytes)))
    } else {
        bytes
    }
}

/// Applies the action to a body that was read.
pub fn rewrite_body(action: &TextModify, bytes: Vec<u8>) -> (out: Vec<u8>)
    ensures
        out@ == body_rewritten(*action, bytes@),
        !valid_utf8(bytes@) ==> out == bytes,
{
    let new = match utf8_text(bytes.as_slice()) {
        Some(text) => Some(action.exec_action(text)),
        None => None,
    };
    match new {
        Some(text) => text.as_str().as_bytes_vec(),
        None => bytes,
    }
}

/// Bytes that are not text pass unchanged, whatever the action.
pub proof fn lemma_not_text_unchanged(action: TextModify, bytes: Seq<u8>)
    requires
        !valid_utf8(bytes),
    ensures
        body_rewritten(action, bytes) == bytes,
{
}

} // verus!
