//! The header map of a request or a response, seen as a map from field names
//! to the values that stand under each name.

use crate::text::chars_of;
use http::header::{HeaderMap, HeaderName, HeaderValue};
use vstd::prelude::*;
use vstd::utf8::encode_utf8;

verus! {

/// `http::HeaderMap`, the headers of a request or a response.
#[verifier::external_type_specification]
#[verifier::external_body]
#[verifier::reject_recursive_types(T)]
pub struct ExHeaderMap<T>(HeaderMap<T>);

/// `http::HeaderValue`, one value of a field.
#[verifier::external_type_specification]
#[verifier::external_body]
pub struct ExHeaderValue(HeaderValue);

/// `http::HeaderName`, the name of a field in the spelling that a header map
/// keeps.
#[verifier::external_type_specification]
#[verifier::external_body]
pub struct ExHeaderName(HeaderName);

/// The fields of a header map: for each name that is present, in the spelling
/// that the map keeps, the bytes of its values in the order in which the map
/// hands them out.
pub uninterp spec fn header_fields(map: HeaderMap<HeaderValue>) -> Map<Seq<char>, Seq<Seq<u8>>>;

/// The text of a field name, as `HeaderName::as_str` gives it.
pub uninterp spec fn name_text(name: HeaderName) -> Seq<char>;

/// The bytes of a value, as `HeaderValue::as_bytes` gives them.
pub uninterp spec fn value_bytes(value: HeaderValue) -> Seq<u8>;

/// The most names that a header map can hold and still surely take what is
/// put into it. A header map grows to 32768 slots and no further. It refuses
/// what is put into it only when it would have to grow beyond that, which it
/// never tries while fewer than a fifth of that many names are in it.
pub const SURE_NAMES: usize = 6553;

/// Whether a header map with these fields surely takes what is put into it,
/// also after `more` new names have come into it.
pub open spec fn room_for(fields: Map<Seq<char>, Seq<Seq<u8>>>, more: nat) -> bool {
    fields.dom().finite() && fields.dom().len() + more <= SURE_NAMES
}

/// Whether `c` may stand in a field name.
pub open spec fn name_char(c: char) -> bool {
    let n = c as u32;
    ||| 33 <= n <= 39
    ||| n == 42
    ||| n == 43
    ||| n == 45
    ||| n == 46
    ||| 48 <= n <= 57
    ||| 65 <= n <= 90
    ||| 94 <= n <= 122
    ||| n == 124
    ||| n == 126
}

/// `c`, in lower case where it is an ASCII capital.
pub open spec fn lower(c: char) -> char {
    if 65 <= c as u32 <= 90 {
        ((c as u32 + 32) as u8) as char
    } else {
        c
    }
}

/// Whether `name` can name a field.
pub open spec fn is_field_name(name: Seq<char>) -> bool {
    &&& 1 <= name.len() <= 65535
    &&& forall|i: int| 0 <= i < name.len() ==> name_char(#[trigger] name[i])
}

/// The spelling under which a header map keeps the field `name`: lower case.
pub open spec fn field_key(name: Seq<char>) -> Seq<char> {
    name.map_values(|c: char| lower(c))
}

/// Whether the map holds a field that `name` names.
pub open spec fn has_field(fields: Map<Seq<char>, Seq<Seq<u8>>>, name: Seq<char>) -> bool {
    is_field_name(name) && fields.contains_key(field_key(name))
}

/// The values that stand under `name`; none where the field is missing.
pub open spec fn field_values(fields: Map<Seq<char>, Seq<Seq<u8>>>, name: Seq<char>) -> Seq<
    Seq<u8>,
> {
    if has_field(fields, name) {
        fields[field_key(name)]
    } else {
        Seq::empty()
    }
}

/// Whether `b` is a tab or a visible ASCII character.
pub open spec fn visible(b: u8) -> bool {
    32 <= b < 127 || b == 9
}

/// Whether a value can be read as text: all of it is visible ASCII.
pub open spec fn is_readable(value: Seq<u8>) -> bool {
    forall|i: int| 0 <= i < value.len() ==> visible(#[trigger] value[i])
}

/// A value as text; one that cannot be read counts as empty.
pub open spec fn text_of(value: Seq<u8>) -> Seq<char> {
    if is_readable(value) {
        Seq::new(value.len(), |i: int| value[i] as char)
    } else {
        Seq::empty()
    }
}

/// Whether `c` may stand in a value: no control character but the tab.
pub open spec fn value_char(c: char) -> bool {
    (32 <= c as u32 && c as u32 != 127) || c as u32 == 9
}

/// Whether `text` can be written as a value.
pub open spec fn is_field_text(text: Seq<char>) -> bool {
    forall|i: int| 0 <= i < text.len() ==> value_char(#[trigger] text[i])
}

/// The names of the fields that the rules read and write by themselves name
/// fields, and a header map keeps them in this spelling.
pub proof fn lemma_known_names()
    ensures
        is_field_name("cookie"@),
        field_key("cookie"@) == "cookie"@,
        is_field_name("set-cookie"@),
        field_key("set-cookie"@) == "set-cookie"@,
        is_field_name("content-type"@),
        field_key("content-type"@) == "content-type"@,
{
    reveal_strlit("cookie");
    reveal_strlit("set-cookie");
    reveal_strlit("content-type");
    assert(field_key("cookie"@) =~= "cookie"@);
    assert(field_key("set-cookie"@) =~= "set-cookie"@);
    assert(field_key("content-type"@) =~= "content-type"@);
}

/// Calls `HeaderMap::get`, which looks the name up without regard to case and
/// hands out the first value under it; a name that can name no field finds
/// nothing. A field that is present has at least one value.
#[verifier::external_body]
pub(crate) fn first_value(map: &HeaderMap<HeaderValue>, name: &str) -> (out: Option<Vec<u8>>)
    ensures
        out is Some == has_field(header_fields(*map), name@),
        out matches Some(v) ==> field_values(header_fields(*map), name@).len() > 0 && v@
            == field_values(header_fields(*map), name@)[0],
{
    map.get(name).map(|v| v.as_bytes().to_vec())
}

/// Whether these fields have `count` names.
pub open spec fn has_names(fields: Map<Seq<char>, Seq<Seq<u8>>>, count: nat) -> bool {
    fields.dom().finite() && fields.dom().len() == count
}

/// Calls `HeaderMap::keys_len`, which counts the names in the map.
#[verifier::external_body]
pub(crate) fn names_count(map: &HeaderMap<HeaderValue>) -> (out: usize)
    ensures
        has_names(header_fields(*map), out as nat),
{
    map.keys_len()
}

/// Calls `HeaderMap::get_all` and copies the values it yields, in its order.
/// A field that is present has at least one value.
#[verifier::external_body]
pub(crate) fn all_values(map: &HeaderMap<HeaderValue>, name: &str) -> (out: Vec<Vec<u8>>)
    ensures
        out@.len() == field_values(header_fields(*map), name@).len(),
        (out@.len() > 0) == has_field(header_fields(*map), name@),
        forall|i: int|
            0 <= i < out@.len() ==> (#[trigger] out@[i])@ == field_values(
                header_fields(*map),
                name@,
            )[i],
{
    map.get_all(name).iter().map(|v| v.as_bytes().to_vec()).collect()
}

/// Calls `HeaderMap::remove`, which takes away every value under the name, and
/// nothing where the name finds no field.
#[verifier::external_body]
pub(crate) fn remove_field(map: &mut HeaderMap<HeaderValue>, name: &str)
    ensures
        !has_field(header_fields(*old(map)), name@) ==> *final(map) == *old(map),
        has_field(header_fields(*old(map)), name@) ==> header_fields(*final(map))
            == header_fields(*old(map)).remove(field_key(name@)),
{
    map.remove(name);
}

/// Calls `HeaderName::from_bytes` on the bytes of `name`. It takes a name of
/// 1 to 65535 characters that are all allowed in a field name, and gives it in
/// lower case.
#[verifier::external_body]
pub(crate) fn field_name(name: &str) -> (out: Option<HeaderName>)
    ensures
        out is Some == is_field_name(name@),
        out matches Some(n) ==> name_text(n) == field_key(name@),
{
    HeaderName::from_bytes(name.as_bytes()).ok()
}

/// Calls `HeaderValue::from_str`. It takes a text unless a control character
/// other than the tab stands in it, and the value holds the bytes of the text.
#[verifier::external_body]
pub(crate) fn field_value(text: &str) -> (out: Option<HeaderValue>)
    ensures
        out is Some == is_field_text(text@),
        out matches Some(v) ==> value_bytes(v) == encode_utf8(text@),
{
    HeaderValue::from_str(text).ok()
}

/// Puts `value` in the place of the first value under `name`, through
/// `HeaderMap::get_mut`, and says whether the field was there. Where it was
/// not, the map stays as it is.
#[verifier::external_body]
pub(crate) fn set_first_value(
    map: &mut HeaderMap<HeaderValue>,
    name: &str,
    value: HeaderValue,
) -> (done: bool)
    ensures
        done == has_field(header_fields(*old(map)), name@),
        !done ==> *final(map) == *old(map),
        done ==> header_fields(*final(map)) == header_fields(*old(map)).insert(
            field_key(name@),
            header_fields(*old(map))[field_key(name@)].update(0, value_bytes(value)),
        ),
{
    match map.get_mut(name) {
        Some(slot) => {
            *slot = value;
            true
        },
        None => false,
    }
}

/// Calls `HeaderMap::try_insert`, which makes `value` the one value under
/// `name`, and says whether it did. It does not where the map cannot grow;
/// the fields then stay as they are. A map that holds no more than
/// `SURE_NAMES` names never has to grow beyond its limit.
#[verifier::external_body]
pub(crate) fn insert_field(
    map: &mut HeaderMap<HeaderValue>,
    name: HeaderName,
    value: HeaderValue,
) -> (done: bool)
    ensures
        done ==> header_fields(*final(map)) == header_fields(*old(map)).insert(
            name_text(name),
            seq![value_bytes(value)],
        ),
        !done ==> header_fields(*final(map)) == header_fields(*old(map)),
        room_for(header_fields(*old(map)), 0) ==> done,
{
    map.try_insert(name, value).is_ok()
}

/// Calls `HeaderMap::try_append`, which adds `value` behind the values under
/// `name`, or as the first where there is none, and says whether it did. It
/// does not where the map cannot grow; the fields then stay as they are. A
/// map that holds no more than `SURE_NAMES` names never has to grow beyond its
/// limit.
#[verifier::external_body]
pub(crate) fn append_field(
    map: &mut HeaderMap<HeaderValue>,
    name: HeaderName,
    value: HeaderValue,
) -> (done: bool)
    ensures
        done ==> header_fields(*final(map)) == header_fields(*old(map)).insert(
            name_text(name),
            if header_fields(*old(map)).contains_key(name_text(name)) {
                header_fields(*old(map))[name_text(name)].push(value_bytes(value))
            } else {
                seq![value_bytes(value)]
            },
        ),
        !done ==> header_fields(*final(map)) == header_fields(*old(map)),
        room_for(header_fields(*old(map)), 0) ==> done,
{
    map.try_append(name, value).is_ok()
}

/// Whether a header map surely takes what is put into it, also after `more`
/// new names have come into it.
pub fn has_room_for(headers: &HeaderMap<HeaderValue>, more: usize) -> (out: bool)
    ensures
        out == room_for(header_fields(*headers), more as nat),
{
    let count = names_count(headers);
    more <= SURE_NAMES && count <= SURE_NAMES - more
}

/// Whether a value can be read as text.
pub fn can_be_read(value: &Vec<u8>) -> (out: bool)
    ensures
        out == is_readable(value@),
{
    let mut i: usize = 0;
    while i < value.len()
        invariant
            i <= value.len(),
            forall|j: int| 0 <= j < i ==> visible(#[trigger] value@[j]),
        decreases value.len() - i,
    {
        let b: u8 = value[i];
        if !((32 <= b && b < 127) || b == 9) {
            return false;
        }
        i += 1;
    }
    true
}

/// The text of a value; the empty text where it cannot be read.
pub fn value_text(value: &Vec<u8>) -> (out: String)
    ensures
        out@ == text_of(value@),
{
    let mut out = String::new();
    let mut i: usize = 0;
    while i < value.len()
        invariant
            i <= value.len(),
            forall|j: int| 0 <= j < i ==> visible(#[trigger] value@[j]),
            out@ == Seq::new(i as nat, |j: int| value@[j] as char),
        decreases value.len() - i,
    {
        let b: u8 = value[i];
        if !((32 <= b && b < 127) || b == 9) {
            return String::new();
        }
        out.push(b as char);
        assert(out@ =~= Seq::new((i + 1) as nat, |j: int| value@[j] as char));
        i += 1;
    }
    out
}

/// Whether `text` can be written as a value.
pub fn can_be_written(text: &str) -> (ok: bool)
    ensures
        ok == is_field_text(text@),
{
    let chars = chars_of(text);
    let mut i: usize = 0;
    while i < chars.len()
        invariant
            chars@ == text@,
            i <= chars.len(),
            forall|j: int| 0 <= j < i ==> value_char(#[trigger] chars@[j]),
        decreases chars.len() - i,
    {
        let n: u32 = chars[i] as u32;
        if !((32 <= n && n != 127) || n == 9) {
            return false;
        }
        i += 1;
    }
    true
}

} // verus!
