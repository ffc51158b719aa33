//! Between bytes and text: UTF-8, percent-encoding, and JSON.

use vstd::prelude::*;
use vstd::utf8::*;

use percent_encoding::percent_decode_str;
use serde_json::{Map as JsonMap, Value};

use crate::text;
#[allow(unused_imports)]
use crate::text::Text;

verus! {

broadcast use vstd::seq_lib::group_seq_properties;

/// The text that bytes stand for, with a replacement character for what is not UTF-8.
pub uninterp spec fn utf8_lossy(bytes: Seq<u8>) -> Seq<char>;

/// Trusted: `String::from_utf8_lossy` of std. Bytes that are UTF-8 it decodes as they are.
#[verifier::external_body]
pub(crate) fn lossy(bytes: &[u8]) -> (s: String)
    ensures
        s@ == utf8_lossy(bytes@),
        valid_utf8(bytes@) ==> s@ == decode_utf8(bytes@),
{
    String::from_utf8_lossy(bytes).into_owned()
}

/// Trusted: `String::from_utf8` of std decodes bytes that are UTF-8, and no others.
#[verifier::external_body]
pub(crate) fn utf8(bytes: Vec<u8>) -> (s: Option<String>)
    ensures
        s is Some == valid_utf8(bytes@),
        s matches Some(t) ==> t@ == decode_utf8(bytes@),
{
    String::from_utf8(bytes).ok()
}

/// The value of a hexadecimal digit.
pub open spec fn hex_value(b: u8) -> Option<int> {
    if 0x30 <= b <= 0x39 {
        Some(b - 0x30)
    } else if 0x41 <= b <= 0x46 {
        Some(b - 0x41 + 10)
    } else if 0x61 <= b <= 0x66 {
        Some(b - 0x61 + 10)
    } else {
        None
    }
}

/// Bytes with each percent sign and the two hexadecimal digits behind it turned into the byte
/// that they stand for. A percent sign without two digits behind it stays.
pub open spec fn percent_decoded(bytes: Seq<u8>) -> Seq<u8>
    decreases bytes.len(),
{
    if bytes.len() == 0 {
        bytes
    } else if bytes[0] == 0x25 && bytes.len() >= 3 && hex_value(bytes[1]) is Some && hex_value(
        bytes[2],
    ) is Some {
        seq![(hex_value(bytes[1])->0 * 16 + hex_value(bytes[2])->0) as u8] + percent_decoded(
            bytes.skip(3),
        )
    } else {
        seq![bytes[0]] + percent_decoded(bytes.skip(1))
    }
}

/// The text that a percent-encoded text stands for, where that is UTF-8.
pub open spec fn percent_text(s: Text) -> Option<Text> {
    let bytes = percent_decoded(encode_utf8(s));
    if valid_utf8(bytes) {
        Some(decode_utf8(bytes))
    } else {
        None
    }
}

/// Trusted: `percent_encoding::percent_decode_str`, and `decode_utf8` of what it gives.
#[verifier::external_body]
pub(crate) fn percent_decode(s: &str) -> (r: Option<String>)
    ensures
        r.deep_view() == percent_text(s@),
{
    percent_decode_str(s).decode_utf8().ok().map(|t| t.into_owned())
}

/// A hexadecimal digit.
pub open spec fn hex_digit(n: int) -> char {
    if n < 10 {
        (('0' as u32) + n) as char
    } else {
        (('a' as u32) + (n - 10)) as char
    }
}

/// What a character becomes in a JSON string.
pub open spec fn json_char(c: char) -> Text {
    if c == '"' {
        seq!['\\', '"']
    } else if c == '\\' {
        seq!['\\', '\\']
    } else if c == '\u{8}' {
        seq!['\\', 'b']
    } else if c == '\t' {
        seq!['\\', 't']
    } else if c == '\n' {
        seq!['\\', 'n']
    } else if c == '\u{c}' {
        seq!['\\', 'f']
    } else if c == '\r' {
        seq!['\\', 'r']
    } else if (c as int) < 0x20 {
        seq!['\\', 'u', '0', '0', hex_digit((c as int) / 16), hex_digit((c as int) % 16)]
    } else {
        seq![c]
    }
}

/// The JSON string of a text.
pub open spec fn json_string(s: Text) -> Text {
    seq!['"'] + text::joined(s.map_values(|c: char| json_char(c))) + seq!['"']
}

/// The JSON array of texts.
pub open spec fn json_array(texts: Seq<Text>) -> Text {
    seq!['['] + text::join_with(texts.map_values(|s: Text| json_string(s)), ',') + seq![']']
}

/// The JSON object with one key, in UTF-8.
pub open spec fn json_object(key: Text, value: Text) -> Seq<u8> {
    encode_utf8(seq!['{'] + json_string(key) + seq![':'] + value + seq!['}'])
}

/// Trusted: `serde_json::to_vec` of an object with a text under one key.
#[verifier::external_body]
pub(crate) fn json_text(key: &str, value: &str) -> (bytes: Vec<u8>)
    ensures
        bytes@ == json_object(key@, json_string(value@)),
{
    let mut object = JsonMap::new();
    object.insert(key.to_string(), Value::String(value.to_string()));
    serde_json::to_vec(&Value::Object(object)).unwrap_or_default()
}

/// Trusted: `serde_json::to_vec` of an object with a list of texts under one key.
#[verifier::external_body]
pub(crate) fn json_texts(key: &str, values: &Vec<String>) -> (bytes: Vec<u8>)
    ensures
        bytes@ == json_object(key@, json_array(values.deep_view())),
{
    let values = values.iter().map(|s| Value::String(s.to_string())).collect();
    let mut object = JsonMap::new();
    object.insert(key.to_string(), Value::Array(values));
    serde_json::to_vec(&Value::Object(object)).unwrap_or_default()
}

/// Text without a percent sign stands for itself.
pub proof fn law_plain_text_decodes_to_itself(s: Text)
    requires
        !s.contains('%'),
    ensures
        percent_text(s) == Some(s),
{
    encode_utf8_valid_utf8(s);
    encode_utf8_decode_utf8(s);
    lemma_no_percent(s);
    lemma_plain_bytes(encode_utf8(s));
}

/// Only a percent sign is encoded with the byte of a percent sign.
proof fn lemma_no_percent(s: Text)
    requires
        !s.contains('%'),
    ensures
        forall|i: int| 0 <= i < encode_utf8(s).len() ==> #[trigger] encode_utf8(s)[i] != 0x25,
    decreases s.len(),
{
    if s.len() > 0 {
        let rest = s.drop_first();
        assert(s.contains(s[0]));
        assert forall|i: int| 0 <= i < rest.len() implies rest[i] != '%' by {
            assert(s[i + 1] == rest[i]);
        }
        lemma_no_percent(rest);
        let head = encode_scalar(s[0] as u32);
        let c: u32 = s[0] as u32;
        char_is_scalar(s[0]);
        char_u32_cast(s[0], c);
        char_u32_cast('%', 0x25);
        assert(forall|i: int| 0 <= i < head.len() ==> #[trigger] head[i] != 0x25) by {
            lemma_scalar_bytes(c);
        }
        assert(encode_utf8(s) == head + encode_utf8(rest));
    }
}

proof fn lemma_scalar_bytes(c: u32)
    requires
        is_scalar(c),
        c != 0x25,
    ensures
        forall|i: int| 0 <= i < encode_scalar(c).len() ==> #[trigger] encode_scalar(c)[i] != 0x25,
{
    assert(c <= 0x7f ==> (c & 0x7F) == c) by (bit_vector);
    assert((0xC0u8 | ((c >> 6) & 0x1F) as u8) >= 0x80) by (bit_vector);
    assert((0xE0u8 | ((c >> 12) & 0x0F) as u8) >= 0x80) by (bit_vector);
    assert((0xF0u8 | ((c >> 18) & 0x07) as u8) >= 0x80) by (bit_vector);
    assert((0x80u8 | (c & 0x3F) as u8) >= 0x80) by (bit_vector);
    assert((0x80u8 | ((c >> 6) & 0x3F) as u8) >= 0x80) by (bit_vector);
    assert((0x80u8 | ((c >> 12) & 0x3F) as u8) >= 0x80) by (bit_vector);
}

proof fn lemma_plain_bytes(bytes: Seq<u8>)
    requires
        forall|i: int| 0 <= i < bytes.len() ==> #[trigger] bytes[i] != 0x25,
    ensures
        percent_decoded(bytes) == bytes,
    decreases bytes.len(),
{
    if bytes.len() > 0 {
        let rest = bytes.skip(1);
        assert forall|i: int| 0 <= i < rest.len() implies #[trigger] rest[i] != 0x25 by {
            assert(rest[i] == bytes[i + 1]);
        }
        assert(bytes[0] != 0x25);
        lemma_plain_bytes(rest);
        assert(bytes == seq![bytes[0]] + rest);
    }
}

} // verus!
