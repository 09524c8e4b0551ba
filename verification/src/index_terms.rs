//! Terms of the index as bytes, made by the `tantivy` crate, and text in base64,
//! read by the `base64` crate.
//!
//! The bytes of a term are the identifier of its field, most significant byte
//! first, a type code, and the value.
use vstd::prelude::*;
use vstd::utf8::{
    char_u32_cast, decode_utf8, encode_scalar, encode_utf8, encode_utf8_decode_utf8,
};

use base64::engine::general_purpose::STANDARD;
use base64::Engine;
use tantivy::schema::Field;
use tantivy::Term;

verus! {

/// Type code of a text value.
pub const STR_CODE: u8 = 115;

/// Type code of a JSON value.
pub const JSON_CODE: u8 = 106;

/// Type code of a byte string.
pub const BYTES_CODE: u8 = 98;

/// The character between the names of a path into a JSON object.
pub const PATH_SEPARATOR: char = '\u{1}';

/// The byte that ends a path into a JSON object.
pub const END_OF_PATH: u8 = 0;

/// Number of bytes of a field identifier in a term.
pub const FIELD_ID_LEN: usize = 4;

/// The bytes of a field identifier, most significant byte first.
pub open spec fn field_id_bytes(field_id: u32) -> Seq<u8> {
    seq![
        (field_id / 0x1000000) as u8,
        (field_id / 0x10000 % 0x100) as u8,
        (field_id / 0x100 % 0x100) as u8,
        (field_id % 0x100) as u8,
    ]
}

/// `base64::DecodeError`, why a text is not base64.
#[verifier::external_type_specification]
#[verifier::external_body]
pub struct ExDecodeError(base64::DecodeError);

/// The bytes that a text stands for in the standard base64 alphabet with padding;
/// `None` if it is not base64.
pub uninterp spec fn base64_decoded(text: Seq<char>) -> Option<Seq<u8>>;

/// The characters of a path into a JSON object as they stand in terms. A dot in
/// `json_path` separates names, and a backslash makes the character behind it part
/// of a name. The separator takes the place of the dots that separate and, with
/// `expand_dots`, of those in names too.
pub open spec fn json_path_chars(json_path: Seq<char>, expand_dots: bool) -> Seq<char>
    decreases json_path.len(),
{
    if json_path.len() == 0 {
        Seq::empty()
    } else if json_path[0] == '\\' {
        if json_path.len() == 1 {
            Seq::empty()
        } else {
            seq![
                if json_path[1] == '.' && expand_dots {
                    PATH_SEPARATOR
                } else {
                    json_path[1]
                },
            ] + json_path_chars(json_path.skip(2), expand_dots)
        }
    } else {
        seq![
            if json_path[0] == '.' {
                PATH_SEPARATOR
            } else {
                json_path[0]
            },
        ] + json_path_chars(json_path.skip(1), expand_dots)
    }
}

/// A path into a JSON object as it stands in terms: its characters in UTF-8, and
/// the end of the path.
pub open spec fn encoded_json_path(json_path: Seq<char>, expand_dots: bool) -> Seq<u8> {
    encode_utf8(json_path_chars(json_path, expand_dots)).push(END_OF_PATH)
}

/// The bytes of a field identifier are four, and the identifier is their value with the most
/// significant byte first.
pub proof fn law_field_id_bytes(field_id: u32)
    ensures
        field_id_bytes(field_id).len() == 4,
        field_id == 0x100_0000 * field_id_bytes(field_id)[0] + 0x1_0000 * field_id_bytes(
            field_id,
        )[1] + 0x100 * field_id_bytes(field_id)[2] + field_id_bytes(field_id)[3],
{
}

/// A path without a backslash stands in terms as it is, but for the dots, each of which
/// becomes a separator.
pub proof fn law_plain_path(json_path: Seq<char>, expand_dots: bool)
    requires
        !json_path.contains('\\'),
    ensures
        json_path_chars(json_path, expand_dots).len() == json_path.len(),
        forall|i: int|
            0 <= i < json_path.len() ==> #[trigger] json_path_chars(json_path, expand_dots)[i]
                == if json_path[i] == '.' {
                '\u{1}'
            } else {
                json_path[i]
            },
    decreases json_path.len(),
{
    if json_path.len() > 0 {
        let rest = json_path.skip(1);
        assert(json_path.contains(json_path[0]));
        assert forall|i: int| 0 <= i < rest.len() implies rest[i] != '\\' by {
            assert(json_path.contains(json_path[i + 1]));
        }
        law_plain_path(rest, expand_dots);
        assert forall|i: int| 0 <= i < json_path.len() implies #[trigger] json_path_chars(
            json_path,
            expand_dots,
        )[i] == if json_path[i] == '.' {
            '\u{1}'
        } else {
            json_path[i]
        } by {
            if i > 0 {
                assert(rest[i - 1] == json_path[i]);
            }
        }
    }
}

/// A character behind the first backslash of a path stands in terms as it is, unless it is a
/// dot and dots in names separate; the backslash is left out. What stands before the backslash
/// and what stands behind the character are encoded as they would be alone. A backslash at the
/// end of a path is left out.
pub proof fn law_escaped_character(
    before: Seq<char>,
    escaped: char,
    after: Seq<char>,
    expand_dots: bool,
)
    requires
        !before.contains('\\'),
    ensures
        json_path_chars(before + seq!['\\', escaped] + after, expand_dots) == json_path_chars(
            before,
            expand_dots,
        ) + seq![
            if escaped == '.' && expand_dots {
                '\u{1}'
            } else {
                escaped
            },
        ] + json_path_chars(after, expand_dots),
        json_path_chars(before.push('\\'), expand_dots) == json_path_chars(before, expand_dots),
    decreases before.len(),
{
    let whole = before + seq!['\\', escaped] + after;
    if before.len() == 0 {
        assert(whole.skip(2) =~= after);
        assert(before.push('\\') =~= seq!['\\']);
    } else {
        let rest = before.skip(1);
        assert(before.contains(before[0]));
        assert forall|i: int| 0 <= i < rest.len() implies rest[i] != '\\' by {
            assert(before.contains(before[i + 1]));
        }
        law_escaped_character(rest, escaped, after, expand_dots);
        assert(whole.skip(1) =~= rest + seq!['\\', escaped] + after);
        assert(before.push('\\').skip(1) =~= rest.push('\\'));
    }
}

/// Different texts have different bytes in UTF-8.
pub proof fn law_utf8_injective(a: Seq<char>, b: Seq<char>)
    ensures
        encode_utf8(a) == encode_utf8(b) ==> a == b,
{
    encode_utf8_decode_utf8(a);
    encode_utf8_decode_utf8(b);
    assert(encode_utf8(a) == encode_utf8(b) ==> decode_utf8(encode_utf8(a)) == decode_utf8(
        encode_utf8(b),
    ));
}

/// Only the character zero has a zero byte in UTF-8.
proof fn lemma_scalar_zero_byte(scalar: u32, i: int)
    requires
        0 <= i < encode_scalar(scalar).len(),
        encode_scalar(scalar)[i] == 0,
    ensures
        scalar == 0,
{
    let (a, b, c) = (
        ((scalar >> 6) & 0x1F) as u8,
        ((scalar >> 12) & 0x0F) as u8,
        ((scalar >> 18) & 0x7) as u8,
    );
    let (d, e, f) = (
        (scalar & 0x3F) as u8,
        ((scalar >> 6) & 0x3F) as u8,
        ((scalar >> 12) & 0x3F) as u8,
    );
    assert(0xC0 | a != 0 && 0xE0 | b != 0 && 0xF0 | c != 0) by (bit_vector);
    assert(0x80 | d != 0 && 0x80 | e != 0 && 0x80 | f != 0) by (bit_vector);
    assert(scalar <= 0x7F && (scalar & 0x7F) as u8 == 0 ==> scalar == 0) by (bit_vector);
}

/// A text with a zero byte in UTF-8 holds the character zero.
pub proof fn lemma_utf8_zero_byte(chars: Seq<char>, i: int)
    requires
        0 <= i < encode_utf8(chars).len(),
        encode_utf8(chars)[i] == 0,
    ensures
        chars.contains('\0'),
    decreases chars.len(),
{
    let first = encode_scalar(chars[0] as u32);
    if i < first.len() {
        lemma_scalar_zero_byte(chars[0] as u32, i);
        char_u32_cast(chars[0], 0);
        char_u32_cast('\0', 0);
        assert(chars[0] == '\0');
    } else {
        let rest = chars.drop_first();
        lemma_utf8_zero_byte(rest, i - first.len());
        let j = choose|j: int| 0 <= j < rest.len() && rest[j] == '\0';
        assert(chars[j + 1] == '\0');
    }
}

/// `Engine::decode` of the standard base64 engine.
#[verifier::external_body]
pub(crate) fn decode_base64(text: &String) -> (result: Result<Vec<u8>, base64::DecodeError>)
    ensures
        match result {
            Ok(bytes) => base64_decoded(text@) == Some(bytes@),
            Err(_) => base64_decoded(text@) is None,
        },
{
    STANDARD.decode(text)
}

/// `Term::from_field_json_path`: the bytes of a term that addresses a path in a
/// JSON field, with no value yet.
#[verifier::external_body]
pub(crate) fn json_path_term(field_id: u32, json_path: &str, expand_dots: bool) -> (term: Vec<u8>)
    ensures
        term@ == field_id_bytes(field_id).push(JSON_CODE) + encoded_json_path(
            json_path@,
            expand_dots,
        ),
{
    let field = Field::from_field_id(field_id);
    Term::from_field_json_path(field, json_path, expand_dots).serialized_term().to_vec()
}

/// `Term::append_type_and_str`: a term with the type code of a text and the text in
/// UTF-8 added at its end.
#[verifier::external_body]
pub(crate) fn append_type_and_str(term: Vec<u8>, value: &str) -> (extended: Vec<u8>)
    ensures
        extended@ == term@.push(STR_CODE) + encode_utf8(value@),
{
    let mut term = Term::wrap(term);
    term.append_type_and_str(value);
    term.serialized_term().to_vec()
}

/// `Term::value` and its `ValueBytes::as_serialized`: the bytes of a term behind
/// the field identifier.
#[verifier::external_body]
pub(crate) fn value_bytes(term: Vec<u8>) -> (value: Vec<u8>)
    requires
        term@.len() >= FIELD_ID_LEN,
    ensures
        value@ == term@.skip(FIELD_ID_LEN as int),
{
    Term::wrap(term).value().as_serialized().to_vec()
}

/// `Term::from_field_bytes`: the bytes of a term that holds a byte string.
#[verifier::external_body]
pub(crate) fn bytes_term(field_id: u32, bytes: &[u8]) -> (term: Vec<u8>)
    ensures
        term@ == field_id_bytes(field_id).push(BYTES_CODE) + bytes@,
{
    Term::from_field_bytes(Field::from_field_id(field_id), bytes).serialized_term().to_vec()
}

} // verus!
