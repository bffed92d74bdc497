//! Percent-encoding of URL path segments and query values, through the
//! `urlencoding` crate.

use vstd::prelude::*;
use vstd::utf8::*;

verus! {

/// The bytes that percent-encoding leaves as they are: ASCII letters and
/// digits and `-`, `.`, `_`, `~`.
pub open spec fn is_unreserved(b: u8) -> bool {
    ||| (48 <= b && b <= 57)
    ||| (65 <= b && b <= 90)
    ||| (97 <= b && b <= 122)
    ||| b == 45
    ||| b == 46
    ||| b == 95
    ||| b == 126
}

/// The upper-case hexadecimal digit (as an ASCII byte) for `n` below sixteen.
pub open spec fn hex_digit_upper(n: u8) -> u8 {
    if n < 10 { (48 + n) as u8 } else { (55 + n) as u8 }
}

/// The value of an ASCII hexadecimal digit of either case.
pub open spec fn hex_value(b: u8) -> Option<u8> {
    if 48 <= b && b <= 57 {
        Some((b - 48) as u8)
    } else if 65 <= b && b <= 70 {
        Some((b - 55) as u8)
    } else if 97 <= b && b <= 102 {
        Some((b - 87) as u8)
    } else {
        None
    }
}

/// One byte, percent-encoded.
pub open spec fn encode_byte(b: u8) -> Seq<u8> {
    if is_unreserved(b) {
        seq![b]
    } else {
        seq![37u8, hex_digit_upper(b / 16), hex_digit_upper(b % 16)]
    }
}

/// Percent-encoding of a byte string.
pub open spec fn percent_encode(bytes: Seq<u8>) -> Seq<u8>
    decreases bytes.len(),
{
    if bytes.len() == 0 {
        Seq::empty()
    } else {
        encode_byte(bytes[0]) + percent_encode(bytes.drop_first())
    }
}

/// Percent-decoding of a byte string: each `%` followed by two hexadecimal
/// digits becomes the byte they denote; every other byte, a `%` that starts
/// no such escape included, stays as it is.
pub open spec fn percent_decode(bytes: Seq<u8>) -> Seq<u8>
    decreases bytes.len(),
{
    if bytes.len() == 0 {
        Seq::empty()
    } else if bytes[0] == 37 && bytes.len() >= 3 && hex_value(bytes[1]) is Some
        && hex_value(bytes[2]) is Some {
        seq![(hex_value(bytes[1])->0 * 16 + hex_value(bytes[2])->0) as u8]
            + percent_decode(bytes.skip(3))
    } else {
        seq![bytes[0]] + percent_decode(bytes.drop_first())
    }
}

/// The characters that an ASCII byte string spells.
pub open spec fn ascii_text(bytes: Seq<u8>) -> Seq<char> {
    bytes.map_values(|b: u8| b as char)
}

/// `text` percent-encoded over its UTF-8 bytes.
pub open spec fn url_encoded(text: Seq<char>) -> Seq<char> {
    ascii_text(percent_encode(encode_utf8(text)))
}

/// `text` percent-decoded over its UTF-8 bytes, when the result is UTF-8;
/// `text` itself otherwise.
pub open spec fn decoded_or_same(text: Seq<char>) -> Seq<char> {
    let raw = percent_decode(encode_utf8(text));
    if valid_utf8(raw) {
        decode_utf8(raw)
    } else {
        text
    }
}

/// `urlencoding::encode`: percent-encodes every UTF-8 byte of `text` but the
/// unreserved ones, with upper-case hexadecimal digits.
#[verifier::external_body]
fn url_encode(text: &str) -> (encoded: String)
    ensures
        encoded@ == url_encoded(text@),
{
    urlencoding::encode(text).into_owned()
}

/// `urlencoding::decode`: percent-decodes the UTF-8 bytes of `text`, and
/// fails exactly when the decoded bytes are not UTF-8.
#[verifier::external_body]
fn url_decode(text: &str) -> (decoded: Option<String>)
    ensures
        match decoded {
            Some(d) => valid_utf8(percent_decode(encode_utf8(text@)))
                && d@ == decode_utf8(percent_decode(encode_utf8(text@))),
            None => !valid_utf8(percent_decode(encode_utf8(text@))),
        },
{
    match urlencoding::decode(text) {
        Ok(d) => Some(d.into_owned()),
        Err(_) => None,
    }
}

/// Percent-encodes a path segment, as the links of a listing carry it.
pub fn encode_component(text: &str) -> (encoded: String)
    ensures
        encoded@ == url_encoded(text@),
{
    url_encode(text)
}

/// Percent-decodes `text`; where the result is not UTF-8, `text` is kept.
pub fn decode_or_keep(text: &str) -> (decoded: String)
    ensures
        decoded@ == decoded_or_same(text@),
{
    match url_decode(text) {
        Some(d) => d,
        None => text.to_owned(),
    }
}

proof fn lemma_hex_roundtrip(n: u8)
    requires
        n < 16,
    ensures
        hex_value(hex_digit_upper(n)) == Some(n),
        hex_digit_upper(n) != 37,
        hex_digit_upper(n) < 128,
{
}

proof fn lemma_encode_byte(b: u8)
    ensures
        encode_byte(b).len() > 0,
        is_unreserved(b) ==> encode_byte(b) == seq![b] && b != 37,
        !is_unreserved(b) ==> encode_byte(b).len() == 3 && encode_byte(b)[0] == 37
            && hex_value(encode_byte(b)[1]) == Some(b / 16)
            && hex_value(encode_byte(b)[2]) == Some(b % 16),
        forall|i: int| 0 <= i < encode_byte(b).len() ==> #[trigger] encode_byte(b)[i] < 128,
{
    lemma_hex_roundtrip(b / 16);
    lemma_hex_roundtrip(b % 16);
}

/// Percent-decoding undoes percent-encoding.
pub proof fn lemma_percent_decode_encode(bytes: Seq<u8>)
    ensures
        percent_decode(percent_encode(bytes)) == bytes,
    decreases bytes.len(),
{
    if bytes.len() > 0 {
        let b = bytes[0];
        let rest = bytes.drop_first();
        let e = percent_encode(bytes);
        lemma_encode_byte(b);
        lemma_percent_decode_encode(rest);
        assert(e == encode_byte(b) + percent_encode(rest));
        if is_unreserved(b) {
            assert(e.drop_first() == percent_encode(rest));
            assert(percent_decode(e) == seq![b] + percent_decode(e.drop_first()));
        } else {
            assert(e.skip(3) == percent_encode(rest));
            assert(b == (b / 16) * 16 + b % 16);
            assert(percent_decode(e) == seq![b] + percent_decode(e.skip(3)));
        }
        assert(bytes == seq![b] + rest);
    }
}

/// Every byte of a percent-encoding is ASCII.
pub proof fn lemma_percent_encode_ascii(bytes: Seq<u8>)
    ensures
        forall|i: int| 0 <= i < percent_encode(bytes).len() ==> #[trigger] percent_encode(bytes)[i] < 128,
    decreases bytes.len(),
{
    if bytes.len() > 0 {
        lemma_encode_byte(bytes[0]);
        lemma_percent_encode_ascii(bytes.drop_first());
        let e = percent_encode(bytes);
        let h = encode_byte(bytes[0]);
        let t = percent_encode(bytes.drop_first());
        assert forall|i: int| 0 <= i < e.len() implies #[trigger] e[i] < 128 by {
            if i < h.len() {
                assert(e[i] == h[i]);
            } else {
                assert(e[i] == t[i - h.len()]);
            }
        }
    }
}

/// The UTF-8 encoding of the characters that an ASCII byte string spells is
/// that byte string.
pub proof fn lemma_ascii_text_utf8(bytes: Seq<u8>)
    requires
        forall|i: int| 0 <= i < bytes.len() ==> #[trigger] bytes[i] < 128,
    ensures
        encode_utf8(ascii_text(bytes)) == bytes,
{
    let chars = ascii_text(bytes);
    assert(is_ascii_chars(chars)) by {
        assert forall|i: int| 0 <= i < chars.len() implies '\0' <= #[trigger] chars[i] <= '\u{7f}' by {
            assert(chars[i] == bytes[i] as char);
        }
    }
    is_ascii_chars_encode_utf8(chars);
    assert forall|i: int| 0 <= i < bytes.len() implies encode_utf8(chars)[i] == bytes[i] by {
        assert(chars[i] == bytes[i] as char);
    }
    assert(encode_utf8(chars) =~= bytes);
}

/// Decoding an encoded text gives the text back: a link to an entry leads
/// back to that entry's name.
pub proof fn lemma_decode_encoded(text: Seq<char>)
    ensures
        decoded_or_same(url_encoded(text)) == text,
{
    let bytes = encode_utf8(text);
    lemma_percent_encode_ascii(bytes);
    lemma_ascii_text_utf8(percent_encode(bytes));
    lemma_percent_decode_encode(bytes);
    encode_utf8_valid_utf8(text);
    encode_utf8_decode_utf8(text);
}

/// Every byte of a percent-encoding is unreserved or a `%`.
pub proof fn lemma_percent_encode_safe(bytes: Seq<u8>)
    ensures
        forall|i: int| 0 <= i < percent_encode(bytes).len() ==>
            is_unreserved(#[trigger] percent_encode(bytes)[i]) || percent_encode(bytes)[i] == 37,
    decreases bytes.len(),
{
    if bytes.len() > 0 {
        let b = bytes[0];
        lemma_percent_encode_safe(bytes.drop_first());
        let e = percent_encode(bytes);
        let h = encode_byte(b);
        let t = percent_encode(bytes.drop_first());
        assert forall|i: int| 0 <= i < e.len() implies is_unreserved(#[trigger] e[i]) || e[i] == 37 by {
            if i < h.len() {
                assert(e[i] == h[i]);
            } else {
                assert(e[i] == t[i - h.len()]);
            }
        }
    }
}

/// An encoded text holds neither `&` nor `=`, so it can stand as a value in
/// a query string.
pub proof fn lemma_encoded_has_no_separators(text: Seq<char>)
    ensures
        forall|i: int| 0 <= i < url_encoded(text).len() ==>
            #[trigger] url_encoded(text)[i] != '&' && url_encoded(text)[i] != '=',
{
    let bytes = percent_encode(encode_utf8(text));
    lemma_percent_encode_safe(encode_utf8(text));
    assert forall|i: int| 0 <= i < url_encoded(text).len() implies
        #[trigger] url_encoded(text)[i] != '&' && url_encoded(text)[i] != '=' by {
        assert(url_encoded(text)[i] == bytes[i] as char);
        assert(is_unreserved(bytes[i]) || bytes[i] == 37);
    }
}

/// Every character of an encoded text is `%` or one that percent-encoding
/// leaves as it is: an ASCII letter or digit, `-`, `.`, `_` or `~`.
pub proof fn lemma_encoded_chars(text: Seq<char>)
    ensures
        forall|i: int| 0 <= i < url_encoded(text).len() ==> {
            let c = #[trigger] url_encoded(text)[i];
            ||| c == '%'
            ||| ('0' <= c && c <= '9')
            ||| ('A' <= c && c <= 'Z')
            ||| ('a' <= c && c <= 'z')
            ||| c == '-'
            ||| c == '.'
            ||| c == '_'
            ||| c == '~'
        },
{
    let bytes = percent_encode(encode_utf8(text));
    lemma_percent_encode_safe(encode_utf8(text));
    assert forall|i: int| 0 <= i < url_encoded(text).len() implies {
        let c = #[trigger] url_encoded(text)[i];
        ||| c == '%'
        ||| ('0' <= c && c <= '9')
        ||| ('A' <= c && c <= 'Z')
        ||| ('a' <= c && c <= 'z')
        ||| c == '-'
        ||| c == '.'
        ||| c == '_'
        ||| c == '~'
    } by {
        assert(url_encoded(text)[i] == bytes[i] as char);
        assert(is_unreserved(bytes[i]) || bytes[i] == 37);
    }
}

} // verus!
