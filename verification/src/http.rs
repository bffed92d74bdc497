//! The HTTP side of the server: reading the request line and writing the
//! heads of responses.

use vstd::prelude::*;
use vstd::utf8::*;
use crate::decimal::{decimal, format_decimal};

verus! {

/// `char::is_whitespace`: the characters with the Unicode `White_Space`
/// property.
pub open spec fn is_space(c: char) -> bool {
    ||| ('\u{9}' <= c && c <= '\u{d}')
    ||| c == ' '
    ||| c == '\u{85}'
    ||| c == '\u{a0}'
    ||| c == '\u{1680}'
    ||| ('\u{2000}' <= c && c <= '\u{200a}')
    ||| c == '\u{2028}'
    ||| c == '\u{2029}'
    ||| c == '\u{202f}'
    ||| c == '\u{205f}'
    ||| c == '\u{3000}'
}

/// Whether `c` has the Unicode `White_Space` property, as `char::is_whitespace`
/// tells.
pub fn is_whitespace(c: char) -> (b: bool)
    ensures
        b == is_space(c),
{
    ('\u{9}' <= c && c <= '\u{d}') || c == ' ' || c == '\u{85}' || c == '\u{a0}'
        || c == '\u{1680}' || ('\u{2000}' <= c && c <= '\u{200a}') || c == '\u{2028}'
        || c == '\u{2029}' || c == '\u{202f}' || c == '\u{205f}' || c == '\u{3000}'
}

/// The length of the longest prefix of `s` whose characters are all white
/// space (`space`) or all not white space (`!space`).
pub open spec fn span_len(s: Seq<char>, space: bool) -> nat
    decreases s.len(),
{
    if s.len() > 0 && is_space(s[0]) == space {
        1 + span_len(s.drop_first(), space)
    } else {
        0
    }
}

/// The first white-space separated word of `s` and what follows it, as
/// `split_whitespace` finds them; `None` when `s` holds no word.
pub open spec fn next_word(s: Seq<char>) -> Option<(Seq<char>, Seq<char>)> {
    let t = s.skip(span_len(s, true) as int);
    if t.len() == 0 {
        None
    } else {
        let n = span_len(t, false) as int;
        Some((t.take(n), t.skip(n)))
    }
}

/// The method of a request line: its first word, or empty.
pub open spec fn request_method(line: Seq<char>) -> Seq<char> {
    match next_word(line) {
        Some((word, _)) => word,
        None => Seq::empty(),
    }
}

/// The target of a request line: its second word, or `/`.
pub open spec fn request_target(line: Seq<char>) -> Seq<char> {
    match next_word(line) {
        Some((_, rest)) => match next_word(rest) {
            Some((word, _)) => word,
            None => seq!['/'],
        },
        None => seq!['/'],
    }
}

/// The method and the target of an HTTP request line.
pub struct RequestLine {
    pub method: String,
    pub target: String,
}

proof fn lemma_span_len(s: Seq<char>, space: bool, j: int)
    requires
        0 <= j <= s.len(),
        forall|k: int| 0 <= k < j ==> #[trigger] is_space(s[k]) == space,
        j == s.len() || is_space(s[j]) != space,
    ensures
        span_len(s, space) == j,
    decreases j,
{
    if j > 0 {
        assert forall|k: int| 0 <= k < j - 1 implies #[trigger] is_space(s.drop_first()[k]) == space by {
            assert(s.drop_first()[k] == s[k + 1]);
        }
        lemma_span_len(s.drop_first(), space, j - 1);
    }
}

/// A line made of a method word, one space and a target word, followed by
/// nothing or by white space and more, has that method and that target.
pub proof fn lemma_request_words(method: Seq<char>, target: Seq<char>, rest: Seq<char>)
    requires
        method.len() > 0,
        target.len() > 0,
        forall|k: int| 0 <= k < method.len() ==> !is_space(#[trigger] method[k]),
        forall|k: int| 0 <= k < target.len() ==> !is_space(#[trigger] target[k]),
        rest.len() == 0 || is_space(rest[0]),
    ensures
        request_method(method + seq![' '] + target + rest) == method,
        request_target(method + seq![' '] + target + rest) == target,
{
    let line = method + seq![' '] + target + rest;
    let after = seq![' '] + target + rest;
    assert(line == method + after);
    lemma_span_len(line, true, 0);
    assert(line.skip(0) == line);
    assert forall|k: int| 0 <= k < method.len() implies #[trigger] is_space(line[k]) == false by {
        assert(line[k] == method[k]);
    }
    assert(line[method.len() as int] == ' ');
    lemma_span_len(line, false, method.len() as int);
    assert(line.take(method.len() as int) == method);
    assert(line.skip(method.len() as int) == after);
    assert(next_word(line) == Some((method, after)));
    let t = target + rest;
    assert(after[0] == ' ');
    assert(after[1] == target[0]);
    lemma_span_len(after, true, 1);
    assert(after.skip(1) == t);
    assert forall|k: int| 0 <= k < target.len() implies #[trigger] is_space(t[k]) == false by {
        assert(t[k] == target[k]);
    }
    if rest.len() > 0 {
        assert(t[target.len() as int] == rest[0]);
    }
    lemma_span_len(t, false, target.len() as int);
    assert(t.take(target.len() as int) == target);
    assert(next_word(after) == Some((target, rest)));
}

/// Scans `cs` from `from` for the next word; gives its start and end.
fn scan_word(cs: &Vec<char>, from: usize) -> (r: Option<(usize, usize)>)
    requires
        from <= cs.len(),
    ensures
        match r {
            Some((start, end)) => from <= start < end <= cs.len() && next_word(
                cs@.skip(from as int),
            ) == Some((cs@.subrange(start as int, end as int), cs@.skip(end as int))),
            None => next_word(cs@.skip(from as int)) is None,
        },
{
    let ghost s = cs@.skip(from as int);
    let mut i = from;
    while i < cs.len() && is_whitespace(cs[i])
        invariant
            from <= i <= cs.len(),
            forall|k: int| from <= k < i ==> #[trigger] is_space(cs@[k]),
        decreases cs.len() - i,
    {
        i = i + 1;
    }
    proof {
        lemma_span_len(s, true, i - from);
    }
    let ghost t = s.skip(i - from);
    assert(t == cs@.skip(i as int));
    if i == cs.len() {
        return None;
    }
    let start = i;
    while i < cs.len() && !is_whitespace(cs[i])
        invariant
            start <= i <= cs.len(),
            forall|k: int| start <= k < i ==> !#[trigger] is_space(cs@[k]),
        decreases cs.len() - i,
    {
        i = i + 1;
    }
    proof {
        lemma_span_len(t, false, i - start);
    }
    assert(t.take(i - start) == cs@.subrange(start as int, i as int));
    assert(t.skip(i - start) == cs@.skip(i as int));
    Some((start, i))
}

/// Splits an HTTP request line into its method (empty when the line has no
/// word) and its target (`/` when it has no second word).
pub fn parse_request_line(line: &str) -> (r: RequestLine)
    ensures
        r.method@ == request_method(line@),
        r.target@ == request_target(line@),
{
    let cs = crate::text::chars_of(line);
    assert(cs@.skip(0) == line@);
    match scan_word(&cs, 0) {
        None => RequestLine { method: String::new(), target: crate::text::string_from(&['/']) },
        Some((start, end)) => {
            let method = crate::text::string_from(crate::text::slice_of(&cs, start, end));
            let target = match scan_word(&cs, end) {
                None => crate::text::string_from(&['/']),
                Some((s2, e2)) => crate::text::string_from(crate::text::slice_of(&cs, s2, e2)),
            };
            RequestLine { method, target }
        },
    }
}

/// The text of a response with a status line, a `Content-Length` that is the
/// byte length of `body`, a `Content-Type`, and then `body`.
pub open spec fn status_response_text(status: Seq<char>, body: Seq<char>, content_type: Seq<char>) -> Seq<char> {
    "HTTP/1.1 "@ + status + "\r\nContent-Length: "@ + decimal(encode_utf8(body).len())
        + "\r\nContent-Type: "@ + content_type + "\r\n\r\n"@ + body
}

/// The head of a `200 OK` response that hands over `length` bytes as the
/// attachment `filename`.
pub open spec fn attachment_head_text(filename: Seq<char>, length: nat, content_type: Seq<char>) -> Seq<char> {
    "HTTP/1.1 200 OK\r\nContent-Length: "@ + decimal(length) + "\r\nContent-Type: "@
        + content_type + "\r\nContent-Disposition: attachment; filename=\""@ + filename
        + "\"\r\n\r\n"@
}

/// A complete response with the given status line, body and content type.
pub fn status_response(status: &str, body: &str, content_type: &str) -> (r: String)
    ensures
        r@ == status_response_text(status@, body@, content_type@),
{
    let mut r = String::new();
    r.append("HTTP/1.1 ");
    r.append(status);
    r.append("\r\nContent-Length: ");
    let len = format_decimal(body.as_bytes().len());
    r.append(len.as_str());
    r.append("\r\nContent-Type: ");
    r.append(content_type);
    r.append("\r\n\r\n");
    r.append(body);
    r
}

/// The head of a response that sends `length` bytes as the download
/// `filename`; the bytes follow it.
pub fn attachment_head(filename: &str, length: usize, content_type: &str) -> (r: String)
    ensures
        r@ == attachment_head_text(filename@, length as nat, content_type@),
{
    let mut r = String::new();
    r.append("HTTP/1.1 200 OK\r\nContent-Length: ");
    let len = format_decimal(length);
    r.append(len.as_str());
    r.append("\r\nContent-Type: ");
    r.append(content_type);
    r.append("\r\nContent-Disposition: attachment; filename=\"");
    r.append(filename);
    r.append("\"\r\n\r\n");
    r
}

} // verus!
