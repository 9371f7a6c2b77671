//! Splitting a byte stream into messages under two framings: a
//! `Content-Length` header block followed by a body, or one line of text.

use vstd::prelude::*;
use vstd::utf8::{decode_utf8, encode_utf8, valid_utf8};

verus! {

/// How one message was delimited on the wire.
#[derive(Debug, Clone, Copy, PartialEq, Eq, Structural)]
pub enum MessageFraming {
    JsonLine,
    ContentLength,
}

/// Why a buffer could not be split into a message.
#[derive(Debug, Clone, Copy, PartialEq, Eq, Structural)]
pub enum FramingError {
    /// A complete header block names no `Content-Length`.
    MissingContentLength,
    /// The `Content-Length` value is not a decimal number that fits.
    InvalidContentLength,
    /// A body or a line is not UTF-8.
    InvalidUtf8,
    /// The stream ended inside a length-prefixed message.
    UnexpectedEof,
}

/// `u8::is_ascii_whitespace`: space, tab, line feed, form feed, carriage return.
pub open spec fn is_ascii_ws(b: u8) -> bool {
    b == 32 || b == 9 || b == 10 || b == 12 || b == 13
}

/// Number of leading ASCII whitespace bytes.
pub open spec fn ws_prefix_len(s: Seq<u8>) -> nat
    decreases s.len(),
{
    if s.len() > 0 && is_ascii_ws(s[0]) {
        1 + ws_prefix_len(s.drop_first())
    } else {
        0
    }
}

pub open spec fn skip_ws(s: Seq<u8>) -> Seq<u8> {
    s.skip(ws_prefix_len(s) as int)
}

pub open spec fn ascii_lower(b: u8) -> u8 {
    if 65 <= b <= 90 {
        (b + 32) as u8
    } else {
        b
    }
}

pub open spec fn ascii_eq_ignore_case(a: Seq<u8>, b: Seq<u8>) -> bool {
    a.len() == b.len() && forall|i: int| 0 <= i < a.len() ==> ascii_lower(a[i]) == ascii_lower(b[i])
}

/// `content-length`, in lower case.
pub open spec fn cl_name() -> Seq<u8> {
    seq![99u8, 111, 110, 116, 101, 110, 116, 45, 108, 101, 110, 103, 116, 104]
}

/// The header token that selects the length-prefixed framing.
pub open spec fn cl_token() -> Seq<u8> {
    cl_name().push(58u8)
}

/// The buffer begins, ignoring ASCII case, with `content-length:`.
pub open spec fn starts_with_cl(s: Seq<u8>) -> bool {
    s.len() >= 15 && ascii_eq_ignore_case(s.take(15), cl_token())
}

/// First index at or after `i` where `n` occurs in `h`.
pub open spec fn find_from(h: Seq<u8>, n: Seq<u8>, i: nat) -> Option<nat>
    decreases h.len() - i,
{
    if i + n.len() > h.len() {
        None
    } else if h.subrange(i as int, (i + n.len()) as int) == n {
        Some(i)
    } else if i < h.len() {
        find_from(h, n, i + 1)
    } else {
        None
    }
}

/// First occurrence of a non-empty needle.
pub open spec fn find_seq(h: Seq<u8>, n: Seq<u8>) -> Option<nat> {
    if n.len() == 0 {
        None
    } else {
        find_from(h, n, 0)
    }
}

pub open spec fn crlf_crlf() -> Seq<u8> {
    seq![13u8, 10, 13, 10]
}

pub open spec fn lf_lf() -> Seq<u8> {
    seq![10u8, 10]
}

/// Where the header block ends, and how long its terminator is: the
/// first blank line, written as either `\r\n\r\n` or `\n\n`.
pub open spec fn header_end(buf: Seq<u8>) -> Option<(nat, nat)> {
    match (find_seq(buf, crlf_crlf()), find_seq(buf, lf_lf())) {
        (Some(a), Some(b)) => if a < b {
            Some((a, 4))
        } else {
            Some((b, 2))
        },
        (Some(a), None) => Some((a, 4)),
        (None, Some(b)) => Some((b, 2)),
        (None, None) => None,
    }
}


/// Index of the first line feed, or the length when there is none.
pub open spec fn line_end(s: Seq<u8>) -> nat
    decreases s.len(),
{
    if s.len() == 0 || s[0] == 10 {
        0
    } else {
        1 + line_end(s.drop_first())
    }
}

/// A line without its carriage return, if it ends in one.
pub open spec fn strip_cr(line: Seq<u8>) -> Seq<u8> {
    if line.len() > 0 && line.last() == 13u8 {
        line.drop_last()
    } else {
        line
    }
}

/// `char::is_whitespace`: the Unicode `White_Space` property.
pub open spec fn is_unicode_ws(c: char) -> bool {
    ('\u{9}' <= c <= '\u{d}') || c == ' ' || c == '\u{85}' || c == '\u{a0}' || c == '\u{1680}'
        || ('\u{2000}' <= c <= '\u{200a}') || c == '\u{2028}' || c == '\u{2029}'
        || c == '\u{202f}' || c == '\u{205f}' || c == '\u{3000}'
}

pub open spec fn trim_start_chars(s: Seq<char>) -> Seq<char>
    decreases s.len(),
{
    if s.len() > 0 && is_unicode_ws(s[0]) {
        trim_start_chars(s.drop_first())
    } else {
        s
    }
}

pub open spec fn trim_end_chars(s: Seq<char>) -> Seq<char>
    decreases s.len(),
{
    if s.len() > 0 && is_unicode_ws(s.last()) {
        trim_end_chars(s.drop_last())
    } else {
        s
    }
}

/// `str::trim`: leading and trailing whitespace removed.
pub open spec fn trim_chars(s: Seq<char>) -> Seq<char> {
    trim_end_chars(trim_start_chars(s))
}

pub open spec fn is_digit(c: char) -> bool {
    '0' <= c <= '9'
}

/// The value of a string of decimal digits.
pub open spec fn decimal_value(s: Seq<char>) -> nat
    decreases s.len(),
{
    if s.len() == 0 {
        0
    } else {
        decimal_value(s.drop_last()) * 10 + ((s.last() as nat) - ('0' as nat)) as nat
    }
}

/// `usize`'s `FromStr`: an optional `+` and then one or more decimal digits
/// whose value fits.
pub open spec fn parse_usize_spec(s: Seq<char>) -> Option<usize> {
    let d = if s.len() > 0 && s[0] == '+' {
        s.drop_first()
    } else {
        s
    };
    if d.len() > 0 && (forall|i: int| 0 <= i < d.len() ==> is_digit(#[trigger] d[i]))
        && decimal_value(d) <= usize::MAX {
        Some(decimal_value(d) as usize)
    } else {
        None
    }
}

/// What one header line says of the length: `None` when it is no
/// `Content-Length` line, `Some(None)` when its value does not parse.
pub open spec fn line_content_length(raw: Seq<u8>) -> Option<Option<usize>> {
    let line = strip_cr(raw);
    let colon = find_seq(line, seq![58u8]);
    match colon {
        None => None,
        Some(c) => {
            let name = line.take(c as int);
            let value = line.skip(c + 1 as int);
            if valid_utf8(name) && valid_utf8(value) && ascii_eq_ignore_case(name, cl_name()) {
                Some(parse_usize_spec(trim_chars(decode_utf8(value))))
            } else {
                None
            }
        },
    }
}

/// The first `Content-Length` line of a header block decides: `Err` when
/// its value does not parse, `Ok(None)` when there is no such line.
pub open spec fn scan_headers(h: Seq<u8>) -> Result<Option<usize>, ()>
    decreases h.len(),
{
    let p = line_end(h);
    match line_content_length(h.take(p as int)) {
        Some(Some(n)) => Ok(Some(n)),
        Some(None) => Err(()),
        None => if p < h.len() {
            scan_headers(h.skip(p + 1 as int))
        } else {
            Ok(None)
        },
    }
}

/// What a framing step yields: a message, nothing yet, or an error.
pub type Step = Result<Option<Seq<char>>, FramingError>;

/// A framed message as the caller sees it.
pub type Extracted = Result<Option<(Seq<char>, MessageFraming)>, FramingError>;

/// One length-prefixed step on a buffer that starts with the header token:
/// the result and what stays in the buffer.
pub open spec fn cl_step(buf: Seq<u8>) -> (Step, Seq<u8>) {
    match header_end(buf) {
        None => (Ok(None), buf),
        Some((he, dl)) => match scan_headers(buf.take(he as int)) {
            Err(_) => (Err(FramingError::InvalidContentLength), buf),
            Ok(None) => (Err(FramingError::MissingContentLength), buf),
            Ok(Some(n)) => {
                let start = he + dl;
                let end = start + n;
                if buf.len() < end {
                    (Ok(None), buf)
                } else {
                    let body = buf.subrange(start as int, end as int);
                    if valid_utf8(body) {
                        (Ok(Some(decode_utf8(body))), buf.skip(end as int))
                    } else {
                        (Err(FramingError::InvalidUtf8), buf)
                    }
                }
            },
        },
    }
}

/// One newline-delimited step: complete lines are taken off the front,
/// blank ones skipped, until one holds text.
pub open spec fn nd_step(buf: Seq<u8>) -> (Step, Seq<u8>)
    decreases buf.len(),
{
    let p = line_end(buf);
    if p >= buf.len() {
        (Ok(None), buf)
    } else {
        let line = strip_cr(buf.take(p as int));
        let rest = buf.skip(p + 1 as int);
        if !valid_utf8(line) {
            (Err(FramingError::InvalidUtf8), rest)
        } else {
            let text = trim_chars(decode_utf8(line));
            if text.len() == 0 {
                nd_step(rest)
            } else {
                (Ok(Some(text)), rest)
            }
        }
    }
}

pub open spec fn tagged(r: Step, f: MessageFraming) -> Extracted {
    match r {
        Ok(Some(m)) => Ok(Some((m, f))),
        Ok(None) => Ok(None),
        Err(e) => Err(e),
    }
}

/// One extraction from a live stream: the result and the buffer after it.
pub open spec fn extract_spec(buf: Seq<u8>) -> (Extracted, Seq<u8>) {
    let b = skip_ws(buf);
    if b.len() == 0 {
        (Ok(None), b)
    } else if starts_with_cl(b) {
        (tagged(cl_step(b).0, MessageFraming::ContentLength), cl_step(b).1)
    } else {
        (tagged(nd_step(b).0, MessageFraming::JsonLine), nd_step(b).1)
    }
}

/// The extraction made once the stream has ended: what is left must be
/// a complete message, one last line of text, or nothing.
pub open spec fn extract_at_eof_spec(buf: Seq<u8>) -> (Extracted, Seq<u8>) {
    let first = extract_spec(buf);
    if first.0 != Ok::<Option<(Seq<char>, MessageFraming)>, FramingError>(None) {
        first
    } else {
        let b = skip_ws(first.1);
        if b.len() == 0 {
            (Ok(None), b)
        } else if starts_with_cl(b) {
            (Err(FramingError::UnexpectedEof), b)
        } else if !valid_utf8(b) {
            (Err(FramingError::InvalidUtf8), b)
        } else {
            let text = trim_chars(decode_utf8(b));
            if text.len() == 0 {
                (Ok(None), Seq::empty())
            } else {
                (Ok(Some((text, MessageFraming::JsonLine))), Seq::empty())
            }
        }
    }
}

pub open spec fn step_view(r: Result<Option<String>, FramingError>) -> Step {
    match r {
        Ok(Some(m)) => Ok(Some(m@)),
        Ok(None) => Ok(None),
        Err(e) => Err(e),
    }
}

pub open spec fn extracted_view(r: Result<Option<(String, MessageFraming)>, FramingError>) -> Extracted {
    match r {
        Ok(Some((m, f))) => Ok(Some((m@, f))),
        Ok(None) => Ok(None),
        Err(e) => Err(e),
    }
}

pub open spec fn nat_opt(o: Option<usize>) -> Option<nat> {
    match o {
        Some(i) => Some(i as nat),
        None => None,
    }
}

/// Relies on `std::str::from_utf8`: it accepts exactly the valid UTF-8
/// slices and reads them as the characters they encode.
#[verifier::external_body]
fn utf8_str(bytes: &[u8]) -> (r: Option<&str>)
    ensures
        r is Some <==> valid_utf8(bytes@),
        r matches Some(s) ==> s@ == decode_utf8(bytes@),
{
    std::str::from_utf8(bytes).ok()
}

/// Relies on `str::trim`: leading and trailing `White_Space` removed.
#[verifier::external_body]
fn trim_str(s: &str) -> (r: &str)
    ensures
        r@ == trim_chars(s@),
{
    s.trim()
}

/// Relies on `usize`'s `FromStr`: an optional `+` and decimal digits
/// whose value fits, and nothing else.
#[verifier::external_body]
fn parse_usize(s: &str) -> (r: Option<usize>)
    ensures
        r == parse_usize_spec(s@),
{
    s.parse::<usize>().ok()
}

fn is_ascii_ws_byte(b: u8) -> (r: bool)
    ensures
        r == is_ascii_ws(b),
{
    b == 32 || b == 9 || b == 10 || b == 12 || b == 13
}

fn ascii_lower_byte(b: u8) -> (r: u8)
    ensures
        r == ascii_lower(b),
{
    if 65 <= b && b <= 90 {
        b + 32
    } else {
        b
    }
}

/// Removes the first `n` bytes.
fn drain_front(buffer: &mut Vec<u8>, n: usize)
    requires
        n <= old(buffer)@.len(),
    ensures
        final(buffer)@ == old(buffer)@.skip(n as int),
{
    let rest = buffer.split_off(n);
    *buffer = rest;
}

fn ws_prefix_count(s: &[u8]) -> (n: usize)
    ensures
        n == ws_prefix_len(s@),
        n <= s@.len(),
{
    let mut i: usize = 0;
    assert(s@.skip(0) =~= s@);
    while i < s.len() && is_ascii_ws_byte(s[i])
        invariant
            i <= s@.len(),
            ws_prefix_len(s@) == i + ws_prefix_len(s@.skip(i as int)),
        decreases s@.len() - i,
    {
        assert(s@.skip(i as int).drop_first() =~= s@.skip(i + 1 as int));
        i += 1;
    }
    i
}

pub fn trim_leading_whitespace(buffer: &mut Vec<u8>)
    ensures
        final(buffer)@ == skip_ws(old(buffer)@),
{
    let count = ws_prefix_count(buffer.as_slice());
    if count > 0 {
        drain_front(buffer, count);
    } else {
        assert(buffer@.skip(0) =~= buffer@);
    }
}

fn eq_ignore_ascii_case(a: &[u8], b: &[u8]) -> (r: bool)
    ensures
        r == ascii_eq_ignore_case(a@, b@),
{
    if a.len() != b.len() {
        return false;
    }
    let mut i: usize = 0;
    while i < a.len()
        invariant
            a@.len() == b@.len(),
            i <= a@.len(),
            forall|k: int| 0 <= k < i ==> ascii_lower(a@[k]) == ascii_lower(b@[k]),
        decreases a@.len() - i,
    {
        if ascii_lower_byte(a[i]) != ascii_lower_byte(b[i]) {
            return false;
        }
        i += 1;
    }
    true
}

pub fn starts_with_content_length(buffer: &[u8]) -> (r: bool)
    ensures
        r == starts_with_cl(buffer@),
{
    let token: [u8; 15] = [99, 111, 110, 116, 101, 110, 116, 45, 108, 101, 110, 103, 116, 104, 58];
    assert(token@ =~= cl_token());
    if buffer.len() < 15 {
        return false;
    }
    let r = eq_ignore_ascii_case(&buffer[0..15], token.as_slice());
    assert(buffer@.subrange(0, 15) =~= buffer@.take(15));
    r
}

fn window_matches(haystack: &[u8], needle: &[u8], at: usize) -> (r: bool)
    requires
        at + needle@.len() <= haystack@.len(),
    ensures
        r == (haystack@.subrange(at as int, at + needle@.len()) == needle@),
{
    let hlen = haystack.len();
    let mut k: usize = 0;
    while k < needle.len()
        invariant
            hlen == haystack@.len(),
            at + needle@.len() <= haystack@.len(),
            k <= needle@.len(),
            forall|j: int| 0 <= j < k ==> haystack@[at + j] == needle@[j],
        decreases needle@.len() - k,
    {
        if haystack[at + k] != needle[k] {
            assert(haystack@.subrange(at as int, at + needle@.len())[k as int] != needle@[k as int]);
            return false;
        }
        k += 1;
    }
    assert(haystack@.subrange(at as int, at + needle@.len()) =~= needle@);
    true
}

pub fn find_subsequence(haystack: &[u8], needle: &[u8]) -> (r: Option<usize>)
    ensures
        nat_opt(r) == find_seq(haystack@, needle@),
        r matches Some(i) ==> i + needle@.len() <= haystack@.len(),
{
    if needle.len() == 0 || haystack.len() < needle.len() {
        return None;
    }
    let last = haystack.len() - needle.len();
    let mut i: usize = 0;
    while i <= last
        invariant
            needle@.len() > 0,
            last < usize::MAX,
            last == haystack@.len() - needle@.len(),
            i <= last + 1,
            find_seq(haystack@, needle@) == find_from(haystack@, needle@, i as nat),
        decreases last + 1 - i,
    {
        if window_matches(haystack, needle, i) {
            return Some(i);
        }
        i += 1;
    }
    None
}

pub fn find_header_end(buffer: &[u8]) -> (r: Option<(usize, usize)>)
    ensures
        match r {
            Some((i, d)) => header_end(buffer@) == Some((i as nat, d as nat)) && i + d <= buffer@.len(),
            None => header_end(buffer@) is None,
        },
{
    let crlf_crlf_bytes: [u8; 4] = [13, 10, 13, 10];
    let lf_lf_bytes: [u8; 2] = [10, 10];
    assert(crlf_crlf_bytes@ =~= crlf_crlf());
    assert(lf_lf_bytes@ =~= lf_lf());
    let crlf_at = find_subsequence(buffer, crlf_crlf_bytes.as_slice());
    let lf_at = find_subsequence(buffer, lf_lf_bytes.as_slice());
    match (crlf_at, lf_at) {
        (Some(a), Some(b)) => if a < b {
            Some((a, 4))
        } else {
            Some((b, 2))
        },
        (Some(a), None) => Some((a, 4)),
        (None, Some(b)) => Some((b, 2)),
        (None, None) => None,
    }
}

proof fn lemma_line_end_step(s: Seq<u8>, i: int)
    requires
        0 <= i < s.len(),
        s[i] != 10u8,
    ensures
        line_end(s.skip(i)) == 1 + line_end(s.skip(i + 1)),
{
    assert(s.skip(i).drop_first() =~= s.skip(i + 1));
}

/// Index of the first line feed at or after `start`, or the length.
fn find_line_end(s: &[u8], start: usize) -> (r: usize)
    requires
        start <= s@.len(),
    ensures
        start <= r <= s@.len(),
        r == start + line_end(s@.skip(start as int)),
{
    let mut i: usize = start;
    while i < s.len() && s[i] != 10
        invariant
            start <= i <= s@.len(),
            line_end(s@.skip(start as int)) == (i - start) + line_end(s@.skip(i as int)),
        decreases s@.len() - i,
    {
        proof {
            lemma_line_end_step(s@, i as int);
        }
        i += 1;
    }
    i
}

pub fn trim_trailing_cr(line: &[u8]) -> (r: &[u8])
    ensures
        r@ == strip_cr(line@),
{
    if line.len() > 0 && line[line.len() - 1] == 13 {
        let r = &line[0..line.len() - 1];
        assert(r@ =~= line@.drop_last());
        r
    } else {
        line
    }
}

/// Splits a header line at its first colon; both halves must be UTF-8.
pub fn split_header(line: &[u8]) -> (r: Option<(&str, &str)>)
    ensures
        ({
            let colon = find_seq(line@, seq![58u8]);
            match r {
                Some((name, value)) => colon matches Some(c) && valid_utf8(line@.take(c as int))
                    && valid_utf8(line@.skip(c + 1 as int)) && name@ == decode_utf8(line@.take(c as int))
                    && value@ == decode_utf8(line@.skip(c + 1 as int)),
                None => colon matches Some(c) ==> !valid_utf8(line@.take(c as int)) || !valid_utf8(
                    line@.skip(c + 1 as int),
                ),
            }
        }),
{
    let colon_byte: [u8; 1] = [58];
    assert(colon_byte@ =~= seq![58u8]);
    let len = line.len();
    let colon = match find_subsequence(line, colon_byte.as_slice()) {
        Some(c) => c,
        None => return None,
    };
    let name_bytes = &line[0..colon];
    let value_bytes = &line[colon + 1..len];
    assert(name_bytes@ =~= line@.take(colon as int));
    assert(value_bytes@ =~= line@.skip(colon + 1 as int));
    let name = match utf8_str(name_bytes) {
        Some(n) => n,
        None => return None,
    };
    let value = match utf8_str(value_bytes) {
        Some(v) => v,
        None => return None,
    };
    Some((name, value))
}

/// What one header line says of the length (see `line_content_length`).
fn header_line_length(raw: &[u8]) -> (r: Option<Option<usize>>)
    ensures
        r == line_content_length(raw@),
{
    let name_bytes: [u8; 14] = [99, 111, 110, 116, 101, 110, 116, 45, 108, 101, 110, 103, 116, 104];
    assert(name_bytes@ =~= cl_name());
    let line = trim_trailing_cr(raw);
    match split_header(line) {
        None => None,
        Some((name, value)) => {
            proof {
                let c = find_seq(line@, seq![58u8])->Some_0;
                vstd::utf8::decode_utf8_encode_utf8(line@.take(c as int));
            }
            if eq_ignore_ascii_case(name.as_bytes(), name_bytes.as_slice()) {
                Some(parse_usize(trim_str(value)))
            } else {
                None
            }
        },
    }
}

pub fn parse_content_length(headers: &[u8]) -> (r: Result<Option<usize>, FramingError>)
    ensures
        match scan_headers(headers@) {
            Ok(n) => r == Ok::<Option<usize>, FramingError>(n),
            Err(_) => r == Err::<Option<usize>, FramingError>(FramingError::InvalidContentLength),
        },
{
    let mut start: usize = 0;
    assert(headers@.skip(0) =~= headers@);
    loop
        invariant
            start <= headers@.len(),
            scan_headers(headers@) == scan_headers(headers@.skip(start as int)),
        decreases headers@.len() - start,
    {
        let end = find_line_end(headers, start);
        let raw = &headers[start..end];
        let ghost rest = headers@.skip(start as int);
        assert(raw@ =~= rest.take(end - start));
        match header_line_length(raw) {
            Some(Some(n)) => return Ok(Some(n)),
            Some(None) => return Err(FramingError::InvalidContentLength),
            None => {},
        }
        if end >= headers.len() {
            return Ok(None);
        }
        assert(rest.skip(end - start + 1) =~= headers@.skip(end + 1));
        start = end + 1;
    }
}

pub fn try_extract_content_length_message(buffer: &mut Vec<u8>) -> (r: Result<Option<String>, FramingError>)
    ensures
        (step_view(r), final(buffer)@) == cl_step(old(buffer)@),
{
    let len = buffer.len();
    let (header_end_at, delimiter_len) = match find_header_end(buffer.as_slice()) {
        Some(found) => found,
        None => return Ok(None),
    };
    let headers = &buffer[0..header_end_at];
    assert(headers@ =~= buffer@.take(header_end_at as int));
    let content_length = match parse_content_length(headers) {
        Ok(Some(n)) => n,
        Ok(None) => return Err(FramingError::MissingContentLength),
        Err(e) => return Err(e),
    };
    let body_start = header_end_at + delimiter_len;
    if content_length > len - body_start {
        return Ok(None);
    }
    let body_end = body_start + content_length;
    let message = match utf8_str(&buffer[body_start..body_end]) {
        Some(text) => text.to_owned(),
        None => return Err(FramingError::InvalidUtf8),
    };
    drain_front(buffer, body_end);
    Ok(Some(message))
}

pub fn try_extract_ndjson_message(buffer: &mut Vec<u8>) -> (r: Result<Option<String>, FramingError>)
    ensures
        (step_view(r), final(buffer)@) == nd_step(old(buffer)@),
{
    loop
        invariant
            nd_step(old(buffer)@) == nd_step(buffer@),
        decreases buffer@.len(),
    {
        let newline = find_line_end(buffer.as_slice(), 0);
        assert(buffer@.skip(0) =~= buffer@);
        if newline >= buffer.len() {
            return Ok(None);
        }
        let raw = &buffer[0..newline];
        assert(raw@ =~= buffer@.take(newline as int));
        let line = trim_trailing_cr(raw);
        let text = match utf8_str(line) {
            Some(decoded) => {
                let trimmed = trim_str(decoded);
                if trimmed.is_empty() {
                    None
                } else {
                    Some(trimmed.to_owned())
                }
            },
            None => {
                drain_front(buffer, newline + 1);
                return Err(FramingError::InvalidUtf8);
            },
        };
        drain_front(buffer, newline + 1);
        if let Some(message) = text {
            return Ok(Some(message));
        }
    }
}

/// Takes the next complete message off the front of `buffer`, after
/// dropping leading whitespace. `Ok(None)` asks for more bytes.
pub fn extract_message(buffer: &mut Vec<u8>) -> (r: Result<Option<(String, MessageFraming)>, FramingError>)
    ensures
        (extracted_view(r), final(buffer)@) == extract_spec(old(buffer)@),
{
    trim_leading_whitespace(buffer);
    if buffer.len() == 0 {
        return Ok(None);
    }
    if starts_with_content_length(buffer.as_slice()) {
        return match try_extract_content_length_message(buffer) {
            Ok(Some(message)) => Ok(Some((message, MessageFraming::ContentLength))),
            Ok(None) => Ok(None),
            Err(e) => Err(e),
        };
    }
    match try_extract_ndjson_message(buffer) {
        Ok(Some(message)) => Ok(Some((message, MessageFraming::JsonLine))),
        Ok(None) => Ok(None),
        Err(e) => Err(e),
    }
}

/// The extraction made once the stream has ended: a length-prefixed
/// message cut short is an error, and trailing text without its line feed
/// is still one message.
pub fn extract_message_at_eof(buffer: &mut Vec<u8>) -> (r: Result<Option<(String, MessageFraming)>, FramingError>)
    ensures
        (extracted_view(r), final(buffer)@) == extract_at_eof_spec(old(buffer)@),
{
    match extract_message(buffer) {
        Ok(Some(message)) => return Ok(Some(message)),
        Err(e) => return Err(e),
        Ok(None) => {},
    }
    trim_leading_whitespace(buffer);
    if buffer.len() == 0 {
        return Ok(None);
    }
    if starts_with_content_length(buffer.as_slice()) {
        return Err(FramingError::UnexpectedEof);
    }
    let trailing = match utf8_str(buffer.as_slice()) {
        Some(text) => trim_str(text).to_owned(),
        None => return Err(FramingError::InvalidUtf8),
    };
    buffer.clear();
    if trailing.as_str().is_empty() {
        return Ok(None);
    }
    Ok(Some((trailing, MessageFraming::JsonLine)))
}

/// The decimal digits of `n`, most significant first.
pub open spec fn decimal_digits(n: nat) -> Seq<u8>
    decreases n,
{
    if n < 10 {
        seq![(48 + n) as u8]
    } else {
        decimal_digits(n / 10).push((48 + n % 10) as u8)
    }
}

/// `Content-Length: `, as written.
pub open spec fn cl_header_start() -> Seq<u8> {
    seq![67u8, 111, 110, 116, 101, 110, 116, 45, 76, 101, 110, 103, 116, 104, 58, 32]
}

/// The bytes that carry `message` under `framing`.
pub open spec fn frame_bytes(message: Seq<char>, framing: MessageFraming) -> Seq<u8> {
    let body = encode_utf8(message);
    match framing {
        MessageFraming::JsonLine => body.push(10u8),
        MessageFraming::ContentLength => cl_header_start() + decimal_digits(body.len()) + crlf_crlf()
            + body,
    }
}

fn push_decimal(out: &mut Vec<u8>, n: usize)
    ensures
        final(out)@ == old(out)@ + decimal_digits(n as nat),
    decreases n,
{
    if n >= 10 {
        push_decimal(out, n / 10);
    }
    out.push(48 + (n % 10) as u8);
    assert(out@ =~= old(out)@ + decimal_digits(n as nat));
}

fn push_bytes(out: &mut Vec<u8>, bytes: &[u8])
    ensures
        final(out)@ == old(out)@ + bytes@,
{
    let mut i: usize = 0;
    while i < bytes.len()
        invariant
            i <= bytes@.len(),
            out@ == old(out)@ + bytes@.take(i as int),
        decreases bytes@.len() - i,
    {
        out.push(bytes[i]);
        assert(bytes@.take(i + 1 as int) =~= bytes@.take(i as int).push(bytes@[i as int]));
        i += 1;
    }
    assert(bytes@.take(i as int) =~= bytes@);
}

/// The bytes to write for `message`, echoing the framing it came in:
/// a line feed after it, or a `Content-Length` header before it.
pub fn encode_message(message: &str, framing: MessageFraming) -> (r: Vec<u8>)
    ensures
        r@ == frame_bytes(message@, framing),
{
    let body = message.as_bytes();
    let mut out: Vec<u8> = Vec::new();
    match framing {
        MessageFraming::JsonLine => {
            push_bytes(&mut out, body);
            out.push(10);
        },
        MessageFraming::ContentLength => {
            let start: [u8; 16] = [67, 111, 110, 116, 101, 110, 116, 45, 76, 101, 110, 103, 116, 104, 58, 32];
            let terminator: [u8; 4] = [13, 10, 13, 10];
            assert(start@ =~= cl_header_start());
            assert(terminator@ =~= crlf_crlf());
            push_bytes(&mut out, start.as_slice());
            push_decimal(&mut out, body.len());
            push_bytes(&mut out, terminator.as_slice());
            push_bytes(&mut out, body);
        },
    }
    assert(out@ =~= frame_bytes(message@, framing));
    out
}

pub proof fn lemma_skip_ws_settles(s: Seq<u8>)
    ensures
        ws_prefix_len(s) <= s.len(),
        ws_prefix_len(skip_ws(s)) == 0,
        skip_ws(skip_ws(s)) == skip_ws(s),
    decreases s.len(),
{
    if s.len() > 0 && is_ascii_ws(s[0]) {
        lemma_skip_ws_settles(s.drop_first());
        let k = ws_prefix_len(s.drop_first());
        assert(s.skip(1 + k as int) =~= s.drop_first().skip(k as int));
    }
    assert(skip_ws(s).skip(0) =~= skip_ws(s));
}

pub proof fn lemma_line_end_without_lf(s: Seq<u8>)
    requires
        forall|i: int| 0 <= i < s.len() ==> s[i] != 10u8,
    ensures
        line_end(s) == s.len(),
    decreases s.len(),
{
    if s.len() > 0 {
        lemma_line_end_without_lf(s.drop_first());
    }
}

/// At the end of the stream, text after the last line feed that is not a
/// length-prefixed header is still delivered, trimmed, as one message,
/// and the buffer is left empty.
pub proof fn lemma_last_line_at_eof(buf: Seq<u8>)
    requires
        forall|i: int| 0 <= i < skip_ws(buf).len() ==> skip_ws(buf)[i] != 10u8,
        !starts_with_cl(skip_ws(buf)),
        valid_utf8(skip_ws(buf)),
        trim_chars(decode_utf8(skip_ws(buf))).len() > 0,
    ensures
        extract_at_eof_spec(buf) == (
            Ok::<Option<(Seq<char>, MessageFraming)>, FramingError>(
                Some((trim_chars(decode_utf8(skip_ws(buf))), MessageFraming::JsonLine)),
            ),
            Seq::<u8>::empty(),
        ),
{
    let b = skip_ws(buf);
    lemma_skip_ws_settles(buf);
    lemma_line_end_without_lf(b);
    if b.len() == 0 {
        assert(decode_utf8(b) =~= Seq::<char>::empty());
    }
}

/// At the end of the stream, a buffer that begins with the length-prefixed
/// header token but holds no complete frame (no blank line yet, or fewer
/// body bytes than declared) is an error, never a dropped message.
pub proof fn lemma_incomplete_frame_at_eof(buf: Seq<u8>)
    requires
        starts_with_cl(skip_ws(buf)),
        cl_step(skip_ws(buf)).0 == Ok::<Option<Seq<char>>, FramingError>(None),
    ensures
        extract_at_eof_spec(buf).0 == Err::<Option<(Seq<char>, MessageFraming)>, FramingError>(
            FramingError::UnexpectedEof,
        ),
{
    lemma_skip_ws_settles(buf);
}

} // verus!
