//! What the reader makes of what the writer wrote: a length-prefixed
//! frame is incomplete until its last byte arrives, and then it yields
//! exactly its message, however many frames follow it.

use vstd::prelude::*;
use vstd::utf8::{decode_utf8, encode_utf8, is_ascii_chars, valid_utf8};
use crate::framing::{
    ascii_eq_ignore_case, cl_header_start, cl_name, crlf_crlf, decimal_digits, decimal_value, extract_spec,
    find_from, frame_bytes, header_end, is_digit, is_unicode_ws, lemma_line_end_without_lf, lf_lf,
    parse_usize_spec, extract_at_eof_spec, lemma_incomplete_frame_at_eof, cl_step, scan_headers, skip_ws, starts_with_cl, strip_cr, trim_chars, trim_end_chars,
    trim_start_chars, FramingError, MessageFraming,
};

verus! {

proof fn lemma_ascii_bytes(b: Seq<u8>)
    requires
        forall|i: int| 0 <= i < b.len() ==> b[i] < 128,
    ensures
        valid_utf8(b),
        decode_utf8(b) == Seq::new(b.len(), |i: int| b[i] as char),
{
    let chars = Seq::new(b.len(), |i: int| b[i] as char);
    assert(is_ascii_chars(chars));
    vstd::utf8::is_ascii_chars_encode_utf8(chars);
    assert forall|i: int| 0 <= i < b.len() implies encode_utf8(chars)[i] == b[i] by {
        assert(chars[i] as u8 == encode_utf8(chars)[i]);
    }
    assert(encode_utf8(chars) =~= b);
    vstd::utf8::encode_utf8_valid_utf8(chars);
    vstd::utf8::encode_utf8_decode_utf8(chars);
}

/// The decimal digits of `n` as characters.
pub open spec fn digit_chars(n: nat) -> Seq<char> {
    decimal_digits(n).map_values(|b: u8| b as char)
}

proof fn lemma_digits(n: nat)
    ensures
        decimal_digits(n).len() >= 1,
        forall|i: int| 0 <= i < decimal_digits(n).len() ==> 48 <= #[trigger] decimal_digits(n)[i] <= 57,
        decimal_value(digit_chars(n)) == n,
    decreases n,
{
    let d = decimal_digits(n);
    let c = digit_chars(n);
    if n < 10 {
        assert(c.drop_last() =~= Seq::<char>::empty());
        assert((c.last() as nat) == 48 + n);
        assert(decimal_value(c) == decimal_value(c.drop_last()) * 10 + ((c.last() as nat) - ('0' as nat)) as nat);
        assert(decimal_value(c) == n);
    } else {
        lemma_digits(n / 10);
        let p = decimal_digits(n / 10);
        let pc = digit_chars(n / 10);
        assert(c.drop_last() =~= pc);
        assert(forall|i: int| 0 <= i < p.len() ==> d[i] == p[i]);
        assert(d.last() == (48 + n % 10) as u8);
        assert((c.last() as nat) == 48 + n % 10);
        assert((n / 10) * 10 + n % 10 == n);
        assert(decimal_value(c) == decimal_value(pc) * 10 + n % 10);
        assert(decimal_value(c) == n);
    }
}

/// `Content-Length: ` and the decimal length, before the blank line.
pub open spec fn header_line(len: nat) -> Seq<u8> {
    cl_header_start() + decimal_digits(len)
}

proof fn lemma_find_from_first(h: Seq<u8>, n: Seq<u8>, i: nat, j: nat)
    requires
        i <= j,
        j + n.len() <= h.len(),
        h.subrange(j as int, (j + n.len()) as int) == n,
        forall|t: nat| i <= t < j ==> #[trigger] h.subrange(t as int, (t + n.len()) as int) != n,
    ensures
        find_from(h, n, i) == Some(j),
    decreases j - i,
{
    if i < j {
        assert(h.subrange(i as int, (i + n.len()) as int) != n);
        lemma_find_from_first(h, n, i + 1, j);
    }
}

proof fn lemma_find_from_skip(h: Seq<u8>, n: Seq<u8>, i: nat, j: nat)
    requires
        i <= j,
        j <= h.len(),
        forall|t: nat| i <= t < j && t + n.len() <= h.len() ==> #[trigger] h.subrange(t as int, (t + n.len()) as int) != n,
    ensures
        find_from(h, n, i) == find_from(h, n, j),
        find_from(h, n, j) matches Some(x) ==> x >= j,
    decreases j - i,
{
    lemma_find_from_at_least(h, n, j);
    if i < j {
        if i + n.len() <= h.len() {
            assert(h.subrange(i as int, (i + n.len()) as int) != n);
        }
        lemma_find_from_skip(h, n, i + 1, j);
    }
}

proof fn lemma_find_from_at_least(h: Seq<u8>, n: Seq<u8>, j: nat)
    ensures
        find_from(h, n, j) matches Some(x) ==> x >= j,
    decreases h.len() - j,
{
    if j + n.len() <= h.len() && h.subrange(j as int, (j + n.len()) as int) != n && j < h.len() {
        lemma_find_from_at_least(h, n, j + 1);
    }
}

proof fn lemma_find_from_none(h: Seq<u8>, n: Seq<u8>, i: nat)
    requires
        n.len() > 0,
        forall|t: nat| i <= t && t + n.len() <= h.len() ==> #[trigger] h.subrange(t as int, (t + n.len()) as int) != n,
    ensures
        find_from(h, n, i) is None,
    decreases h.len() - i,
{
    if i + n.len() <= h.len() {
        assert(h.subrange(i as int, (i + n.len()) as int) != n);
        lemma_find_from_none(h, n, i + 1);
    }
}

proof fn lemma_header_line_bytes(len: nat)
    ensures
        header_line(len).len() == 16 + decimal_digits(len).len(),
        forall|i: int| 0 <= i < header_line(len).len() ==> (#[trigger] header_line(len)[i]) < 128
            && header_line(len)[i] != 10 && header_line(len)[i] != 13,
        forall|i: int| 0 <= i < 14 ==> (#[trigger] header_line(len)[i]) != 58,
        header_line(len)[14] == 58,
        header_line(len)[15] == 32,
        header_line(len)[0] == 67,
        forall|i: int| 16 <= i < header_line(len).len() ==> 48 <= (#[trigger] header_line(len)[i]) <= 57,
{
    lemma_digits(len);
    let h = header_line(len);
    let d = decimal_digits(len);
    assert forall|i: int| 16 <= i < h.len() implies 48 <= (#[trigger] h[i]) <= 57 by {
        assert(h[i] == d[i - 16]);
    }
}

proof fn lemma_header_line_scans(len: nat)
    requires
        len <= usize::MAX,
    ensures
        scan_headers(header_line(len)) == Ok::<Option<usize>, ()>(Some(len as usize)),
{
    let h = header_line(len);
    let d = decimal_digits(len);
    lemma_header_line_bytes(len);
    lemma_digits(len);
    lemma_line_end_without_lf(h);
    assert(h.take(h.len() as int) =~= h);
    assert(strip_cr(h) == h);
    let colon: Seq<u8> = seq![58u8];
    assert forall|t: nat| 0 <= t < 14 implies #[trigger] h.subrange(t as int, (t + colon.len()) as int) != colon by {
        assert(h.subrange(t as int, (t + 1) as int)[0] == h[t as int]);
    }
    assert(h.subrange(14, (15) as int) =~= colon);
    lemma_find_from_first(h, colon, 0, 14);
    let name = h.take(14);
    let value = h.skip(15);
    lemma_ascii_bytes(name);
    lemma_ascii_bytes(value);
    assert(name =~= seq![67u8, 111, 110, 116, 101, 110, 116, 45, 76, 101, 110, 103, 116, 104]);
    assert(ascii_eq_ignore_case(name, cl_name()));
    let dc = digit_chars(len);
    let vc = decode_utf8(value);
    assert(vc[0] == ' ');
    assert(vc.drop_first() =~= dc);
    assert forall|i: int| 0 <= i < dc.len() implies is_digit(#[trigger] dc[i]) by {
        assert(d[i] == h[i + 16]);
    }
    assert(!is_unicode_ws(dc[0]));
    assert(trim_start_chars(vc) == trim_start_chars(dc));
    assert(trim_start_chars(dc) == dc);
    assert(!is_unicode_ws(dc.last()));
    assert(trim_end_chars(dc) == dc);
    assert(trim_chars(vc) == dc);
    assert(dc[0] != '+');
    assert(parse_usize_spec(dc) == Some(len as usize));
}

proof fn lemma_frame_layout(m: Seq<char>)
    ensures
        frame_bytes(m, MessageFraming::ContentLength) == header_line(encode_utf8(m).len()) + crlf_crlf()
            + encode_utf8(m),
{
    assert(frame_bytes(m, MessageFraming::ContentLength) =~= header_line(encode_utf8(m).len())
        + crlf_crlf() + encode_utf8(m));
}

/// A buffer that begins with a written header line (at least its first
/// fifteen bytes) is read as length-prefixed, and nothing is trimmed.
proof fn lemma_front_of_frame(buf: Seq<u8>, len: nat)
    requires
        buf.len() >= 1,
        forall|i: int| 0 <= i < buf.len() && i < header_line(len).len() ==> buf[i] == header_line(len)[i],
    ensures
        skip_ws(buf) == buf,
        buf.len() >= 15 ==> starts_with_cl(buf),
{
    lemma_header_line_bytes(len);
    assert(buf[0] == 67);
    assert(buf.skip(0) =~= buf);
    if buf.len() >= 15 {
        let h = header_line(len);
        assert(h.take(15) =~= seq![67u8, 111, 110, 116, 101, 110, 116, 45, 76, 101, 110, 103, 116, 104, 58]);
        assert(buf.take(15) =~= h.take(15));
    }
}

/// Where the written header ends, seen in any buffer that holds it and
/// its blank line.
proof fn lemma_header_end_found(buf: Seq<u8>, len: nat)
    requires
        buf.len() >= header_line(len).len() + 4,
        buf.take(header_line(len).len() + 4 as int) == header_line(len) + crlf_crlf(),
    ensures
        header_end(buf) == Some((header_line(len).len(), 4nat)),
{
    let h = header_line(len);
    let n = crlf_crlf();
    lemma_header_line_bytes(len);
    assert forall|t: nat| 0 <= t < h.len() implies #[trigger] buf.subrange(t as int, (t + n.len()) as int) != n by {
        assert(buf.take(h.len() + 4 as int)[t as int] == h[t as int]);
        assert(buf.subrange(t as int, (t + n.len()) as int)[0] == buf[t as int]);
    }
    assert(buf.subrange(h.len() as int, (h.len() + 4) as int) =~= n) by {
        assert forall|j: int| 0 <= j < 4 implies buf[h.len() as int + j] == n[j] by {
            assert(buf.take(h.len() + 4 as int)[h.len() as int + j] == buf[h.len() as int + j]);
        }
    }
    lemma_find_from_first(buf, n, 0, h.len());
    let n2 = lf_lf();
    assert forall|t: nat| 0 <= t < h.len() + 1 && t + n2.len() <= buf.len() implies #[trigger] buf.subrange(t as int, (t + n2.len()) as int) != n2 by {
        assert(buf.subrange(t as int, (t + n2.len()) as int)[0] == buf[t as int]);
        assert(buf.take(h.len() + 4 as int)[t as int] == buf[t as int]);
        if t < h.len() {
            assert(buf[t as int] == h[t as int]);
        } else {
            assert(buf[t as int] == n[0]);
        }
    }
    lemma_find_from_skip(buf, n2, 0, h.len() + 1);
}

/// A buffer cut before the end of the written blank line holds no header
/// terminator of either kind.
proof fn lemma_header_end_missing(buf: Seq<u8>, len: nat)
    requires
        buf.len() < header_line(len).len() + 4,
        buf == (header_line(len) + crlf_crlf()).take(buf.len() as int),
    ensures
        header_end(buf) is None,
{
    let h = header_line(len);
    let whole = h + crlf_crlf();
    lemma_header_line_bytes(len);
    let n4 = crlf_crlf();
    assert forall|t: nat| 0 <= t && t + n4.len() <= buf.len() implies #[trigger] buf.subrange(t as int, (t + n4.len()) as int) != n4 by {
        assert(buf[t as int] == whole[t as int]);
        assert(buf.subrange(t as int, (t + n4.len()) as int)[0] == buf[t as int]);
    }
    lemma_find_from_none(buf, n4, 0);
    let n2 = lf_lf();
    assert forall|t: nat| 0 <= t && t + n2.len() <= buf.len() implies #[trigger] buf.subrange(t as int, (t + n2.len()) as int) != n2 by {
        assert(buf.subrange(t as int, (t + n2.len()) as int)[0] == buf[t as int]);
        assert(buf.subrange(t as int, (t + n2.len()) as int)[1] == buf[t + 1 as int]);
        assert(buf[t as int] == whole[t as int]);
        assert(buf[t + 1 as int] == whole[t + 1 as int]);
        if t >= h.len() {
            assert(whole[t + 1 as int] == n4[t + 1 - h.len() as int]);
        }
    }
    lemma_find_from_none(buf, n2, 0);
}

/// A complete length-prefixed frame at the front of a buffer yields its
/// message, tagged as length-prefixed, and leaves exactly the bytes that
/// follow it.
pub proof fn lemma_frame_then_rest(m: Seq<char>, rest: Seq<u8>)
    requires
        encode_utf8(m).len() <= usize::MAX,
    ensures
        extract_spec(frame_bytes(m, MessageFraming::ContentLength) + rest) == (
            Ok::<Option<(Seq<char>, MessageFraming)>, FramingError>(Some((m, MessageFraming::ContentLength))),
            rest,
        ),
{
    let body = encode_utf8(m);
    let len = body.len();
    let h = header_line(len);
    let buf = frame_bytes(m, MessageFraming::ContentLength) + rest;
    lemma_frame_layout(m);
    lemma_header_line_bytes(len);
    assert forall|i: int| 0 <= i < buf.len() && i < h.len() implies buf[i] == h[i] by {}
    lemma_front_of_frame(buf, len);
    assert(buf.take(h.len() + 4 as int) =~= h + crlf_crlf());
    lemma_header_end_found(buf, len);
    assert(buf.take(h.len() as int) =~= h);
    lemma_header_line_scans(len);
    let start = h.len() + 4;
    assert(buf.subrange(start as int, (start + len) as int) =~= body);
    vstd::utf8::encode_utf8_valid_utf8(m);
    vstd::utf8::encode_utf8_decode_utf8(m);
    assert(buf.skip(start + len as int) =~= rest);
}

/// Every cut of a length-prefixed frame short of its last byte reads as
/// incomplete: no error, no message, and the buffer kept as it is.
pub proof fn lemma_frame_prefix_incomplete(m: Seq<char>, k: nat)
    requires
        encode_utf8(m).len() <= usize::MAX,
        k < frame_bytes(m, MessageFraming::ContentLength).len(),
    ensures
        extract_spec(frame_bytes(m, MessageFraming::ContentLength).take(k as int)) == (
            Ok::<Option<(Seq<char>, MessageFraming)>, FramingError>(None),
            frame_bytes(m, MessageFraming::ContentLength).take(k as int),
        ),
{
    let body = encode_utf8(m);
    let len = body.len();
    let h = header_line(len);
    let frame = frame_bytes(m, MessageFraming::ContentLength);
    let buf = frame.take(k as int);
    lemma_frame_layout(m);
    lemma_header_line_bytes(len);
    if k == 0 {
        assert(buf =~= Seq::<u8>::empty());
        assert(buf.skip(0) =~= buf);
    } else {
        assert forall|i: int| 0 <= i < buf.len() && i < h.len() implies buf[i] == h[i] by {}
        lemma_front_of_frame(buf, len);
        if k < 15 {
            assert forall|i: int| 0 <= i < buf.len() implies buf[i] != 10u8 by {
                assert(buf[i] == h[i]);
            }
            lemma_line_end_without_lf(buf);
        } else if k < h.len() + 4 {
            assert(buf =~= (h + crlf_crlf()).take(buf.len() as int));
            lemma_header_end_missing(buf, len);
        } else {
            assert(buf.take(h.len() + 4 as int) =~= h + crlf_crlf());
            lemma_header_end_found(buf, len);
            assert(buf.take(h.len() as int) =~= h);
            lemma_header_line_scans(len);
        }
    }
}

/// Two length-prefixed frames back to back: the first extraction yields
/// the first message and leaves the second frame, the next yields the
/// second and leaves nothing.
pub proof fn lemma_two_frames(m1: Seq<char>, m2: Seq<char>)
    requires
        encode_utf8(m1).len() <= usize::MAX,
        encode_utf8(m2).len() <= usize::MAX,
    ensures
        ({
            let f2 = frame_bytes(m2, MessageFraming::ContentLength);
            let first = extract_spec(frame_bytes(m1, MessageFraming::ContentLength) + f2);
            let second = extract_spec(first.1);
            &&& first.0 == Ok::<Option<(Seq<char>, MessageFraming)>, FramingError>(
                Some((m1, MessageFraming::ContentLength)),
            )
            &&& second.0 == Ok::<Option<(Seq<char>, MessageFraming)>, FramingError>(
                Some((m2, MessageFraming::ContentLength)),
            )
            &&& second.1 == Seq::<u8>::empty()
        }),
{
    let f2 = frame_bytes(m2, MessageFraming::ContentLength);
    lemma_frame_then_rest(m1, f2);
    lemma_frame_then_rest(m2, Seq::empty());
    assert(f2 + Seq::<u8>::empty() =~= f2);
}

/// A written frame cut anywhere after its `Content-Length:` token and
/// before its last byte is, at the end of the stream, a truncation error.
pub proof fn lemma_cut_frame_at_eof(m: Seq<char>, k: nat)
    requires
        encode_utf8(m).len() <= usize::MAX,
        15 <= k < frame_bytes(m, MessageFraming::ContentLength).len(),
    ensures
        extract_at_eof_spec(frame_bytes(m, MessageFraming::ContentLength).take(k as int)).0 == Err::<
            Option<(Seq<char>, MessageFraming)>,
            FramingError,
        >(FramingError::UnexpectedEof),
{
    let len = encode_utf8(m).len();
    let h = header_line(len);
    let buf = frame_bytes(m, MessageFraming::ContentLength).take(k as int);
    lemma_frame_prefix_incomplete(m, k);
    lemma_frame_layout(m);
    lemma_header_line_bytes(len);
    assert forall|i: int| 0 <= i < buf.len() && i < h.len() implies buf[i] == h[i] by {}
    lemma_front_of_frame(buf, len);
    lemma_incomplete_frame_at_eof(buf);
}

} // verus!
