//! The wire-format codec: `Content-Length`-framed message bodies over a byte
//! stream.
//!
//! A frame is a sequence of header lines (`Name: Value`, terminated by LF with
//! an optional CR before it), a blank line, and exactly `Content-Length` bytes
//! of body. Decoding is specified by [`spec_decode`], a mathematical parser
//! that the executable decoder is proved to implement exactly; encoding
//! produces [`frame_of`] and is proved to round-trip through the decoder.

use vstd::prelude::*;
use vstd::string::*;

verus! {

/// A fatal stream error: the connection is considered broken.
#[derive(Clone, Copy, PartialEq, Eq, Structural, Debug)]
pub enum FrameError {
    /// A header line without a `": "` separator.
    BadHeader,
    /// A `Content-Length` value that is not a representable non-negative integer.
    BadLength,
    /// The blank line arrived without any `Content-Length` header.
    MissingLength,
    /// The body bytes are not valid UTF-8.
    BadUtf8,
    /// The body text is neither a response nor a call.
    BadJson,
}

/// Byte `i` of the `"Content-Length: "` header prefix.
pub open spec fn cl_header_byte(i: int) -> u8 {
    if i == 0 {
        67  // C
    } else if i == 1 {
        111  // o
    } else if i == 2 {
        110  // n
    } else if i == 3 {
        116  // t
    } else if i == 4 {
        101  // e
    } else if i == 5 {
        110  // n
    } else if i == 6 {
        116  // t
    } else if i == 7 {
        45  // -
    } else if i == 8 {
        76  // L
    } else if i == 9 {
        101  // e
    } else if i == 10 {
        110  // n
    } else if i == 11 {
        103  // g
    } else if i == 12 {
        116  // t
    } else if i == 13 {
        104  // h
    } else if i == 14 {
        58  // :
    } else {
        32  // space
    }
}

/// The bytes of the header name `Content-Length`.
pub open spec fn cl_name() -> Seq<u8> {
    Seq::new(14, |i: int| cl_header_byte(i))
}

/// The bytes of `"Content-Length: "`.
pub open spec fn cl_prefix() -> Seq<u8> {
    Seq::new(16, |i: int| cl_header_byte(i))
}

/// CR LF CR LF: the end of the length header line and the blank line.
pub open spec fn crlf2() -> Seq<u8> {
    seq![13u8, 10u8, 13u8, 10u8]
}

pub open spec fn is_digit(b: u8) -> bool {
    48 <= b <= 57
}

/// The decimal digits of `n`, most significant first.
pub open spec fn dec_digits(n: nat) -> Seq<u8>
    decreases n,
{
    if n < 10 {
        seq![(48 + n) as u8]
    } else {
        dec_digits(n / 10).push((48 + n % 10) as u8)
    }
}

/// The non-negative integer denoted by an all-digit byte string, `None` when
/// the string is empty or holds a non-digit.
pub open spec fn parse_dec(s: Seq<u8>) -> Option<nat>
    decreases s.len(),
{
    if s.len() == 0 {
        None
    } else if !is_digit(s.last()) {
        None
    } else if s.len() == 1 {
        Some((s.last() - 48) as nat)
    } else {
        match parse_dec(s.drop_last()) {
            None => None,
            Some(h) => Some(h * 10 + (s.last() - 48) as nat),
        }
    }
}

/// Index of the first LF at or after `pos`.
pub open spec fn first_lf(w: Seq<u8>, pos: int) -> Option<int>
    decreases w.len() - pos,
{
    if pos < 0 || pos >= w.len() {
        None
    } else if w[pos] == 10 {
        Some(pos)
    } else {
        first_lf(w, pos + 1)
    }
}

/// Index of the first `": "` pair at or after `pos`, both bytes before `end`.
pub open spec fn sep_in(w: Seq<u8>, pos: int, end: int) -> Option<int>
    decreases end - pos,
{
    if pos < 0 || pos + 1 >= end {
        None
    } else if w[pos] == 58 && w[pos + 1] == 32 {
        Some(pos)
    } else {
        sep_in(w, pos + 1, end)
    }
}

/// End of the content of the line `[pos, lf)`: a trailing CR is stripped.
pub open spec fn line_content_end(w: Seq<u8>, pos: int, lf: int) -> int {
    if lf > pos && w[lf - 1] == 13 {
        lf - 1
    } else {
        lf
    }
}

/// What scanning the header section yields.
pub enum HeaderScan {
    /// No blank line yet: more bytes are needed.
    Incomplete,
    /// The headers are malformed; the stream is broken.
    Bad(FrameError),
    /// The blank line was found: the body starts at `body_start`, and
    /// `content_len` is the last `Content-Length` value seen, if any.
    Fields { body_start: int, content_len: Option<nat> },
}

/// Scan header lines from `pos` until the blank line, carrying the last
/// `Content-Length` value seen so far in `acc`.
pub open spec fn scan_headers(w: Seq<u8>, pos: int, acc: Option<nat>) -> HeaderScan
    decreases w.len() - pos,
    when 0 <= pos <= w.len()
    via scan_headers_dec
{
    match first_lf(w, pos) {
        None => HeaderScan::Incomplete,
        Some(lf) => {
            let end = line_content_end(w, pos, lf);
            if end == pos {
                HeaderScan::Fields { body_start: lf + 1, content_len: acc }
            } else {
                match sep_in(w, pos, end) {
                    None => HeaderScan::Bad(FrameError::BadHeader),
                    Some(ci) => {
                        let is_cl = w.subrange(pos, ci) == cl_name();
                        if is_cl {
                            match parse_dec(w.subrange(ci + 2, end)) {
                                None => HeaderScan::Bad(FrameError::BadLength),
                                Some(n) => if n > usize::MAX {
                                    HeaderScan::Bad(FrameError::BadLength)
                                } else {
                                    scan_headers(w, lf + 1, Some(n))
                                },
                            }
                        } else {
                            scan_headers(w, lf + 1, acc)
                        }
                    },
                }
            }
        },
    }
}

#[via_fn]
proof fn scan_headers_dec(w: Seq<u8>, pos: int, acc: Option<nat>) {
    lemma_first_lf_bounds(w, pos);
}

/// What decoding the front of a byte stream yields.
pub enum Decoded {
    /// No complete frame yet: more bytes are needed.
    Incomplete,
    /// The stream is fatally malformed.
    Bad(FrameError),
    /// One complete frame: its body, and how many bytes of the stream it used.
    Frame { body: Seq<u8>, used: int },
}

/// The meaning of decoding: scan the headers, require a `Content-Length`,
/// and take exactly that many bytes as the body.
pub open spec fn spec_decode(w: Seq<u8>) -> Decoded {
    match scan_headers(w, 0, None) {
        HeaderScan::Incomplete => Decoded::Incomplete,
        HeaderScan::Bad(e) => Decoded::Bad(e),
        HeaderScan::Fields { body_start, content_len } => match content_len {
            None => Decoded::Bad(FrameError::MissingLength),
            Some(n) => if body_start + n > w.len() {
                Decoded::Incomplete
            } else {
                Decoded::Frame {
                    body: w.subrange(body_start, body_start + n),
                    used: body_start + n,
                }
            },
        },
    }
}

/// The frame bytes for a header declaring `declared` bytes, followed by `tail`.
pub open spec fn frame_bytes(declared: nat, tail: Seq<u8>) -> Seq<u8> {
    cl_prefix() + dec_digits(declared) + crlf2() + tail
}

/// The encoding of one message body: a correct length header, then the body.
pub open spec fn frame_of(body: Seq<u8>) -> Seq<u8> {
    frame_bytes(body.len(), body)
}

/// What the executable decoder returned.
pub enum DecodeResult {
    Incomplete,
    Bad(FrameError),
    /// The body bytes, and how many bytes of the stream the frame used.
    Frame(Vec<u8>, usize),
}

/// The executable result agrees with the mathematical one.
pub open spec fn decode_matches(r: DecodeResult, d: Decoded) -> bool {
    match d {
        Decoded::Incomplete => r is Incomplete,
        Decoded::Bad(e) => r matches DecodeResult::Bad(e2) && e2 == e,
        Decoded::Frame { body, used } => r matches DecodeResult::Frame(b, u) && b@ == body && u
            == used,
    }
}

pub proof fn lemma_first_lf_bounds(w: Seq<u8>, pos: int)
    requires
        0 <= pos <= w.len(),
    ensures
        match first_lf(w, pos) {
            Some(i) => pos <= i < w.len() && w[i] == 10 && (forall|j: int|
                pos <= j < i ==> w[j] != 10),
            None => forall|j: int| pos <= j < w.len() ==> w[j] != 10,
        },
    decreases w.len() - pos,
{
    if pos < w.len() && w[pos] != 10 {
        lemma_first_lf_bounds(w, pos + 1);
    }
}

pub proof fn lemma_first_lf_at(w: Seq<u8>, pos: int, i: int)
    requires
        0 <= pos <= i < w.len(),
        w[i] == 10,
        forall|j: int| pos <= j < i ==> w[j] != 10,
    ensures
        first_lf(w, pos) == Some(i),
    decreases i - pos,
{
    if pos < i {
        lemma_first_lf_at(w, pos + 1, i);
    }
}

pub proof fn lemma_sep_at(w: Seq<u8>, pos: int, end: int, ci: int)
    requires
        0 <= pos <= ci,
        ci + 1 < end,
        w[ci] == 58 && w[ci + 1] == 32,
        forall|j: int| pos <= j < ci ==> w[j] != 58,
    ensures
        sep_in(w, pos, end) == Some(ci),
    decreases ci - pos,
{
    if pos < ci {
        lemma_sep_at(w, pos + 1, end, ci);
    }
}

/// Every byte of `dec_digits(n)` is a decimal digit, and there is at least one.
pub proof fn lemma_dec_digits_shape(n: nat)
    ensures
        dec_digits(n).len() >= 1,
        forall|i: int| 0 <= i < dec_digits(n).len() ==> is_digit(#[trigger] dec_digits(n)[i]),
    decreases n,
{
    if n >= 10 {
        lemma_dec_digits_shape(n / 10);
    }
}

/// Parsing the printed digits of `n` gives back `n`.
pub proof fn lemma_parse_dec_digits(n: nat)
    ensures
        parse_dec(dec_digits(n)) == Some(n),
    decreases n,
{
    lemma_dec_digits_shape(n);
    if n < 10 {
        assert(dec_digits(n).last() == (48 + n) as u8);
    } else {
        lemma_parse_dec_digits(n / 10);
        assert(dec_digits(n).drop_last() =~= dec_digits(n / 10));
        assert(dec_digits(n).last() == (48 + n % 10) as u8);
        assert(n / 10 * 10 + n % 10 == n) by {
            vstd::arithmetic::div_mod::lemma_fundamental_div_mod(n as int, 10);
        }
    }
}

/// A non-empty all-digit string parses; anything else does not.
pub proof fn lemma_parse_dec_some(s: Seq<u8>)
    ensures
        parse_dec(s) is Some <==> (s.len() > 0 && forall|i: int|
            0 <= i < s.len() ==> is_digit(#[trigger] s[i])),
    decreases s.len(),
{
    if s.len() > 0 {
        lemma_parse_dec_some(s.drop_last());
        assert forall|i: int| 0 <= i < s.len() - 1 implies s.drop_last()[i] == s[i] by {}
    }
}

/// A longer digit prefix denotes at least as large a value.
pub proof fn lemma_parse_dec_prefix_le(s: Seq<u8>, i: int)
    requires
        0 <= i <= s.len(),
        parse_dec(s) is Some,
    ensures
        parse_dec(s.take(i)) is Some ==> parse_dec(s.take(i)).unwrap() <= parse_dec(s).unwrap(),
    decreases s.len() - i,
{
    if i < s.len() {
        lemma_parse_dec_prefix_le(s, i + 1);
        lemma_parse_dec_some(s);
        if i > 0 {
            lemma_parse_dec_some(s.take(i));
            assert(s.take(i + 1).drop_last() =~= s.take(i));
            assert(s.take(i + 1).last() == s[i]);
        }
    } else {
        assert(s.take(i) =~= s);
    }
}

/// Byte `i` of the `"Content-Length: "` prefix, executably.
fn cl_byte(i: usize) -> (b: u8)
    requires
        i < 16,
    ensures
        b == cl_header_byte(i as int),
{
    if i == 0 {
        67
    } else if i == 1 {
        111
    } else if i == 2 {
        110
    } else if i == 3 {
        116
    } else if i == 4 {
        101
    } else if i == 5 {
        110
    } else if i == 6 {
        116
    } else if i == 7 {
        45
    } else if i == 8 {
        76
    } else if i == 9 {
        101
    } else if i == 10 {
        110
    } else if i == 11 {
        103
    } else if i == 12 {
        116
    } else if i == 13 {
        104
    } else if i == 14 {
        58
    } else {
        32
    }
}

fn find_lf(w: &Vec<u8>, from: usize) -> (r: Option<usize>)
    requires
        from <= w.len(),
    ensures
        match r {
            Some(i) => first_lf(w@, from as int) == Some(i as int) && from <= i < w.len(),
            None => first_lf(w@, from as int) is None,
        },
{
    let mut i = from;
    while i < w.len()
        invariant
            from <= i <= w.len(),
            first_lf(w@, from as int) == first_lf(w@, i as int),
        decreases w.len() - i,
    {
        if w[i] == 10 {
            return Some(i);
        }
        i = i + 1;
    }
    None
}

fn find_sep(w: &Vec<u8>, from: usize, end: usize) -> (r: Option<usize>)
    requires
        from <= end <= w.len(),
    ensures
        match r {
            Some(i) => sep_in(w@, from as int, end as int) == Some(i as int) && from <= i && i + 1
                < end,
            None => sep_in(w@, from as int, end as int) is None,
        },
{
    let mut i = from;
    while end - i > 1
        invariant
            from <= i <= end,
            end <= w.len(),
            sep_in(w@, from as int, end as int) == sep_in(w@, i as int, end as int),
        decreases end - i,
    {
        if w[i] == 58 && w[i + 1] == 32 {
            return Some(i);
        }
        i = i + 1;
    }
    None
}

/// Whether the bytes `[from, to)` spell exactly `Content-Length`.
fn range_is_cl_name(w: &Vec<u8>, from: usize, to: usize) -> (r: bool)
    requires
        from <= to <= w.len(),
    ensures
        r == (w@.subrange(from as int, to as int) == cl_name()),
{
    if to - from != 14 {
        proof {
            assert(w@.subrange(from as int, to as int).len() == to - from);
            assert(cl_name().len() == 14);
        }
        return false;
    }
    let mut i: usize = 0;
    while i < 14
        invariant
            i <= 14,
            from + 14 == to,
            to <= w.len(),
            forall|j: int| 0 <= j < i ==> w@[from + j] == cl_header_byte(j),
        decreases 14 - i,
    {
        if w[from + i] != cl_byte(i) {
            proof {
                assert(w@.subrange(from as int, to as int)[i as int] != cl_name()[i as int]);
            }
            return false;
        }
        i = i + 1;
    }
    proof {
        assert(w@.subrange(from as int, to as int) =~= cl_name());
    }
    true
}

/// Parse the bytes `[from, to)` as a decimal number; `None` on a non-digit,
/// an empty range, or a value that does not fit the machine.
fn parse_dec_range(w: &Vec<u8>, from: usize, to: usize) -> (r: Option<usize>)
    requires
        from <= to <= w.len(),
    ensures
        ({
            let s = w@.subrange(from as int, to as int);
            match parse_dec(s) {
                Some(n) => if n <= usize::MAX {
                    r == Some(n as usize)
                } else {
                    r is None
                },
                None => r is None,
            }
        }),
{
    let ghost s = w@.subrange(from as int, to as int);
    if from == to {
        return None;
    }
    let mut acc: usize = 0;
    let mut i = from;
    while i < to
        invariant
            from <= i <= to <= w.len(),
            s == w@.subrange(from as int, to as int),
            i > from ==> parse_dec(s.take(i - from)) == Some(acc as nat),
            i == from ==> acc == 0,
        decreases to - i,
    {
        let b = w[i];
        if b < 48 || b > 57 {
            proof {
                lemma_parse_dec_some(s);
                assert(!is_digit(s[i - from]));
            }
            return None;
        }
        let d = (b - 48) as usize;
        proof {
            assert(s.take(i - from + 1).drop_last() =~= s.take(i - from));
            assert(s.take(i - from + 1).last() == s[i - from]);
        }
        let step = match acc.checked_mul(10) {
            Some(m) => m.checked_add(d),
            None => None,
        };
        match step {
            Some(next) => {
                proof {
                    if i == from {
                        assert(s.take(1).len() == 1);
                    }
                }
                acc = next;
            },
            None => {
                // The value of the digits seen so far already exceeds the
                // machine; the whole string, if it parses at all, is larger.
                proof {
                    let pre = if i == from {
                        (d as nat)
                    } else {
                        (acc * 10 + d) as nat
                    };
                    assert(parse_dec(s.take(i - from + 1)) == Some(pre));
                    if parse_dec(s) is Some {
                        lemma_parse_dec_prefix_le(s, i - from + 1);
                    }
                }
                return None;
            },
        }
        i = i + 1;
    }
    proof {
        assert(s.take(to - from) =~= s);
    }
    Some(acc)
}

/// Decode one frame off the front of `wire`. Returns exactly what the
/// mathematical decoder [`spec_decode`] says: a complete frame's body and the
/// number of bytes it used, a fatal error, or the need for more bytes.
pub fn decode_frame(wire: &Vec<u8>) -> (r: DecodeResult)
    ensures
        decode_matches(r, spec_decode(wire@)),
{
    let mut pos: usize = 0;
    let mut acc: Option<usize> = None;
    loop
        invariant
            pos <= wire.len(),
            scan_headers(wire@, 0, None) == scan_headers(
                wire@,
                pos as int,
                match acc {
                    Some(n) => Some(n as nat),
                    None => None,
                },
            ),
        decreases wire.len() - pos,
    {
        let ghost acc_v: Option<nat> = match acc {
            Some(n) => Some(n as nat),
            None => None,
        };
        let lf = match find_lf(wire, pos) {
            None => {
                return DecodeResult::Incomplete;
            },
            Some(lf) => lf,
        };
        let end = if lf > pos && wire[lf - 1] == 13 {
            lf - 1
        } else {
            lf
        };
        proof {
            assert(end as int == line_content_end(wire@, pos as int, lf as int));
        }
        if end == pos {
            // Blank line: the headers are done and the body follows.
            proof {
                assert(scan_headers(wire@, 0, None) == HeaderScan::Fields {
                    body_start: lf + 1,
                    content_len: acc_v,
                });
            }
            let n = match acc {
                None => {
                    return DecodeResult::Bad(FrameError::MissingLength);
                },
                Some(n) => n,
            };
            let body_start = lf + 1;
            if wire.len() - body_start < n {
                return DecodeResult::Incomplete;
            }
            let mut body: Vec<u8> = Vec::new();
            let mut i: usize = 0;
            while i < n
                invariant
                    i <= n,
                    body_start + n <= wire.len(),
                    body@ == wire@.subrange(body_start as int, body_start + i),
                decreases n - i,
            {
                body.push(wire[body_start + i]);
                proof {
                    assert(body@ =~= wire@.subrange(body_start as int, body_start + i + 1));
                }
                i = i + 1;
            }
            return DecodeResult::Frame(body, body_start + n);
        }
        let ci = match find_sep(wire, pos, end) {
            None => {
                return DecodeResult::Bad(FrameError::BadHeader);
            },
            Some(ci) => ci,
        };
        if range_is_cl_name(wire, pos, ci) {
            match parse_dec_range(wire, ci + 2, end) {
                None => {
                    return DecodeResult::Bad(FrameError::BadLength);
                },
                Some(n) => {
                    acc = Some(n);
                },
            }
        }
        pos = lf + 1;
    }
}

/// Append the bytes of `"Content-Length: "`.
fn push_cl_prefix(out: &mut Vec<u8>)
    ensures
        final(out)@ == old(out)@ + cl_prefix(),
{
    let mut i: usize = 0;
    while i < 16
        invariant
            i <= 16,
            out@ == old(out)@ + cl_prefix().take(i as int),
        decreases 16 - i,
    {
        out.push(cl_byte(i));
        proof {
            assert(old(out)@ + cl_prefix().take(i + 1) =~= (old(out)@ + cl_prefix().take(
                i as int,
            )).push(cl_header_byte(i as int)));
        }
        i = i + 1;
    }
    proof {
        assert(cl_prefix().take(16) =~= cl_prefix());
    }
}

/// Append the decimal digits of `n`.
fn push_dec(out: &mut Vec<u8>, n: usize)
    ensures
        final(out)@ == old(out)@ + dec_digits(n as nat),
    decreases n,
{
    if n < 10 {
        out.push(48 + (n as u8));
        proof {
            assert(old(out)@ + dec_digits(n as nat) =~= old(out)@.push((48 + n) as u8));
        }
    } else {
        push_dec(out, n / 10);
        out.push(48 + ((n % 10) as u8));
        proof {
            assert(old(out)@ + dec_digits(n as nat) =~= (old(out)@ + dec_digits(
                (n / 10) as nat,
            )).push((48 + (n as nat) % 10) as u8));
        }
    }
}

/// Frame one message body: the length header, the blank line, the bytes.
pub fn encode_frame(body: &Vec<u8>) -> (r: Vec<u8>)
    ensures
        r@ == frame_of(body@),
{
    let mut out: Vec<u8> = Vec::new();
    push_cl_prefix(&mut out);
    push_dec(&mut out, body.len());
    out.push(13);
    out.push(10);
    out.push(13);
    out.push(10);
    let ghost head = cl_prefix() + dec_digits(body@.len()) + crlf2();
    proof {
        assert(out@ =~= head);
    }
    let mut i: usize = 0;
    while i < body.len()
        invariant
            i <= body.len(),
            out@ == head + body@.take(i as int),
        decreases body.len() - i,
    {
        out.push(body[i]);
        proof {
            assert(head + body@.take(i + 1) =~= (head + body@.take(i as int)).push(body@[i as int]));
        }
        i = i + 1;
    }
    proof {
        assert(out@ =~= frame_of(body@));
    }
    out
}

/// Frame a message given as text; the length header counts its UTF-8 bytes.
pub fn encode_message(body: &str) -> (r: Vec<u8>)
    ensures
        r@ == frame_of(body.spec_bytes()),
{
    let bytes = body.as_bytes_vec();
    encode_frame(&bytes)
}

/// Scanning the headers of a well-formed frame finds its declared length.
#[verifier::rlimit(100)]
proof fn lemma_scan_framed(declared: nat, tail: Seq<u8>)
    requires
        declared <= usize::MAX,
    ensures
        ({
            let w = frame_bytes(declared, tail);
            let d = dec_digits(declared).len() as int;
            scan_headers(w, 0, None) == HeaderScan::Fields {
                body_start: 20 + d,
                content_len: Some(declared),
            }
        }),
{
    let w = frame_bytes(declared, tail);
    let dd = dec_digits(declared);
    let d = dd.len() as int;
    lemma_dec_digits_shape(declared);
    assert(w.len() == 20 + d + tail.len());
    assert(forall|i: int| 0 <= i < 16 ==> w[i] == cl_header_byte(i));
    assert(forall|i: int| 0 <= i < d ==> w[16 + i] == dd[i]);
    assert(w[16 + d] == 13);
    assert(w[17 + d] == 10);
    assert(w[18 + d] == 13);
    assert(w[19 + d] == 10);
    assert forall|j: int| 0 <= j < 17 + d implies w[j] != 10 by {
        if 16 <= j < 16 + d {
            assert(is_digit(dd[j - 16]));
        }
    }
    lemma_first_lf_at(w, 0, 17 + d);
    assert(line_content_end(w, 0, 17 + d) == 16 + d);
    assert forall|j: int| 0 <= j < 14 implies w[j] != 58 by {}
    lemma_sep_at(w, 0, 16 + d, 14);
    assert(w.subrange(0, 14) =~= cl_name());
    assert(w.subrange(16, 16 + d) =~= dd);
    lemma_parse_dec_digits(declared);
    assert(scan_headers(w, 0, None) == scan_headers(w, 18 + d, Some(declared)));
    lemma_first_lf_at(w, 18 + d, 19 + d);
    assert(line_content_end(w, 18 + d, 19 + d) == 18 + d);
    assert(scan_headers(w, 18 + d, Some(declared)) == HeaderScan::Fields {
        body_start: 20 + d,
        content_len: Some(declared),
    });
}

/// Round trip: the encoding of any message body, followed by anything else on
/// the stream, decodes back to exactly that body, consuming exactly the
/// frame's own bytes.
pub proof fn lemma_decode_encode(body: Seq<u8>, rest: Seq<u8>)
    requires
        body.len() <= usize::MAX,
    ensures
        spec_decode(frame_of(body) + rest) == (Decoded::Frame {
            body: body,
            used: frame_of(body).len() as int,
        }),
{
    let w0 = frame_of(body);
    let w = w0 + rest;
    assert(w =~= frame_bytes(body.len(), body + rest));
    lemma_scan_framed(body.len(), body + rest);
    let d = dec_digits(body.len()).len() as int;
    assert(w.subrange(20 + d, 20 + d + body.len()) =~= body);
    assert(w0.len() == 20 + d + body.len());
}

/// A scan can only report a length it saw parse within the machine's bounds.
proof fn lemma_scan_length_bound(w: Seq<u8>, pos: int, acc: Option<nat>)
    requires
        0 <= pos <= w.len(),
        match acc {
            Some(a) => a <= usize::MAX,
            None => true,
        },
    ensures
        match scan_headers(w, pos, acc) {
            HeaderScan::Fields { body_start, content_len } => body_start > pos && (match content_len {
                Some(n) => n <= usize::MAX,
                None => true,
            }),
            _ => true,
        },
    decreases w.len() - pos,
{
    lemma_first_lf_bounds(w, pos);
    match first_lf(w, pos) {
        None => {},
        Some(lf) => {
            let end = line_content_end(w, pos, lf);
            if end != pos {
                match sep_in(w, pos, end) {
                    None => {},
                    Some(ci) => {
                        if w.subrange(pos, ci) == cl_name() {
                            match parse_dec(w.subrange(ci + 2, end)) {
                                None => {},
                                Some(n) => {
                                    if n <= usize::MAX {
                                        lemma_scan_length_bound(w, lf + 1, Some(n));
                                    }
                                },
                            }
                        } else {
                            lemma_scan_length_bound(w, lf + 1, acc);
                        }
                    },
                }
            }
        },
    }
}

/// Round trip from the wire side: whatever frame a message body arrived in,
/// re-encoding the decoded body yields a frame that decodes back to the same
/// body — the encoding is equivalent to the frame that was read, if not
/// byte-identical to it.
pub proof fn lemma_reencode_decoded(w: Seq<u8>, body: Seq<u8>, used: int)
    requires
        spec_decode(w) == (Decoded::Frame { body, used }),
    ensures
        spec_decode(frame_of(body)) == (Decoded::Frame {
            body,
            used: frame_of(body).len() as int,
        }),
{
    lemma_scan_length_bound(w, 0, None);
    match scan_headers(w, 0, None) {
        HeaderScan::Fields { body_start, content_len } => {
            match content_len {
                Some(n) => {
                    assert(body.len() == n);
                },
                None => {
                    assert(false);
                },
            }
        },
        _ => {
            assert(false);
        },
    }
    lemma_decode_encode(body, Seq::empty());
    assert(frame_of(body) + Seq::<u8>::empty() =~= frame_of(body));
}

/// A length header that declares more bytes than actually follow is never
/// decoded as a frame, so no body under a wrong length is ever handed to the
/// JSON layer.
pub proof fn lemma_overlong_length_rejected(declared: nat, tail: Seq<u8>)
    requires
        tail.len() < declared <= usize::MAX,
    ensures
        spec_decode(frame_bytes(declared, tail)) is Incomplete,
{
    lemma_scan_framed(declared, tail);
}

} // verus!
