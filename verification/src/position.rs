//! Translation between the editor's coordinates and the protocol's.
//!
//! The editor counts 1-based lines and 1-based byte columns; the protocol
//! counts 0-based lines and columns in code units of the server's offset
//! encoding. The translation needs the buffer's text and is redone per server,
//! since servers may use different encodings for the same buffer.

use vstd::prelude::*;
use vstd::string::*;
use crate::types::{Document, EditorPosition, EditorRange, LspPosition, LspRange, OffsetEncoding};

verus! {

/// The UTF-8 byte width of one character.
pub open spec fn utf8_width(c: char) -> nat {
    if (c as u32) < 0x80 {
        1
    } else if (c as u32) < 0x800 {
        2
    } else if (c as u32) < 0x10000 {
        3
    } else {
        4
    }
}

/// How many code units one character takes in the given encoding.
pub open spec fn char_units(c: char, enc: OffsetEncoding) -> nat {
    match enc {
        OffsetEncoding::Utf8 => utf8_width(c),
        OffsetEncoding::Utf16 => if (c as u32) < 0x10000 {
            1
        } else {
            2
        },
        OffsetEncoding::Utf32 => 1,
    }
}

/// The protocol column for a byte offset into a line: the code units of the
/// characters consumed while byte budget remains. A byte offset inside a
/// character counts that whole character.
pub open spec fn units_before(line: Seq<char>, enc: OffsetEncoding, bytes: int) -> nat
    decreases line.len(),
{
    if line.len() == 0 || bytes <= 0 {
        0
    } else {
        char_units(line[0], enc) + units_before(
            line.drop_first(),
            enc,
            bytes - utf8_width(line[0]),
        )
    }
}

fn char_utf8_width(c: char) -> (r: u32)
    ensures
        r == utf8_width(c),
{
    if (c as u32) < 0x80 {
        1
    } else if (c as u32) < 0x800 {
        2
    } else if (c as u32) < 0x10000 {
        3
    } else {
        4
    }
}

fn char_units_exec(c: char, enc: OffsetEncoding) -> (r: u32)
    ensures
        r == char_units(c, enc),
        1 <= r <= 4,
{
    match enc {
        OffsetEncoding::Utf8 => char_utf8_width(c),
        OffsetEncoding::Utf16 => {
            if (c as u32) < 0x10000 {
                1
            } else {
                2
            }
        },
        OffsetEncoding::Utf32 => 1,
    }
}

/// The protocol column of the editor's 1-based byte `column` within `line`.
pub fn lsp_character(line: &str, column: u32, enc: OffsetEncoding) -> (r: u32)
    requires
        column >= 1,
        4 * line@.len() <= u32::MAX,
    ensures
        r == units_before(line@, enc, column - 1),
{
    let n = line.unicode_len();
    let mut i: usize = 0;
    let mut budget: u32 = column - 1;
    let mut units: u32 = 0;
    proof {
        assert(line@.skip(0) =~= line@);
    }
    while i < n && budget > 0
        invariant
            i <= n,
            n == line@.len(),
            4 * line@.len() <= u32::MAX,
            units <= 4 * i,
            units_before(line@, enc, column - 1) == units + units_before(
                line@.skip(i as int),
                enc,
                budget as int,
            ),
        decreases n - i,
    {
        let c = line.get_char(i);
        proof {
            assert(line@.skip(i as int)[0] == line@[i as int]);
            assert(line@.skip(i as int).drop_first() =~= line@.skip(i + 1));
        }
        let w = char_utf8_width(c);
        let u = char_units_exec(c, enc);
        units = units + u;
        if w >= budget {
            proof {
                assert(units_before(line@.skip(i + 1), enc, budget - w) == 0) by {
                    if budget - w < 0 {
                    }
                }
            }
            budget = 0;
        } else {
            budget = budget - w;
        }
        i = i + 1;
    }
    proof {
        if i == n {
            assert(line@.skip(n as int).len() == 0);
        }
    }
    units
}

/// Translate an editor position into protocol coordinates. `None` exactly
/// when the position's line is not in the document, or the line is too long
/// for the protocol's 32-bit columns.
pub fn lsp_position(doc: &Document, pos: EditorPosition, enc: OffsetEncoding) -> (r: Option<
    LspPosition,
>)
    requires
        pos.line >= 1,
        pos.column >= 1,
    ensures
        r is Some <==> (pos.line - 1 < doc.lines@.len() && 4 * doc.lines@[pos.line - 1]@.len()
            <= u32::MAX),
        r matches Some(p) ==> p.line == pos.line - 1 && p.character == units_before(
            doc.lines@[pos.line - 1]@,
            enc,
            pos.column - 1,
        ),
{
    let ln = (pos.line - 1) as usize;
    if ln >= doc.lines.len() {
        return None;
    }
    let line = &doc.lines[ln];
    let n = line.as_str().unicode_len();
    if n > (u32::MAX / 4) as usize {
        return None;
    }
    let character = lsp_character(line.as_str(), pos.column, enc);
    Some(LspPosition { line: pos.line - 1, character })
}

/// Translate an editor range end for end.
pub fn lsp_range(doc: &Document, range: EditorRange, enc: OffsetEncoding) -> (r: Option<LspRange>)
    requires
        range.start.line >= 1,
        range.start.column >= 1,
        range.end.line >= 1,
        range.end.column >= 1,
    ensures
        r matches Some(lr) ==> ({
            &&& lr.start.line == range.start.line - 1
            &&& lr.start.character == units_before(
                doc.lines@[range.start.line - 1]@,
                enc,
                range.start.column - 1,
            )
            &&& lr.end.line == range.end.line - 1
            &&& lr.end.character == units_before(
                doc.lines@[range.end.line - 1]@,
                enc,
                range.end.column - 1,
            )
        }),
        r is None <==> (lsp_position_none(doc, range.start) || lsp_position_none(doc, range.end)),
{
    let start = match lsp_position(doc, range.start, enc) {
        None => {
            return None;
        },
        Some(p) => p,
    };
    let end = match lsp_position(doc, range.end, enc) {
        None => {
            return None;
        },
        Some(p) => p,
    };
    Some(LspRange { start, end })
}

/// When the per-position translation has nothing to give.
pub open spec fn lsp_position_none(doc: &Document, pos: EditorPosition) -> bool {
    !(pos.line - 1 < doc.lines@.len() && 4 * doc.lines@[pos.line - 1]@.len() <= u32::MAX)
}

/// Index of the first `c` at or after `pos`.
pub open spec fn find_char(s: Seq<char>, pos: int, c: char) -> Option<int>
    decreases s.len() - pos,
{
    if pos < 0 || pos >= s.len() {
        None
    } else if s[pos] == c {
        Some(pos)
    } else {
        find_char(s, pos + 1, c)
    }
}

/// The first `c` in `[pos, to)` of `s`, or nothing.
pub open spec fn find_char_within(s: Seq<char>, pos: int, to: int, c: char) -> Option<int>
    decreases to - pos,
{
    if pos < 0 || pos >= to || pos >= s.len() {
        None
    } else if s[pos] == c {
        Some(pos)
    } else {
        find_char_within(s, pos + 1, to, c)
    }
}

pub open spec fn is_digit_char(c: char) -> bool {
    48 <= (c as u32) <= 57
}

/// The non-negative integer an all-digit string denotes; `None` when the
/// string is empty or holds anything else.
pub open spec fn parse_digits(s: Seq<char>) -> Option<nat>
    decreases s.len(),
{
    if s.len() == 0 {
        None
    } else if !is_digit_char(s.last()) {
        None
    } else if s.len() == 1 {
        Some(((s.last() as u32) - 48) as nat)
    } else {
        match parse_digits(s.drop_last()) {
            None => None,
            Some(h) => Some(h * 10 + ((s.last() as u32) - 48) as nat),
        }
    }
}

/// A `line.column` coordinate pair.
pub open spec fn parse_pair(s: Seq<char>) -> Option<(nat, nat)> {
    match find_char(s, 0, '.') {
        None => None,
        Some(d) => match (parse_digits(s.take(d)), parse_digits(s.skip(d + 1))) {
            (Some(a), Some(b)) => Some((a, b)),
            _ => None,
        },
    }
}

/// An editor selection descriptor: `line.column,line.column`, the anchor
/// first and the cursor second.
pub open spec fn parse_selection_spec(s: Seq<char>) -> Option<((nat, nat), (nat, nat))> {
    match find_char(s, 0, ',') {
        None => None,
        Some(cm) => match (parse_pair(s.take(cm)), parse_pair(s.skip(cm + 1))) {
            (Some(a), Some(b)) => Some((a, b)),
            _ => None,
        },
    }
}

/// Whether coordinate `a` comes no later than `b` in the buffer.
pub open spec fn coord_le(a: (nat, nat), b: (nat, nat)) -> bool {
    a.0 < b.0 || (a.0 == b.0 && a.1 <= b.1)
}

proof fn lemma_parse_digits_some(s: Seq<char>)
    ensures
        parse_digits(s) is Some <==> (s.len() > 0 && forall|i: int|
            0 <= i < s.len() ==> is_digit_char(#[trigger] s[i])),
    decreases s.len(),
{
    if s.len() > 0 {
        lemma_parse_digits_some(s.drop_last());
        assert forall|i: int| 0 <= i < s.len() - 1 implies s.drop_last()[i] == s[i] by {}
    }
}

proof fn lemma_parse_digits_prefix_le(s: Seq<char>, i: int)
    requires
        0 <= i <= s.len(),
        parse_digits(s) is Some,
    ensures
        parse_digits(s.take(i)) is Some ==> parse_digits(s.take(i)).unwrap() <= parse_digits(
            s,
        ).unwrap(),
    decreases s.len() - i,
{
    if i < s.len() {
        lemma_parse_digits_prefix_le(s, i + 1);
        lemma_parse_digits_some(s);
        if i > 0 {
            lemma_parse_digits_some(s.take(i));
            assert(s.take(i + 1).drop_last() =~= s.take(i));
            assert(s.take(i + 1).last() == s[i]);
        }
    } else {
        assert(s.take(i) =~= s);
    }
}

fn find_char_exec(s: &str, from: usize, to: usize, c: char) -> (r: Option<usize>)
    requires
        from <= to <= s@.len(),
    ensures
        match r {
            Some(i) => find_char_within(s@, from as int, to as int, c) == Some(i as int) && from
                <= i < to,
            None => find_char_within(s@, from as int, to as int, c) is None,
        },
{
    let mut i = from;
    while i < to
        invariant
            from <= i <= to <= s@.len(),
            find_char_within(s@, from as int, to as int, c) == find_char_within(
                s@,
                i as int,
                to as int,
                c,
            ),
        decreases to - i,
    {
        if s.get_char(i) == c {
            return Some(i);
        }
        i = i + 1;
    }
    None
}

/// Parse the characters `[from, to)` as a decimal number that fits `u32`.
fn parse_digits_range(s: &str, from: usize, to: usize) -> (r: Option<u32>)
    requires
        from <= to <= s@.len(),
    ensures
        ({
            let seg = s@.subrange(from as int, to as int);
            match parse_digits(seg) {
                Some(n) => if n <= u32::MAX {
                    r == Some(n as u32)
                } else {
                    r is None
                },
                None => r is None,
            }
        }),
{
    let ghost seg = s@.subrange(from as int, to as int);
    if from == to {
        return None;
    }
    let mut acc: u32 = 0;
    let mut i = from;
    while i < to
        invariant
            from <= i <= to <= s@.len(),
            seg == s@.subrange(from as int, to as int),
            i > from ==> parse_digits(seg.take(i - from)) == Some(acc as nat),
            i == from ==> acc == 0,
        decreases to - i,
    {
        let c = s.get_char(i);
        if (c as u32) < 48 || (c as u32) > 57 {
            proof {
                lemma_parse_digits_some(seg);
                assert(!is_digit_char(seg[i - from]));
            }
            return None;
        }
        let d = (c as u32) - 48;
        proof {
            assert(seg.take(i - from + 1).drop_last() =~= seg.take(i - from));
            assert(seg.take(i - from + 1).last() == seg[i - from]);
        }
        let step = match acc.checked_mul(10) {
            Some(m) => m.checked_add(d),
            None => None,
        };
        match step {
            Some(next) => {
                proof {
                    if i == from {
                        assert(seg.take(1).len() == 1);
                    }
                }
                acc = next;
            },
            None => {
                proof {
                    let pre = if i == from {
                        (d as nat)
                    } else {
                        (acc * 10 + d) as nat
                    };
                    assert(parse_digits(seg.take(i - from + 1)) == Some(pre));
                    if parse_digits(seg) is Some {
                        lemma_parse_digits_prefix_le(seg, i - from + 1);
                    }
                }
                return None;
            },
        }
        i = i + 1;
    }
    proof {
        assert(seg.take(to - from) =~= seg);
    }
    Some(acc)
}

/// Parse `line.column` out of the characters `[from, to)`.
fn parse_pair_range(s: &str, from: usize, to: usize) -> (r: Option<(u32, u32)>)
    requires
        from <= to <= s@.len(),
    ensures
        ({
            let seg = s@.subrange(from as int, to as int);
            match parse_pair(seg) {
                Some((a, b)) => if a <= u32::MAX && b <= u32::MAX {
                    r matches Some(p) && p.0 == a && p.1 == b
                } else {
                    r is None
                },
                None => r is None,
            }
        }),
{
    let ghost seg = s@.subrange(from as int, to as int);
    let d = match find_char_exec(s, from, to, '.') {
        None => {
            proof {
                lemma_find_char_sub(s@, from as int, to as int, '.');
            }
            return None;
        },
        Some(d) => d,
    };
    proof {
        lemma_find_char_sub(s@, from as int, to as int, '.');
        assert(seg.take(d - from) =~= s@.subrange(from as int, d as int));
        assert(seg.skip(d - from + 1) =~= s@.subrange(d + 1, to as int));
    }
    let a = match parse_digits_range(s, from, d) {
        None => {
            return None;
        },
        Some(a) => a,
    };
    let b = match parse_digits_range(s, d + 1, to) {
        None => {
            return None;
        },
        Some(b) => b,
    };
    Some((a, b))
}

/// Searching within `[from, to)` of the whole string agrees with searching the
/// extracted segment, as long as the segment is what is searched to its end.
proof fn lemma_find_char_sub(s: Seq<char>, from: int, to: int, c: char)
    requires
        0 <= from <= to <= s.len(),
    ensures
        ({
            let seg = s.subrange(from, to);
            match find_char_within(s, from, to, c) {
                None => find_char(seg, 0, c) is None,
                Some(i) => find_char(seg, 0, c) == Some(i - from),
            }
        }),
{
    lemma_find_char_sub_rec(s, from, to, c, from);
}

proof fn lemma_find_char_sub_rec(s: Seq<char>, from: int, to: int, c: char, pos: int)
    requires
        0 <= from <= pos <= to <= s.len(),
    ensures
        ({
            let seg = s.subrange(from, to);
            match find_char_within(s, pos, to, c) {
                None => find_char(seg, pos - from, c) is None,
                Some(i) => find_char(seg, pos - from, c) == Some(i - from),
            }
        }),
    decreases to - pos,
{
    if pos < to && s[pos] != c {
        lemma_find_char_sub_rec(s, from, to, c, pos + 1);
    }
}

/// Parse an editor selection descriptor `line.column,line.column` into the
/// selection's range — its earlier coordinate first — and the cursor, which is
/// the second coordinate. `None` exactly on malformed text or coordinates the
/// protocol's 32-bit fields cannot hold.
pub fn parse_selection_desc(s: &str) -> (r: Option<(EditorRange, EditorPosition)>)
    ensures
        ({
            match parse_selection_spec(s@) {
                None => r is None,
                Some((a, b)) => if a.0 <= u32::MAX && a.1 <= u32::MAX && b.0 <= u32::MAX && b.1
                    <= u32::MAX {
                    r matches Some((range, cursor)) && ({
                        &&& cursor.line == b.0 && cursor.column == b.1
                        &&& if coord_le(a, b) {
                            range.start.line == a.0 && range.start.column == a.1 && range.end.line
                                == b.0 && range.end.column == b.1
                        } else {
                            range.start.line == b.0 && range.start.column == b.1 && range.end.line
                                == a.0 && range.end.column == a.1
                        }
                    })
                } else {
                    r is None
                },
            }
        }),
{
    let n = s.unicode_len();
    let cm = match find_char_exec(s, 0, n, ',') {
        None => {
            proof {
                lemma_find_to_whole(s@, ',');
            }
            return None;
        },
        Some(cm) => cm,
    };
    proof {
        lemma_find_to_whole(s@, ',');
        assert(s@.subrange(0, cm as int) =~= s@.take(cm as int));
        assert(s@.subrange(cm + 1, n as int) =~= s@.skip(cm + 1));
    }
    let a = match parse_pair_range(s, 0, cm) {
        None => {
            return None;
        },
        Some(a) => a,
    };
    let b = match parse_pair_range(s, cm + 1, n) {
        None => {
            return None;
        },
        Some(b) => b,
    };
    let anchor = EditorPosition { line: a.0, column: a.1 };
    let cursor = EditorPosition { line: b.0, column: b.1 };
    let range = if a.0 < b.0 || (a.0 == b.0 && a.1 <= b.1) {
        EditorRange { start: anchor, end: cursor }
    } else {
        EditorRange { start: cursor, end: anchor }
    };
    Some((range, cursor))
}

/// Searching the whole string agrees with searching within its full bounds.
proof fn lemma_find_to_whole(s: Seq<char>, c: char)
    ensures
        find_char(s, 0, c) == find_char_within(s, 0, s.len() as int, c),
{
    lemma_find_to_whole_rec(s, c, 0);
}

proof fn lemma_find_to_whole_rec(s: Seq<char>, c: char, pos: int)
    requires
        0 <= pos <= s.len(),
    ensures
        find_char(s, pos, c) == find_char_within(s, pos, s.len() as int, c),
    decreases s.len() - pos,
{
    if pos < s.len() && s[pos] != c {
        lemma_find_to_whole_rec(s, c, pos + 1);
    }
}

} // verus!
