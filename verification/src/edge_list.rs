//! The text form of an edge: two vertex identifiers on a line, as decimal
//! numerals separated by white space.

use vstd::prelude::*;

verus! {

/// Why a line gives no edge.
#[derive(Clone, Copy, Debug, PartialEq, Eq, Structural)]
pub enum ParseError {
    /// The line holds fewer than two fields.
    MissingVertex,
    /// A field is no decimal numeral, or the number does not fit a `usize`.
    InvalidVertex,
}

/// A byte of ASCII white space: space, tab, line feed, vertical tab, form
/// feed or carriage return.
pub open spec fn is_space(b: u8) -> bool {
    b == 0x20 || (0x09 <= b && b <= 0x0d)
}

/// An ASCII decimal digit.
pub open spec fn is_digit(b: u8) -> bool {
    0x30 <= b && b <= 0x39
}

/// The first position from `i` on that holds no white space, or the length
/// of `s` if there is none.
pub open spec fn skip_spaces(s: Seq<u8>, i: int) -> int
    decreases s.len() - i,
{
    if 0 <= i < s.len() && is_space(s[i]) {
        skip_spaces(s, i + 1)
    } else {
        i
    }
}

/// The first position from `i` on that holds white space, or the length of
/// `s` if there is none.
pub open spec fn skip_field(s: Seq<u8>, i: int) -> int
    decreases s.len() - i,
{
    if 0 <= i < s.len() && !is_space(s[i]) {
        skip_field(s, i + 1)
    } else {
        i
    }
}

/// The number that a sequence of digits denotes; the empty sequence denotes zero.
pub open spec fn digits_value(t: Seq<u8>) -> nat
    decreases t.len(),
{
    if t.len() == 0 {
        0
    } else {
        digits_value(t.drop_last()) * 10 + (t.last() - 0x30) as nat
    }
}

/// Every byte is a digit.
pub open spec fn all_digits(t: Seq<u8>) -> bool {
    forall|i: int| 0 <= i < t.len() ==> is_digit(#[trigger] t[i])
}

/// The field without the plus sign that may stand in front of a numeral.
pub open spec fn unsigned_part(t: Seq<u8>) -> Seq<u8> {
    if t.len() > 0 && t[0] == 0x2b {
        t.drop_first()
    } else {
        t
    }
}

/// The identifier that a field denotes: the field is one or more digits,
/// with or without a plus sign in front, and the number fits a `usize`.
pub open spec fn vertex_of(t: Seq<u8>) -> Option<usize> {
    let body = unsigned_part(t);
    if body.len() > 0 && all_digits(body) && digits_value(body) <= usize::MAX {
        Some(digits_value(body) as usize)
    } else {
        None
    }
}

/// The edge that a line denotes. The first two fields of the line are the
/// identifiers; what follows them is ignored.
pub open spec fn parsed_line(s: Seq<u8>) -> Result<(usize, usize), ParseError> {
    let a = skip_spaces(s, 0);
    let b = skip_field(s, a);
    let c = skip_spaces(s, b);
    let d = skip_field(s, c);
    if a >= s.len() {
        Err(ParseError::MissingVertex)
    } else if vertex_of(s.subrange(a, b)) is None {
        Err(ParseError::InvalidVertex)
    } else if c >= s.len() {
        Err(ParseError::MissingVertex)
    } else if vertex_of(s.subrange(c, d)) is None {
        Err(ParseError::InvalidVertex)
    } else {
        Ok((vertex_of(s.subrange(a, b))->0, vertex_of(s.subrange(c, d))->0))
    }
}

/// More digits do not make a numeral smaller.
proof fn lemma_digits_prefix(t: Seq<u8>, k: int)
    requires
        0 <= k <= t.len(),
    ensures
        digits_value(t.take(k)) <= digits_value(t),
    decreases t.len() - k,
{
    if k == t.len() {
        assert(t.take(k) =~= t);
    } else {
        lemma_digits_prefix(t, k + 1);
        assert(t.take(k + 1).drop_last() =~= t.take(k));
    }
}

/// Whether the byte is ASCII white space.
fn is_space_byte(b: u8) -> (r: bool)
    ensures
        r == is_space(b),
{
    b == 0x20 || (0x09 <= b && b <= 0x0d)
}

/// The first position from `start` on that holds no white space.
fn skip_spaces_from(line: &[u8], start: usize) -> (end: usize)
    requires
        start <= line@.len(),
    ensures
        end == skip_spaces(line@, start as int),
        start <= end <= line@.len(),
{
    let mut i: usize = start;
    while i < line.len() && is_space_byte(line[i])
        invariant
            start <= i <= line@.len(),
            skip_spaces(line@, start as int) == skip_spaces(line@, i as int),
        decreases line@.len() - i,
    {
        i += 1;
    }
    i
}

/// The first position from `start` on that holds white space.
fn skip_field_from(line: &[u8], start: usize) -> (end: usize)
    requires
        start <= line@.len(),
    ensures
        end == skip_field(line@, start as int),
        start <= end <= line@.len(),
{
    let mut i: usize = start;
    while i < line.len() && !is_space_byte(line[i])
        invariant
            start <= i <= line@.len(),
            skip_field(line@, start as int) == skip_field(line@, i as int),
        decreases line@.len() - i,
    {
        i += 1;
    }
    i
}

/// Reads the field `line[start..end]` as a vertex identifier.
fn parse_vertex(line: &[u8], start: usize, end: usize) -> (r: Option<usize>)
    requires
        start <= end <= line@.len(),
    ensures
        r == vertex_of(line@.subrange(start as int, end as int)),
{
    let ghost field = line@.subrange(start as int, end as int);
    let mut i: usize = start;
    if i < end && line[i] == 0x2b {
        assert(field[0] == line@[start as int]);
        i += 1;
    }
    let first = i;
    let ghost body = unsigned_part(field);
    assert(body =~= line@.subrange(first as int, end as int)) by {
        if start < end {
            assert(field[0] == line@[start as int]);
        }
    }
    if first == end {
        return None;
    }
    let mut value: usize = 0;
    while i < end
        invariant
            start <= first <= i <= end <= line@.len(),
            field == line@.subrange(start as int, end as int),
            body == unsigned_part(field),
            body == line@.subrange(first as int, end as int),
            all_digits(body.take(i - first)),
            value == digits_value(body.take(i - first)),
        decreases end - i,
    {
        let b = line[i];
        assert(body[i - first] == b);
        if !(0x30 <= b && b <= 0x39) {
            return None;
        }
        let digit = (b - 0x30) as usize;
        proof {
            let next = body.take(i - first + 1);
            assert(next.drop_last() =~= body.take(i - first));
            assert(next.last() == b);
            assert forall|k: int| 0 <= k < next.len() implies is_digit(#[trigger] next[k]) by {
                if k < i - first {
                    assert(body.take(i - first)[k] == next[k]);
                }
            }
            lemma_digits_prefix(body, i - first + 1);
        }
        let scaled = match value.checked_mul(10) {
            Some(m) => m,
            None => {
                return None;
            },
        };
        value = match scaled.checked_add(digit) {
            Some(v) => v,
            None => {
                return None;
            },
        };
        i += 1;
    }
    proof {
        assert(body.take(end - first) =~= body);
    }
    Some(value)
}

/// Reads an edge from a line of text.
///
/// The line holds two vertex identifiers as decimal numerals, separated by
/// ASCII white space; white space may stand before the first, and anything
/// after the second is ignored. A line with fewer than two fields fails with
/// `MissingVertex`, a field that is no numeral of a `usize` with
/// `InvalidVertex`.
pub fn parse_edge_line(line: &[u8]) -> (r: Result<(usize, usize), ParseError>)
    ensures
        r == parsed_line(line@),
{
    let a = skip_spaces_from(line, 0);
    if a >= line.len() {
        return Err(ParseError::MissingVertex);
    }
    let b = skip_field_from(line, a);
    let x = match parse_vertex(line, a, b) {
        Some(x) => x,
        None => {
            return Err(ParseError::InvalidVertex);
        },
    };
    let c = skip_spaces_from(line, b);
    if c >= line.len() {
        return Err(ParseError::MissingVertex);
    }
    let d = skip_field_from(line, c);
    let y = match parse_vertex(line, c, d) {
        Some(y) => y,
        None => {
            return Err(ParseError::InvalidVertex);
        },
    };
    Ok((x, y))
}

} // verus!
