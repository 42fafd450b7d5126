//! Error messages that point into the source text: the line of the error,
//! its number and column, and a row of carets under the offending bytes.
//!
//! Positions are byte offsets into the UTF-8 source, as the parser reports
//! them.

use vstd::prelude::*;
use vstd::string::StringSliceAdditionalSpecFns;
use vstd::utf8::*;

use crate::text::{chars_of, decimal, string_from_chars, write_decimal};

verus! {

broadcast use {encode_utf8_valid_utf8, encode_utf8_decode_utf8};

/// The byte that ends a line.
pub open spec fn newline() -> u8 {
    10u8
}

/// The offset at which the line holding offset `at` begins: just after the
/// last newline before `at`, or 0.
pub open spec fn line_start(bytes: Seq<u8>, at: int) -> int
    decreases at,
{
    if at <= 0 {
        0
    } else if bytes[at - 1] == newline() {
        at
    } else {
        line_start(bytes, at - 1)
    }
}

/// The offset at which the line holding offset `at` ends: the first newline
/// at or after `at`, or the end of the text.
pub open spec fn line_end(bytes: Seq<u8>, at: int) -> int
    decreases bytes.len() - at,
{
    if at >= bytes.len() {
        bytes.len() as int
    } else if bytes[at] == newline() {
        at
    } else {
        line_end(bytes, at + 1)
    }
}

/// The number of newlines in `bytes`.
pub open spec fn newlines(bytes: Seq<u8>) -> nat
    decreases bytes.len(),
{
    if bytes.len() == 0 {
        0
    } else {
        newlines(bytes.drop_last()) + if bytes.last() == newline() {
            1nat
        } else {
            0nat
        }
    }
}

/// Unicode `White_Space`: the characters that `char::is_whitespace` accepts.
pub open spec fn is_whitespace(c: char) -> bool {
    let u = c as u32;
    ||| 0x9 <= u <= 0xd
    ||| u == 0x20
    ||| u == 0x85
    ||| u == 0xa0
    ||| u == 0x1680
    ||| 0x2000 <= u <= 0x200a
    ||| u == 0x2028
    ||| u == 0x2029
    ||| u == 0x202f
    ||| u == 0x205f
    ||| u == 0x3000
}

/// How many characters at the start of `cs` are whitespace.
pub open spec fn leading_whitespace(cs: Seq<char>) -> nat
    decreases cs.len(),
{
    if cs.len() > 0 && is_whitespace(cs[0]) {
        1 + leading_whitespace(cs.drop_first())
    } else {
        0
    }
}

/// `n` copies of `c`.
pub open spec fn repeat(c: char, n: nat) -> Seq<char> {
    Seq::new(n, |_i: int| c)
}

/// The characters of the line (or lines) that hold the bytes from `start`
/// to `end`.
pub open spec fn source_line(bytes: Seq<u8>, start: int, end: int) -> Seq<char> {
    decode_utf8(bytes.subrange(line_start(bytes, start), line_end(bytes, end)))
}

/// The width in bytes of the indentation of that line.
pub open spec fn indent_width(bytes: Seq<u8>, start: int, end: int) -> int {
    let line = source_line(bytes, start, end);
    encode_utf8(line.take(leading_whitespace(line) as int)).len() as int
}

/// The column of `start`: its byte distance from the start of its line.
pub open spec fn column(bytes: Seq<u8>, start: int) -> int {
    start - line_start(bytes, start)
}

/// The span from `start` to `end` can be shown: it lies in the text, on
/// character boundaries, in order, and does not begin inside the
/// indentation of its line.
pub open spec fn showable(bytes: Seq<u8>, start: int, end: int) -> bool {
    &&& 0 <= start <= end <= bytes.len()
    &&& is_char_boundary(bytes, start)
    &&& is_char_boundary(bytes, end)
    &&& indent_width(bytes, start, end) <= column(bytes, start)
}

/// The message for an error at `start..end` of the source `bytes`: a
/// heading with the line number (from 1) and column, the line without its
/// indentation, and carets under the span (one caret for an empty span).
pub open spec fn located_message(bytes: Seq<u8>, start: int, end: int, message: Seq<char>) -> Seq<
    char,
> {
    let line = source_line(bytes, start, end);
    let col = column(bytes, start);
    "Error found at line "@ + decimal(newlines(bytes.take(start)) + 1) + ", column "@ + decimal(
        col as nat,
    ) + ": "@ + message + "\n"@ + line.skip(leading_whitespace(line) as int) + "\n"@ + repeat(
        ' ',
        (col - indent_width(bytes, start, end)) as nat,
    ) + repeat(
        '^',
        if start == end {
            1
        } else {
            (end - start) as nat
        },
    )
}

proof fn lemma_encode_utf8_add(a: Seq<char>, c: Seq<char>)
    ensures
        encode_utf8(a + c) == encode_utf8(a) + encode_utf8(c),
    decreases a.len(),
{
    if a.len() == 0 {
        assert(a + c =~= c);
        assert(encode_utf8(a) =~= Seq::<u8>::empty());
        assert(encode_utf8(a) + encode_utf8(c) =~= encode_utf8(c));
    } else {
        lemma_encode_utf8_add(a.drop_first(), c);
        assert((a + c).drop_first() =~= a.drop_first() + c);
        assert((a + c)[0] == a[0]);
        assert(encode_utf8(a + c) =~= encode_utf8(a) + encode_utf8(c));
    }
}

/// In valid UTF-8, a character boundary followed by a one-byte character is
/// followed by another boundary.
proof fn lemma_boundary_after_ascii(bytes: Seq<u8>, i: int)
    requires
        valid_utf8(bytes),
        0 <= i < bytes.len(),
        is_char_boundary(bytes, i),
        is_leading_byte_width_1(bytes[i]),
    ensures
        is_char_boundary(bytes, i + 1),
    decreases bytes.len(),
{
    let rest = pop_first_scalar(bytes);
    let l = length_of_first_scalar(bytes);
    assert(valid_first_scalar(bytes) && valid_utf8(rest));
    if i == 0 {
        assert(l == 1);
        assert(is_char_boundary(rest, 0));
    } else {
        assert(is_char_boundary(rest, i - l));
        assert(rest.len() == bytes.len() - l);
        assert(rest[i - l] == bytes[i]);
        lemma_boundary_after_ascii(rest, i - l);
    }
}

proof fn lemma_line_start(bytes: Seq<u8>, at: int)
    requires
        0 <= at <= bytes.len(),
    ensures
        0 <= line_start(bytes, at) <= at,
        line_start(bytes, at) > 0 ==> bytes[line_start(bytes, at) - 1] == newline(),
    decreases at,
{
    if at > 0 && bytes[at - 1] != newline() {
        lemma_line_start(bytes, at - 1);
    }
}

proof fn lemma_line_end(bytes: Seq<u8>, at: int)
    requires
        0 <= at <= bytes.len(),
    ensures
        at <= line_end(bytes, at) <= bytes.len(),
        line_end(bytes, at) < bytes.len() ==> bytes[line_end(bytes, at)] == newline(),
    decreases bytes.len() - at,
{
    if at < bytes.len() && bytes[at] != newline() {
        lemma_line_end(bytes, at + 1);
    }
}

/// Both ends of the line are character boundaries.
proof fn lemma_line_boundaries(bytes: Seq<u8>, start: int, end: int)
    requires
        valid_utf8(bytes),
        0 <= start <= end <= bytes.len(),
    ensures
        is_char_boundary(bytes, line_start(bytes, start)),
        is_char_boundary(bytes, line_end(bytes, end)),
{
    broadcast use {is_char_boundary_start_end_of_seq, is_char_boundary_iff_not_is_continuation_byte};

    lemma_line_start(bytes, start);
    lemma_line_end(bytes, end);
    let ls = line_start(bytes, start);
    let le = line_end(bytes, end);
    if ls > 0 {
        assert(!is_continuation_byte(bytes[ls - 1]));
        lemma_boundary_after_ascii(bytes, ls - 1);
    }
    if le < bytes.len() {
        assert(!is_continuation_byte(bytes[le]));
    }
}

fn find_line_start(bytes: &[u8], at: usize) -> (ls: usize)
    requires
        at <= bytes@.len(),
    ensures
        ls == line_start(bytes@, at as int),
{
    let mut ls: usize = at;
    while ls > 0
        invariant
            ls <= at <= bytes@.len(),
            line_start(bytes@, at as int) == line_start(bytes@, ls as int),
        ensures
            line_start(bytes@, ls as int) == ls,
        decreases ls,
    {
        if bytes[ls - 1] == 10u8 {
            break;
        }
        ls = ls - 1;
    }
    ls
}

fn find_line_end(bytes: &[u8], at: usize) -> (le: usize)
    requires
        at <= bytes@.len(),
    ensures
        le == line_end(bytes@, at as int),
{
    let mut le: usize = at;
    while le < bytes.len()
        invariant
            at <= le <= bytes@.len(),
            line_end(bytes@, at as int) == line_end(bytes@, le as int),
        ensures
            line_end(bytes@, le as int) == le,
        decreases bytes@.len() - le,
    {
        if bytes[le] == 10u8 {
            break;
        }
        le = le + 1;
    }
    le
}

fn count_newlines(bytes: &[u8], upto: usize) -> (count: usize)
    requires
        upto <= bytes@.len(),
    ensures
        count == newlines(bytes@.take(upto as int)),
{
    let mut count: usize = 0;
    let mut i: usize = 0;
    while i < upto
        invariant
            i <= upto <= bytes@.len(),
            count == newlines(bytes@.take(i as int)),
            count <= i,
        decreases upto - i,
    {
        assert(bytes@.take(i + 1).drop_last() =~= bytes@.take(i as int));
        if bytes[i] == 10u8 {
            count = count + 1;
        }
        i = i + 1;
    }
    count
}

/// `line` without its leading whitespace, and the width in bytes of what was
/// cut.
fn trim_indent(line: &str) -> (r: (String, usize))
    requires
        line.spec_bytes().len() <= usize::MAX,
    ensures
        r.0@ == line@.skip(leading_whitespace(line@) as int),
        r.1 == encode_utf8(line@.take(leading_whitespace(line@) as int)).len(),
{
    let chars = chars_of(line);
    let mut k: usize = 0;
    assert(line@.skip(0) =~= line@);
    while k < chars.len()
        invariant
            chars@ == line@,
            k <= chars@.len(),
            leading_whitespace(line@) == k + leading_whitespace(line@.skip(k as int)),
        ensures
            leading_whitespace(line@) == k,
        decreases chars@.len() - k,
    {
        let u = chars[k] as u32;
        let ws = (0x9 <= u && u <= 0xd) || u == 0x20 || u == 0x85 || u == 0xa0 || u == 0x1680 || (
        0x2000 <= u && u <= 0x200a) || u == 0x2028 || u == 0x2029 || u == 0x202f || u == 0x205f
            || u == 0x3000;
        assert(ws == is_whitespace(line@[k as int]));
        if !ws {
            break;
        }
        assert(line@.skip(k as int).drop_first() =~= line@.skip(k + 1));
        k = k + 1;
    }
    let trimmed = string_from_chars(&chars.as_slice()[k..chars.len()]);
    proof {
        assert(trimmed@ =~= line@.skip(k as int));
        assert(line@ =~= line@.take(k as int) + line@.skip(k as int));
        lemma_encode_utf8_add(line@.take(k as int), line@.skip(k as int));
    }
    let trimmed_str = trimmed.as_str();
    assert(trimmed_str.spec_bytes().len() <= line.spec_bytes().len());
    let width = line.len() - trimmed_str.len();
    (trimmed, width)
}

/// Appends `n` copies of the one character of `unit`.
fn append_repeated(text: &mut String, unit: &str, n: usize)
    requires
        unit@.len() == 1,
    ensures
        final(text)@ == old(text)@ + repeat(unit@[0], n as nat),
{
    let mut j: usize = 0;
    while j < n
        invariant
            j <= n,
            unit@.len() == 1,
            text@ == old(text)@ + repeat(unit@[0], j as nat),
        decreases n - j,
    {
        text.append(unit);
        assert(text@ =~= old(text)@ + repeat(unit@[0], (j + 1) as nat));
        j = j + 1;
    }
}

/// The line (or lines) of `input` that hold the bytes from `start` to
/// `end`, and the offset at which it begins.
fn line_of(input: &str, start: usize, end: usize) -> (r: (&str, usize))
    requires
        0 <= start <= end <= input.spec_bytes().len(),
        is_char_boundary(input.spec_bytes(), start as int),
        is_char_boundary(input.spec_bytes(), end as int),
    ensures
        r.0@ == source_line(input.spec_bytes(), start as int, end as int),
        r.0.spec_bytes().len() <= usize::MAX,
        r.1 == line_start(input.spec_bytes(), start as int),
        r.1 <= start,
{
    let ghost b = input.spec_bytes();
    let bytes = input.as_bytes();
    proof {
        lemma_line_start(b, start as int);
        lemma_line_end(b, end as int);
        lemma_line_boundaries(b, start as int, end as int);
    }
    let ls = find_line_start(bytes, start);
    let le = find_line_end(bytes, end);
    let (_, rest) = input.split_at(ls);
    proof {
        assert(rest.spec_bytes() =~= b.subrange(ls as int, b.len() as int));
        if le < b.len() {
            assert(rest.spec_bytes()[le - ls] == newline());
            is_char_boundary_iff_not_is_continuation_byte(rest.spec_bytes(), (le - ls) as int);
        } else {
            is_char_boundary_start_end_of_seq(rest.spec_bytes());
        }
    }
    let (line, _) = rest.split_at(le - ls);
    proof {
        assert(line.spec_bytes() =~= b.subrange(ls as int, le as int));
    }
    (line, ls)
}

/// Whether an error at `start..end` of `input` can be shown: what
/// `locate` and `parse_error_to_error` ask of the span.
pub fn is_showable(input: &str, start: usize, end: usize) -> (r: bool)
    ensures
        r == showable(input.spec_bytes(), start as int, end as int),
{
    if !(start <= end && end <= input.as_bytes().len()) {
        return false;
    }
    if !(input.is_char_boundary(start) && input.is_char_boundary(end)) {
        return false;
    }
    let (line, ls) = line_of(input, start, end);
    let (_, indent) = trim_indent(line);
    indent <= start - ls
}

/// The message for an error at `start..end` of `input`, as
/// `located_message` describes it.
pub fn locate(input: &str, start: usize, end: usize, message: &str) -> (text: String)
    requires
        showable(input.spec_bytes(), start as int, end as int),
    ensures
        text@ == located_message(input.spec_bytes(), start as int, end as int, message@),
{
    let ghost b = input.spec_bytes();
    let (line, ls) = line_of(input, start, end);
    let count = count_newlines(input.as_bytes(), start);
    let (trimmed, indent) = trim_indent(line);
    let col = start - ls;
    let mut text = String::new();
    text.append("Error found at line ");
    write_decimal(&mut text, count as u128 + 1);
    text.append(", column ");
    write_decimal(&mut text, col as u128);
    text.append(": ");
    text.append(message);
    text.append("\n");
    text.append(trimmed.as_str());
    text.append("\n");
    proof {
        reveal_strlit(" ");
        reveal_strlit("^");
    }
    append_repeated(&mut text, " ", col - indent);
    let carets: usize = if start == end {
        1
    } else {
        end - start
    };
    append_repeated(&mut text, "^", carets);
    proof {
        assert(text@ =~= located_message(b, start as int, end as int, message@));
    }
    text
}

/// An error of the lexer, with the span of source bytes where it arose.
#[derive(Debug, Clone, PartialEq, Eq)]
pub enum LexicalError {
    NumberParseError { start: usize, end: usize },
    InvalidToken { start: usize, end: usize },
    UnterminatedComment { start: usize, end: usize },
    UnterminatedString { start: usize, end: usize },
    UserError { start: usize, end: usize, message: String },
}

/// Why the parser could not read a program. A token is given as its start
/// offset, its text and its end offset; `expected` lists the texts of the
/// tokens that would have been accepted.
#[derive(Debug, PartialEq, Eq)]
pub enum ParseError {
    InvalidToken { location: usize },
    UnrecognizedEOF { location: usize, expected: Vec<String> },
    UnrecognizedToken { token: (usize, String, usize), expected: Vec<String> },
    ExtraToken { token: (usize, String, usize) },
    User { error: LexicalError },
}

/// An error as the library reports it to its users.
#[derive(Debug, Clone, PartialEq, Eq)]
pub struct Error {
    pub message: String,
}

/// The texts of `items`, with `sep` between each two.
pub open spec fn join(items: Seq<Seq<char>>, sep: Seq<char>) -> Seq<char>
    decreases items.len(),
{
    if items.len() == 0 {
        Seq::empty()
    } else if items.len() == 1 {
        items[0]
    } else {
        join(items.drop_last(), sep) + sep + items.last()
    }
}

/// The texts of a list of strings.
pub open spec fn texts(items: Seq<String>) -> Seq<Seq<char>> {
    items.map_values(|t: String| t@)
}

/// The span of source bytes that a parse error points at.
pub open spec fn error_span(error: ParseError) -> (int, int) {
    match error {
        ParseError::InvalidToken { location } => (location as int, location as int),
        ParseError::UnrecognizedEOF { location, .. } => (location as int, location as int),
        ParseError::UnrecognizedToken { token, .. } => (token.0 as int, token.2 as int),
        ParseError::ExtraToken { token } => (token.0 as int, token.2 as int),
        ParseError::User { error } => match error {
            LexicalError::NumberParseError { start, end } => (start as int, end as int),
            LexicalError::InvalidToken { start, end } => (start as int, end as int),
            LexicalError::UnterminatedComment { start, end } => (start as int, end as int),
            LexicalError::UnterminatedString { start, end } => (start as int, end as int),
            LexicalError::UserError { start, end, .. } => (start as int, end as int),
        },
    }
}

impl ParseError {
    /// The span of source bytes that this error points at.
    pub fn span(&self) -> (r: (usize, usize))
        ensures
            r.0 as int == error_span(*self).0,
            r.1 as int == error_span(*self).1,
    {
        match self {
            ParseError::InvalidToken { location } => (*location, *location),
            ParseError::UnrecognizedEOF { location, .. } => (*location, *location),
            ParseError::UnrecognizedToken { token, .. } => (token.0, token.2),
            ParseError::ExtraToken { token } => (token.0, token.2),
            ParseError::User { error } => match error {
                LexicalError::NumberParseError { start, end } => (*start, *end),
                LexicalError::InvalidToken { start, end } => (*start, *end),
                LexicalError::UnterminatedComment { start, end } => (*start, *end),
                LexicalError::UnterminatedString { start, end } => (*start, *end),
                LexicalError::UserError { start, end, .. } => (*start, *end),
            },
        }
    }
}

/// What a parse error says, before it is placed in the source.
pub open spec fn error_text(error: ParseError) -> Seq<char> {
    match error {
        ParseError::InvalidToken { .. } => "Invalid token"@,
        ParseError::UnrecognizedEOF { .. } => "Unexpected end of file"@,
        ParseError::UnrecognizedToken { token, expected } => "Unrecognized token \""@ + token.1@
            + "\". Expected one of: "@ + join(texts(expected@), ", "@),
        ParseError::ExtraToken { token } => "Extra token \""@ + token.1@ + "\""@,
        ParseError::User { error } => match error {
            LexicalError::NumberParseError { .. } => "Failed to parse number"@,
            LexicalError::InvalidToken { .. } => "Invalid token"@,
            LexicalError::UnterminatedComment { .. } => "Unterminated comment"@,
            LexicalError::UnterminatedString { .. } => "Unterminated string"@,
            LexicalError::UserError { message, .. } => message@,
        },
    }
}

/// The texts of `items` joined by `sep`.
fn join_strings(items: &Vec<String>, sep: &str) -> (joined: String)
    ensures
        joined@ == join(texts(items@), sep@),
{
    let mut joined = String::new();
    let mut i: usize = 0;
    while i < items.len()
        invariant
            i <= items@.len(),
            joined@ == join(texts(items@.take(i as int)), sep@),
        decreases items@.len() - i,
    {
        let ghost before = texts(items@.take(i as int));
        assert(texts(items@.take(i + 1)).drop_last() =~= before);
        if i > 0 {
            joined.append(sep);
        }
        joined.append(items[i].as_str());
        assert(joined@ =~= join(texts(items@.take(i + 1)), sep@));
        i = i + 1;
    }
    assert(items@.take(i as int) =~= items@);
    joined
}

/// The error that users see for a parse error in `input`: the error's
/// text, placed in the source as `located_message` describes.
pub fn parse_error_to_error(input: &str, error: &ParseError) -> (e: Error)
    requires
        showable(input.spec_bytes(), error_span(*error).0, error_span(*error).1),
    ensures
        e.message@ == located_message(
            input.spec_bytes(),
            error_span(*error).0,
            error_span(*error).1,
            error_text(*error),
        ),
{
    let message = match error {
        ParseError::InvalidToken { location } => locate(input, *location, *location, "Invalid token"),
        ParseError::UnrecognizedEOF { location, .. } => locate(
            input,
            *location,
            *location,
            "Unexpected end of file",
        ),
        ParseError::UnrecognizedToken { token, expected } => {
            let mut text = String::new();
            text.append("Unrecognized token \"");
            text.append(token.1.as_str());
            text.append("\". Expected one of: ");
            let list = join_strings(expected, ", ");
            text.append(list.as_str());
            locate(input, token.0, token.2, text.as_str())
        },
        ParseError::ExtraToken { token } => {
            let mut text = String::new();
            text.append("Extra token \"");
            text.append(token.1.as_str());
            text.append("\"");
            locate(input, token.0, token.2, text.as_str())
        },
        ParseError::User { error } => match error {
            LexicalError::NumberParseError { start, end } => locate(
                input,
                *start,
                *end,
                "Failed to parse number",
            ),
            LexicalError::InvalidToken { start, end } => locate(input, *start, *end, "Invalid token"),
            LexicalError::UnterminatedComment { start, end } => locate(
                input,
                *start,
                *end,
                "Unterminated comment",
            ),
            LexicalError::UnterminatedString { start, end } => locate(
                input,
                *start,
                *end,
                "Unterminated string",
            ),
            LexicalError::UserError { start, end, message } => locate(
                input,
                *start,
                *end,
                message.as_str(),
            ),
        },
    };
    Error { message }
}

} // verus!
