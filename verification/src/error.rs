//! Parse errors and rustc-style error rendering.

use vstd::prelude::*;

use crate::digits::{decimal, push_decimal};
use crate::span::{chars_before, last_line, position_after, Span};
use crate::text::{byte_len, chars_of, push_chars, push_text, string_of};

verus! {

/// The maximum nesting depth of entities, values and paths.
///
/// `.bsn` files are untrusted input to an asset loader, so the recursive-descent parser
/// refuses to descend further rather than risk exhausting the stack. Exceeding the limit is
/// reported as [`BsnParseErrorKind::NestingTooDeep`].
pub const MAX_NESTING_DEPTH: u32 = 128;

/// The longest part of a source line that a rendered error quotes.
pub const MAX_LINE: usize = 200;

/// An error produced while parsing a `.bsn` document.
///
/// Parsing is fail-fast: the first problem aborts the parse and is returned. Use
/// [`BsnParseError::render`] to turn the error into a rustc-style, multi-line report.
#[derive(Clone, Debug)]
pub struct BsnParseError {
    /// Byte range of the offending text.
    pub span: Span,
    /// What went wrong.
    pub kind: BsnParseErrorKind,
    /// Token descriptions that would have been accepted here, e.g. ``["`,`", "`]`"]``.
    ///
    /// Empty for errors where an "expected" list is meaningless.
    pub expected: Vec<&'static str>,
}

/// The kind of a [`BsnParseError`].
///
/// `#[non_exhaustive]` because new diagnostics may be added in a minor release; consumers
/// should always keep a fallback arm.
#[derive(Clone, Debug)]
#[non_exhaustive]
pub enum BsnParseErrorKind {
    /// A token appeared where the grammar does not allow it.
    UnexpectedToken {
        /// A human-readable description of the offending token, e.g. ``"`}`"``.
        found: &'static str,
    },
    /// The document ended in the middle of a construct.
    UnexpectedEof,
    /// A string literal was not closed.
    UnterminatedString,
    /// A `/* … */` comment was not closed.
    UnterminatedBlockComment,
    /// A string literal contains an unknown escape sequence.
    InvalidEscape,
    /// A numeric literal could not be interpreted.
    InvalidNumber,
    /// An integer literal does not fit in an `i128`.
    NumberOutOfRange,
    /// A character with no meaning in BSN.
    UnknownCharacter(char),
    /// A `:"…"` scene include appeared after another entry.
    BaseNotFirst,
    /// A `:` include was followed by something other than a string literal.
    BaseNotString,
    /// An entity carries more than one `#Name`.
    DuplicateName,
    /// A struct body sets the same field twice.
    DuplicateField(String),
    /// `-` was applied to something that is not a number.
    NegOperand,
    /// A path started with `::`.
    LeadingPathSeparator,
    /// The document nests deeper than [`MAX_NESTING_DEPTH`].
    NestingTooDeep,
    /// A `bsn!` construct that cannot exist in an asset. The payload is one of the
    /// [`crate::unsupported`] constants.
    Unsupported(&'static str),
    /// The parser reached a state it believes to be impossible.
    Internal(&'static str),
}

/// The model of a [`BsnParseErrorKind`]: its text payloads as character sequences.
pub ghost enum ErrorKind {
    UnexpectedToken(Seq<char>),
    UnexpectedEof,
    UnterminatedString,
    UnterminatedBlockComment,
    InvalidEscape,
    InvalidNumber,
    NumberOutOfRange,
    UnknownCharacter(char),
    BaseNotFirst,
    BaseNotString,
    DuplicateName,
    DuplicateField(Seq<char>),
    NegOperand,
    LeadingPathSeparator,
    NestingTooDeep,
    Unsupported(Seq<char>),
    Internal(Seq<char>),
}

/// The model of a [`BsnParseError`].
pub ghost struct Error {
    pub span: Span,
    pub kind: ErrorKind,
    pub expected: Seq<Seq<char>>,
}

/// The character sequences of a list of strings.
pub open spec fn texts(list: Seq<&'static str>) -> Seq<Seq<char>> {
    list.map_values(|s: &'static str| s@)
}

/// An error with no "expected" list.
pub open spec fn plain_error(span: Span, kind: ErrorKind) -> Error {
    Error { span, kind, expected: Seq::empty() }
}

/// The texts of `list`, separated by `separator`.
pub open spec fn joined(list: Seq<Seq<char>>, separator: Seq<char>) -> Seq<char>
    decreases list.len(),
{
    if list.len() == 0 {
        Seq::empty()
    } else if list.len() == 1 {
        list[0]
    } else {
        joined(list.drop_last(), separator) + separator + list.last()
    }
}

/// The ` expected a, b, or c` text of an "expected" list.
pub open spec fn expected_text(list: Seq<Seq<char>>) -> Seq<char> {
    if list.len() == 0 {
        Seq::empty()
    } else if list.len() == 1 {
        " expected "@ + list[0]
    } else if list.len() == 2 {
        " expected "@ + list[0] + " or "@ + list[1]
    } else {
        " expected "@ + joined(list.drop_last(), ", "@) + ", or "@ + list.last()
    }
}

/// The one-line message of an error kind.
pub open spec fn kind_text(kind: ErrorKind) -> Seq<char> {
    match kind {
        ErrorKind::UnexpectedToken(found) => "unexpected "@ + found,
        ErrorKind::UnexpectedEof => "unexpected end of file"@,
        ErrorKind::UnterminatedString => "unterminated string literal"@,
        ErrorKind::UnterminatedBlockComment => "unterminated block comment"@,
        ErrorKind::InvalidEscape => "invalid escape sequence"@,
        ErrorKind::InvalidNumber => "invalid numeric literal"@,
        ErrorKind::NumberOutOfRange => "integer literal out of range for i128"@,
        ErrorKind::UnknownCharacter(c) => "unexpected character `"@ + seq![c] + "`"@,
        ErrorKind::BaseNotFirst =>
            "a `:\"…\"` scene include must be the first entry of an entity"@,
        ErrorKind::BaseNotString =>
            "only scene assets can be included with `:`; expected a string literal, e.g. `:\"player.bsn\"`"@,
        ErrorKind::DuplicateName =>
            "duplicate entity name; an entity may have at most one `#Name`"@,
        ErrorKind::DuplicateField(name) => "duplicate field `"@ + name + "`"@,
        ErrorKind::NegOperand => "`-` may only be applied to a number or `inf`"@,
        ErrorKind::LeadingPathSeparator => "paths may not start with `::`"@,
        ErrorKind::NestingTooDeep => "nesting is too deep (limit "@ + decimal(
            MAX_NESTING_DEPTH as nat,
        ) + ")"@,
        ErrorKind::Unsupported(message) => message,
        ErrorKind::Internal(what) => "internal parser error: "@ + what,
    }
}

/// `n` copies of `c`.
pub open spec fn repeated(c: char, n: int) -> Seq<char> {
    Seq::new(n as nat, |i: int| c)
}

pub open spec fn smaller(a: int, b: int) -> int {
    if a <= b {
        a
    } else {
        b
    }
}

/// The first index at or after `i` that holds a line feed, or the length of `s`.
pub open spec fn line_end(s: Seq<char>, i: int) -> int
    decreases s.len() - i,
{
    if 0 <= i < s.len() && s[i] != '\n' {
        line_end(s, i + 1)
    } else {
        i
    }
}

/// The line of `s` that holds index `i`, without its line ending (`\n` or `\r\n`).
pub open spec fn line_around(s: Seq<char>, i: int) -> Seq<char> {
    let start = i - last_line(s.take(i)).len();
    let end = line_end(s, i);
    let line = s.subrange(start, end);
    if end < s.len() && line.len() > 0 && line.last() == '\r' {
        line.drop_last()
    } else {
        line
    }
}

/// The quoted form of a source line: tabs shown as spaces, cut off after 200 characters.
pub open spec fn quoted_line(line: Seq<char>) -> Seq<char> {
    let shown = line.take(smaller(line.len() as int, MAX_LINE as int)).map_values(
        |c: char| if c == '\t' {
            ' '
        } else {
            c
        },
    );
    if line.len() > MAX_LINE {
        shown + "..."@
    } else {
        shown
    }
}

/// The number of carets under a piece of text: its length up to the first line feed, at least
/// one and at most 200.
pub open spec fn caret_count(text: Seq<char>) -> int {
    let n = line_end(text, 0);
    if n == 0 {
        1
    } else {
        smaller(n, MAX_LINE as int)
    }
}

/// The rustc-style report of an error against `source`.
pub open spec fn report(error: Error, source: Seq<char>, path: Seq<char>) -> Seq<char> {
    let at = chars_before(source, error.span.start as nat);
    let (line, column) = position_after(source.take(at));
    let number = decimal(line as nat);
    let gutter = repeated(' ', number.len() as int + 1);
    let pad = repeated(' ', smaller(column - 1, MAX_LINE as int));
    let carets = repeated('^', caret_count(error.span.spec_text(source)));
    "error: "@ + kind_text(error.kind) + "\n"@ + gutter + "--> "@ + path + ":"@ + number + ":"@
        + decimal(column as nat) + "\n"@ + gutter + " |\n"@ + " "@ + number + " | "@ + quoted_line(
        line_around(source, at),
    ) + "\n"@ + gutter + " | "@ + pad + carets + expected_text(error.expected) + "\n"@
}

pub(crate) fn push_repeated(out: &mut Vec<char>, c: char, n: usize)
    ensures
        final(out)@ == old(out)@ + repeated(c, n as int),
{
    let ghost before = out@;
    let mut i: usize = 0;
    while i < n
        invariant
            i <= n,
            out@ =~= before + repeated(c, i as int),
        decreases n - i,
    {
        out.push(c);
        i = i + 1;
    }
}

impl BsnParseErrorKind {
    pub open spec fn view(&self) -> ErrorKind {
        match self {
            BsnParseErrorKind::UnexpectedToken { found } => ErrorKind::UnexpectedToken(found@),
            BsnParseErrorKind::UnexpectedEof => ErrorKind::UnexpectedEof,
            BsnParseErrorKind::UnterminatedString => ErrorKind::UnterminatedString,
            BsnParseErrorKind::UnterminatedBlockComment => ErrorKind::UnterminatedBlockComment,
            BsnParseErrorKind::InvalidEscape => ErrorKind::InvalidEscape,
            BsnParseErrorKind::InvalidNumber => ErrorKind::InvalidNumber,
            BsnParseErrorKind::NumberOutOfRange => ErrorKind::NumberOutOfRange,
            BsnParseErrorKind::UnknownCharacter(c) => ErrorKind::UnknownCharacter(*c),
            BsnParseErrorKind::BaseNotFirst => ErrorKind::BaseNotFirst,
            BsnParseErrorKind::BaseNotString => ErrorKind::BaseNotString,
            BsnParseErrorKind::DuplicateName => ErrorKind::DuplicateName,
            BsnParseErrorKind::DuplicateField(name) => ErrorKind::DuplicateField(name@),
            BsnParseErrorKind::NegOperand => ErrorKind::NegOperand,
            BsnParseErrorKind::LeadingPathSeparator => ErrorKind::LeadingPathSeparator,
            BsnParseErrorKind::NestingTooDeep => ErrorKind::NestingTooDeep,
            BsnParseErrorKind::Unsupported(message) => ErrorKind::Unsupported(message@),
            BsnParseErrorKind::Internal(what) => ErrorKind::Internal(what@),
        }
    }

    fn push_message(&self, out: &mut Vec<char>)
        ensures
            final(out)@ == old(out)@ + kind_text(self@),
    {
        let ghost before = out@;
        match self {
            BsnParseErrorKind::UnexpectedToken { found } => {
                push_text(out, "unexpected ");
                push_text(out, found);
            },
            BsnParseErrorKind::UnexpectedEof => push_text(out, "unexpected end of file"),
            BsnParseErrorKind::UnterminatedString => push_text(out, "unterminated string literal"),
            BsnParseErrorKind::UnterminatedBlockComment => push_text(
                out,
                "unterminated block comment",
            ),
            BsnParseErrorKind::InvalidEscape => push_text(out, "invalid escape sequence"),
            BsnParseErrorKind::InvalidNumber => push_text(out, "invalid numeric literal"),
            BsnParseErrorKind::NumberOutOfRange => push_text(
                out,
                "integer literal out of range for i128",
            ),
            BsnParseErrorKind::UnknownCharacter(c) => {
                push_text(out, "unexpected character `");
                out.push(*c);
                push_text(out, "`");
            },
            BsnParseErrorKind::BaseNotFirst => push_text(
                out,
                "a `:\"…\"` scene include must be the first entry of an entity",
            ),
            BsnParseErrorKind::BaseNotString => push_text(
                out,
                "only scene assets can be included with `:`; expected a string literal, e.g. `:\"player.bsn\"`",
            ),
            BsnParseErrorKind::DuplicateName => push_text(
                out,
                "duplicate entity name; an entity may have at most one `#Name`",
            ),
            BsnParseErrorKind::DuplicateField(name) => {
                push_text(out, "duplicate field `");
                push_text(out, name.as_str());
                push_text(out, "`");
            },
            BsnParseErrorKind::NegOperand => push_text(
                out,
                "`-` may only be applied to a number or `inf`",
            ),
            BsnParseErrorKind::LeadingPathSeparator => push_text(
                out,
                "paths may not start with `::`",
            ),
            BsnParseErrorKind::NestingTooDeep => {
                push_text(out, "nesting is too deep (limit ");
                push_decimal(out, MAX_NESTING_DEPTH as u128);
                push_text(out, ")");
            },
            BsnParseErrorKind::Unsupported(message) => push_text(out, message),
            BsnParseErrorKind::Internal(what) => {
                push_text(out, "internal parser error: ");
                push_text(out, what);
            },
        }
        assert(out@ =~= before + kind_text(self@));
    }

    /// The one-line message for this kind of error.
    pub fn message(&self) -> (r: String)
        ensures
            r@ == kind_text(self@),
    {
        let mut out: Vec<char> = Vec::new();
        self.push_message(&mut out);
        assert(out@ =~= kind_text(self@));
        string_of(&out)
    }
}

impl BsnParseError {
    pub open spec fn view(&self) -> Error {
        Error { span: self.span, kind: self.kind@, expected: texts(self.expected@) }
    }

    /// The rendered `expected …` suffix for this error, or an empty string when the parser
    /// recorded no expectations. Begins with a leading space, so it can be appended directly
    /// to the message when composing one-line diagnostics.
    pub fn expected_suffix(&self) -> (r: String)
        ensures
            r@ == expected_text(self@.expected),
    {
        let mut out: Vec<char> = Vec::new();
        render_expected(&mut out, &self.expected);
        assert(out@ =~= expected_text(self@.expected));
        string_of(&out)
    }

    /// The one-line message of the error.
    pub fn message(&self) -> (r: String)
        ensures
            r@ == kind_text(self@.kind),
    {
        self.kind.message()
    }

    /// Creates an error with no "expected" list.
    pub fn new(span: Span, kind: BsnParseErrorKind) -> (r: Self)
        ensures
            r@ == plain_error(span, kind@),
            r.kind == kind,
    {
        let r = BsnParseError { span, kind, expected: Vec::new() };
        assert(r@.expected =~= Seq::<Seq<char>>::empty());
        r
    }

    /// Creates an error with an "expected" list.
    pub fn expected(span: Span, kind: BsnParseErrorKind, expected: &[&'static str]) -> (r: Self)
        ensures
            r@ == (Error { span, kind: kind@, expected: texts(expected@) }),
            r.kind == kind,
    {
        let mut list: Vec<&'static str> = Vec::new();
        let mut i: usize = 0;
        while i < expected.len()
            invariant
                i <= expected.len(),
                list@ =~= expected@.take(i as int),
            decreases expected.len() - i,
        {
            list.push(expected[i]);
            i = i + 1;
        }
        assert(list@ =~= expected@);
        BsnParseError { span, kind, expected: list }
    }

    /// Renders the error in rustc's style, quoting the offending source line.
    ///
    /// `path` is the file name shown in the location line; `<bsn>` is used when it is `None`.
    ///
    /// ```text
    /// error: unexpected `}`
    ///   --> assets/player.bsn:3:22
    ///    |
    ///  3 |     Transform { x: 1.0 }
    ///    |                      ^ expected `,` or `:`
    /// ```
    pub fn render(&self, source: &str, path: Option<&str>) -> (r: String)
        requires
            byte_len(source@) < u32::MAX,
        ensures
            r@ == report(
                self@,
                source@,
                match path {
                    Some(p) => p@,
                    None => "<bsn>"@,
                },
            ),
    {
        let (line, column) = self.span.line_col(source);
        let name: &str = match path {
            Some(p) => p,
            None => "<bsn>",
        };
        let ghost at = chars_before(source@, self.span.start as nat);
        let mut number: Vec<char> = Vec::new();
        push_decimal(&mut number, line as u128);
        assert(number@ =~= decimal(line as nat));
        let shown = self.display_line(source);
        let text = chars_of(self.span.text(source));
        let mut carets: usize = 0;
        while carets < text.len() && text[carets] != '\n'
            invariant
                carets <= text.len(),
                line_end(text@, 0) == line_end(text@, carets as int),
            decreases text.len() - carets,
        {
            carets = carets + 1;
        }
        if carets == 0 {
            carets = 1;
        }
        if carets > MAX_LINE {
            carets = MAX_LINE;
        }
        let mut pad: usize = (column - 1) as usize;
        if pad > MAX_LINE {
            pad = MAX_LINE;
        }
        let ghost gutter = repeated(' ', number@.len() as int + 1);
        proof {
            crate::digits::lemma_decimal_len(line as nat);
        }
        let gutter_width: usize = number.len() + 1;

        let mut out: Vec<char> = Vec::new();
        push_text(&mut out, "error: ");
        self.kind.push_message(&mut out);
        push_text(&mut out, "\n");
        push_repeated(&mut out, ' ', gutter_width);
        push_text(&mut out, "--> ");
        push_text(&mut out, name);
        push_text(&mut out, ":");
        push_chars(&mut out, &number);
        push_text(&mut out, ":");
        push_decimal(&mut out, column as u128);
        push_text(&mut out, "\n");
        push_repeated(&mut out, ' ', gutter_width);
        push_text(&mut out, " |\n");
        push_text(&mut out, " ");
        push_chars(&mut out, &number);
        push_text(&mut out, " | ");
        push_chars(&mut out, &shown);
        push_text(&mut out, "\n");
        push_repeated(&mut out, ' ', gutter_width);
        push_text(&mut out, " | ");
        push_repeated(&mut out, ' ', pad);
        push_repeated(&mut out, '^', carets);
        render_expected(&mut out, &self.expected);
        push_text(&mut out, "\n");
        assert(out@ =~= report(self@, source@, name@));
        string_of(&out)
    }

    /// The quoted source line of the report.
    fn display_line(&self, source: &str) -> (shown: Vec<char>)
        requires
            byte_len(source@) < u32::MAX,
        ensures
            shown@ == quoted_line(
                line_around(source@, chars_before(source@, self.span.start as nat)),
            ),
    {
        let chars = chars_of(source);
        let ghost s = source@;
        let ghost at = chars_before(s, self.span.start as nat);
        let at_index = index_of_byte(&chars, self.span.start);
        proof {
            crate::span::lemma_index_from(s, 0, self.span.start as nat);
        }
        let mut start: usize = at_index;
        while start > 0 && chars[start - 1] != '\n'
            invariant
                chars@ == s,
                0 <= start <= at_index <= s.len(),
                last_line(s.take(at_index as int)) =~= last_line(s.take(start as int))
                    + s.subrange(start as int, at_index as int),
            decreases start,
        {
            proof {
                let before = s.take(start as int);
                assert(before.drop_last() =~= s.take(start as int - 1));
            }
            start = start - 1;
        }
        assert(last_line(s.take(start as int)).len() == 0) by {
            if start > 0 {
                assert(s.take(start as int).last() == '\n');
            }
        }
        let mut end: usize = at_index;
        while end < chars.len() && chars[end] != '\n'
            invariant
                chars@ == s,
                at_index <= end <= s.len(),
                line_end(s, at_index as int) == line_end(s, end as int),
            decreases s.len() - end,
        {
            end = end + 1;
        }
        let ghost whole = s.subrange(start as int, end as int);
        let mut stop: usize = end;
        if end < chars.len() && end > start && chars[end - 1] == '\r' {
            stop = end - 1;
        }
        let ghost line = s.subrange(start as int, stop as int);
        assert(line =~= line_around(s, at)) by {
            assert(whole.len() > 0 ==> whole.last() == s[end as int - 1]);
            assert(whole.len() > 0 ==> whole.drop_last() =~= s.subrange(
                start as int,
                end as int - 1,
            ));
        }
        let mut shown: Vec<char> = Vec::new();
        let mut i: usize = start;
        while i < stop && i - start < MAX_LINE
            invariant
                chars@ == s,
                start <= i <= stop <= s.len(),
                i - start <= MAX_LINE,
                line == s.subrange(start as int, stop as int),
                shown@ =~= line.take(i - start).map_values(
                    |c: char| if c == '\t' {
                        ' '
                    } else {
                        c
                    },
                ),
            decreases stop - i,
        {
            let c = chars[i];
            shown.push(
                if c == '\t' {
                    ' '
                } else {
                    c
                },
            );
            i = i + 1;
        }
        if stop - start > MAX_LINE {
            push_text(&mut shown, "...");
        }
        shown
    }
}

/// The number of characters of `chars` that start before byte `offset`.
fn index_of_byte(chars: &Vec<char>, offset: u32) -> (index: usize)
    requires
        byte_len(chars@) < u32::MAX,
    ensures
        index == chars_before(chars@, offset as nat),
        index <= chars.len(),
{
    let ghost s = chars@;
    let mut index: usize = 0;
    let mut at: u32 = 0;
    assert(s.take(0) =~= Seq::<char>::empty());
    while index < chars.len() && at < offset
        invariant
            chars@ == s,
            byte_len(s) < u32::MAX,
            0 <= index <= s.len(),
            at == crate::text::byte_at(s, index as int),
            chars_before(s, offset as nat) == crate::span::index_from(
                s,
                index as int,
                offset as nat,
            ),
        decreases s.len() - index,
    {
        proof {
            crate::text::lemma_byte_at_step(s, index as int);
            crate::text::lemma_byte_at_mono(s, 0, index as int + 1);
        }
        at = at + crate::text::width_of(chars[index]);
        index = index + 1;
    }
    index
}

/// Formats an "expected" list as ` expected a, b, or c`, or `""` when empty.
fn render_expected(out: &mut Vec<char>, expected: &Vec<&'static str>)
    ensures
        final(out)@ == old(out)@ + expected_text(texts(expected@)),
{
    let ghost before = out@;
    let ghost list = texts(expected@);
    if expected.len() == 0 {
        assert(out@ =~= before + expected_text(list));
        return ;
    }
    push_text(out, " expected ");
    push_text(out, expected[0]);
    if expected.len() == 1 {
        assert(out@ =~= before + expected_text(list));
        return ;
    }
    if expected.len() == 2 {
        push_text(out, " or ");
        push_text(out, expected[1]);
        assert(out@ =~= before + expected_text(list));
        return ;
    }
    let mut i: usize = 1;
    assert(list.take(1) =~= seq![list[0]]);
    while i + 1 < expected.len()
        invariant
            list == texts(expected@),
            1 <= i < expected.len(),
            out@ =~= before + " expected "@ + joined(list.take(i as int), ", "@),
        decreases expected.len() - i,
    {
        push_text(out, ", ");
        push_text(out, expected[i]);
        assert(list.take(i as int + 1).drop_last() =~= list.take(i as int));
        i = i + 1;
    }
    assert(list.take(i as int) =~= list.drop_last());
    push_text(out, ", or ");
    push_text(out, expected[i]);
    assert(out@ =~= before + expected_text(list));
}

} // verus!
