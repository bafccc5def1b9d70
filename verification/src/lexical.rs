//! The lexical grammar: which characters form the next token of a text.
//!
//! Positions are character indices into the text.

use vstd::prelude::*;
use vstd::utf8::is_scalar;

use crate::chars::{spec_ident_continue, spec_ident_start, spec_is_digit, spec_is_space};
use crate::digits::{radix_value, spec_to_digit};
use crate::error::line_end;
use crate::token::{LexError, TokenKind};

verus! {

/// A token as a kind and a range of character indices.
pub ghost struct Lexed {
    pub kind: TokenKind,
    pub start: int,
    pub end: int,
}

/// A class of characters that a run is made of.
pub ghost enum Class {
    /// Identifier characters.
    Ident,
    /// Decimal digits and `_`.
    Decimal,
    /// Digits of a base and `_`.
    Radix(nat),
    /// Hexadecimal digits.
    Hex,
    /// `#`
    Hash,
}

pub open spec fn in_class(class: Class, c: char) -> bool {
    match class {
        Class::Ident => spec_ident_continue(c),
        Class::Decimal => spec_is_digit(c) || c == '_',
        Class::Radix(radix) => spec_to_digit(c, radix) is Some || c == '_',
        Class::Hex => spec_to_digit(c, 16) is Some,
        Class::Hash => c == '#',
    }
}

/// The character at index `i`, if there is one.
pub open spec fn char_at(s: Seq<char>, i: int) -> Option<char> {
    if 0 <= i < s.len() {
        Some(s[i])
    } else {
        None
    }
}

/// The first index at or after `i` whose character is not in `class`.
pub open spec fn run_end(s: Seq<char>, i: int, class: Class) -> int
    decreases s.len() - i,
{
    if 0 <= i < s.len() && in_class(class, s[i]) {
        run_end(s, i + 1, class)
    } else {
        i
    }
}

/// The index after the line comment whose text starts at `i`.
pub open spec fn line_comment_end(s: Seq<char>, i: int) -> int {
    let e = line_end(s, i);
    if e < s.len() {
        e + 1
    } else {
        e
    }
}

/// The index after the block comments that are open `depth` levels deep at `i`.
pub open spec fn block_comment_end(s: Seq<char>, i: int, depth: nat) -> Option<int>
    decreases s.len() - i,
{
    if depth == 0 {
        Some(i)
    } else if i < 0 || i >= s.len() {
        None
    } else if s[i] == '/' && char_at(s, i + 1) == Some('*') {
        block_comment_end(s, i + 2, depth + 1)
    } else if s[i] == '*' && char_at(s, i + 1) == Some('/') {
        block_comment_end(s, i + 2, (depth - 1) as nat)
    } else {
        block_comment_end(s, i + 1, depth)
    }
}

/// Where whitespace and comments lead.
pub ghost enum Trivia {
    /// To this index.
    Done(int),
    /// Into a block comment that starts at this index and never ends.
    Unterminated(int),
}

pub proof fn lemma_line_end(s: Seq<char>, i: int)
    requires
        0 <= i,
    ensures
        i <= line_end(s, i),
        i <= s.len() ==> line_end(s, i) <= s.len(),
        i <= line_comment_end(s, i),
        i <= s.len() ==> line_comment_end(s, i) <= s.len(),
    decreases s.len() - i,
{
    if i < s.len() && s[i] != '\n' {
        lemma_line_end(s, i + 1);
    }
}

pub proof fn lemma_block_comment_end(s: Seq<char>, i: int, depth: nat)
    requires
        0 <= i <= s.len(),
    ensures
        block_comment_end(s, i, depth) matches Some(e) ==> i <= e <= s.len(),
    decreases s.len() - i,
{
    if depth > 0 && i < s.len() {
        if s[i] == '/' && char_at(s, i + 1) == Some('*') {
            lemma_block_comment_end(s, i + 2, depth + 1);
        } else if s[i] == '*' && char_at(s, i + 1) == Some('/') {
            lemma_block_comment_end(s, i + 2, (depth - 1) as nat);
        } else {
            lemma_block_comment_end(s, i + 1, depth);
        }
    }
}

/// Skips whitespace and comments from `i`.
pub open spec fn trivia(s: Seq<char>, i: int) -> Trivia
    decreases s.len() - i,
{
    if i < 0 || i >= s.len() {
        Trivia::Done(i)
    } else if spec_is_space(s[i]) {
        trivia(s, i + 1)
    } else if s[i] == '/' && char_at(s, i + 1) == Some('/') {
        proof {
            lemma_line_end(s, i + 2);
        }
        trivia(s, line_comment_end(s, i + 2))
    } else if s[i] == '/' && char_at(s, i + 1) == Some('*') {
        match block_comment_end(s, i + 2, 1) {
            None => Trivia::Unterminated(i),
            Some(e) => {
                proof {
                    lemma_block_comment_end(s, i + 2, 1);
                }
                trivia(s, e)
            },
        }
    } else {
        Trivia::Done(i)
    }
}

/// The characters that a backslash may precede without further digits.
pub open spec fn is_simple_escape(c: char) -> bool {
    c == '\\' || c == '"' || c == '\'' || c == 'n' || c == 'r' || c == 't' || c == '0'
}

pub open spec fn is_hex_at(s: Seq<char>, i: int) -> bool {
    char_at(s, i) matches Some(c) && spec_to_digit(c, 16) is Some
}

/// The escape sequence whose text (after the backslash) starts at `i`: whether it is valid,
/// and where it ends.
pub open spec fn escape_at(s: Seq<char>, i: int) -> (bool, int) {
    match char_at(s, i) {
        None => (false, i),
        Some(c) => if is_simple_escape(c) {
            (true, i + 1)
        } else if c == 'x' {
            if !is_hex_at(s, i + 1) {
                (false, i + 1)
            } else if !is_hex_at(s, i + 2) {
                (false, i + 2)
            } else {
                (radix_value(s.subrange(i + 1, i + 3), 16) <= 0x7f, i + 3)
            }
        } else if c == 'u' {
            let e = run_end(s, i + 2, Class::Hex);
            if char_at(s, i + 1) != Some('{') {
                (false, i + 1)
            } else if e - (i + 2) > 6 {
                (false, i + 2 + 7)
            } else if e == i + 2 || char_at(s, e) != Some('}') {
                (false, e)
            } else {
                (is_scalar(radix_value(s.subrange(i + 2, e), 16) as u32), e + 1)
            }
        } else {
            (false, i + 1)
        },
    }
}

/// How a string literal ends.
pub ghost enum StringEnd {
    /// Its closing quote ends at this index.
    Closed(int),
    /// An invalid escape sequence covers this range.
    BadEscape(int, int),
    /// The text ends first.
    Unterminated,
}

pub proof fn lemma_run_end(s: Seq<char>, i: int, class: Class)
    requires
        0 <= i,
    ensures
        i <= run_end(s, i, class),
        i <= s.len() ==> run_end(s, i, class) <= s.len(),
        forall|k: int| i <= k < run_end(s, i, class) ==> in_class(class, #[trigger] s[k]),
        run_end(s, i, class) < s.len() ==> !in_class(class, s[run_end(s, i, class)]),
    decreases s.len() - i,
{
    if i < s.len() && in_class(class, s[i]) {
        lemma_run_end(s, i + 1, class);
    }
}

pub proof fn lemma_escape_at(s: Seq<char>, i: int)
    requires
        0 <= i <= s.len(),
    ensures
        i <= escape_at(s, i).1 <= s.len(),
{
    lemma_run_end(s, i + 2, Class::Hex);
}

/// Scans the inside of a string literal from `i`.
pub open spec fn string_end(s: Seq<char>, i: int) -> StringEnd
    decreases s.len() - i,
{
    if i < 0 || i >= s.len() {
        StringEnd::Unterminated
    } else if s[i] == '"' {
        StringEnd::Closed(i + 1)
    } else if s[i] == '\\' {
        let (valid, e) = escape_at(s, i + 1);
        if valid {
            proof {
                lemma_escape_at(s, i + 1);
            }
            string_end(s, e)
        } else {
            StringEnd::BadEscape(i, e)
        }
    } else {
        string_end(s, i + 1)
    }
}

/// Whether a raw string with `hashes` delimiters closes at the quote at `j`.
pub open spec fn raw_closes(s: Seq<char>, j: int, hashes: int) -> bool {
    &&& char_at(s, j) == Some('"')
    &&& forall|k: int| j < k <= j + hashes ==> #[trigger] char_at(s, k) == Some('#')
}

/// The index after the first closing delimiter of a raw string at or after `j`.
pub open spec fn raw_end(s: Seq<char>, j: int, hashes: int) -> Option<int>
    decreases s.len() - j,
{
    if j < 0 || j >= s.len() {
        None
    } else if raw_closes(s, j, hashes) {
        Some(j + 1 + hashes)
    } else {
        raw_end(s, j + 1, hashes)
    }
}

/// Lexes `r"…"`, `r#"…"#` or the rejected raw identifier `r#name` at `i`.
pub open spec fn raw_token(s: Seq<char>, i: int) -> Lexed {
    let quote = run_end(s, i + 1, Class::Hash);
    if char_at(s, quote) != Some('"') {
        Lexed { kind: TokenKind::Error(LexError::RawIdentifier), start: i, end: i + 2 }
    } else {
        match raw_end(s, quote + 1, quote - (i + 1)) {
            Some(e) => Lexed { kind: TokenKind::Str, start: i, end: e },
            None => Lexed {
                kind: TokenKind::Error(LexError::UnterminatedRawString),
                start: i,
                end: s.len() as int,
            },
        }
    }
}

/// The base announced by a `0x`, `0o` or `0b` prefix at `i`.
pub open spec fn radix_at(s: Seq<char>, i: int) -> Option<nat> {
    if char_at(s, i) != Some('0') {
        None
    } else if char_at(s, i + 1) == Some('x') {
        Some(16)
    } else if char_at(s, i + 1) == Some('o') {
        Some(8)
    } else if char_at(s, i + 1) == Some('b') {
        Some(2)
    } else {
        None
    }
}

/// Where the exponent of a decimal literal ends, when one starts at `i`.
pub open spec fn exponent_end(s: Seq<char>, i: int) -> Option<int> {
    if char_at(s, i) == Some('e') || char_at(s, i) == Some('E') {
        let p = if char_at(s, i + 1) == Some('+') || char_at(s, i + 1) == Some('-') {
            i + 2
        } else {
            i + 1
        };
        if char_at(s, p) matches Some(c) && spec_is_digit(c) {
            Some(run_end(s, p, Class::Decimal))
        } else {
            None
        }
    } else {
        None
    }
}

/// The end of the digits of the numeric literal at `i`, and whether it is a float.
pub open spec fn number_body(s: Seq<char>, i: int) -> (int, bool) {
    let whole = run_end(s, i, Class::Decimal);
    let dotted = char_at(s, whole) == Some('.') && char_at(s, whole + 1) != Some('.');
    let mantissa = if dotted {
        run_end(s, whole + 1, Class::Decimal)
    } else {
        whole
    };
    match exponent_end(s, mantissa) {
        Some(e) => (e, true),
        None => (mantissa, dotted),
    }
}

/// A numeric literal that starts at `i` and whose digits end at `e`: `kind`, unless an
/// identifier follows directly.
pub open spec fn suffixed(s: Seq<char>, i: int, e: int, kind: TokenKind) -> Lexed {
    if char_at(s, e) matches Some(c) && spec_ident_start(c) {
        Lexed {
            kind: TokenKind::Error(LexError::NumericSuffix),
            start: i,
            end: run_end(s, e, Class::Ident),
        }
    } else {
        Lexed { kind, start: i, end: e }
    }
}

/// Whether `s[i..e]` holds a character other than `_`.
pub open spec fn any_digit(s: Seq<char>, i: int, e: int) -> bool {
    exists|k: int| i <= k < e && #[trigger] s[k] != '_'
}

/// Lexes the integer or float literal at `i`.
///
/// A literal with a base prefix needs a digit of its base, and a decimal digit outside of the
/// base makes the whole run of identifier characters one invalid number.
pub open spec fn number_token(s: Seq<char>, i: int) -> Lexed {
    match radix_at(s, i) {
        Some(radix) => {
            let e = run_end(s, i + 2, Class::Radix(radix));
            let stray = char_at(s, e) matches Some(c) && spec_is_digit(c);
            if !any_digit(s, i + 2, e) || stray {
                Lexed {
                    kind: TokenKind::Error(LexError::InvalidNumber),
                    start: i,
                    end: run_end(s, e, Class::Ident),
                }
            } else {
                suffixed(s, i, e, TokenKind::Int)
            }
        },
        None => {
            let (e, is_float) = number_body(s, i);
            suffixed(
                s,
                i,
                e,
                if is_float {
                    TokenKind::Float
                } else {
                    TokenKind::Int
                },
            )
        },
    }
}

/// The kind of a token made of the single character `c`.
pub open spec fn single_kind(c: char) -> TokenKind {
    if c == '(' {
        TokenKind::LParen
    } else if c == ')' {
        TokenKind::RParen
    } else if c == '{' {
        TokenKind::LBrace
    } else if c == '}' {
        TokenKind::RBrace
    } else if c == '[' {
        TokenKind::LBracket
    } else if c == ']' {
        TokenKind::RBracket
    } else if c == ',' {
        TokenKind::Comma
    } else if c == '#' {
        TokenKind::Hash
    } else if c == '@' {
        TokenKind::At
    } else if c == '~' {
        TokenKind::Tilde
    } else if c == '<' {
        TokenKind::Lt
    } else if c == '>' {
        TokenKind::Gt
    } else if c == '-' {
        TokenKind::Minus
    } else if c == '\'' {
        TokenKind::Error(LexError::CharLiteral)
    } else if c == '|' {
        TokenKind::Error(LexError::Closure)
    } else if c == '!' {
        TokenKind::Error(LexError::Macro)
    } else {
        TokenKind::Error(LexError::Unknown)
    }
}

/// The token that starts exactly at `i`, where neither whitespace nor a comment starts.
pub open spec fn token_here(s: Seq<char>, i: int) -> Lexed {
    let c = s[i];
    if c == ':' {
        if char_at(s, i + 1) == Some(':') {
            Lexed { kind: TokenKind::ColonColon, start: i, end: i + 2 }
        } else {
            Lexed { kind: TokenKind::Colon, start: i, end: i + 1 }
        }
    } else if c == '"' {
        match string_end(s, i + 1) {
            StringEnd::Closed(e) => Lexed { kind: TokenKind::Str, start: i, end: e },
            StringEnd::BadEscape(a, e) => Lexed {
                kind: TokenKind::Error(LexError::InvalidEscape),
                start: a,
                end: e,
            },
            StringEnd::Unterminated => Lexed {
                kind: TokenKind::Error(LexError::UnterminatedString),
                start: i,
                end: s.len() as int,
            },
        }
    } else if c == 'r' && (char_at(s, i + 1) == Some('"') || char_at(s, i + 1) == Some('#')) {
        raw_token(s, i)
    } else if spec_is_digit(c) {
        number_token(s, i)
    } else if spec_ident_start(c) {
        Lexed { kind: TokenKind::Ident, start: i, end: run_end(s, i, Class::Ident) }
    } else {
        Lexed { kind: single_kind(c), start: i, end: i + 1 }
    }
}

/// The next token of `s` at or after `i`.
pub open spec fn next_lexed(s: Seq<char>, i: int) -> Lexed {
    match trivia(s, i) {
        Trivia::Unterminated(start) => Lexed {
            kind: TokenKind::Error(LexError::UnterminatedBlockComment),
            start,
            end: s.len() as int,
        },
        Trivia::Done(j) => if j >= s.len() {
            Lexed { kind: TokenKind::Eof, start: s.len() as int, end: s.len() as int }
        } else {
            token_here(s, j)
        },
    }
}

/// All tokens of `s` from `i` on, ending with the first `Eof`.
pub open spec fn lex_from(s: Seq<char>, i: int) -> Seq<Lexed>
    decreases s.len() - i,
{
    let t = next_lexed(s, i);
    if t.kind == TokenKind::Eof || i < 0 || i > s.len() {
        seq![t]
    } else {
        proof {
            lemma_next_lexed(s, i);
        }
        seq![t] + lex_from(s, t.end)
    }
}

/// Where lexing starts: after a leading byte order mark.
pub open spec fn lex_start(s: Seq<char>) -> int {
    if s.len() > 0 && s[0] == '\u{FEFF}' {
        1
    } else {
        0
    }
}

/// All tokens of `s`, ending with the first `Eof`.
pub open spec fn lex(s: Seq<char>) -> Seq<Lexed> {
    lex_from(s, lex_start(s))
}

pub proof fn lemma_trivia(s: Seq<char>, i: int)
    requires
        0 <= i <= s.len(),
    ensures
        match trivia(s, i) {
            Trivia::Done(j) => i <= j <= s.len() && (j < s.len() ==> !spec_is_space(s[j])),
            Trivia::Unterminated(j) => i <= j && j + 2 <= s.len(),
        },
    decreases s.len() - i,
{
    if i < s.len() {
        if spec_is_space(s[i]) {
            lemma_trivia(s, i + 1);
        } else if s[i] == '/' && char_at(s, i + 1) == Some('/') {
            lemma_line_end(s, i + 2);
            lemma_trivia(s, line_comment_end(s, i + 2));
        } else if s[i] == '/' && char_at(s, i + 1) == Some('*') {
            lemma_block_comment_end(s, i + 2, 1);
            if let Some(e) = block_comment_end(s, i + 2, 1) {
                lemma_trivia(s, e);
            }
        }
    }
}

pub proof fn lemma_string_end(s: Seq<char>, i: int)
    requires
        0 <= i <= s.len(),
    ensures
        match string_end(s, i) {
            StringEnd::Closed(e) => i < e <= s.len(),
            StringEnd::BadEscape(a, e) => i <= a < e <= s.len(),
            StringEnd::Unterminated => true,
        },
    decreases s.len() - i,
{
    if i < s.len() && s[i] != '"' {
        if s[i] == '\\' {
            lemma_escape_at(s, i + 1);
            if escape_at(s, i + 1).0 {
                lemma_string_end(s, escape_at(s, i + 1).1);
            }
        } else {
            lemma_string_end(s, i + 1);
        }
    }
}

pub proof fn lemma_raw_end(s: Seq<char>, j: int, hashes: int)
    requires
        0 <= j <= s.len(),
        0 <= hashes,
    ensures
        raw_end(s, j, hashes) matches Some(e) ==> j < e <= s.len(),
    decreases s.len() - j,
{
    if j < s.len() {
        if raw_closes(s, j, hashes) {
            if hashes > 0 {
                assert(char_at(s, j + hashes) == Some('#'));
            }
        } else {
            lemma_raw_end(s, j + 1, hashes);
        }
    }
}

/// Every token but `Eof` is non-empty, lies at or after the lexer's position and inside the
/// text; `Eof` is the empty range at the end of the text.
pub proof fn lemma_next_lexed(s: Seq<char>, i: int)
    requires
        0 <= i <= s.len(),
    ensures
        ({
            let t = next_lexed(s, i);
            &&& t.kind == TokenKind::Eof ==> t.start == s.len() && t.end == s.len()
            &&& t.kind != TokenKind::Eof ==> i <= t.start < t.end <= s.len()
        }),
{
    lemma_trivia(s, i);
    if let Trivia::Done(j) = trivia(s, i) {
        if j < s.len() {
            lemma_token_here(s, j);
        }
    }
}

pub proof fn lemma_token_here(s: Seq<char>, j: int)
    requires
        0 <= j < s.len(),
    ensures
        j <= token_here(s, j).start < token_here(s, j).end <= s.len(),
        token_here(s, j).kind != TokenKind::Eof,
{
    let c = s[j];
    if c == '"' {
        lemma_string_end(s, j + 1);
    } else if c == 'r' && (char_at(s, j + 1) == Some('"') || char_at(s, j + 1) == Some('#')) {
        lemma_run_end(s, j + 1, Class::Hash);
        let quote = run_end(s, j + 1, Class::Hash);
        if char_at(s, quote) == Some('"') {
            lemma_raw_end(s, quote + 1, quote - (j + 1));
        }
    } else if spec_is_digit(c) {
        lemma_number_token(s, j);
    } else if spec_ident_start(c) {
        lemma_run_end(s, j + 1, Class::Ident);
    }
}

pub proof fn lemma_number_body(s: Seq<char>, j: int)
    requires
        0 <= j < s.len(),
        spec_is_digit(s[j]),
    ensures
        j < number_body(s, j).0 <= s.len(),
{
    lemma_run_end(s, j + 1, Class::Decimal);
    let whole = run_end(s, j, Class::Decimal);
    lemma_run_end(s, whole + 1, Class::Decimal);
    let dotted = char_at(s, whole) == Some('.') && char_at(s, whole + 1) != Some('.');
    let mantissa = if dotted {
        run_end(s, whole + 1, Class::Decimal)
    } else {
        whole
    };
    lemma_run_end(s, mantissa + 1, Class::Decimal);
    lemma_run_end(s, mantissa + 2, Class::Decimal);
}

pub proof fn lemma_number_token(s: Seq<char>, j: int)
    requires
        0 <= j < s.len(),
        spec_is_digit(s[j]),
    ensures
        number_token(s, j).start == j,
        j < number_token(s, j).end <= s.len(),
        number_token(s, j).kind != TokenKind::Eof,
{
    match radix_at(s, j) {
        Some(radix) => {
            lemma_run_end(s, j + 2, Class::Radix(radix));
            let e = run_end(s, j + 2, Class::Radix(radix));
            lemma_run_end(s, e, Class::Ident);
        },
        None => {
            lemma_number_body(s, j);
            lemma_run_end(s, number_body(s, j).0, Class::Ident);
        },
    }
}

/// Lexing always terminates with exactly one `Eof`, the empty range at the end of the text;
/// every other token is non-empty, lies inside the text, and starts at or after the end of the
/// token before it. There are at most as many tokens before `Eof` as characters.
pub proof fn law_tokens_in_order(s: Seq<char>, i: int)
    requires
        0 <= i <= s.len(),
    ensures
        ({
            let tokens = lex_from(s, i);
            &&& 1 <= tokens.len() <= s.len() - i + 1
            &&& tokens.last() == (Lexed {
                kind: TokenKind::Eof,
                start: s.len() as int,
                end: s.len() as int,
            })
            &&& forall|k: int|
                0 <= k < tokens.len() ==> ((#[trigger] tokens[k]).kind == TokenKind::Eof <==> k
                    == tokens.len() - 1)
            &&& forall|k: int|
                0 <= k < tokens.len() - 1 ==> i <= (#[trigger] tokens[k]).start < tokens[k].end
                    <= s.len()
            &&& forall|j: int, k: int|
                0 <= j < k < tokens.len() ==> (#[trigger] tokens[j]).end <= (#[trigger] tokens[k]).start
        }),
    decreases s.len() - i,
{
    let t = next_lexed(s, i);
    let tokens = lex_from(s, i);
    lemma_next_lexed(s, i);
    if t.kind != TokenKind::Eof {
        law_tokens_in_order(s, t.end);
        let rest = lex_from(s, t.end);
        assert(tokens =~= seq![t] + rest);
        assert(tokens.last() == rest.last());
        assert forall|k: int| 0 <= k < tokens.len() implies ((#[trigger] tokens[k]).kind
            == TokenKind::Eof <==> k == tokens.len() - 1) by {
            if k > 0 {
                assert(tokens[k] == rest[k - 1]);
            }
        }
        assert forall|k: int| 0 <= k < tokens.len() - 1 implies i <= (#[trigger] tokens[k]).start
            < tokens[k].end <= s.len() by {
            if k > 0 {
                assert(tokens[k] == rest[k - 1]);
            }
        }
        assert forall|j: int, k: int| 0 <= j < k < tokens.len() implies (#[trigger] tokens[j]).end
            <= (#[trigger] tokens[k]).start by {
            assert(tokens[k] == rest[k - 1]);
            if j > 0 {
                assert(tokens[j] == rest[j - 1]);
            } else if k == tokens.len() - 1 {
                assert(rest[k - 1] == rest.last());
            }
        }
    }
}

} // verus!
