//! How pieces of text are read: the tokens that the lexer finds in them when they stand in a
//! longer text.

use vstd::prelude::*;

use crate::chars::{
    spec_ident_continue, spec_ident_start, spec_is_control, spec_is_digit, spec_is_space,
};
use crate::digits::{decimal, lemma_radix_chars, lemma_radix_round_trip, radix_text, spec_to_digit};
use crate::float::is_float_literal;
use crate::lexical::{
    char_at, escape_at, in_class, lemma_next_lexed, lemma_run_end, lemma_token_here, lex_from,
    next_lexed, number_body, number_token, radix_at, run_end, single_kind, string_end, suffixed,
    token_here, trivia, Class, Lexed,
};
use crate::literal::{
    escape_value, int_value, literal_digits, literal_radix, magnitude_value, quoted_body,
    signed_value, string_value, unescaped_from, without_separators,
};
use crate::render::{escaped, escaped_char, string_text};
use crate::token::TokenKind;

verus! {

/// A token without its place in the text.
pub ghost struct Bare {
    pub kind: TokenKind,
    pub text: Seq<char>,
}

pub open spec fn bare(s: Seq<char>, t: Lexed) -> Bare {
    Bare { kind: t.kind, text: s.subrange(t.start, t.end) }
}

/// The tokens of `s` from `i` on.
pub open spec fn rest(s: Seq<char>, i: int) -> Seq<Bare> {
    lex_from(s, i).map_values(|t: Lexed| bare(s, t))
}

/// Between `i` and `j`, the lexer reads exactly `toks`.
#[verifier::opaque]
pub open spec fn reads(s: Seq<char>, i: int, j: int, toks: Seq<Bare>) -> bool {
    &&& 0 <= i <= j <= s.len()
    &&& rest(s, i) == toks + rest(s, j)
}

/// `text` stands at `i`.
pub open spec fn holds_at(s: Seq<char>, i: int, text: Seq<char>) -> bool {
    0 <= i && i + text.len() <= s.len() && s.subrange(i, i + text.len()) == text
}

/// No identifier or number can go on at `j`.
pub open spec fn stops(s: Seq<char>, j: int) -> bool {
    j == s.len() || 0 <= j < s.len() && is_stopper(s[j])
}

pub open spec fn is_stopper(c: char) -> bool {
    c == ',' || c == ')' || c == ']' || c == ' ' || c == '\n' || c == '>' || c == '<' || c == '('
        || c == ':'
}

/// An identifier as the lexer reads it.
pub open spec fn valid_ident(ident: Seq<char>) -> bool {
    &&& ident.len() > 0
    &&& spec_ident_start(ident[0])
    &&& !spec_is_space(ident[0])
    &&& forall|k: int| 0 <= k < ident.len() ==> spec_ident_continue(#[trigger] ident[k])
}

pub proof fn lemma_holds_split(s: Seq<char>, i: int, a: Seq<char>, b: Seq<char>)
    requires
        holds_at(s, i, a + b),
    ensures
        holds_at(s, i, a),
        holds_at(s, i + a.len(), b),
{
    let whole = s.subrange(i, i + (a + b).len());
    assert(s.subrange(i, i + a.len()) =~= a) by {
        assert forall|k: int| 0 <= k < a.len() implies s[i + k] == a[k] by {
            assert(whole[k] == (a + b)[k]);
        }
    }
    assert(s.subrange(i + a.len(), i + a.len() + b.len()) =~= b) by {
        assert forall|k: int| 0 <= k < b.len() implies s[i + a.len() + k] == b[k] by {
            assert(whole[a.len() + k] == (a + b)[a.len() + k]);
        }
    }
}

pub proof fn lemma_holds_char(s: Seq<char>, i: int, text: Seq<char>, k: int)
    requires
        holds_at(s, i, text),
        0 <= k < text.len(),
    ensures
        s[i + k] == text[k],
        0 <= i + k < s.len(),
{
    assert(s.subrange(i, i + text.len())[k] == text[k]);
}

pub proof fn lemma_reads_nothing(s: Seq<char>, i: int)
    requires
        0 <= i <= s.len(),
    ensures
        reads(s, i, i, Seq::empty()),
{
    reveal(reads);
    assert(Seq::<Bare>::empty() + rest(s, i) =~= rest(s, i));
}

pub proof fn lemma_reads_concat(
    s: Seq<char>,
    i: int,
    j: int,
    k: int,
    a: Seq<Bare>,
    b: Seq<Bare>,
)
    requires
        reads(s, i, j, a),
        reads(s, j, k, b),
    ensures
        reads(s, i, k, a + b),
{
    reveal(reads);
    assert(a + (b + rest(s, k)) =~= (a + b) + rest(s, k));
}

/// Whitespace is read as nothing.
pub proof fn lemma_reads_space(s: Seq<char>, i: int, j: int)
    requires
        0 <= i <= j <= s.len(),
        forall|k: int| i <= k < j ==> spec_is_space(#[trigger] s[k]),
    ensures
        reads(s, i, j, Seq::empty()),
    decreases j - i,
{
    reveal(reads);
    if i == j {
        lemma_reads_nothing(s, i);
    } else {
        assert(spec_is_space(s[i]));
        lemma_reads_space(s, i + 1, j);
        assert(trivia(s, i) == trivia(s, i + 1));
        assert(next_lexed(s, i) == next_lexed(s, i + 1));
        lemma_next_lexed(s, i);
        assert(lex_from(s, i) == lex_from(s, i + 1));
        lemma_reads_nothing(s, i);
    }
}

/// What stands at `i`, where no whitespace or comment starts, is read as one token.
pub proof fn lemma_reads_token(s: Seq<char>, i: int)
    requires
        0 <= i < s.len(),
        !spec_is_space(s[i]),
        s[i] != '/',
    ensures
        reads(s, i, token_here(s, i).end, seq![bare(s, token_here(s, i))]),
{
    reveal(reads);
    let t = token_here(s, i);
    lemma_token_here(s, i);
    assert(next_lexed(s, i) == t);
    assert(lex_from(s, i) =~= seq![t] + lex_from(s, t.end));
    assert(rest(s, i) =~= seq![bare(s, t)] + rest(s, t.end));
}

/// Punctuation.
pub open spec fn punct(c: char) -> Bare {
    Bare {
        kind: if c == ':' {
            TokenKind::Colon
        } else {
            single_kind(c)
        },
        text: seq![c],
    }
}

pub open spec fn is_punct(c: char) -> bool {
    c == '(' || c == ')' || c == '{' || c == '}' || c == '[' || c == ']' || c == ',' || c == '#'
        || c == '@' || c == '~' || c == '<' || c == '>' || c == '-' || c == ':'
}

pub proof fn lemma_reads_punct(s: Seq<char>, i: int, c: char)
    requires
        0 <= i < s.len(),
        s[i] == c,
        is_punct(c),
        c == ':' ==> char_at(s, i + 1) != Some(':'),
    ensures
        reads(s, i, i + 1, seq![punct(c)]),
{
    reveal(reads);
    lemma_reads_token(s, i);
    assert(s.subrange(i, i + 1) =~= seq![c]);
}

pub open spec fn double_colon() -> Bare {
    Bare { kind: TokenKind::ColonColon, text: seq![':', ':'] }
}

pub proof fn lemma_reads_double_colon(s: Seq<char>, i: int)
    requires
        0 <= i < s.len() - 1,
        s[i] == ':',
        s[i + 1] == ':',
    ensures
        reads(s, i, i + 2, seq![double_colon()]),
{
    reveal(reads);
    lemma_reads_token(s, i);
    assert(s.subrange(i, i + 2) =~= seq![':', ':']);
}

pub open spec fn ident_token(ident: Seq<char>) -> Bare {
    Bare { kind: TokenKind::Ident, text: ident }
}

/// A run ends where its characters end, when the next character is not of its class.
pub proof fn lemma_run_exact(s: Seq<char>, i: int, j: int, class: Class)
    requires
        0 <= i <= j <= s.len(),
        forall|k: int| i <= k < j ==> in_class(class, #[trigger] s[k]),
        j < s.len() ==> !in_class(class, s[j]),
    ensures
        run_end(s, i, class) == j,
    decreases j - i,
{
    if i < j {
        assert(in_class(class, s[i]));
        lemma_run_exact(s, i + 1, j, class);
    }
}

pub proof fn lemma_reads_ident(s: Seq<char>, i: int, ident: Seq<char>)
    requires
        holds_at(s, i, ident),
        valid_ident(ident),
        stops(s, i + ident.len()),
    ensures
        reads(s, i, i + ident.len(), seq![ident_token(ident)]),
{
    reveal(reads);
    let j = i + ident.len();
    lemma_holds_char(s, i, ident, 0);
    assert forall|k: int| i <= k < j implies spec_ident_continue(#[trigger] s[k]) by {
        lemma_holds_char(s, i, ident, k - i);
    }
    lemma_run_exact(s, i, j, Class::Ident);
    if ident.len() > 1 {
        lemma_holds_char(s, i, ident, 1);
    }
    assert(token_here(s, i) == (Lexed { kind: TokenKind::Ident, start: i, end: j }));
    lemma_reads_token(s, i);
}

pub open spec fn int_token(n: nat) -> Bare {
    Bare { kind: TokenKind::Int, text: decimal(n) }
}

pub proof fn lemma_reads_int(s: Seq<char>, i: int, n: nat)
    requires
        holds_at(s, i, decimal(n)),
        stops(s, i + decimal(n).len()),
    ensures
        reads(s, i, i + decimal(n).len(), seq![int_token(n)]),
{
    reveal(reads);
    let text = decimal(n);
    let j = i + text.len();
    lemma_radix_round_trip(n, 10);
    lemma_radix_chars(n, 10);
    lemma_holds_char(s, i, text, 0);
    assert forall|k: int| i <= k < j implies spec_is_digit(#[trigger] s[k]) by {
        lemma_holds_char(s, i, text, k - i);
        assert(spec_is_digit(text[k - i]));
    }
    lemma_run_exact(s, i, j, Class::Decimal);
    assert(radix_at(s, i) is None) by {
        if text.len() > 1 {
            lemma_holds_char(s, i, text, 1);
            assert(spec_is_digit(s[i + 1]));
        }
    }
    assert(number_body(s, i) == (j, false));
    assert(token_here(s, i) == (Lexed { kind: TokenKind::Int, start: i, end: j }));
    lemma_reads_token(s, i);
}

/// The printed digits of a number are read back as the number.
pub proof fn lemma_int_text_value(n: nat)
    ensures
        literal_digits(decimal(n)) == decimal(n),
        literal_radix(decimal(n)) == 10,
        n <= i128::MAX ==> int_value(decimal(n)) == Ok::<int, crate::error::ErrorKind>(n as int),
        n <= u128::MAX ==> magnitude_value(decimal(n)) == Ok::<int, crate::error::ErrorKind>(
            n as int,
        ),
{
    let text = decimal(n);
    lemma_radix_round_trip(n, 10);
    lemma_radix_chars(n, 10);
    assert(spec_is_digit(text[0]));
    assert(radix_at(text, 0) is None) by {
        if text.len() > 1 {
            assert(spec_is_digit(text[1]));
        }
    }
    assert forall|k: int| 0 <= k < text.len() implies #[trigger] text[k] != '_' by {
        assert(spec_is_digit(text[k]));
    }
    lemma_no_separators(text);
    assert(signed_value(text, 10) == Some(n as int));
}

/// A text without `_` is not changed by removing them.
pub proof fn lemma_no_separators(text: Seq<char>)
    requires
        forall|k: int| 0 <= k < text.len() ==> #[trigger] text[k] != '_',
    ensures
        without_separators(text) == text,
    decreases text.len(),
{
    if text.len() > 0 {
        lemma_no_separators(text.drop_last());
        assert(text.drop_last().push(text.last()) =~= text);
    } else {
        assert(without_separators(text) =~= text);
    }
}

// -- floats ---------------------------------------------------------------------------------

/// A run inside a piece of text that ends at a stopper is the same run in the piece alone.
proof fn lemma_run_in_context(s: Seq<char>, i: int, text: Seq<char>, k: int, class: Class)
    requires
        holds_at(s, i, text),
        0 <= k <= text.len(),
        stops(s, i + text.len()),
        class == Class::Decimal || class == Class::Ident,
    ensures
        run_end(s, i + k, class) == i + run_end(text, k, class),
        k <= run_end(text, k, class) <= text.len(),
    decreases text.len() - k,
{
    lemma_run_end(text, k, class);
    if k < text.len() {
        lemma_holds_char(s, i, text, k);
        if in_class(class, text[k]) {
            lemma_run_in_context(s, i, text, k + 1, class);
        }
    } else {
        let j = i + text.len();
        if j < s.len() {
            assert(!in_class(class, s[j]));
        }
    }
}

pub open spec fn float_token(text: Seq<char>) -> Bare {
    Bare { kind: TokenKind::Float, text }
}

/// Looking at a character of a piece of text that ends at a stopper: either the same character
/// in the piece alone, or the stopper or nothing where the piece ends.
proof fn lemma_char_in_context(s: Seq<char>, i: int, text: Seq<char>, k: int)
    requires
        holds_at(s, i, text),
        0 <= k <= text.len(),
        stops(s, i + text.len()),
    ensures
        k < text.len() ==> char_at(s, i + k) == char_at(text, k),
        k == text.len() ==> char_at(text, k) is None && (char_at(s, i + k) is None || is_stopper(
            char_at(s, i + k)->0,
        )),
{
    if k < text.len() {
        lemma_holds_char(s, i, text, k);
    }
}

pub proof fn lemma_reads_float(s: Seq<char>, i: int, text: Seq<char>)
    requires
        holds_at(s, i, text),
        is_float_literal(text),
        stops(s, i + text.len()),
    ensures
        reads(s, i, i + text.len(), seq![float_token(text)]),
{
    reveal(reads);
    let j = i + text.len();
    let n = text.len() as int;
    lemma_holds_char(s, i, text, 0);
    assert forall|k: int| 0 <= k <= n implies (k < n ==> #[trigger] char_at(s, i + k) == char_at(
        text,
        k,
    )) && (k == n ==> char_at(text, k) is None && (char_at(s, i + k) is None || is_stopper(
        char_at(s, i + k)->0,
    ))) by {
        lemma_char_in_context(s, i, text, k);
    }
    // A literal with a base prefix is never a float.
    assert(radix_at(text, 0) is None);
    lemma_char_in_context(s, i, text, 0);
    if n > 1 {
        lemma_char_in_context(s, i, text, 1);
    }
    assert(radix_at(s, i) is None) by {
        if n == 1 {
            lemma_char_in_context(s, i, text, 1);
        }
    }
    let (e, is_float) = number_body(text, 0);
    lemma_number_body_in_context(s, i, text);
    assert(suffixed(text, 0, e, TokenKind::Float).end == n);
    assert(e == n) by {
        if e < n {
            lemma_run_end(text, e, Class::Ident);
        }
    }
    lemma_char_in_context(s, i, text, n);
    assert(number_token(s, i) == (Lexed { kind: TokenKind::Float, start: i, end: j }));
    assert(token_here(s, i) == number_token(s, i));
    lemma_reads_token(s, i);
}

proof fn lemma_number_body_in_context(s: Seq<char>, i: int, text: Seq<char>)
    requires
        holds_at(s, i, text),
        text.len() > 0,
        spec_is_digit(text[0]),
        stops(s, i + text.len()),
    ensures
        number_body(s, i) == (i + number_body(text, 0).0, number_body(text, 0).1),
        0 < number_body(text, 0).0 <= text.len(),
{
    let n = text.len() as int;
    lemma_run_in_context(s, i, text, 0, Class::Decimal);
    crate::lexical::lemma_number_body(text, 0);
    let whole = run_end(text, 0, Class::Decimal);
    lemma_char_in_context(s, i, text, whole);
    if whole < n {
        lemma_char_in_context(s, i, text, whole + 1);
        lemma_run_in_context(s, i, text, whole + 1, Class::Decimal);
    }
    let dotted = char_at(text, whole) == Some('.') && char_at(text, whole + 1) != Some('.');
    let mantissa = if dotted {
        run_end(text, whole + 1, Class::Decimal)
    } else {
        whole
    };
    lemma_char_in_context(s, i, text, mantissa);
    if mantissa < n {
        lemma_char_in_context(s, i, text, mantissa + 1);
        lemma_run_in_context(s, i, text, mantissa + 1, Class::Decimal);
        if mantissa + 1 < n {
            lemma_char_in_context(s, i, text, mantissa + 2);
            lemma_run_in_context(s, i, text, mantissa + 2, Class::Decimal);
        }
    }
}

// -- strings --------------------------------------------------------------------------------

pub open spec fn string_token(value: Seq<char>) -> Bare {
    Bare { kind: TokenKind::Str, text: string_text(value) }
}

/// An escaped control character is read as one valid escape sequence, for the same character.
proof fn lemma_control_escape(s: Seq<char>, i: int, c: char)
    requires
        holds_at(s, i, escaped_char(c)),
        spec_is_control(c),
        c != '\n',
        c != '\r',
        c != '\t',
        c != '\0',
    ensures
        escape_at(s, i + 1) == (true, i + escaped_char(c).len()),
        escape_value(s, i + 1) == Some((c, i + escaped_char(c).len())),
        s[i] == '\\',
{
    let code = c as u32 as nat;
    let digits = radix_text(code, 16);
    let text = escaped_char(c);
    let e = i + 3 + digits.len();
    lemma_radix_round_trip(code, 16);
    lemma_radix_chars(code, 16);
    assert(digits.len() <= 2) by {
        reveal_with_fuel(radix_text, 3);
    }
    assert(text =~= seq!['\\', 'u', '{'] + digits + seq!['}']);
    assert forall|k: int| 0 <= k < text.len() implies s[i + k] == #[trigger] text[k] by {
        lemma_holds_char(s, i, text, k);
    }
    lemma_holds_char(s, i, text, 0);
    lemma_holds_char(s, i, text, 1);
    lemma_holds_char(s, i, text, 2);
    assert(s[i + 1] == text[1] && s[i + 2] == text[2]);
    assert forall|k: int| i + 3 <= k < e implies in_class(Class::Hex, #[trigger] s[k]) by {
        lemma_holds_char(s, i, text, k - i);
        assert(text[k - i] == digits[k - i - 3]);
        assert(spec_to_digit(digits[k - i - 3], 16) is Some);
    }
    lemma_holds_char(s, i, text, 3 + digits.len() as int);
    assert(s[e] == '}');
    lemma_run_exact(s, i + 3, e, Class::Hex);
    assert(s.subrange(i + 3, e) =~= digits) by {
        assert forall|k: int| 0 <= k < digits.len() implies s[i + 3 + k] == digits[k] by {
            lemma_holds_char(s, i, text, 3 + k);
            assert(text[3 + k] == digits[k]);
        }
    }
}

/// One escaped character is passed by the lexer and stands for the character.
proof fn lemma_escaped_char(s: Seq<char>, i: int, c: char)
    requires
        holds_at(s, i, escaped_char(c)),
    ensures
        string_end(s, i) == string_end(s, i + escaped_char(c).len()),
        unescaped_from(s, i) == match unescaped_from(s, i + escaped_char(c).len()) {
            Some(tail) => Some(seq![c] + tail),
            None => None,
        },
        escaped_char(c).len() > 0,
{
    let text = escaped_char(c);
    if c == '\\' || c == '"' || c == '\n' || c == '\r' || c == '\t' || c == '\0' {
        lemma_holds_char(s, i, text, 0);
        lemma_holds_char(s, i, text, 1);
        assert(escape_at(s, i + 1) == (true, i + 2));
        assert(escape_value(s, i + 1) == Some((c, i + 2)));
    } else if spec_is_control(c) {
        lemma_control_escape(s, i, c);
    } else {
        lemma_holds_char(s, i, text, 0);
    }
}

/// The inside of a printed string literal is passed by the lexer and stands for the string.
proof fn lemma_escaped(s: Seq<char>, i: int, value: Seq<char>)
    requires
        holds_at(s, i, escaped(value)),
    ensures
        string_end(s, i) == string_end(s, i + escaped(value).len()),
        unescaped_from(s, i) == match unescaped_from(s, i + escaped(value).len()) {
            Some(tail) => Some(value + tail),
            None => None,
        },
    decreases value.len(),
{
    if value.len() == 0 {
        if let Some(tail) = unescaped_from(s, i) {
            assert(value + tail =~= tail);
        }
    } else {
        let head = escaped(value.drop_last());
        let last = escaped_char(value.last());
        lemma_holds_split(s, i, head, last);
        lemma_escaped(s, i, value.drop_last());
        lemma_escaped_char(s, i + head.len(), value.last());
        let e = i + escaped(value).len();
        if let Some(tail) = unescaped_from(s, e) {
            assert(value.drop_last() + (seq![value.last()] + tail) =~= value + tail);
        }
    }
}

pub proof fn lemma_reads_string(s: Seq<char>, i: int, value: Seq<char>)
    requires
        holds_at(s, i, string_text(value)),
    ensures
        reads(s, i, i + string_text(value).len(), seq![string_token(value)]),
{
    reveal(reads);
    let text = string_text(value);
    let body = escaped(value);
    assert(text =~= seq!['"'] + (body + seq!['"']));
    lemma_holds_split(s, i, seq!['"'], body + seq!['"']);
    lemma_holds_split(s, i + 1, body, seq!['"']);
    lemma_holds_char(s, i, seq!['"'], 0);
    lemma_holds_char(s, i + 1 + body.len(), seq!['"'], 0);
    lemma_escaped(s, i + 1, value);
    assert(token_here(s, i) == (Lexed { kind: TokenKind::Str, start: i, end: i + text.len() }));
    lemma_reads_token(s, i);
}

/// Decoding a printed string literal gives the string back: escaping loses nothing.
pub proof fn law_escape_round_trip(value: Seq<char>)
    ensures
        string_value(string_text(value)) == Some(value),
{
    let text = string_text(value);
    let body = escaped(value);
    assert(quoted_body(text) =~= body);
    assert(body.subrange(0, body.len() as int) =~= body);
    lemma_escaped(body, 0, value);
    assert(value + Seq::<char>::empty() =~= value);
}

/// Decoding the printed text of a non-negative integer gives the integer back.
pub proof fn law_int_round_trip(n: nat)
    requires
        n <= i128::MAX,
    ensures
        int_value(decimal(n)) == Ok::<int, crate::error::ErrorKind>(n as int),
{
    lemma_int_text_value(n);
}

} // verus!
