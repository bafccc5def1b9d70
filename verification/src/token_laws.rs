//! What holds of the tokens of every text.

use vstd::prelude::*;
use vstd::utf8::is_scalar;

use crate::chars::{
    spec_ident_continue, spec_ident_start, spec_is_ascii_lower, spec_is_ascii_upper, spec_is_digit,
    spec_is_space,
};
use crate::digits::radix_value;
use crate::error::ErrorKind;
use crate::float::{is_float_literal, lookup, Floats};
use crate::lexer::{token_of, tokens_of};
use crate::lexical::{
    any_digit, block_comment_end, char_at, escape_at, exponent_end, in_class, law_tokens_in_order,
    lemma_block_comment_end, lemma_escape_at, lemma_line_end, lemma_next_lexed, lemma_number_body,
    lemma_number_token, lemma_raw_end, lemma_run_end, lemma_string_end, lemma_trivia, lex, lex_from,
    lex_start, line_comment_end, next_lexed, number_body, number_token, radix_at, raw_closes,
    raw_end, raw_token, run_end, string_end, token_here, trivia, Class, StringEnd, Trivia,
};
use crate::literal::{
    escape_value, float_texts, int_value, quoted_body, raw_body, string_value, unescaped_from,
    without_separators,
};
use crate::text::{byte_at, byte_len, lemma_byte_at_mono, lemma_byte_at_step, lemma_byte_slice};
use crate::token::{LexError, Token, TokenKind};

verus! {

/// Where the lexer stands before it reads token `k`, when it starts at `i`.
pub open spec fn position_before(s: Seq<char>, i: int, k: int) -> int {
    if k <= 0 {
        i
    } else {
        lex_from(s, i)[k - 1].end
    }
}

/// Each token is the next one after the token before it.
proof fn lemma_lexed_at(s: Seq<char>, i: int, k: int)
    requires
        0 <= i <= s.len(),
        0 <= k < lex_from(s, i).len(),
    ensures
        i <= position_before(s, i, k) <= s.len(),
        lex_from(s, i)[k] == next_lexed(s, position_before(s, i, k)),
    decreases k,
{
    let t = next_lexed(s, i);
    lemma_next_lexed(s, i);
    if k > 0 {
        assert(t.kind != TokenKind::Eof);
        let rest = lex_from(s, t.end);
        assert(lex_from(s, i) =~= seq![t] + rest);
        lemma_lexed_at(s, t.end, k - 1);
        assert(lex_from(s, i)[k] == rest[k - 1]);
        if k > 1 {
            assert(lex_from(s, i)[k - 1] == rest[k - 2]);
        }
    }
}

/// The text of a token is what stands between its ends.
proof fn lemma_token_text(source: Seq<char>, k: int)
    requires
        byte_len(source) <= u32::MAX,
        0 <= k < tokens_of(source).len(),
    ensures
        ({
            let t = lex(source)[k];
            &&& 0 <= t.start <= t.end <= source.len()
            &&& tokens_of(source)[k] == token_of(source, t)
            &&& tokens_of(source)[k].span.spec_text(source) == source.subrange(t.start, t.end)
        }),
{
    let t = lex(source)[k];
    law_tokens_in_order(source, lex_start(source));
    lemma_byte_at_mono(source, t.start, t.end);
    lemma_byte_slice(source, t.start, t.end);
}

// -- what stands between tokens ---------------------------------------------------------------

/// Whether `s[i..j]` is made of whitespace, line comments and closed block comments.
pub open spec fn is_gap(s: Seq<char>, i: int, j: int) -> bool
    decreases s.len() - i,
{
    if i < 0 || i >= j || j > s.len() {
        0 <= i == j <= s.len()
    } else if spec_is_space(s[i]) {
        is_gap(s, i + 1, j)
    } else if s[i] == '/' && char_at(s, i + 1) == Some('/') {
        proof {
            lemma_line_end(s, i + 2);
        }
        is_gap(s, line_comment_end(s, i + 2), j)
    } else if s[i] == '/' && char_at(s, i + 1) == Some('*') {
        match block_comment_end(s, i + 2, 1) {
            None => false,
            Some(e) => {
                proof {
                    lemma_block_comment_end(s, i + 2, 1);
                }
                is_gap(s, e, j)
            },
        }
    } else {
        false
    }
}

proof fn lemma_trivia_is_gap(s: Seq<char>, i: int)
    requires
        0 <= i <= s.len(),
    ensures
        match trivia(s, i) {
            Trivia::Done(j) => is_gap(s, i, j),
            Trivia::Unterminated(j) => is_gap(s, i, j),
        },
    decreases s.len() - i,
{
    lemma_trivia(s, i);
    if i < s.len() {
        if spec_is_space(s[i]) {
            lemma_trivia_is_gap(s, i + 1);
            lemma_trivia(s, i + 1);
        } else if s[i] == '/' && char_at(s, i + 1) == Some('/') {
            lemma_line_end(s, i + 2);
            let e = line_comment_end(s, i + 2);
            lemma_trivia_is_gap(s, e);
            lemma_trivia(s, e);
        } else if s[i] == '/' && char_at(s, i + 1) == Some('*') {
            lemma_block_comment_end(s, i + 2, 1);
            if let Some(e) = block_comment_end(s, i + 2, 1) {
                lemma_trivia_is_gap(s, e);
                lemma_trivia(s, e);
            }
        }
    }
}

/// Nothing is dropped: only a leading byte order mark, whitespace, line comments and closed
/// block comments stand before, between and after the tokens. The one token that does not start
/// where such a gap ends is that of an invalid escape sequence, which starts inside its string.
pub proof fn law_only_trivia_between_tokens(s: Seq<char>, k: int)
    requires
        0 <= k < lex(s).len(),
        lex(s)[k].kind != TokenKind::Error(LexError::InvalidEscape),
    ensures
        is_gap(s, position_before(s, lex_start(s), k), lex(s)[k].start),
        lex_start(s) == 0 || (lex_start(s) == 1 && s[0] == '\u{FEFF}'),
        lex(s).last().start == s.len(),
{
    let p = position_before(s, lex_start(s), k);
    law_tokens_in_order(s, lex_start(s));
    lemma_lexed_at(s, lex_start(s), k);
    lemma_trivia_is_gap(s, p);
    lemma_trivia(s, p);
    if let Trivia::Done(j) = trivia(s, p) {
        if j < s.len() {
            lemma_starts_here(s, j);
        }
    }
}

/// Every token but an invalid escape sequence starts where the lexer stands.
proof fn lemma_starts_here(s: Seq<char>, j: int)
    requires
        0 <= j < s.len(),
    ensures
        token_here(s, j).kind != TokenKind::Error(LexError::InvalidEscape) ==> token_here(
            s,
            j,
        ).start == j,
{
    if spec_is_digit(s[j]) {
        lemma_number_token(s, j);
    }
}

// -- strings ------------------------------------------------------------------------------------

/// A run that ends inside of a part of a text ends there in the part, too.
proof fn lemma_run_in_part(s: Seq<char>, a: int, b: int, i: int, class: Class)
    requires
        0 <= a <= i,
        run_end(s, i, class) < b <= s.len(),
    ensures
        i <= run_end(s, i, class),
        run_end(s.subrange(a, b), i - a, class) == run_end(s, i, class) - a,
    decreases b - i,
{
    lemma_run_end(s, i, class);
    if in_class(class, s[i]) {
        lemma_run_in_part(s, a, b, i + 1, class);
    }
}

spec fn hex_limit(n: nat) -> nat
    decreases n,
{
    if n == 0 {
        1
    } else {
        16 * hex_limit((n - 1) as nat)
    }
}

proof fn lemma_hex_limit(digits: Seq<char>)
    ensures
        radix_value(digits, 16) < hex_limit(digits.len()),
    decreases digits.len(),
{
    if digits.len() > 0 {
        lemma_hex_limit(digits.drop_last());
    }
}

/// What the lexer takes for an escape sequence stands for a character.
proof fn lemma_escape_decodes(s: Seq<char>, a: int, b: int, i: int)
    requires
        0 <= a <= i < s.len(),
        escape_at(s, i).0,
        escape_at(s, i).1 <= b <= s.len(),
    ensures
        escape_value(s.subrange(a, b), i - a) matches Some((c, e)) && e == escape_at(s, i).1 - a,
{
    let part = s.subrange(a, b);
    let c = s[i];
    lemma_run_end(s, i + 2, Class::Hex);
    assert(part[i - a] == c);
    if c == 'x' {
        assert(part[i + 1 - a] == s[i + 1]);
        assert(part[i + 2 - a] == s[i + 2]);
    } else if c == 'u' {
        let e = run_end(s, i + 2, Class::Hex);
        assert(part[i + 1 - a] == s[i + 1]);
        lemma_run_in_part(s, a, b, i + 2, Class::Hex);
        assert(part[e - a] == s[e]);
        let digits = s.subrange(i + 2, e);
        assert(part.subrange(i + 2 - a, e - a) =~= digits);
        lemma_hex_limit(digits);
        assert(hex_limit(digits.len()) <= 0x100_0000) by {
            reveal_with_fuel(hex_limit, 7);
        }
    }
}

/// The inside of a closed string literal decodes.
proof fn lemma_body_decodes(s: Seq<char>, a: int, i: int, e: int)
    requires
        0 <= a <= i < s.len(),
        string_end(s, i) == StringEnd::Closed(e),
    ensures
        i < e <= s.len(),
        unescaped_from(s.subrange(a, e - 1), i - a) is Some,
    decreases s.len() - i,
{
    lemma_string_end(s, i);
    let body = s.subrange(a, e - 1);
    if s[i] == '"' {
    } else if s[i] == '\\' {
        lemma_escape_at(s, i + 1);
        let next = escape_at(s, i + 1).1;
        lemma_string_end(s, next);
        lemma_body_decodes(s, a, next, e);
        lemma_escape_decodes(s, a, e - 1, i + 1);
        assert(body[i - a] == s[i]);
    } else {
        lemma_string_end(s, i + 1);
        lemma_body_decodes(s, a, i + 1, e);
        assert(body[i - a] == s[i]);
    }
}

/// Where a raw string closes.
proof fn lemma_raw_closes(s: Seq<char>, j: int, hashes: int)
    requires
        0 <= j <= s.len(),
        0 <= hashes,
        raw_end(s, j, hashes) is Some,
    ensures
        ({
            let q = raw_end(s, j, hashes)->0 - 1 - hashes;
            j <= q && q + hashes < s.len() && raw_closes(s, q, hashes)
        }),
    decreases s.len() - j,
{
    lemma_raw_end(s, j, hashes);
    if !raw_closes(s, j, hashes) {
        lemma_raw_closes(s, j + 1, hashes);
    }
}

/// Characters of one byte each take as many bytes as they are.
proof fn lemma_narrow(s: Seq<char>, i: int, j: int)
    requires
        0 <= i <= j <= s.len(),
        forall|k: int| i <= k < j ==> #[trigger] s[k] == '"' || s[k] == '#',
    ensures
        byte_at(s, j) == byte_at(s, i) + (j - i),
    decreases j - i,
{
    if i < j {
        lemma_narrow(s, i, j - 1);
        lemma_byte_at_step(s, j - 1);
        assert(s[j - 1] == '"' || s[j - 1] == '#');
    }
}

/// Whether `text` is a raw string literal: `r`, `n` hashes, a quote, a body, a quote and `n`
/// hashes.
pub open spec fn is_raw_literal(text: Seq<char>, n: int) -> bool {
    &&& 0 <= n
    &&& 2 * n + 3 <= text.len()
    &&& text[0] == 'r'
    &&& text[n + 1] == '"'
    &&& text[text.len() - n - 1] == '"'
    &&& forall|k: int| 1 <= k <= n ==> #[trigger] text[k] == '#'
    &&& forall|k: int| text.len() - n <= k < text.len() ==> #[trigger] text[k] == '#'
}

proof fn lemma_raw_body(text: Seq<char>, n: int)
    requires
        is_raw_literal(text, n),
    ensures
        raw_body(text) == text.subrange(n + 2, text.len() - n - 1),
{
    let rest = text.skip(1);
    let m = rest.len() as int;
    assert forall|k: int| 0 <= k < n implies #[trigger] rest[k] == '#' by {
        assert(rest[k] == text[k + 1]);
    }
    lemma_run_end(rest, 0, Class::Hash);
    let e = run_end(rest, 0, Class::Hash);
    assert(rest[n] == text[n + 1]);
    assert(e == n) by {
        if e > n {
            assert(in_class(Class::Hash, rest[n]));
        } else if e < n {
            assert(rest[e] == '#');
        }
    }
    assert forall|k: int| m - n - 1 <= k < m implies #[trigger] rest[k] == '"' || rest[k]
        == '#' by {
        assert(rest[k] == text[k + 1]);
    }
    lemma_narrow(rest, 0, n + 1);
    lemma_narrow(rest, m - n - 1, m);
    assert(rest.take(0) =~= Seq::<char>::empty());
    assert(rest.take(m) =~= rest);
    lemma_byte_slice(rest, n + 1, m - n - 1);
    lemma_byte_at_mono(rest, n + 1, m - n - 1);
    assert(rest.subrange(n + 1, m - n - 1) =~= text.subrange(n + 2, text.len() - n - 1));
}

/// Every string token decodes, and a raw one decodes to the text between its quotes, without
/// any escape being resolved.
pub proof fn law_string_tokens_decode(source: Seq<char>, k: int)
    requires
        byte_len(source) <= u32::MAX,
        0 <= k < tokens_of(source).len(),
        tokens_of(source)[k].kind == TokenKind::Str,
    ensures
        ({
            let text = tokens_of(source)[k].span.spec_text(source);
            &&& text.len() > 0
            &&& string_value(text) is Some
            &&& text[0] == 'r' ==> exists|n: int| #[trigger]
                is_raw_literal(text, n) && string_value(text) == Some(
                    text.subrange(n + 2, text.len() - n - 1),
                )
        }),
{
    let s = source;
    let t = lex(s)[k];
    lemma_token_text(s, k);
    law_tokens_in_order(s, lex_start(s));
    lemma_lexed_at(s, lex_start(s), k);
    let p = position_before(s, lex_start(s), k);
    lemma_trivia(s, p);
    let j = trivia(s, p)->Done_0;
    assert(t == token_here(s, j));
    if spec_is_digit(s[j]) {
        lemma_number_token(s, j);
        assert(number_token(s, j).kind != TokenKind::Str);
    }
    let text = s.subrange(t.start, t.end);
    if s[j] == '"' {
        let e = string_end(s, j + 1)->Closed_0;
        lemma_body_decodes(s, j + 1, j + 1, e);
        assert(text[0] == '"');
        assert(string_end(s, j + 1) == StringEnd::Closed(e));
        lemma_closing_quote(s, j + 1);
        assert(text.last() == s[e - 1]);
        assert(quoted_body(text) =~= s.subrange(j + 1, e - 1));
    } else {
        assert(t == raw_token(s, j));
        let quote = run_end(s, j + 1, Class::Hash);
        let n = quote - (j + 1);
        lemma_run_end(s, j + 1, Class::Hash);
        lemma_raw_end(s, quote + 1, n);
        lemma_raw_closes(s, quote + 1, n);
        let q = t.end - 1 - n;
        assert(text[0] == 'r');
        assert(text[n + 1] == s[quote]);
        assert(text[text.len() - n - 1] == s[q]);
        assert forall|k: int| 1 <= k <= n implies #[trigger] text[k] == '#' by {
            assert(text[k] == s[j + k]);
            assert(in_class(Class::Hash, s[j + k]));
        }
        assert forall|k: int| text.len() - n <= k < text.len() implies #[trigger] text[k]
            == '#' by {
            assert(text[k] == s[j + k]);
            assert(char_at(s, j + k) == Some('#'));
        }
        assert(is_raw_literal(text, n));
        lemma_raw_body(text, n);
    }
}

/// A closed string literal ends with a quote.
proof fn lemma_closing_quote(s: Seq<char>, i: int)
    requires
        0 <= i <= s.len(),
    ensures
        string_end(s, i) matches StringEnd::Closed(e) ==> i < e <= s.len() && s[e - 1] == '"',
    decreases s.len() - i,
{
    lemma_string_end(s, i);
    if i < s.len() && s[i] != '"' {
        if s[i] == '\\' {
            lemma_escape_at(s, i + 1);
            if escape_at(s, i + 1).0 {
                lemma_closing_quote(s, escape_at(s, i + 1).1);
            }
        } else {
            lemma_closing_quote(s, i + 1);
        }
    }
}

// -- numbers ------------------------------------------------------------------------------------

proof fn lemma_without_separators(s: Seq<char>, k: int)
    requires
        0 <= k < s.len(),
        s[k] != '_',
    ensures
        without_separators(s).len() > 0,
    decreases s.len(),
{
    if s.last() == '_' {
        lemma_without_separators(s.drop_last(), k);
    }
}

/// What may not follow a number directly.
pub open spec fn continues_number(c: char) -> bool {
    spec_is_digit(c) || spec_is_ascii_lower(c) || spec_is_ascii_upper(c) || c == '_'
}

proof fn lemma_float_texts(source: Seq<char>, tokens: Seq<Token>, k: int)
    requires
        0 <= k < tokens.len(),
        tokens[k].kind == TokenKind::Float,
    ensures
        float_texts(source, tokens).contains(
            without_separators(tokens[k].span.spec_text(source)),
        ),
    decreases tokens.len(),
{
    let all = float_texts(source, tokens);
    let text = without_separators(tokens[k].span.spec_text(source));
    if k == tokens.len() - 1 {
        assert(all[all.len() - 1] == text);
    } else {
        let head = float_texts(source, tokens.drop_last());
        lemma_float_texts(source, tokens.drop_last(), k);
        let i = choose|i: int| 0 <= i < head.len() && head[i] == text;
        assert(all[i] == text);
    }
}

pub proof fn lemma_strip_concat(a: Seq<char>, b: Seq<char>)
    ensures
        without_separators(a + b) == without_separators(a) + without_separators(b),
    decreases b.len(),
{
    if b.len() == 0 {
        assert(a + b =~= a);
        assert(without_separators(a) + without_separators(b) =~= without_separators(a));
    } else {
        lemma_strip_concat(a, b.drop_last());
        assert((a + b).drop_last() =~= a + b.drop_last());
        assert((a + b).last() == b.last());
        assert(without_separators(a + b) =~= without_separators(a) + without_separators(b));
    }
}

/// A run of digits and `_` without its `_` is a run of digits.
proof fn lemma_strip_digits(s: Seq<char>)
    requires
        forall|k: int| 0 <= k < s.len() ==> in_class(Class::Decimal, #[trigger] s[k]),
    ensures
        all_decimal(without_separators(s)),
        s.len() > 0 && s[0] != '_' ==> without_separators(s).len() > 0,
    decreases s.len(),
{
    if s.len() > 0 {
        let init = s.drop_last();
        assert forall|k: int| 0 <= k < init.len() implies in_class(
            Class::Decimal,
            #[trigger] init[k],
        ) by {
            assert(init[k] == s[k]);
        }
        lemma_strip_digits(init);
        assert(in_class(Class::Decimal, s[s.len() - 1]));
        if s[0] != '_' {
            lemma_without_separators(s, 0);
        }
    }
}

spec fn all_decimal(s: Seq<char>) -> bool {
    forall|k: int| 0 <= k < s.len() ==> spec_is_digit(#[trigger] s[k])
}

/// A run of digits ends where the digits do.
proof fn lemma_digits_run(s: Seq<char>, i: int, e: int)
    requires
        0 <= i <= e <= s.len(),
        forall|k: int| i <= k < e ==> spec_is_digit(#[trigger] s[k]),
        e < s.len() ==> !in_class(Class::Decimal, s[e]),
    ensures
        run_end(s, i, Class::Decimal) == e,
    decreases e - i,
{
    if i < e {
        assert(spec_is_digit(s[i]));
        lemma_digits_run(s, i + 1, e);
    }
}

/// Digits, a point and digits, and an exponent, of which either of the last two may be missing,
/// are a float literal.
proof fn lemma_float_shape(whole: Seq<char>, point: Seq<char>, exponent: Seq<char>)
    requires
        whole.len() > 0,
        all_decimal(whole),
        point.len() > 0 ==> point[0] == '.' && all_decimal(point.skip(1)),
        exponent.len() > 0 ==> is_exponent(exponent),
        point.len() > 0 || exponent.len() > 0,
    ensures
        is_float_literal(whole + point + exponent),
{
    let w = whole + point + exponent;
    let a = whole.len() as int;
    let b = a + point.len();
    assert forall|k: int| 0 <= k < a implies spec_is_digit(#[trigger] w[k]) by {
        assert(w[k] == whole[k]);
    }
    assert forall|k: int| a < k < b implies spec_is_digit(#[trigger] w[k]) by {
        assert(w[k] == point.skip(1)[k - a - 1]);
    }
    assert forall|k: int| b <= k < w.len() implies #[trigger] w[k] == exponent[k - b] by {}
    if a < w.len() {
        assert(w[a] == if point.len() > 0 {
            point[0]
        } else {
            exponent[0]
        });
    }
    lemma_digits_run(w, 0, a);
    if point.len() > 0 {
        if b < w.len() {
            assert(w[b] == exponent[0]);
        }
        lemma_digits_run(w, a + 1, b);
        if a + 1 < w.len() {
            if a + 1 < b {
                assert(spec_is_digit(w[a + 1]));
            } else {
                assert(w[a + 1] == exponent[0]);
            }
        }
    }
    if exponent.len() > 0 {
        let p = b + digits_from(exponent);
        assert(w[b] == exponent[0]);
        assert(w[b + 1] == exponent[1]);
        assert forall|k: int| p <= k < w.len() implies spec_is_digit(#[trigger] w[k]) by {
            assert(w[k] == exponent[k - b]);
        }
        assert(spec_is_digit(w[p]));
        lemma_digits_run(w, p, w.len() as int);
    }
    assert(spec_is_digit(w[0]));
    if w.len() > 1 {
        assert(w[1] != 'x' && w[1] != 'o' && w[1] != 'b') by {
            if 1 < a {
                assert(spec_is_digit(w[1]));
            }
        }
    }
    assert(radix_at(w, 0) is None);
    assert(number_body(w, 0) == (w.len() as int, true));
    assert forall|i: int| 0 <= i < w.len() implies #[trigger] w[i] != '_' by {
        if i < a {
            assert(spec_is_digit(w[i]));
        } else if a < i < b {
            assert(spec_is_digit(w[i]));
        } else if i >= b {
            assert(w[i] == exponent[i - b]);
            if i - b >= digits_from(exponent) {
                assert(spec_is_digit(exponent[i - b]));
            }
        }
    }
}

/// Where the digits of an exponent start.
spec fn digits_from(s: Seq<char>) -> int {
    if s.len() > 1 && (s[1] == '+' || s[1] == '-') {
        2
    } else {
        1
    }
}

/// Whether a text is an exponent: `e` or `E`, a sign or none, and digits.
spec fn is_exponent(s: Seq<char>) -> bool {
    &&& s.len() > digits_from(s)
    &&& s[0] == 'e' || s[0] == 'E'
    &&& forall|k: int| digits_from(s) <= k < s.len() ==> spec_is_digit(#[trigger] s[k])
}

/// A part of a run of digits and `_`, without its `_`.
proof fn lemma_strip_run(s: Seq<char>, i: int)
    requires
        0 <= i <= s.len(),
    ensures
        ({
            let run = s.subrange(i, run_end(s, i, Class::Decimal));
            &&& i <= run_end(s, i, Class::Decimal) <= s.len()
            &&& all_decimal(without_separators(run))
            &&& run.len() > 0 && run[0] != '_' ==> without_separators(run).len() > 0
        }),
{
    lemma_run_end(s, i, Class::Decimal);
    let e = run_end(s, i, Class::Decimal);
    let run = s.subrange(i, e);
    assert forall|k: int| 0 <= k < run.len() implies in_class(Class::Decimal, #[trigger] run[k]) by {
        assert(run[k] == s[i + k]);
    }
    lemma_strip_digits(run);
}

/// The text of a float, without its `_`, is a float literal of its own.
#[verifier::rlimit(30)]
proof fn lemma_stripped_float(s: Seq<char>, j: int)
    requires
        0 <= j < s.len(),
        spec_is_digit(s[j]),
        radix_at(s, j) is None,
        number_body(s, j).1,
    ensures
        j <= number_body(s, j).0 <= s.len(),
        is_float_literal(without_separators(s.subrange(j, number_body(s, j).0))),
{
    let end = number_body(s, j).0;
    lemma_number_body(s, j);
    lemma_strip_run(s, j);
    let whole = run_end(s, j, Class::Decimal);
    lemma_run_end(s, j + 1, Class::Decimal);
    let head = s.subrange(j, whole);
    assert(head[0] == s[j]);
    let dotted = char_at(s, whole) == Some('.') && char_at(s, whole + 1) != Some('.');
    let mantissa = if dotted {
        run_end(s, whole + 1, Class::Decimal)
    } else {
        whole
    };
    if dotted {
        lemma_strip_run(s, whole + 1);
    }
    let middle = s.subrange(whole, mantissa);
    let tail = s.subrange(mantissa, end);
    let point = without_separators(middle);
    let exponent = without_separators(tail);
    if dotted {
        let dot = seq!['.'];
        let digits = s.subrange(whole + 1, mantissa);
        assert(middle =~= dot + digits);
        lemma_strip_concat(dot, digits);
        assert(without_separators(dot) =~= dot) by {
            reveal_with_fuel(without_separators, 2);
            assert(dot.drop_last() =~= Seq::empty());
        }
        assert(point.skip(1) =~= without_separators(digits));
    } else {
        assert(middle =~= Seq::empty());
    }
    if exponent_end(s, mantissa) is Some {
        lemma_stripped_exponent(s, mantissa, end);
    } else {
        assert(tail =~= Seq::empty());
    }
    assert(s.subrange(j, end) =~= head + middle + tail);
    lemma_strip_concat(head, middle);
    lemma_strip_concat(head + middle, tail);
    lemma_float_shape(without_separators(head), point, exponent);
}

proof fn lemma_stripped_exponent(s: Seq<char>, i: int, end: int)
    requires
        0 <= i < s.len(),
        exponent_end(s, i) == Some(end),
    ensures
        i < end <= s.len(),
        is_exponent(without_separators(s.subrange(i, end))),
{
    let p = if char_at(s, i + 1) == Some('+') || char_at(s, i + 1) == Some('-') {
        i + 2
    } else {
        i + 1
    };
    lemma_strip_run(s, p);
    lemma_run_end(s, p + 1, Class::Decimal);
    let mark = s.subrange(i, p);
    let digits = s.subrange(p, end);
    assert(digits[0] == s[p]);
    assert(s.subrange(i, end) =~= mark + digits);
    lemma_strip_concat(mark, digits);
    assert(mark[0] == s[i]);
    assert(without_separators(mark) =~= mark) by {
        reveal_with_fuel(without_separators, 3);
        assert(mark.drop_last().drop_last() =~= Seq::empty() || mark.drop_last() =~= Seq::empty());
    }
    let all = without_separators(s.subrange(i, end));
    let rest = without_separators(digits);
    assert(all == mark + rest);
    assert(all[0] == s[i]);
    if p == i + 2 {
        assert(all[1] == s[i + 1]);
    } else {
        assert(all[1] == rest[0]);
        assert(spec_is_digit(rest[0]));
    }
    assert forall|k: int| digits_from(all) <= k < all.len() implies spec_is_digit(
        #[trigger] all[k],
    ) by {
        assert(all[k] == rest[k - mark.len()]);
    }
}

/// A number token is not empty, and no digit, letter or `_` follows it. An integer token has
/// digits. A float token has a point or an exponent and no base prefix; without its `_` it is a
/// float literal of its own, and it decodes when the literals of the text have values.
pub proof fn law_number_tokens(source: Seq<char>, floats: Floats, k: int)
    requires
        byte_len(source) <= u32::MAX,
        0 <= k < tokens_of(source).len(),
        tokens_of(source)[k].kind == TokenKind::Int || tokens_of(source)[k].kind
            == TokenKind::Float,
    ensures
        ({
            let kind = tokens_of(source)[k].kind;
            let text = tokens_of(source)[k].span.spec_text(source);
            &&& text.len() > 0
            &&& !(char_at(source, lex(source)[k].end) matches Some(c) && continues_number(c))
            &&& kind == TokenKind::Int ==> int_value(text) != Err::<int, ErrorKind>(
                ErrorKind::InvalidNumber,
            )
            &&& kind == TokenKind::Float ==> {
                &&& radix_at(text, 0) is None
                &&& text.contains('.') || text.contains('e') || text.contains('E')
                &&& is_float_literal(without_separators(text))
                &&& (forall|literal: Seq<char>| #[trigger]
                    float_texts(source, tokens_of(source)).contains(literal) ==> lookup(
                        floats,
                        literal,
                    ) is Some) ==> lookup(floats, without_separators(text)) is Some
            }
        }),
{
    let s = source;
    let t = lex(s)[k];
    lemma_token_text(s, k);
    law_tokens_in_order(s, lex_start(s));
    lemma_lexed_at(s, lex_start(s), k);
    let p = position_before(s, lex_start(s), k);
    lemma_trivia(s, p);
    let j = trivia(s, p)->Done_0;
    assert(t == token_here(s, j));
    assert(t == number_token(s, j) && spec_is_digit(s[j]));
    lemma_number_token(s, j);
    let text = s.subrange(t.start, t.end);
    assert(text[0] == s[j]);
    if t.kind == TokenKind::Float {
        lemma_float_texts(s, tokens_of(s), k);
    }
    match radix_at(s, j) {
        Some(radix) => {
            lemma_run_end(s, j + 2, Class::Radix(radix));
            let d = choose|d: int| j + 2 <= d < t.end && #[trigger] s[d] != '_';
            assert(any_digit(s, j + 2, t.end));
            assert(text[1] == s[j + 1]);
            assert(text.skip(2)[d - j - 2] == s[d]);
            lemma_without_separators(text.skip(2), d - j - 2);
        },
        None => {
            lemma_without_separators(text, 0);
            lemma_number_end(s, j);
            if t.end >= j + 2 {
                assert(text[1] == s[j + 1]);
            }
            if t.kind == TokenKind::Float {
                lemma_stripped_float(s, j);
                let at = choose|at: int|
                    j <= at < t.end && (#[trigger] s[at] == '.' || s[at] == 'e' || s[at] == 'E');
                assert(text[at - j] == s[at]);
            }
        },
    }
}

/// Where a decimal number ends, and what makes it a float.
proof fn lemma_number_end(s: Seq<char>, j: int)
    requires
        0 <= j < s.len(),
        spec_is_digit(s[j]),
    ensures
        ({
            let (e, is_float) = number_body(s, j);
            &&& j < e <= s.len()
            &&& !(char_at(s, e) matches Some(c) && spec_is_digit(c))
            &&& is_float ==> exists|at: int|
                j <= at < e && (#[trigger] s[at] == '.' || s[at] == 'e' || s[at] == 'E')
        }),
{
    lemma_number_body(s, j);
    lemma_run_end(s, j, Class::Decimal);
    let whole = run_end(s, j, Class::Decimal);
    let dotted = char_at(s, whole) == Some('.') && char_at(s, whole + 1) != Some('.');
    lemma_run_end(s, whole + 1, Class::Decimal);
    let mantissa = if dotted {
        run_end(s, whole + 1, Class::Decimal)
    } else {
        whole
    };
    lemma_run_end(s, mantissa + 1, Class::Decimal);
    lemma_run_end(s, mantissa + 2, Class::Decimal);
    if dotted {
        assert(s[whole] == '.');
    }
    if number_body(s, j).1 && !dotted {
        assert(s[mantissa] == 'e' || s[mantissa] == 'E');
    }
}

// -- signs --------------------------------------------------------------------------------------

/// The sign that a kind of token is written with.
pub open spec fn sign_text(kind: TokenKind) -> Option<Seq<char>> {
    match kind {
        TokenKind::ColonColon => Some(seq![':', ':']),
        TokenKind::Colon => Some(seq![':']),
        TokenKind::Comma => Some(seq![',']),
        TokenKind::Hash => Some(seq!['#']),
        TokenKind::At => Some(seq!['@']),
        TokenKind::Tilde => Some(seq!['~']),
        TokenKind::Minus => Some(seq!['-']),
        TokenKind::Lt => Some(seq!['<']),
        TokenKind::Gt => Some(seq!['>']),
        TokenKind::LParen => Some(seq!['(']),
        TokenKind::RParen => Some(seq![')']),
        TokenKind::LBrace => Some(seq!['{']),
        TokenKind::RBrace => Some(seq!['}']),
        TokenKind::LBracket => Some(seq!['[']),
        TokenKind::RBracket => Some(seq![']']),
        _ => None,
    }
}

/// A token is of the kind that its text tells: a sign is written as that sign and nothing else is;
/// an identifier starts like one, and goes on for as long as there are characters of one; a
/// number starts with a digit; and a string starts with a quote, or with `r`.
pub proof fn law_texts_tell_kinds(s: Seq<char>, k: int)
    requires
        0 <= k < lex(s).len(),
    ensures
        ({
            let t = lex(s)[k];
            let text = s.subrange(t.start, t.end);
            &&& sign_text(t.kind) is Some ==> sign_text(t.kind) == Some(text)
            &&& forall|kind: TokenKind| #[trigger]
                sign_text(kind) == Some(text) && !(t.kind is Error) ==> t.kind == kind
            &&& t.kind == TokenKind::Ident ==> {
                &&& text.len() > 0 && spec_ident_start(text[0])
                &&& forall|i: int| 0 <= i < text.len() ==> spec_ident_continue(#[trigger] text[i])
                &&& t.end < s.len() ==> !spec_ident_continue(s[t.end])
            }
            &&& t.kind == TokenKind::Int || t.kind == TokenKind::Float ==> text.len() > 0
                && spec_is_digit(text[0])
            &&& t.kind == TokenKind::Str ==> text.len() > 0 && (text[0] == '"' || text[0] == 'r')
            &&& t.kind == TokenKind::Eof <==> t.start == t.end
        }),
{
    let p = position_before(s, lex_start(s), k);
    law_tokens_in_order(s, lex_start(s));
    lemma_lexed_at(s, lex_start(s), k);
    lemma_trivia(s, p);
    lemma_next_lexed(s, p);
    let t = lex(s)[k];
    let text = s.subrange(t.start, t.end);
    assert(t.kind == TokenKind::Eof ==> text.len() == 0);
    if let Trivia::Done(j) = trivia(s, p) {
        if j < s.len() {
            lemma_starts_here(s, j);
            lemma_run_end(s, j, Class::Ident);
            lemma_string_end(s, j + 1);
            if t.start < t.end {
                assert(text[0] == s[t.start]);
            }
            if spec_is_digit(s[j]) {
                lemma_number_token(s, j);
            }
            if t.kind == TokenKind::Ident {
                assert forall|i: int| 0 <= i < text.len() implies spec_ident_continue(
                    #[trigger] text[i],
                ) by {
                    assert(text[i] == s[j + i]);
                }
            }
            if let Some(sign) = sign_text(t.kind) {
                assert(text =~= sign);
            }
        }
    }
}

} // verus!
