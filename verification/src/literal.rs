//! Decoding of literal tokens.

use vstd::prelude::*;
use vstd::utf8::is_scalar;

use crate::digits::{
    all_digits, lemma_radix_value_prefix, lemma_radix_value_push, radix_value, spec_to_digit,
    to_digit,
};
use crate::error::{plain_error, BsnParseError, BsnParseErrorKind, ErrorKind};
use crate::float::{lookup, BsnFloat, FloatTable};
use crate::lexer::Lexer;
use crate::lexical::{char_at, is_hex_at, lemma_run_end, run_end, Class};
use crate::span::Span;
use crate::text::{
    byte_len, byte_slice, chars_of, len_bytes, slice_bytes, string_of, string_of_range,
};
use crate::token::TokenKind;

verus! {

/// `s` without its `_` characters.
pub open spec fn without_separators(s: Seq<char>) -> Seq<char>
    decreases s.len(),
{
    if s.len() == 0 {
        Seq::empty()
    } else if s.last() == '_' {
        without_separators(s.drop_last())
    } else {
        without_separators(s.drop_last()).push(s.last())
    }
}

/// The base of an integer literal, from its `0x`, `0o` or `0b` prefix.
pub open spec fn literal_radix(text: Seq<char>) -> nat {
    match crate::lexical::radix_at(text, 0) {
        Some(radix) => radix,
        None => 10,
    }
}

/// The digits of an integer literal: without its base prefix and `_` separators.
pub open spec fn literal_digits(text: Seq<char>) -> Seq<char> {
    without_separators(
        if crate::lexical::radix_at(text, 0) is Some {
            text.skip(2)
        } else {
            text
        },
    )
}

/// The number written by optionally signed digits, if it is one.
pub open spec fn signed_value(digits: Seq<char>, radix: nat) -> Option<int> {
    let signed = digits.len() > 0 && (digits[0] == '-' || digits[0] == '+');
    let body = if signed {
        digits.skip(1)
    } else {
        digits
    };
    if body.len() == 0 || !all_digits(body, radix) {
        None
    } else if signed && digits[0] == '-' {
        Some(-(radix_value(body, radix) as int))
    } else {
        Some(radix_value(body, radix) as int)
    }
}

/// The value of an integer literal, or what is wrong with it.
pub open spec fn int_value(text: Seq<char>) -> Result<int, ErrorKind> {
    let digits = literal_digits(text);
    if digits.len() == 0 {
        Err(ErrorKind::InvalidNumber)
    } else {
        match signed_value(digits, literal_radix(text)) {
            Some(v) if i128::MIN <= v <= i128::MAX => Ok(v),
            _ => Err(ErrorKind::NumberOutOfRange),
        }
    }
}

/// The value of an unsigned integer literal of up to 128 bits, or what is wrong with it.
pub open spec fn magnitude_value(text: Seq<char>) -> Result<int, ErrorKind> {
    let digits = literal_digits(text);
    if digits.len() == 0 {
        Err(ErrorKind::InvalidNumber)
    } else {
        match signed_value(digits, literal_radix(text)) {
            Some(v) if digits[0] != '-' && v <= u128::MAX => Ok(v),
            _ => Err(ErrorKind::NumberOutOfRange),
        }
    }
}

/// The character that an escape sequence (after the backslash) at `i` stands for, and where
/// the sequence ends.
pub open spec fn escape_value(s: Seq<char>, i: int) -> Option<(char, int)> {
    match char_at(s, i) {
        None => None,
        Some(c) => if c == '\\' || c == '"' || c == '\'' {
            Some((c, i + 1))
        } else if c == 'n' {
            Some(('\n', i + 1))
        } else if c == 'r' {
            Some(('\r', i + 1))
        } else if c == 't' {
            Some(('\t', i + 1))
        } else if c == '0' {
            Some(('\0', i + 1))
        } else if c == 'x' {
            if is_hex_at(s, i + 1) && is_hex_at(s, i + 2) {
                Some((radix_value(s.subrange(i + 1, i + 3), 16) as char, i + 3))
            } else {
                None
            }
        } else if c == 'u' && char_at(s, i + 1) == Some('{') {
            let e = run_end(s, i + 2, Class::Hex);
            let value = radix_value(s.subrange(i + 2, e), 16);
            if char_at(s, e) == Some('}') && value <= 0x10ffff && is_scalar(value as u32) {
                Some((value as char, e + 1))
            } else {
                None
            }
        } else {
            None
        },
    }
}

pub proof fn lemma_escape_value(s: Seq<char>, i: int)
    requires
        0 <= i <= s.len(),
    ensures
        escape_value(s, i) matches Some((c, e)) ==> i < e <= s.len(),
{
    lemma_run_end(s, i + 2, Class::Hex);
}

/// The text from `i` on with its escape sequences resolved, if they are all valid.
pub open spec fn unescaped_from(s: Seq<char>, i: int) -> Option<Seq<char>>
    decreases s.len() - i,
{
    if i < 0 || i >= s.len() {
        Some(Seq::empty())
    } else if s[i] != '\\' {
        match unescaped_from(s, i + 1) {
            Some(rest) => Some(seq![s[i]] + rest),
            None => None,
        }
    } else {
        match escape_value(s, i + 1) {
            None => None,
            Some((c, e)) => {
                proof {
                    lemma_escape_value(s, i + 1);
                }
                match unescaped_from(s, e) {
                    Some(rest) => Some(seq![c] + rest),
                    None => None,
                }
            },
        }
    }
}

/// The body of a raw string literal: what stands between its delimiters.
pub open spec fn raw_body(text: Seq<char>) -> Seq<char> {
    let rest = text.skip(1);
    let delimiter = run_end(rest, 0, Class::Hash) + 1;
    let end = byte_len(rest) - delimiter;
    byte_slice(
        rest,
        delimiter as nat,
        if end >= 0 {
            end as nat
        } else {
            0
        },
    )
}

/// The body of a quoted string literal; empty when the quotes are missing.
pub open spec fn quoted_body(text: Seq<char>) -> Seq<char> {
    if text.len() >= 2 && text[0] == '"' && text.last() == '"' {
        text.subrange(1, text.len() - 1)
    } else {
        Seq::empty()
    }
}

/// The value of a string literal, if its escape sequences are valid.
pub open spec fn string_value(text: Seq<char>) -> Option<Seq<char>> {
    if text.len() > 0 && text[0] == 'r' {
        Some(raw_body(text))
    } else {
        unescaped_from(quoted_body(text), 0)
    }
}

/// The characters of `v` from `from` on, without `_`.
fn strip_separators(v: &Vec<char>, from: usize) -> (r: Vec<char>)
    requires
        from <= v.len(),
    ensures
        r@ == without_separators(v@.skip(from as int)),
{
    let mut r: Vec<char> = Vec::new();
    let mut i: usize = from;
    assert(v@.subrange(from as int, from as int) =~= Seq::<char>::empty());
    while i < v.len()
        invariant
            from <= i <= v.len(),
            r@ == without_separators(v@.subrange(from as int, i as int)),
        decreases v.len() - i,
    {
        assert(v@.subrange(from as int, i as int + 1).drop_last() =~= v@.subrange(
            from as int,
            i as int,
        ));
        if v[i] != '_' {
            r.push(v[i]);
        }
        i = i + 1;
    }
    assert(v@.subrange(from as int, v.len() as int) =~= v@.skip(from as int));
    r
}

/// The value of the digits `v[from..]`, if they are digits of the base and their value fits in
/// 128 bits.
fn read_digits(v: &Vec<char>, from: usize, radix: u32) -> (r: Option<u128>)
    requires
        from <= v.len(),
        2 <= radix <= 16,
    ensures
        ({
            let body = v@.skip(from as int);
            match r {
                Some(x) => body.len() > 0 && all_digits(body, radix as nat) && radix_value(
                    body,
                    radix as nat,
                ) == x,
                None => body.len() == 0 || !all_digits(body, radix as nat) || radix_value(
                    body,
                    radix as nat,
                ) > u128::MAX,
            }
        }),
{
    let ghost body = v@.skip(from as int);
    if from == v.len() {
        return None;
    }
    let mut value: u128 = 0;
    let mut i: usize = from;
    assert(body.take(0) =~= Seq::<char>::empty());
    while i < v.len()
        invariant
            from <= i <= v.len(),
            2 <= radix <= 16,
            body == v@.skip(from as int),
            value == radix_value(body.take(i - from), radix as nat),
            forall|k: int|
                0 <= k < i - from ==> (#[trigger] spec_to_digit(body[k], radix as nat)) is Some,
        decreases v.len() - i,
    {
        let ghost k = i - from;
        assert(v@[i as int] == body[k]);
        match to_digit(v[i], radix) {
            None => {
                assert(spec_to_digit(body[k], radix as nat) is None);
                return None;
            },
            Some(d) => {
                proof {
                    lemma_radix_value_push(body.take(k), body[k], radix as nat);
                    assert(body.take(k).push(body[k]) =~= body.take(k + 1));
                    lemma_radix_value_prefix(body, k + 1, radix as nat);
                }
                let limit: u128 = (u128::MAX - d as u128) / radix as u128;
                assert(value <= limit <==> value * radix + d <= u128::MAX) by (nonlinear_arith)
                    requires
                        limit == (u128::MAX - d) / radix as int,
                        2 <= radix <= 16,
                        0 <= d < radix,
                ;
                if value > limit {
                    return None;
                }
                assert(0 <= value * radix <= u128::MAX) by (nonlinear_arith)
                    requires
                        value * radix + d <= u128::MAX,
                        0 <= d,
                ;
                value = value * radix as u128 + d as u128;
            },
        }
        i = i + 1;
    }
    assert(body.take(body.len() as int) =~= body);
    Some(value)
}

/// The digits of an integer literal and its base.
fn literal_parts(text: &str) -> (r: (Vec<char>, u32))
    ensures
        r.0@ == literal_digits(text@),
        r.1 == literal_radix(text@),
        2 <= r.1 <= 16,
{
    let chars = chars_of(text);
    if chars.len() >= 2 && chars[0] == '0' && (chars[1] == 'x' || chars[1] == 'o' || chars[1]
        == 'b') {
        let radix: u32 = if chars[1] == 'x' {
            16
        } else if chars[1] == 'o' {
            8
        } else {
            2
        };
        (strip_separators(&chars, 2), radix)
    } else {
        assert(chars@.skip(0) =~= chars@);
        (strip_separators(&chars, 0), 10)
    }
}

/// Decodes an integer literal token.
///
/// Handles the `0x`, `0o` and `0b` prefixes and strips `_` separators. Returns
/// [`BsnParseErrorKind::NumberOutOfRange`] if the value does not fit in an `i128`.
pub fn decode_int(source: &str, span: Span) -> (r: Result<i128, BsnParseError>)
    ensures
        match int_value(span.spec_text(source@)) {
            Ok(v) => r matches Ok(x) && x == v,
            Err(kind) => r matches Err(e) && e@ == plain_error(span, kind),
        },
{
    let (digits, radix) = literal_parts(span.text(source));
    if digits.len() == 0 {
        return Err(BsnParseError::new(span, BsnParseErrorKind::InvalidNumber));
    }
    let negative: bool = digits[0] == '-';
    let from: usize = if negative || digits[0] == '+' {
        1
    } else {
        0
    };
    assert(digits@.skip(0) =~= digits@);
    match read_digits(&digits, from, radix) {
        Some(magnitude) => {
            if !negative && magnitude <= i128::MAX as u128 {
                return Ok(magnitude as i128);
            }
            if negative && magnitude <= 0x8000_0000_0000_0000_0000_0000_0000_0000u128 {
                return Ok(negated_int(magnitude));
            }
            Err(BsnParseError::new(span, BsnParseErrorKind::NumberOutOfRange))
        },
        None => Err(BsnParseError::new(span, BsnParseErrorKind::NumberOutOfRange)),
    }
}

/// The negative of a magnitude that is at most the magnitude of `i128::MIN`.
pub(crate) fn negated_int(magnitude: u128) -> (r: i128)
    requires
        magnitude <= 0x8000_0000_0000_0000_0000_0000_0000_0000u128,
    ensures
        r == -magnitude,
{
    if magnitude == 0 {
        0
    } else {
        -((magnitude - 1) as i128) - 1
    }
}

/// Decodes the magnitude of an integer literal token, which may be one past `i128::MAX`: the
/// magnitude of `i128::MIN` only fits while it is still unsigned.
pub(crate) fn decode_int_magnitude(source: &str, span: Span) -> (r: Result<u128, BsnParseError>)
    ensures
        match magnitude_value(span.spec_text(source@)) {
            Ok(v) => r matches Ok(x) && x == v,
            Err(kind) => r matches Err(e) && e@ == plain_error(span, kind),
        },
{
    let (digits, radix) = literal_parts(span.text(source));
    if digits.len() == 0 {
        return Err(BsnParseError::new(span, BsnParseErrorKind::InvalidNumber));
    }
    if digits[0] == '-' {
        return Err(BsnParseError::new(span, BsnParseErrorKind::NumberOutOfRange));
    }
    let from: usize = if digits[0] == '+' {
        1
    } else {
        0
    };
    assert(digits@.skip(0) =~= digits@);
    match read_digits(&digits, from, radix) {
        Some(magnitude) => Ok(magnitude),
        None => Err(BsnParseError::new(span, BsnParseErrorKind::NumberOutOfRange)),
    }
}

/// Decodes a floating-point literal token: strips `_` separators and looks the value up.
pub fn decode_float(source: &str, span: Span, floats: &FloatTable) -> (r: Result<
    BsnFloat,
    BsnParseError,
>)
    ensures
        match lookup(floats@, without_separators(span.spec_text(source@))) {
            Some(value) => r matches Ok(x) && x@ == value,
            None => r matches Err(e) && e@ == plain_error(span, ErrorKind::InvalidNumber),
        },
{
    let literal = float_literal(source, span);
    match floats.get(literal.as_str()) {
        Some(value) => Ok(value),
        None => Err(BsnParseError::new(span, BsnParseErrorKind::InvalidNumber)),
    }
}

/// The text of a literal token without its `_` separators.
pub fn float_literal(source: &str, span: Span) -> (r: String)
    ensures
        r@ == without_separators(span.spec_text(source@)),
{
    let chars = chars_of(span.text(source));
    assert(chars@.skip(0) =~= chars@);
    string_of(&strip_separators(&chars, 0))
}

/// The escape sequence (after the backslash) at `i`: its character and its end.
#[verifier::loop_isolation(false)]
fn decode_escape(body: &Vec<char>, i: usize) -> (r: Option<(char, usize)>)
    requires
        i <= body.len(),
    ensures
        match r {
            Some((c, e)) => escape_value(body@, i as int) == Some((c, e as int)),
            None => escape_value(body@, i as int) is None,
        },
{
    let ghost s = body@;
    if i >= body.len() {
        return None;
    }
    match body[i] {
        '\\' => Some(('\\', i + 1)),
        '"' => Some(('"', i + 1)),
        '\'' => Some(('\'', i + 1)),
        'n' => Some(('\n', i + 1)),
        'r' => Some(('\r', i + 1)),
        't' => Some(('\t', i + 1)),
        '0' => Some(('\0', i + 1)),
        'x' => {
            if body.len() - i < 3 {
                return None;
            }
            let high = match to_digit(body[i + 1], 16) {
                Some(d) => d,
                None => {
                    return None;
                },
            };
            let low = match to_digit(body[i + 2], 16) {
                Some(d) => d,
                None => {
                    return None;
                },
            };
            proof {
                let t = s.subrange(i + 1, i + 3);
                assert(t.drop_last() =~= seq![s[i + 1]]);
                assert(t.drop_last().drop_last() =~= Seq::<char>::empty());
                reveal_with_fuel(radix_value, 3);
            }
            match char::from_u32(high * 16 + low) {
                Some(c) => Some((c, i + 3)),
                None => None,
            }
        },
        'u' => {
            if body.len() - i < 2 || body[i + 1] != '{' {
                return None;
            }
            let mut e: usize = i + 2;
            let mut value: u32 = 0;
            proof {
                lemma_run_end(s, i + 2, Class::Hex);
                assert(s.subrange(i + 2, i + 2) =~= Seq::<char>::empty());
            }
            while e < body.len() && body[e] != '}'
                invariant
                    s == body@,
                    i + 2 <= e <= body.len(),
                    run_end(s, i + 2, Class::Hex) == run_end(s, e as int, Class::Hex),
                    value <= 0x10ffff ==> value == radix_value(s.subrange(i + 2, e as int), 16),
                    value > 0x10ffff ==> radix_value(s.subrange(i + 2, e as int), 16) > 0x10ffff,
                    value <= 0x110000,
                decreases body.len() - e,
            {
                match to_digit(body[e], 16) {
                    Some(d) => {
                        proof {
                            let t = s.subrange(i + 2, e as int);
                            lemma_radix_value_push(t, s[e as int], 16);
                            assert(t.push(s[e as int]) =~= s.subrange(i + 2, e as int + 1));
                        }
                        if value <= 0x10ffff {
                            value = value * 16 + d;
                            if value > 0x10ffff {
                                value = 0x110000;
                            }
                        }
                    },
                    None => {
                        return None;
                    },
                }
                e = e + 1;
            }
            if e == body.len() {
                return None;
            }
            match char::from_u32(value) {
                Some(c) => Some((c, e + 1)),
                None => None,
            }
        },
        _ => None,
    }
}

/// Decodes a string literal token, removing the delimiters and resolving escapes.
///
/// Raw strings (`r"…"`, `r#"…"#`) are returned verbatim, without escape processing.
#[verifier::loop_isolation(false)]
pub fn decode_string(source: &str, span: Span) -> (r: Result<String, BsnParseError>)
    requires
        byte_len(source@) <= usize::MAX,
    ensures
        match string_value(span.spec_text(source@)) {
            Some(value) => r matches Ok(x) && x@ == value,
            None => r matches Err(e) && e@ == plain_error(span, ErrorKind::InvalidEscape),
        },
{
    let text = span.text(source);
    let chars = chars_of(text);
    if chars.len() > 0 && chars[0] == 'r' {
        proof {
            crate::text::lemma_byte_slice_len(source@, span.start as nat, span.end as nat);
        }
        return Ok(decode_raw(&chars));
    }
    let mut body: Vec<char> = Vec::new();
    if chars.len() >= 2 && chars[0] == '"' && chars[chars.len() - 1] == '"' {
        let mut i: usize = 1;
        while i < chars.len() - 1
            invariant
                1 <= i <= chars.len() - 1,
                body@ =~= chars@.subrange(1, i as int),
            decreases chars.len() - i,
        {
            body.push(chars[i]);
            i = i + 1;
        }
    }
    assert(body@ =~= quoted_body(text@));
    let ghost s = body@;
    let mut out: Vec<char> = Vec::new();
    let mut i: usize = 0;
    assert(unescaped_from(s, 0) matches Some(rest) ==> out@ + rest =~= rest);
    while i < body.len()
        invariant
            0 <= i <= s.len(),
            unescaped_from(s, 0) == match unescaped_from(s, i as int) {
                Some(rest) => Some(out@ + rest),
                None => None,
            },
        decreases s.len() - i,
    {
        let ghost before = out@;
        if body[i] != '\\' {
            out.push(body[i]);
            proof {
                if let Some(rest) = unescaped_from(s, i as int + 1) {
                    assert(before + (seq![s[i as int]] + rest) =~= out@ + rest);
                }
            }
            i = i + 1;
        } else {
            proof {
                lemma_escape_value(s, i as int + 1);
            }
            match decode_escape(&body, i + 1) {
                Some((c, e)) => {
                    out.push(c);
                    proof {
                        if let Some(rest) = unescaped_from(s, e as int) {
                            assert(before + (seq![c] + rest) =~= out@ + rest);
                        }
                    }
                    i = e;
                },
                None => {
                    return Err(BsnParseError::new(span, BsnParseErrorKind::InvalidEscape));
                },
            }
        }
    }
    assert(out@ + Seq::<char>::empty() =~= out@);
    Ok(string_of(&out))
}

/// The body of a raw string literal.
#[verifier::loop_isolation(false)]
fn decode_raw(chars: &Vec<char>) -> (r: String)
    requires
        chars.len() > 0,
        byte_len(chars@) <= usize::MAX,
    ensures
        r@ == raw_body(chars@),
{
    let rest_text = string_of_range(chars, 1, chars.len());
    let rest = chars_of(rest_text.as_str());
    assert(rest@ =~= chars@.skip(1));
    assert(chars@.drop_first() =~= chars@.skip(1));
    let mut hashes: usize = 0;
    while hashes < rest.len() && rest[hashes] == '#'
        invariant
            hashes <= rest.len(),
            run_end(rest@, 0, Class::Hash) == run_end(rest@, hashes as int, Class::Hash),
        decreases rest.len() - hashes,
    {
        hashes = hashes + 1;
    }
    let len = len_bytes(rest_text.as_str());
    let end: usize = if len >= hashes + 1 {
        len - (hashes + 1)
    } else {
        0
    };
    crate::text::copy_str(slice_bytes(rest_text.as_str(), hashes + 1, end))
}

/// The texts of the floating-point literals of a document, without `_` separators, in source
/// order: what a [`FloatTable`] for the document needs values for.
#[verifier::loop_isolation(false)]
pub fn float_literals(source: &str) -> (r: Vec<String>)
    requires
        byte_len(source@) <= u32::MAX,
    ensures
        r@.map_values(|s: String| s@) == float_texts(
            source@,
            crate::lexer::tokens_of(source@),
        ),
{
    let tokens = Lexer::tokenize(source);
    let mut r: Vec<String> = Vec::new();
    let mut i: usize = 0;
    assert(r@.map_values(|s: String| s@) =~= float_texts(source@, tokens@.take(0)));
    while i < tokens.len()
        invariant
            i <= tokens.len(),
            r@.map_values(|s: String| s@) == float_texts(source@, tokens@.take(i as int)),
        decreases tokens.len() - i,
    {
        let ghost before = r@;
        if tokens[i].kind == TokenKind::Float {
            r.push(float_literal(source, tokens[i].span));
        }
        proof {
            assert(tokens@.take(i as int + 1).drop_last() =~= tokens@.take(i as int));
            assert(r@.map_values(|s: String| s@) =~= float_texts(
                source@,
                tokens@.take(i as int + 1),
            ));
        }
        i = i + 1;
    }
    assert(tokens@.take(tokens.len() as int) =~= tokens@);
    r
}

/// The texts of the float tokens among `tokens`, without `_` separators.
pub open spec fn float_texts(source: Seq<char>, tokens: Seq<crate::token::Token>) -> Seq<Seq<char>>
    decreases tokens.len(),
{
    if tokens.len() == 0 {
        Seq::empty()
    } else {
        let head = float_texts(source, tokens.drop_last());
        if tokens.last().kind == TokenKind::Float {
            head.push(without_separators(tokens.last().span.spec_text(source)))
        } else {
            head
        }
    }
}

} // verus!
