//! What literals stand for: integers in every base, separators, and escape sequences.

use vstd::prelude::*;

use crate::digits::{lemma_radix_chars, lemma_radix_round_trip, radix_text, radix_value, spec_to_digit};
use crate::error::ErrorKind;
use crate::lexical::{radix_at, Class};
use crate::literal::{
    int_value, literal_digits, magnitude_value, signed_value, unescaped_from, without_separators,
};
use crate::reading::{lemma_no_separators, lemma_run_exact};
use crate::token_laws::lemma_strip_concat;

verus! {

/// The prefix of a base.
pub open spec fn base_prefix(radix: nat) -> Seq<char> {
    if radix == 16 {
        seq!['0', 'x']
    } else if radix == 8 {
        seq!['0', 'o']
    } else {
        seq!['0', 'b']
    }
}

/// An integer is read back from its digits in base two, eight or sixteen, behind the prefix of
/// the base, whatever its sign.
pub proof fn law_bases_round_trip(n: nat, radix: nat)
    requires
        radix == 2 || radix == 8 || radix == 16,
    ensures
        n <= i128::MAX ==> int_value(base_prefix(radix) + radix_text(n, radix)) == Ok::<
            int,
            ErrorKind,
        >(n as int),
        n > i128::MAX ==> int_value(base_prefix(radix) + radix_text(n, radix)) == Err::<
            int,
            ErrorKind,
        >(ErrorKind::NumberOutOfRange),
        n <= u128::MAX ==> magnitude_value(base_prefix(radix) + radix_text(n, radix)) == Ok::<
            int,
            ErrorKind,
        >(n as int),
{
    let digits = radix_text(n, radix);
    let text = base_prefix(radix) + digits;
    lemma_radix_round_trip(n, radix);
    lemma_radix_chars(n, radix);
    assert(text[0] == '0' && text[1] == base_prefix(radix)[1]);
    assert(radix_at(text, 0) == Some(radix));
    assert(text.skip(2) =~= digits);
    assert forall|k: int| 0 <= k < digits.len() implies #[trigger] digits[k] != '_' by {
        let c = radix_text(n, radix)[k];
    }
    lemma_no_separators(digits);
    let c = radix_text(n, radix)[0];
    assert(literal_digits(text) == digits);
    assert(signed_value(digits, radix) == Some(n as int));
}

/// `_` separates digits and means nothing: an integer has the value that it has without it.
pub proof fn law_separators_mean_nothing(before: Seq<char>, after: Seq<char>)
    requires
        before.len() >= 2,
    ensures
        int_value(before + seq!['_'] + after) == int_value(before + after),
        magnitude_value(before + seq!['_'] + after) == magnitude_value(before + after),
        without_separators(before + seq!['_'] + after) == without_separators(before + after),
{
    let with = before + seq!['_'] + after;
    let plain = before + after;
    let bar = seq!['_'];
    assert(bar.drop_last() =~= Seq::<char>::empty());
    assert(without_separators(bar) == without_separators(bar.drop_last()));
    assert(without_separators(bar) =~= Seq::<char>::empty());
    lemma_strip_concat(before, bar);
    lemma_strip_concat(before + bar, after);
    lemma_strip_concat(before, after);
    assert(without_separators(before) + without_separators(bar) =~= without_separators(before));
    let rest = before.skip(2);
    assert(with.skip(2) =~= rest + bar + after);
    assert(plain.skip(2) =~= rest + after);
    lemma_strip_concat(rest, bar);
    lemma_strip_concat(rest + bar, after);
    lemma_strip_concat(rest, after);
    assert(without_separators(rest) + without_separators(bar) =~= without_separators(rest));
    assert(with[0] == plain[0] && with[1] == plain[1]);
    assert(radix_at(with, 0) == radix_at(plain, 0));
}

/// The value of a hexadecimal digit, in either case.
pub open spec fn hex_digit(c: char) -> Option<int> {
    if '0' <= c <= '9' {
        Some(c as int - '0' as int)
    } else if 'a' <= c <= 'f' {
        Some(c as int - 'a' as int + 10)
    } else if 'A' <= c <= 'F' {
        Some(c as int - 'A' as int + 10)
    } else {
        None
    }
}

/// What stands before the rest of a string.
pub open spec fn followed(c: char, rest: Option<Seq<char>>) -> Option<Seq<char>> {
    match rest {
        Some(rest) => Some(seq![c] + rest),
        None => None,
    }
}

/// Inside of a string, a character stands for itself, a backslash and `n`, `r`, `t` or `0` for a
/// line feed, a carriage return, a tab or a null, a backslash and a backslash or quote for the
/// latter, and `\x` and two hexadecimal digits for the character of that number. Every other
/// character behind a backslash is refused.
pub proof fn law_escapes(s: Seq<char>, i: int)
    requires
        0 <= i < s.len(),
    ensures
        s[i] != '\\' ==> unescaped_from(s, i) == followed(s[i], unescaped_from(s, i + 1)),
        s[i] == '\\' && i + 1 == s.len() ==> unescaped_from(s, i) is None,
        s[i] == '\\' && i + 1 < s.len() ==> {
            let c = s[i + 1];
            &&& c == 'n' ==> unescaped_from(s, i) == followed('\n', unescaped_from(s, i + 2))
            &&& c == 'r' ==> unescaped_from(s, i) == followed('\r', unescaped_from(s, i + 2))
            &&& c == 't' ==> unescaped_from(s, i) == followed('\t', unescaped_from(s, i + 2))
            &&& c == '0' ==> unescaped_from(s, i) == followed('\0', unescaped_from(s, i + 2))
            &&& c == '\\' ==> unescaped_from(s, i) == followed('\\', unescaped_from(s, i + 2))
            &&& c == '"' ==> unescaped_from(s, i) == followed('"', unescaped_from(s, i + 2))
            &&& c == '\'' ==> unescaped_from(s, i) == followed('\'', unescaped_from(s, i + 2))
            &&& c == 'x' && i + 3 < s.len() ==> match (hex_digit(s[i + 2]), hex_digit(s[i + 3])) {
                (Some(high), Some(low)) => unescaped_from(s, i) == followed(
                    (16 * high + low) as char,
                    unescaped_from(s, i + 4),
                ),
                _ => unescaped_from(s, i) is None,
            }
            &&& c != 'n' && c != 'r' && c != 't' && c != '0' && c != '\\' && c != '"' && c != '\''
                && c != 'x' && c != 'u' ==> unescaped_from(s, i) is None
        },
{
    if s[i] == '\\' && i + 3 < s.len() && s[i + 1] == 'x' {
        let pair = s.subrange(i + 2, i + 4);
        if hex_digit(s[i + 2]) is Some && hex_digit(s[i + 3]) is Some {
            assert(pair.drop_last() =~= seq![s[i + 2]]);
            assert(pair.drop_last().drop_last() =~= Seq::<char>::empty());
            reveal_with_fuel(radix_value, 3);
            assert(radix_value(pair, 16) == 16 * hex_digit(s[i + 2])->0 + hex_digit(s[i + 3])->0);
        }
        assert(spec_to_digit(s[i + 2], 16) is Some <==> hex_digit(s[i + 2]) is Some);
        assert(spec_to_digit(s[i + 3], 16) is Some <==> hex_digit(s[i + 3]) is Some);
    }
}

/// `\u{…}` with the hexadecimal digits of a character stands for the character.
pub proof fn law_unicode_escapes(s: Seq<char>, i: int, c: char)
    requires
        0 <= i,
        ({
            let text = seq!['\\', 'u', '{'] + radix_text(c as u32 as nat, 16) + seq!['}'];
            i + text.len() <= s.len() && s.subrange(i, i + text.len()) == text
        }),
    ensures
        unescaped_from(s, i) == followed(
            c,
            unescaped_from(s, i + 4 + radix_text(c as u32 as nat, 16).len()),
        ),
{
    let code = c as u32 as nat;
    let digits = radix_text(code, 16);
    let text = seq!['\\', 'u', '{'] + digits + seq!['}'];
    let e = i + 3 + digits.len();
    lemma_radix_round_trip(code, 16);
    let part = s.subrange(i, i + text.len());
    assert(part[0] == s[i] && part[1] == s[i + 1] && part[2] == s[i + 2]);
    assert(text[0] == '\\' && text[1] == 'u' && text[2] == '{');
    assert forall|k: int| i + 3 <= k < e implies crate::lexical::in_class(
        Class::Hex,
        #[trigger] s[k],
    ) by {
        assert(part[k - i] == text[k - i]);
        assert(text[k - i] == digits[k - i - 3]);
        assert(spec_to_digit(digits[k - i - 3], 16) is Some);
    }
    assert(part[e - i] == text[e - i]);
    assert(s[e] == '}');
    lemma_run_exact(s, i + 3, e, Class::Hex);
    assert(s.subrange(i + 3, e) =~= digits) by {
        assert forall|k: int| 0 <= k < digits.len() implies s[i + 3 + k] == digits[k] by {
            assert(part[3 + k] == text[3 + k]);
        }
    }
    assert(vstd::utf8::is_scalar(code as u32));
}

} // verus!
