//! Integers as text: digits, digit strings and their values.

use vstd::prelude::*;
use vstd::utf8::is_scalar;

verus! {

/// The value of `c` as a digit of base `radix`.
pub open spec fn spec_to_digit(c: char, radix: nat) -> Option<nat> {
    let v: int = if '0' <= c <= '9' {
        c as u32 - '0' as u32
    } else if 'a' <= c <= 'z' {
        c as u32 - 'a' as u32 + 10
    } else if 'A' <= c <= 'Z' {
        c as u32 - 'A' as u32 + 10
    } else {
        radix as int
    };
    if v < radix {
        Some(v as nat)
    } else {
        None
    }
}

/// The digit character for `d`, in lower case.
pub open spec fn digit_char(d: nat) -> char {
    if d < 10 {
        ('0' as u32 + d) as char
    } else {
        ('a' as u32 + (d - 10)) as char
    }
}

/// The digits of `n` in base `radix`, most significant first.
pub open spec fn radix_text(n: nat, radix: nat) -> Seq<char>
    decreases n,
{
    if radix < 2 || n < radix {
        seq![digit_char(n)]
    } else {
        proof {
            assert(n / radix < n) by (nonlinear_arith)
                requires
                    n >= radix >= 2,
            ;
        }
        radix_text(n / radix, radix).push(digit_char(n % radix))
    }
}

/// The decimal digits of `n`.
pub open spec fn decimal(n: nat) -> Seq<char> {
    radix_text(n, 10)
}

/// The decimal text of a signed integer.
pub open spec fn int_text(n: int) -> Seq<char> {
    if n < 0 {
        seq!['-'] + decimal((-n) as nat)
    } else {
        decimal(n as nat)
    }
}

/// Whether every character of `s` is a digit of base `radix`.
pub open spec fn all_digits(s: Seq<char>, radix: nat) -> bool {
    forall|i: int| 0 <= i < s.len() ==> (#[trigger] spec_to_digit(s[i], radix)) is Some
}

/// The value of a digit string in base `radix`.
pub open spec fn radix_value(s: Seq<char>, radix: nat) -> nat
    decreases s.len(),
{
    if s.len() == 0 {
        0
    } else {
        radix_value(s.drop_last(), radix) * radix + (match spec_to_digit(s.last(), radix) {
            Some(d) => d,
            None => 0,
        })
    }
}

/// Reading back the digits of a number gives the number.
pub proof fn lemma_radix_round_trip(n: nat, radix: nat)
    requires
        2 <= radix <= 16,
    ensures
        radix_value(radix_text(n, radix), radix) == n,
        all_digits(radix_text(n, radix), radix),
        radix_text(n, radix).len() >= 1,
    decreases n,
{
    let t = radix_text(n, radix);
    if n < radix {
        assert(t.drop_last() =~= Seq::<char>::empty());
        assert(spec_to_digit(digit_char(n), radix) == Some(n));
        assert(radix_value(t, radix) == n) by {
            reveal_with_fuel(radix_value, 2);
            assert(radix_value(Seq::<char>::empty(), radix) * radix == 0) by (nonlinear_arith)
                requires
                    radix_value(Seq::<char>::empty(), radix) == 0,
            ;
        }
    } else {
        assert(n / radix < n && n % radix < radix && n == (n / radix) * radix + n % radix)
            by (nonlinear_arith)
            requires
                n >= radix >= 2,
        ;
        lemma_radix_round_trip(n / radix, radix);
        let d = n % radix;
        assert(spec_to_digit(digit_char(d), radix) == Some(d));
        assert(t.drop_last() =~= radix_text(n / radix, radix));
    }
}

/// The digits of a number are ASCII letters and digits; in base ten they are decimal digits.
pub proof fn lemma_radix_chars(n: nat, radix: nat)
    requires
        2 <= radix <= 16,
    ensures
        forall|i: int|
            0 <= i < radix_text(n, radix).len() ==> {
                let c = #[trigger] radix_text(n, radix)[i];
                ('0' <= c <= '9') || (radix > 10 && 'a' <= c <= 'f')
            },
    decreases n,
{
    if n >= radix {
        assert(n / radix < n && n % radix < radix) by (nonlinear_arith)
            requires
                n >= radix >= 2,
        ;
        lemma_radix_chars(n / radix, radix);
        let head = radix_text(n / radix, radix);
        let t = radix_text(n, radix);
        assert forall|i: int| 0 <= i < t.len() implies {
            let c = #[trigger] t[i];
            ('0' <= c <= '9') || (radix > 10 && 'a' <= c <= 'f')
        } by {
            if i < head.len() {
                assert(t[i] == head[i]);
            }
        }
    }
}

/// The decimal digits of a number are at most half of it and one more.
pub proof fn lemma_decimal_len(n: nat)
    ensures
        1 <= decimal(n).len() <= n / 2 + 1,
    decreases n,
{
    if n >= 10 {
        lemma_decimal_len(n / 10);
    }
}

/// Appending a digit scales the value.
pub proof fn lemma_radix_value_push(s: Seq<char>, c: char, radix: nat)
    ensures
        radix_value(s.push(c), radix) == radix_value(s, radix) * radix + (match spec_to_digit(
            c,
            radix,
        ) {
            Some(d) => d,
            None => 0,
        }),
{
    assert(s.push(c).drop_last() =~= s);
}

/// A longer digit string never has a smaller value.
pub proof fn lemma_radix_value_prefix(s: Seq<char>, i: int, radix: nat)
    requires
        0 <= i <= s.len(),
        radix >= 1,
    ensures
        radix_value(s.take(i), radix) <= radix_value(s, radix),
    decreases s.len(),
{
    if i == s.len() {
        assert(s.take(i) =~= s);
    } else {
        lemma_radix_value_prefix(s.drop_last(), i, radix);
        assert(s.drop_last().take(i) =~= s.take(i));
        let v = radix_value(s.drop_last(), radix);
        assert(v <= v * radix) by (nonlinear_arith)
            requires
                radix >= 1,
        ;
    }
}

/// `char::from_u32`: the character with the given code, if the code is a Unicode scalar value.
pub assume_specification[ char::from_u32 ](code: u32) -> (r: Option<char>)
    ensures
        r == (if is_scalar(code) {
            Some(code as char)
        } else {
            None
        }),
;

/// The value of `c` as a digit of base `radix`.
pub fn to_digit(c: char, radix: u32) -> (r: Option<u32>)
    requires
        radix <= 36,
    ensures
        match r {
            Some(d) => spec_to_digit(c, radix as nat) == Some(d as nat),
            None => spec_to_digit(c, radix as nat) is None,
        },
{
    let v: u32 = if '0' <= c && c <= '9' {
        c as u32 - '0' as u32
    } else if 'a' <= c && c <= 'z' {
        c as u32 - 'a' as u32 + 10
    } else if 'A' <= c && c <= 'Z' {
        c as u32 - 'A' as u32 + 10
    } else {
        radix
    };
    if v < radix {
        Some(v)
    } else {
        None
    }
}

fn digit(d: u8) -> (c: char)
    requires
        d < 16,
    ensures
        c == digit_char(d as nat),
{
    if d < 10 {
        (48 + d) as char
    } else {
        (97 + (d - 10)) as char
    }
}

/// Appends the digits of `n` in base `radix`.
pub fn push_radix(out: &mut Vec<char>, n: u128, radix: u128)
    requires
        2 <= radix <= 16,
    ensures
        final(out)@ == old(out)@ + radix_text(n as nat, radix as nat),
    decreases n,
{
    if n < radix {
        out.push(digit(n as u8));
        assert(out@ =~= old(out)@ + radix_text(n as nat, radix as nat));
    } else {
        assert(n / radix < n && n % radix < radix) by (nonlinear_arith)
            requires
                n >= radix >= 2,
        ;
        let ghost before = out@;
        push_radix(out, n / radix, radix);
        out.push(digit((n % radix) as u8));
        assert(out@ =~= before + radix_text(n as nat, radix as nat));
    }
}

/// Appends the decimal digits of `n`.
pub fn push_decimal(out: &mut Vec<char>, n: u128)
    ensures
        final(out)@ == old(out)@ + decimal(n as nat),
{
    push_radix(out, n, 10);
}

/// Appends the decimal text of a signed integer.
pub fn push_int(out: &mut Vec<char>, n: i128)
    ensures
        final(out)@ == old(out)@ + int_text(n as int),
{
    if n < 0 {
        let ghost before = out@;
        out.push('-');
        let magnitude: u128 = (-(n + 1)) as u128 + 1;
        push_decimal(out, magnitude);
        assert(out@ =~= before + int_text(n as int));
    } else {
        push_decimal(out, n as u128);
    }
}

} // verus!
