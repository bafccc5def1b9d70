//! Character classes of the `.bsn` grammar.
//!
//! ASCII characters are classified here. For all other characters the Unicode tables of the
//! standard library decide; each of those answers has a name.

use vstd::prelude::*;

verus! {

/// What `char::is_alphabetic` answers.
pub uninterp spec fn unicode_alphabetic(c: char) -> bool;

/// What `char::is_numeric` answers.
pub uninterp spec fn unicode_numeric(c: char) -> bool;

/// What `char::is_whitespace` answers.
pub uninterp spec fn unicode_whitespace(c: char) -> bool;

/// What `char::is_uppercase` answers.
pub uninterp spec fn unicode_uppercase(c: char) -> bool;

/// What `char::is_lowercase` answers.
pub uninterp spec fn unicode_lowercase(c: char) -> bool;

/// `char::is_alphabetic`: whether the character has the Unicode `Alphabetic` property, a table
/// lookup that depends on the character alone.
pub assume_specification[ char::is_alphabetic ](c: char) -> (r: bool)
    ensures
        r == unicode_alphabetic(c),
;

/// `char::is_numeric`: whether the character is in a Unicode number category, a table lookup
/// that depends on the character alone.
pub assume_specification[ char::is_numeric ](c: char) -> (r: bool)
    ensures
        r == unicode_numeric(c),
;

/// `char::is_whitespace`: whether the character has the Unicode `White_Space` property, a table
/// lookup that depends on the character alone.
pub assume_specification[ char::is_whitespace ](c: char) -> (r: bool)
    ensures
        r == unicode_whitespace(c),
;

/// `char::is_uppercase`: whether the character has the Unicode `Uppercase` property, a table
/// lookup that depends on the character alone.
pub assume_specification[ char::is_uppercase ](c: char) -> (r: bool)
    ensures
        r == unicode_uppercase(c),
;

/// `char::is_lowercase`: whether the character has the Unicode `Lowercase` property, a table
/// lookup that depends on the character alone.
pub assume_specification[ char::is_lowercase ](c: char) -> (r: bool)
    ensures
        r == unicode_lowercase(c),
;

pub open spec fn spec_is_digit(c: char) -> bool {
    '0' <= c <= '9'
}

pub open spec fn spec_is_ascii_upper(c: char) -> bool {
    'A' <= c <= 'Z'
}

pub open spec fn spec_is_ascii_lower(c: char) -> bool {
    'a' <= c <= 'z'
}

/// The byte order mark, which is no letter.
pub open spec fn is_byte_order_mark(c: char) -> bool {
    c == '\u{FEFF}'
}

pub open spec fn spec_is_alphabetic(c: char) -> bool {
    if c as u32 <= 0x7f {
        spec_is_ascii_upper(c) || spec_is_ascii_lower(c)
    } else {
        !is_byte_order_mark(c) && unicode_alphabetic(c)
    }
}

/// Letters and numbers: a character is alphanumeric when it is alphabetic or numeric.
pub open spec fn spec_is_alphanumeric(c: char) -> bool {
    spec_is_alphabetic(c) || (if c as u32 <= 0x7f {
        spec_is_digit(c)
    } else {
        unicode_numeric(c)
    })
}

pub open spec fn spec_is_space(c: char) -> bool {
    if c as u32 <= 0x7f {
        c == ' ' || 9 <= c as u32 <= 13
    } else {
        unicode_whitespace(c)
    }
}

pub open spec fn spec_is_upper(c: char) -> bool {
    if c as u32 <= 0x7f {
        spec_is_ascii_upper(c)
    } else {
        unicode_uppercase(c)
    }
}

pub open spec fn spec_is_lower(c: char) -> bool {
    if c as u32 <= 0x7f {
        spec_is_ascii_lower(c)
    } else {
        unicode_lowercase(c)
    }
}

/// The control characters: the C0 range, delete and the C1 range.
pub open spec fn spec_is_control(c: char) -> bool {
    c as u32 <= 0x1f || 0x7f <= c as u32 <= 0x9f
}

/// What may start an identifier.
pub open spec fn spec_ident_start(c: char) -> bool {
    spec_is_alphabetic(c) || c == '_'
}

/// What may continue an identifier.
pub open spec fn spec_ident_continue(c: char) -> bool {
    spec_is_alphanumeric(c) || c == '_'
}

pub fn is_digit(c: char) -> (r: bool)
    ensures
        r == spec_is_digit(c),
{
    '0' <= c && c <= '9'
}

pub fn is_space(c: char) -> (r: bool)
    ensures
        r == spec_is_space(c),
{
    let code: u32 = c as u32;
    if code <= 0x7f {
        c == ' ' || (9 <= code && code <= 13)
    } else {
        c.is_whitespace()
    }
}

pub fn is_upper(c: char) -> (r: bool)
    ensures
        r == spec_is_upper(c),
{
    if c as u32 <= 0x7f {
        'A' <= c && c <= 'Z'
    } else {
        c.is_uppercase()
    }
}

pub fn is_lower(c: char) -> (r: bool)
    ensures
        r == spec_is_lower(c),
{
    if c as u32 <= 0x7f {
        'a' <= c && c <= 'z'
    } else {
        c.is_lowercase()
    }
}

pub fn is_control(c: char) -> (r: bool)
    ensures
        r == spec_is_control(c),
{
    let code: u32 = c as u32;
    code <= 0x1f || (0x7f <= code && code <= 0x9f)
}

/// Returns `true` if `c` may start an identifier.
pub fn is_ident_start(c: char) -> (r: bool)
    ensures
        r == spec_ident_start(c),
{
    if c as u32 <= 0x7f {
        ('A' <= c && c <= 'Z') || ('a' <= c && c <= 'z') || c == '_'
    } else {
        c != '\u{FEFF}' && c.is_alphabetic()
    }
}

/// Returns `true` if `c` may continue an identifier.
pub fn is_ident_continue(c: char) -> (r: bool)
    ensures
        r == spec_ident_continue(c),
{
    if c as u32 <= 0x7f {
        ('A' <= c && c <= 'Z') || ('a' <= c && c <= 'z') || ('0' <= c && c <= '9') || c == '_'
    } else {
        (c != '\u{FEFF}' && c.is_alphabetic()) || c.is_numeric()
    }
}

/// The classes of the ASCII characters. An identifier continues with what may start it and with
/// digits; no space, control character or sign is part of one.
pub proof fn law_ascii_classes(c: char)
    requires
        c as u32 <= 0x7f,
    ensures
        spec_ident_start(c) ==> spec_ident_continue(c),
        spec_ident_continue(c) && !spec_ident_start(c) <==> '0' <= c <= '9',
        spec_ident_start(c) <==> c == '_' || spec_is_upper(c) || spec_is_lower(c),
        spec_is_upper(c) <==> 'A' <= c <= 'Z',
        spec_is_lower(c) <==> 'a' <= c <= 'z',
        spec_is_space(c) <==> c == ' ' || c == '\t' || c == '\n' || c == '\r' || c == '\u{b}' || c
            == '\u{c}',
        spec_is_control(c) <==> c < ' ' || c == '\u{7f}',
        !(spec_is_space(c) && spec_ident_continue(c)),
        !(spec_is_control(c) && spec_ident_continue(c)),
{
}

} // verus!
