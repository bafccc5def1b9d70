//! Text as sequences of characters: UTF-8 widths and byte offsets, character buffers, and
//! conversions between buffers and strings.

use vstd::prelude::*;
use vstd::std_specs::iter::IteratorSpec;
use vstd::utf8::*;

verus! {

/// The number of bytes of the UTF-8 encoding of `c`.
pub open spec fn char_width(c: char) -> nat {
    if c as u32 <= 0x7f {
        1
    } else if c as u32 <= 0x7ff {
        2
    } else if c as u32 <= 0xffff {
        3
    } else {
        4
    }
}

/// The number of bytes of the UTF-8 encoding of `s`.
pub open spec fn byte_len(s: Seq<char>) -> nat
    decreases s.len(),
{
    if s.len() == 0 {
        0
    } else {
        char_width(s[0]) + byte_len(s.drop_first())
    }
}

/// The byte offset of the character at index `i` of `s`, or of the end of `s` when `i` is its
/// length.
pub open spec fn byte_at(s: Seq<char>, i: int) -> nat {
    byte_len(s.take(i))
}

/// Whether byte offset `b` falls on a character boundary of `s` (its end included).
pub open spec fn is_boundary(s: Seq<char>, b: nat) -> bool {
    exists|i: int| 0 <= i <= s.len() && #[trigger] byte_at(s, i) == b
}

/// The index of the character that starts at byte offset `b` of `s`.
pub open spec fn boundary_index(s: Seq<char>, b: nat) -> int {
    choose|i: int| 0 <= i <= s.len() && #[trigger] byte_at(s, i) == b
}

/// The characters of `s` between byte offsets `start` and `end`; empty when the range is
/// reversed, out of bounds, or does not fall on character boundaries.
pub open spec fn byte_slice(s: Seq<char>, start: nat, end: nat) -> Seq<char> {
    if start <= end && is_boundary(s, start) && is_boundary(s, end) {
        s.subrange(boundary_index(s, start), boundary_index(s, end))
    } else {
        Seq::empty()
    }
}

pub proof fn lemma_byte_len_concat(a: Seq<char>, b: Seq<char>)
    ensures
        byte_len(a + b) == byte_len(a) + byte_len(b),
    decreases a.len(),
{
    if a.len() == 0 {
        assert(a + b =~= b);
    } else {
        lemma_byte_len_concat(a.drop_first(), b);
        assert((a + b).drop_first() =~= a.drop_first() + b);
    }
}

pub proof fn lemma_byte_at_step(s: Seq<char>, i: int)
    requires
        0 <= i < s.len(),
    ensures
        byte_at(s, i + 1) == byte_at(s, i) + char_width(s[i]),
{
    assert(s.take(i + 1) =~= s.take(i) + seq![s[i]]);
    lemma_byte_len_concat(s.take(i), seq![s[i]]);
    assert(seq![s[i]].drop_first() =~= Seq::<char>::empty());
    assert(byte_len(seq![s[i]]) == char_width(s[i])) by {
        reveal_with_fuel(byte_len, 2);
    }
}

/// Byte offsets grow with character indices, and never outrun the length of the text.
pub proof fn lemma_byte_at_mono(s: Seq<char>, i: int, j: int)
    requires
        0 <= i <= j <= s.len(),
    ensures
        byte_at(s, i) + (j - i) <= byte_at(s, j),
        byte_at(s, j) <= byte_len(s),
        byte_at(s, j) <= byte_at(s, i) + 4 * (j - i),
    decreases s.len() - i,
{
    lemma_byte_at_upper(s, j);
    lemma_byte_at_mono_aux(s, i, j);
}

proof fn lemma_byte_at_upper(s: Seq<char>, j: int)
    requires
        0 <= j <= s.len(),
    ensures
        byte_at(s, j) <= byte_len(s),
{
    assert(s =~= s.take(j) + s.skip(j));
    lemma_byte_len_concat(s.take(j), s.skip(j));
}

proof fn lemma_byte_at_mono_aux(s: Seq<char>, i: int, j: int)
    requires
        0 <= i <= j <= s.len(),
    ensures
        byte_at(s, i) + (j - i) <= byte_at(s, j),
        byte_at(s, j) <= byte_at(s, i) + 4 * (j - i),
    decreases j - i,
{
    if i < j {
        lemma_byte_at_mono_aux(s, i, j - 1);
        lemma_byte_at_step(s, j - 1);
    }
}

/// A byte offset belongs to at most one character index.
pub proof fn lemma_boundary_index(s: Seq<char>, i: int)
    requires
        0 <= i <= s.len(),
    ensures
        is_boundary(s, byte_at(s, i)),
        boundary_index(s, byte_at(s, i)) == i,
{
    let k = boundary_index(s, byte_at(s, i));
    assert(0 <= k <= s.len() && byte_at(s, k) == byte_at(s, i));
    if k < i {
        lemma_byte_at_mono(s, k, i);
    }
    if i < k {
        lemma_byte_at_mono(s, i, k);
    }
}

/// Slicing at the byte offsets of two character indices is slicing at the indices.
pub proof fn lemma_byte_slice(s: Seq<char>, i: int, j: int)
    requires
        0 <= i <= j <= s.len(),
    ensures
        byte_slice(s, byte_at(s, i), byte_at(s, j)) == s.subrange(i, j),
{
    lemma_boundary_index(s, i);
    lemma_boundary_index(s, j);
    lemma_byte_at_mono(s, i, j);
}

proof fn lemma_encode_len(s: Seq<char>)
    ensures
        encode_utf8(s).len() == byte_len(s),
    decreases s.len(),
{
    if s.len() > 0 {
        lemma_encode_len(s.drop_first());
        char_is_scalar(s[0]);
    }
}

proof fn lemma_encode_concat(a: Seq<char>, b: Seq<char>)
    ensures
        encode_utf8(a + b) == encode_utf8(a) + encode_utf8(b),
    decreases a.len(),
{
    if a.len() == 0 {
        assert(a + b =~= b);
        assert(encode_utf8(a) + encode_utf8(b) =~= encode_utf8(b));
    } else {
        lemma_encode_concat(a.drop_first(), b);
        assert((a + b).drop_first() =~= a.drop_first() + b);
        assert(encode_utf8(a + b) =~= encode_utf8(a) + encode_utf8(b));
    }
}

/// The byte-level notion of a character boundary agrees with [`is_boundary`].
proof fn lemma_boundary_bytes(s: Seq<char>, b: nat)
    ensures
        is_char_boundary(encode_utf8(s), b as int) == is_boundary(s, b),
    decreases s.len(),
{
    let bytes = encode_utf8(s);
    encode_utf8_valid_utf8(s);
    lemma_encode_len(s);
    if b == 0 {
        assert(byte_at(s, 0) == 0) by {
            assert(s.take(0) =~= Seq::<char>::empty());
        }
    } else if bytes.len() < b {
        if is_boundary(s, b) {
            let i = boundary_index(s, b);
            lemma_byte_at_mono(s, i, i);
        }
    } else {
        encode_utf8_first_scalar(s);
        char_is_scalar(s[0]);
        let w = char_width(s[0]);
        let rest = s.drop_first();
        assert(length_of_first_scalar(bytes) == w);
        assert(pop_first_scalar(bytes) =~= encode_utf8(rest));
        assert forall|i: int| 0 <= i <= rest.len() implies #[trigger] byte_at(s, i + 1) == w
            + byte_at(rest, i) by {
            assert(s.take(i + 1).drop_first() =~= rest.take(i));
        }
        if b < w {
            assert(!is_char_boundary(encode_utf8(rest), b - w)) by {
                encode_utf8_valid_utf8(rest);
            }
            if is_boundary(s, b) {
                let i = boundary_index(s, b);
                if i > 0 {
                    lemma_byte_at_mono(s, 1, i);
                    assert(byte_at(s, 0int + 1) == w + byte_at(rest, 0));
                } else {
                    assert(s.take(0) =~= Seq::<char>::empty());
                }
            }
        } else {
            let c = (b - w) as nat;
            lemma_boundary_bytes(rest, c);
            if is_boundary(rest, c) {
                let i = boundary_index(rest, c);
                assert(byte_at(s, i + 1) == b);
            }
            if is_boundary(s, b) {
                let i = boundary_index(s, b);
                if i == 0 {
                    assert(s.take(0) =~= Seq::<char>::empty());
                } else {
                    assert(byte_at(s, (i - 1) + 1) == w + byte_at(rest, i - 1));
                    assert(byte_at(rest, i - 1) == c);
                }
            }
        }
    }
}

proof fn lemma_split_chars(s: Seq<char>, i: int, a: Seq<char>, b: Seq<char>)
    requires
        0 <= i <= s.len(),
        encode_utf8(a) == encode_utf8(s).subrange(0, byte_at(s, i) as int),
        encode_utf8(b) == encode_utf8(s).subrange(byte_at(s, i) as int, byte_len(s) as int),
    ensures
        a == s.take(i),
        b == s.skip(i),
{
    let p = s.take(i);
    let q = s.skip(i);
    assert(s =~= p + q);
    lemma_encode_concat(p, q);
    lemma_encode_len(p);
    lemma_encode_len(q);
    lemma_encode_len(s);
    assert(encode_utf8(s).subrange(0, byte_at(s, i) as int) =~= encode_utf8(p));
    assert(encode_utf8(s).subrange(byte_at(s, i) as int, byte_len(s) as int) =~= encode_utf8(q));
    encode_utf8_decode_utf8(a);
    encode_utf8_decode_utf8(p);
    encode_utf8_decode_utf8(b);
    encode_utf8_decode_utf8(q);
}

/// Splits a string at the byte offset of character `i`.
fn split_chars<'s>(s: &'s str, mid: usize, Ghost(i): Ghost<int>) -> (r: (&'s str, &'s str))
    requires
        0 <= i <= s@.len(),
        mid == byte_at(s@, i),
    ensures
        r.0@ == s@.take(i),
        r.1@ == s@.skip(i),
{
    proof {
        lemma_boundary_index(s@, i);
        lemma_boundary_bytes(s@, mid as nat);
    }
    let r = s.split_at(mid);
    proof {
        lemma_encode_len(s@);
        lemma_split_chars(s@, i, r.0@, r.1@);
    }
    r
}

/// The part of `source` between two byte offsets, or `""` when they are not a valid range.
pub fn slice_bytes<'s>(source: &'s str, start: usize, end: usize) -> (r: &'s str)
    ensures
        r@ == byte_slice(source@, start as nat, end as nat),
{
    proof {
        lemma_boundary_bytes(source@, start as nat);
        lemma_boundary_bytes(source@, end as nat);
    }
    if start <= end && source.is_char_boundary(start) && source.is_char_boundary(end) {
        let ghost i = boundary_index(source@, start as nat);
        let ghost j = boundary_index(source@, end as nat);
        proof {
            if j < i {
                lemma_byte_at_mono(source@, j, i);
            }
            assert(source@.take(j).take(i) =~= source@.take(i));
        }
        let (head, _tail) = split_chars(source, end, Ghost(j));
        let (_before, inside) = split_chars(head, start, Ghost(i));
        proof {
            assert(source@.take(j).skip(i) =~= source@.subrange(i, j));
        }
        inside
    } else {
        proof {
            reveal_strlit("");
        }
        ""
    }
}

/// A slice has no more bytes than the text it is taken from.
pub proof fn lemma_byte_slice_len(s: Seq<char>, start: nat, end: nat)
    ensures
        byte_len(byte_slice(s, start, end)) <= byte_len(s),
{
    if start <= end && is_boundary(s, start) && is_boundary(s, end) {
        let i = boundary_index(s, start);
        let j = boundary_index(s, end);
        if j < i {
            lemma_byte_at_mono(s, j, i);
        }
        assert(s.take(j) =~= s.take(i) + s.subrange(i, j));
        lemma_byte_len_concat(s.take(i), s.subrange(i, j));
        lemma_byte_at_mono(s, j, j);
    }
}

/// The number of bytes of a string.
pub fn len_bytes(source: &str) -> (n: usize)
    requires
        byte_len(source@) <= usize::MAX,
    ensures
        n == byte_len(source@),
{
    proof {
        lemma_encode_len(source@);
    }
    source.len()
}

/// The number of bytes of the UTF-8 encoding of one character.
pub fn width_of(c: char) -> (w: u32)
    ensures
        w == char_width(c),
{
    let code: u32 = c as u32;
    if code <= 0x7f {
        1
    } else if code <= 0x7ff {
        2
    } else if code <= 0xffff {
        3
    } else {
        4
    }
}

/// The characters of a string.
pub fn chars_of(s: &str) -> (v: Vec<char>)
    ensures
        v@ == s@,
{
    let mut v: Vec<char> = Vec::new();
    for c in it: s.chars()
        invariant
            it.seq() == s@,
            v@ =~= s@.take(it.index() as int),
    {
        v.push(c);
    }
    v
}

/// Appends the characters of `s` to a buffer.
pub fn push_text(out: &mut Vec<char>, s: &str)
    ensures
        final(out)@ == old(out)@ + s@,
{
    let ghost before = out@;
    for c in it: s.chars()
        invariant
            it.seq() == s@,
            out@ =~= before + s@.take(it.index() as int),
    {
        out.push(c);
    }
}

/// Appends the characters of one buffer to another.
pub fn push_chars(out: &mut Vec<char>, s: &Vec<char>)
    ensures
        final(out)@ == old(out)@ + s@,
{
    let ghost before = out@;
    let mut i: usize = 0;
    while i < s.len()
        invariant
            i <= s.len(),
            out@ =~= before + s@.take(i as int),
        decreases s.len() - i,
    {
        out.push(s[i]);
        i = i + 1;
    }
}

/// `String::push`: appends one character to the end of the string.
pub assume_specification[ std::string::String::push ](s: &mut std::string::String, c: char)
    ensures
        final(s)@ == old(s)@.push(c),
;

/// The string made of the characters `v[from..to]`.
pub fn string_of_range(v: &Vec<char>, from: usize, to: usize) -> (s: String)
    requires
        from <= to <= v.len(),
    ensures
        s@ == v@.subrange(from as int, to as int),
{
    let mut s: String = String::new();
    let mut i: usize = from;
    while i < to
        invariant
            from <= i <= to <= v.len(),
            s@ =~= v@.subrange(from as int, i as int),
        decreases to - i,
    {
        s.push(v[i]);
        i = i + 1;
    }
    s
}

/// The string made of the characters of a buffer.
pub fn string_of(v: &Vec<char>) -> (s: String)
    ensures
        s@ == v@,
{
    let s = string_of_range(v, 0, v.len());
    assert(v@.subrange(0, v.len() as int) =~= v@);
    s
}

/// A fresh string with the same characters.
pub fn copy_str(s: &str) -> (r: String)
    ensures
        r@ == s@,
{
    s.to_owned()
}

/// Whether two strings have the same characters.
pub fn same_text(a: &str, b: &str) -> (r: bool)
    ensures
        r == (a@ == b@),
{
    let mut x = a.chars();
    let mut y = b.chars();
    let ghost mut seen = Seq::<char>::empty();
    assert(a@ =~= seen + x.remaining());
    assert(b@ =~= seen + y.remaining());
    loop
        invariant
            a@ == seen + x.remaining(),
            b@ == seen + y.remaining(),
            x.decrease() is Some,
            y.decrease() is Some,
        decreases x.decrease()->0,
    {
        let ghost s = x.remaining();
        let ghost t = y.remaining();
        let c = x.next();
        let d = y.next();
        match (c, d) {
            (None, None) => {
                assert(a@ =~= b@);
                return true;
            },
            (Some(c), Some(d)) => {
                if c != d {
                    assert(a@[seen.len() as int] != b@[seen.len() as int]);
                    return false;
                }
                proof {
                    let longer = seen.push(c);
                    assert(a@ =~= longer + x.remaining());
                    assert(b@ =~= longer + y.remaining());
                    seen = longer;
                }
            },
            _ => {
                assert(a@.len() != b@.len());
                return false;
            },
        }
    }
}

} // verus!
