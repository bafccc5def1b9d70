//! Floating-point values as plain data.
//!
//! A [`BsnFloat`] carries the IEEE 754 double-precision bits of a value together with the
//! shortest decimal text of its magnitude. Converting text to bits and bits to text is the
//! business of the caller, who hands the results over in a [`FloatTable`]; signs, infinities
//! and NaNs are read off the bits here.

use vstd::prelude::*;

use crate::chars::{is_digit, spec_is_digit};
use crate::lexical::{number_body, number_token, run_end, Class, Lexed};
use crate::text::{chars_of, copy_str, push_text, same_text};
use crate::token::TokenKind;

verus! {

/// The sign bit.
pub const SIGN: u64 = 0x8000_0000_0000_0000;

/// The bits of positive infinity; larger magnitudes are NaNs.
pub const INFINITY: u64 = 0x7ff0_0000_0000_0000;

/// The bits of the positive quiet NaN.
pub const QUIET_NAN: u64 = 0x7ff8_0000_0000_0000;

/// A double-precision value.
#[derive(Clone, Debug)]
pub struct BsnFloat {
    /// The IEEE 754 bits of the value.
    pub bits: u64,
    /// The shortest decimal text of the absolute value that reads back as the same float, such
    /// as `1.0` or `1e-7`. Not meaningful for infinities and NaNs.
    pub magnitude: String,
}

/// The model of a [`BsnFloat`].
pub ghost struct Float {
    pub bits: u64,
    pub magnitude: Seq<char>,
}

impl Float {
    pub open spec fn is_negative(self) -> bool {
        self.bits >= SIGN
    }

    /// The bits without the sign.
    pub open spec fn magnitude_bits(self) -> int {
        if self.is_negative() {
            self.bits - SIGN
        } else {
            self.bits as int
        }
    }

    pub open spec fn is_nan(self) -> bool {
        self.magnitude_bits() > INFINITY
    }

    pub open spec fn is_infinite(self) -> bool {
        self.magnitude_bits() == INFINITY
    }

    pub open spec fn is_finite(self) -> bool {
        self.magnitude_bits() < INFINITY
    }

    /// The value with the opposite sign.
    pub open spec fn negated(self) -> Float {
        Float {
            bits: (if self.is_negative() {
                self.bits - SIGN
            } else {
                self.bits + SIGN
            }) as u64,
            magnitude: self.magnitude,
        }
    }

    /// Equality of values as a document tells them apart: by their bits, except that every NaN
    /// of a given sign is the same value.
    pub open spec fn same(self, other: Float) -> bool {
        self.bits == other.bits || (self.is_nan() && other.is_nan() && self.is_negative()
            == other.is_negative())
    }

    /// The text of the value: `1.0`, `inf`, `-inf`, `NaN`, `-NaN`.
    pub open spec fn text(self) -> Seq<char> {
        let unsigned = if self.is_nan() {
            "NaN"@
        } else if self.is_infinite() {
            "inf"@
        } else {
            self.magnitude
        };
        if self.is_negative() {
            "-"@ + unsigned
        } else {
            unsigned
        }
    }
}

pub open spec fn infinity() -> Float {
    Float { bits: INFINITY, magnitude: Seq::empty() }
}

pub open spec fn nan() -> Float {
    Float { bits: QUIET_NAN, magnitude: Seq::empty() }
}

impl BsnFloat {
    pub open spec fn view(&self) -> Float {
        Float { bits: self.bits, magnitude: self.magnitude@ }
    }

    /// A float with the given bits, whose absolute value has the given shortest decimal text.
    pub fn new(bits: u64, magnitude: String) -> (r: Self)
        ensures
            r@ == (Float { bits, magnitude: magnitude@ }),
    {
        BsnFloat { bits, magnitude }
    }

    /// Positive infinity.
    pub fn infinite() -> (r: Self)
        ensures
            r@ == infinity(),
    {
        let r = BsnFloat { bits: INFINITY, magnitude: String::new() };
        assert(r@.magnitude =~= infinity().magnitude);
        r
    }

    /// The positive quiet NaN.
    pub fn quiet_nan() -> (r: Self)
        ensures
            r@ == nan(),
    {
        let r = BsnFloat { bits: QUIET_NAN, magnitude: String::new() };
        assert(r@.magnitude =~= nan().magnitude);
        r
    }

    /// A copy of the value.
    pub fn copy(&self) -> (r: Self)
        ensures
            r@ == self@,
    {
        BsnFloat { bits: self.bits, magnitude: copy_str(self.magnitude.as_str()) }
    }

    /// The bits without the sign.
    fn unsigned_bits(&self) -> (r: u64)
        ensures
            r == self@.magnitude_bits(),
    {
        if self.bits >= SIGN {
            self.bits - SIGN
        } else {
            self.bits
        }
    }

    pub fn is_sign_negative(&self) -> (r: bool)
        ensures
            r == self@.is_negative(),
    {
        self.bits >= SIGN
    }

    pub fn is_nan(&self) -> (r: bool)
        ensures
            r == self@.is_nan(),
    {
        self.unsigned_bits() > INFINITY
    }

    /// The value with the opposite sign.
    pub fn negate(&self) -> (r: Self)
        ensures
            r@ == self@.negated(),
    {
        let bits: u64 = if self.bits >= SIGN {
            self.bits - SIGN
        } else {
            self.bits + SIGN
        };
        BsnFloat { bits, magnitude: copy_str(self.magnitude.as_str()) }
    }

    /// Whether two floats are the same value in a document: equal bits, or two NaNs of the same
    /// sign.
    pub fn same(&self, other: &BsnFloat) -> (r: bool)
        ensures
            r == self@.same(other@),
    {
        self.bits == other.bits || (self.is_nan() && other.is_nan() && self.is_sign_negative()
            == other.is_sign_negative())
    }

    /// Appends the text of the value.
    pub fn push_to(&self, out: &mut Vec<char>)
        ensures
            final(out)@ == old(out)@ + self@.text(),
    {
        let ghost before = out@;
        if self.is_sign_negative() {
            push_text(out, "-");
        }
        if self.is_nan() {
            push_text(out, "NaN");
        } else if self.unsigned_bits() == INFINITY {
            push_text(out, "inf");
        } else {
            push_text(out, self.magnitude.as_str());
        }
        assert(out@ =~= before + self@.text());
    }
}

/// One decoded literal: its text, without `_` separators, and its value.
#[derive(Clone, Debug)]
pub struct FloatEntry {
    pub literal: String,
    pub value: BsnFloat,
}

/// The values of floating-point literals.
#[derive(Clone, Debug)]
pub struct FloatTable {
    pub entries: Vec<FloatEntry>,
}

/// The model of a [`FloatTable`]: literal texts with their values.
pub type Floats = Seq<(Seq<char>, Float)>;

/// The value of the first entry at or after `i` for the literal `text`.
pub open spec fn lookup_from(floats: Floats, i: int, text: Seq<char>) -> Option<Float>
    decreases floats.len() - i,
{
    if i < 0 || i >= floats.len() {
        None
    } else if floats[i].0 == text {
        Some(floats[i].1)
    } else {
        lookup_from(floats, i + 1, text)
    }
}

/// The value of the literal `text`.
pub open spec fn lookup(floats: Floats, text: Seq<char>) -> Option<Float> {
    lookup_from(floats, 0, text)
}

/// Whether `text` is, on its own, one floating-point token without a `_`.
pub open spec fn is_float_literal(text: Seq<char>) -> bool {
    &&& text.len() > 0
    &&& spec_is_digit(text[0])
    &&& number_token(text, 0) == (Lexed {
        kind: TokenKind::Float,
        start: 0,
        end: text.len() as int,
    })
    &&& forall|i: int| 0 <= i < text.len() ==> #[trigger] text[i] != '_'
}

/// A non-negative value whose text, if it is finite, is a literal for the same value.
pub open spec fn canonical_entry(floats: Floats, value: Float) -> bool {
    &&& !value.is_negative()
    &&& value.is_finite() ==> {
        &&& is_float_literal(value.magnitude)
        &&& lookup(floats, value.magnitude) == Some(value)
    }
}

/// A table in which every value is non-negative, and the text of every finite value is a
/// literal for the same value: what decoding and formatting of floats provide.
/// [`FloatTable::is_canonical`] tells.
#[verifier::opaque]
pub open spec fn canonical_floats(floats: Floats) -> bool {
    forall|i: int| 0 <= i < floats.len() ==> canonical_entry(floats, (#[trigger] floats[i]).1)
}

/// The end of the digits of `v` from `from` on.
fn digits_end(v: &Vec<char>, from: usize) -> (r: usize)
    requires
        from <= v.len(),
        forall|k: int| 0 <= k < v@.len() ==> #[trigger] v@[k] != '_',
    ensures
        from <= r <= v.len(),
        r == run_end(v@, from as int, Class::Decimal),
{
    let mut i: usize = from;
    while i < v.len() && is_digit(v[i])
        invariant
            from <= i <= v.len(),
            run_end(v@, from as int, Class::Decimal) == run_end(v@, i as int, Class::Decimal),
        decreases v.len() - i,
    {
        i = i + 1;
    }
    assert(i < v.len() ==> v@[i as int] != '_');
    i
}

/// Whether `v` is, on its own, one floating-point token without a `_`.
fn reads_as_float(v: &Vec<char>) -> (r: bool)
    ensures
        r == is_float_literal(v@),
{
    let ghost s = v@;
    if v.len() == 0 || !is_digit(v[0]) {
        return false;
    }
    let mut k: usize = 0;
    while k < v.len()
        invariant
            k <= v.len(),
            v@ == s,
            forall|i: int| 0 <= i < k ==> #[trigger] s[i] != '_',
        decreases v.len() - k,
    {
        if v[k] == '_' {
            assert(s[k as int] == '_');
            return false;
        }
        k = k + 1;
    }
    if v.len() >= 2 && v[0] == '0' && (v[1] == 'x' || v[1] == 'o' || v[1] == 'b') {
        return false;
    }
    let whole = digits_end(v, 0);
    let dotted = whole < v.len() && v[whole] == '.' && !(v.len() - whole > 1 && v[whole + 1] == '.');
    let mantissa = if dotted {
        digits_end(v, whole + 1)
    } else {
        whole
    };
    let mut end = mantissa;
    let mut is_float = dotted;
    if mantissa < v.len() && (v[mantissa] == 'e' || v[mantissa] == 'E') {
        let mut p: usize = mantissa + 1;
        if p < v.len() && (v[p] == '+' || v[p] == '-') {
            p = p + 1;
        }
        if p < v.len() && is_digit(v[p]) {
            end = digits_end(v, p);
            is_float = true;
        }
    }
    assert(number_body(s, 0) == (end as int, is_float));
    is_float && end == v.len()
}

impl FloatTable {
    pub open spec fn view(&self) -> Floats {
        self.entries@.map_values(|e: FloatEntry| (e.literal@, e.value@))
    }

    /// A table without entries.
    pub fn new() -> (r: Self)
        ensures
            r@ == Floats::empty(),
    {
        let r = FloatTable { entries: Vec::new() };
        assert(r@ =~= Floats::empty());
        r
    }

    /// Adds the value of a literal. The first value of a literal counts.
    pub fn insert(&mut self, literal: String, value: BsnFloat)
        ensures
            final(self)@ == old(self)@.push((literal@, value@)),
    {
        self.entries.push(FloatEntry { literal, value });
        assert(self@ =~= old(self)@.push((literal@, value@)));
    }

    /// Whether every value is non-negative, and the text of every finite value is a literal that
    /// the table gives the same value.
    pub fn is_canonical(&self) -> (r: bool)
        ensures
            r == canonical_floats(self@),
    {
        let mut i: usize = 0;
        while i < self.entries.len()
            invariant
                i <= self.entries.len(),
                forall|k: int| 0 <= k < i ==> canonical_entry(self@, (#[trigger] self@[k]).1),
            decreases self.entries.len() - i,
        {
            proof {
                reveal(canonical_floats);
            }
            let value = &self.entries[i].value;
            assert(self@[i as int].1 == value@);
            if value.is_sign_negative() {
                return false;
            }
            if value.unsigned_bits() < INFINITY {
                if !reads_as_float(&chars_of(value.magnitude.as_str())) {
                    return false;
                }
                match self.get(value.magnitude.as_str()) {
                    None => {
                        return false;
                    },
                    Some(found) => {
                        if found.bits != value.bits || !same_text(
                            found.magnitude.as_str(),
                            value.magnitude.as_str(),
                        ) {
                            return false;
                        }
                    },
                }
            }
            i = i + 1;
        }
        proof {
            reveal(canonical_floats);
        }
        true
    }

    /// The value of a literal.
    pub fn get(&self, literal: &str) -> (r: Option<BsnFloat>)
        ensures
            match r {
                Some(value) => lookup(self@, literal@) == Some(value@),
                None => lookup(self@, literal@) is None,
            },
    {
        let mut i: usize = 0;
        while i < self.entries.len()
            invariant
                i <= self.entries.len(),
                lookup(self@, literal@) == lookup_from(self@, i as int, literal@),
            decreases self.entries.len() - i,
        {
            if same_text(self.entries[i].literal.as_str(), literal) {
                return Some(self.entries[i].value.copy());
            }
            i = i + 1;
        }
        None
    }
}

/// Negating twice gives the value back, and the sign of a text is the sign of the value.
pub proof fn law_negate_involution(f: Float)
    ensures
        f.negated().negated() == f,
        f.negated().is_negative() != f.is_negative(),
        f.negated().is_nan() == f.is_nan(),
        f.negated().is_infinite() == f.is_infinite(),
{
}

/// Sameness of floats is an equivalence.
pub proof fn law_same_float_equivalence(a: Float, b: Float, c: Float)
    ensures
        a.same(a),
        a.same(b) == b.same(a),
        a.same(b) && b.same(c) ==> a.same(c),
{
}

/// The value of a literal is that of its first entry; a literal without an entry has none.
pub proof fn law_first_entry_counts(floats: Floats, i: int, text: Seq<char>)
    requires
        0 <= i <= floats.len(),
        forall|j: int| 0 <= j < i ==> (#[trigger] floats[j]).0 != text,
        i < floats.len() ==> floats[i].0 == text,
    ensures
        lookup(floats, text) == (if i < floats.len() {
            Some(floats[i].1)
        } else {
            None
        }),
{
    lemma_lookup_from(floats, 0, i, text);
}

proof fn lemma_lookup_from(floats: Floats, k: int, i: int, text: Seq<char>)
    requires
        0 <= k <= i <= floats.len(),
        forall|j: int| 0 <= j < i ==> (#[trigger] floats[j]).0 != text,
        i < floats.len() ==> floats[i].0 == text,
    ensures
        lookup_from(floats, k, text) == (if i < floats.len() {
            Some(floats[i].1)
        } else {
            None
        }),
    decreases i - k,
{
    if k < i {
        assert(floats[k].0 != text);
        lemma_lookup_from(floats, k + 1, i, text);
    }
}

/// The bits of a float are those of IEEE 754: one of sign, eleven of exponent, fifty-two of
/// fraction. A NaN has the largest exponent and a fraction, an infinity the largest exponent and
/// no fraction. Negating flips the sign alone.
pub proof fn law_bits_are_ieee(f: Float)
    ensures
        f.is_negative() <==> f.bits >> 63 == 1,
        f.is_nan() <==> (f.bits >> 52) & 0x7ff == 0x7ff && f.bits & 0xf_ffff_ffff_ffff != 0,
        f.is_infinite() <==> (f.bits >> 52) & 0x7ff == 0x7ff && f.bits & 0xf_ffff_ffff_ffff == 0,
        f.is_finite() <==> (f.bits >> 52) & 0x7ff != 0x7ff,
        f.negated().bits == f.bits ^ (1u64 << 63),
        infinity().is_infinite() && !infinity().is_negative(),
        nan().is_nan() && !nan().is_negative(),
{
    let b: u64 = f.bits;
    let m: u64 = f.magnitude_bits() as u64;
    assert(b >> 63 == 1 <==> b >= 0x8000_0000_0000_0000) by (bit_vector);
    assert(m == b & 0x7fff_ffff_ffff_ffff) by {
        assert(b >= 0x8000_0000_0000_0000 ==> b & 0x7fff_ffff_ffff_ffff == b
            - 0x8000_0000_0000_0000) by (bit_vector);
        assert(b < 0x8000_0000_0000_0000 ==> b & 0x7fff_ffff_ffff_ffff == b) by (bit_vector);
    }
    assert(m == b & 0x7fff_ffff_ffff_ffff ==> (m > 0x7ff0_0000_0000_0000 <==> (b >> 52) & 0x7ff
        == 0x7ff && b & 0xf_ffff_ffff_ffff != 0)) by (bit_vector);
    assert(m == b & 0x7fff_ffff_ffff_ffff ==> (m == 0x7ff0_0000_0000_0000 <==> (b >> 52) & 0x7ff
        == 0x7ff && b & 0xf_ffff_ffff_ffff == 0)) by (bit_vector);
    assert(m == b & 0x7fff_ffff_ffff_ffff ==> (m < 0x7ff0_0000_0000_0000 <==> (b >> 52) & 0x7ff
        != 0x7ff)) by (bit_vector);
    assert(b >= 0x8000_0000_0000_0000 ==> b ^ (1u64 << 63) == b - 0x8000_0000_0000_0000)
        by (bit_vector);
    assert(b < 0x8000_0000_0000_0000 ==> b ^ (1u64 << 63) == b + 0x8000_0000_0000_0000)
        by (bit_vector);
}

} // verus!
