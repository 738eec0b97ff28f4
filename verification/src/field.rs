//! The prime field the machine computes over.
//!
//! Every storage cell of the machine — registers, memory cells, oracle
//! arguments — holds a value of this field. A value is kept in its canonical
//! representative, an integer below the modulus, so equality and hashing by
//! representation coincide with equality of field values, and serialized
//! snapshots of equal states are identical.

use crate::errors::ParseError;
use vstd::prelude::*;
use vstd::arithmetic::div_mod::{
    lemma_add_mod_noop, lemma_div_is_strictly_smaller, lemma_fundamental_div_mod,
    lemma_mod_division_less_than_divisor, lemma_mul_mod_noop_left, lemma_small_mod,
};

verus! {

/// The field modulus: a 64-bit prime.
pub const FIELD_MODULUS: u64 = 0xFFFF_FFFF_0000_0001;

/// An element of the prime field, held as its canonical representative.
#[derive(Clone, Copy, Debug, PartialEq, Eq, Structural, Hash, PartialOrd, Ord)]
pub struct FieldElement {
    v: u64,
}

impl View for FieldElement {
    type V = int;

    closed spec fn view(&self) -> int {
        self.v as int
    }
}

impl FieldElement {
    #[verifier::type_invariant]
    spec fn inv(self) -> bool {
        self.v < FIELD_MODULUS
    }

    /// The zero element; also the key of the canonical prover-input channel.
    pub fn zero() -> (r: Self)
        ensures
            r@ == 0,
            0 <= r@ < FIELD_MODULUS,
    {
        FieldElement { v: 0 }
    }

    pub fn one() -> (r: Self)
        ensures
            r@ == 1,
            0 <= r@ < FIELD_MODULUS,
    {
        FieldElement { v: 1 }
    }

    /// Conversion from an unsigned integer is total: the value is reduced.
    pub fn from_u64(n: u64) -> (r: Self)
        ensures
            r@ == n as int % FIELD_MODULUS as int,
            0 <= r@ < FIELD_MODULUS,
    {
        proof {
            lemma_mod_division_less_than_divisor(n as int, FIELD_MODULUS as int);
        }
        FieldElement { v: n % FIELD_MODULUS }
    }

    /// The canonical representative, an integer below the modulus.
    pub fn val(&self) -> (r: u64)
        ensures
            r as int == self@,
            r < FIELD_MODULUS,
    {
        proof {
            use_type_invariant(self);
        }
        self.v
    }

    /// Field addition: wraps at the modulus, never overflows.
    pub fn add(self, other: Self) -> (r: Self)
        ensures
            r@ == (self@ + other@) % FIELD_MODULUS as int,
            0 <= r@ < FIELD_MODULUS,
    {
        proof {
            use_type_invariant(self);
            use_type_invariant(other);
            lemma_mod_division_less_than_divisor(
                self.v as int + other.v as int,
                FIELD_MODULUS as int,
            );
        }
        let wide: u128 = self.v as u128 + other.v as u128;
        let r: u64 = (wide % FIELD_MODULUS as u128) as u64;
        FieldElement { v: r }
    }

    /// Field multiplication: wraps at the modulus, never overflows.
    pub fn mul(self, other: Self) -> (r: Self)
        ensures
            r@ == (self@ * other@) % FIELD_MODULUS as int,
            0 <= r@ < FIELD_MODULUS,
    {
        proof {
            use_type_invariant(self);
            use_type_invariant(other);
            assert(self.v as u128 * other.v as u128 <= u64::MAX as u128 * u64::MAX as u128)
                by (nonlinear_arith)
                requires
                    self.v <= u64::MAX,
                    other.v <= u64::MAX,
            ;
            lemma_mod_division_less_than_divisor(
                self.v as int * other.v as int,
                FIELD_MODULUS as int,
            );
        }
        let wide: u128 = self.v as u128 * other.v as u128;
        let r: u64 = (wide % FIELD_MODULUS as u128) as u64;
        FieldElement { v: r }
    }

    /// Parses a decimal or `0x`-prefixed lowercase hexadecimal literal into a
    /// field element, reducing the numeric value at the modulus. Fails with a
    /// `ParseError` carrying the text exactly when the text is not a literal.
    pub fn from_literal(s: &Vec<u8>) -> (r: Result<FieldElement, ParseError>)
        ensures
            match r {
                Ok(fe) => spec_parse_literal(s@) == Some(fe@) && 0 <= fe@ < FIELD_MODULUS,
                Err(e) => spec_parse_literal(s@) is None && e.text@ == s@,
            },
    {
        if s.len() >= 2 && s[0] == 0x30 && s[1] == 0x78 {
            match parse_hex_digits(s, 2) {
                Some(v) => Ok(FieldElement { v }),
                None => Err(ParseError { text: s.clone() }),
            }
        } else {
            match parse_dec_digits(s) {
                Some(v) => Ok(FieldElement { v }),
                None => Err(ParseError { text: s.clone() }),
            }
        }
    }

    /// The canonical decimal encoding of the element's value.
    pub fn to_decimal(&self) -> (r: Vec<u8>)
        ensures
            r@ == spec_decimal(self@ as nat),
    {
        proof {
            use_type_invariant(self);
        }
        decimal_of_u64(self.v)
    }
}

// ---------------------------------------------------------------------------
// Decimal and hexadecimal digit strings
// ---------------------------------------------------------------------------
pub open spec fn is_dec_digit(b: u8) -> bool {
    0x30 <= b <= 0x39
}

pub open spec fn all_dec_digits(s: Seq<u8>) -> bool {
    forall|i: int| 0 <= i < s.len() ==> is_dec_digit(#[trigger] s[i])
}

/// The numeric value of a decimal digit string, most significant digit first.
pub open spec fn dec_val(s: Seq<u8>) -> int
    decreases s.len(),
{
    if s.len() == 0 {
        0
    } else {
        10 * dec_val(s.drop_last()) + s.last() - 0x30
    }
}

pub open spec fn is_hex_digit(b: u8) -> bool {
    is_dec_digit(b) || 0x61 <= b <= 0x66 || 0x41 <= b <= 0x46
}

pub open spec fn hex_digit_val(b: u8) -> int {
    if is_dec_digit(b) {
        b - 0x30
    } else if 0x61 <= b <= 0x66 {
        b - 0x61 + 10
    } else {
        b - 0x41 + 10
    }
}

pub open spec fn all_hex_digits(s: Seq<u8>) -> bool {
    forall|i: int| 0 <= i < s.len() ==> is_hex_digit(#[trigger] s[i])
}

/// The numeric value of a hexadecimal digit string, most significant first.
pub open spec fn hex_val(s: Seq<u8>) -> int
    decreases s.len(),
{
    if s.len() == 0 {
        0
    } else {
        16 * hex_val(s.drop_last()) + hex_digit_val(s.last())
    }
}

/// What a textual field literal denotes: a non-empty decimal digit string, or
/// `0x` followed by a non-empty hexadecimal digit string, reduced at the
/// modulus; anything else is not a literal.
pub open spec fn spec_parse_literal(s: Seq<u8>) -> Option<int> {
    if s.len() >= 2 && s[0] == 0x30u8 && s[1] == 0x78u8 {
        if s.len() > 2 && all_hex_digits(s.skip(2)) {
            Some(hex_val(s.skip(2)) % (FIELD_MODULUS as int))
        } else {
            None
        }
    } else if s.len() > 0 && all_dec_digits(s) {
        Some(dec_val(s) % (FIELD_MODULUS as int))
    } else {
        None
    }
}

proof fn lemma_dec_val_nonneg(s: Seq<u8>)
    requires
        all_dec_digits(s),
    ensures
        dec_val(s) >= 0,
    decreases s.len(),
{
    if s.len() > 0 {
        assert(all_dec_digits(s.drop_last()));
        lemma_dec_val_nonneg(s.drop_last());
    }
}

proof fn lemma_hex_val_nonneg(s: Seq<u8>)
    requires
        all_hex_digits(s),
    ensures
        hex_val(s) >= 0,
    decreases s.len(),
{
    if s.len() > 0 {
        assert(all_hex_digits(s.drop_last()));
        lemma_hex_val_nonneg(s.drop_last());
    }
}

/// Extending a digit string on the right never decreases its value.
proof fn lemma_dec_val_prefix_le(s: Seq<u8>, i: int)
    requires
        0 <= i <= s.len(),
        all_dec_digits(s),
    ensures
        dec_val(s.subrange(0, i)) <= dec_val(s),
    decreases s.len() - i,
{
    if i < s.len() {
        let next = s.subrange(0, i + 1);
        assert(next.drop_last() =~= s.subrange(0, i));
        assert(all_dec_digits(s.subrange(0, i)));
        lemma_dec_val_nonneg(s.subrange(0, i));
        lemma_dec_val_prefix_le(s, i + 1);
    } else {
        assert(s.subrange(0, i) =~= s);
    }
}

/// Parses the decimal digit string `s`, reduced at the modulus.
fn parse_dec_digits(s: &Vec<u8>) -> (r: Option<u64>)
    ensures
        match r {
            Some(v) => s@.len() > 0 && all_dec_digits(s@) && v as int == dec_val(s@)
                % (FIELD_MODULUS as int),
            None => !(s@.len() > 0 && all_dec_digits(s@)),
        },
{
    let mut acc: u64 = 0;
    let mut i: usize = 0;
    while i < s.len()
        invariant
            0 <= i <= s@.len(),
            all_dec_digits(s@.subrange(0, i as int)),
            acc < FIELD_MODULUS,
            acc as int == dec_val(s@.subrange(0, i as int)) % (FIELD_MODULUS as int),
        decreases s@.len() - i,
    {
        let b = s[i];
        if b < 0x30 || b > 0x39 {
            return None;
        }
        let d: u128 = (b - 0x30) as u128;
        let wide: u128 = acc as u128 * 10 + d;
        let next: u64 = (wide % (FIELD_MODULUS as u128)) as u64;
        proof {
            let m = FIELD_MODULUS as int;
            let pre = s@.subrange(0, i as int);
            let ext = s@.subrange(0, i as int + 1);
            assert(ext.drop_last() =~= pre);
            assert(ext.last() == s@[i as int]);
            lemma_mul_mod_noop_left(dec_val(pre), 10, m);
            lemma_mul_mod_noop_left(acc as int, 10, m);
            lemma_add_mod_noop(dec_val(pre) * 10, d as int, m);
            lemma_add_mod_noop(acc as int * 10, d as int, m);
            lemma_mod_division_less_than_divisor(dec_val(ext), m);
        }
        acc = next;
        i = i + 1;
    }
    proof {
        assert(s@.subrange(0, i as int) =~= s@);
    }
    if s.len() == 0 {
        None
    } else {
        Some(acc)
    }
}

/// Parses the hexadecimal digit string `s[from..]`, reduced at the modulus.
fn parse_hex_digits(s: &Vec<u8>, from: usize) -> (r: Option<u64>)
    requires
        from <= s@.len(),
    ensures
        match r {
            Some(v) => s@.len() > from && all_hex_digits(s@.skip(from as int)) && v as int
                == hex_val(s@.skip(from as int)) % (FIELD_MODULUS as int),
            None => !(s@.len() > from && all_hex_digits(s@.skip(from as int))),
        },
{
    let ghost tail = s@.skip(from as int);
    let mut acc: u64 = 0;
    let mut i: usize = from;
    while i < s.len()
        invariant
            from <= i <= s@.len(),
            tail == s@.skip(from as int),
            all_hex_digits(s@.subrange(from as int, i as int)),
            acc < FIELD_MODULUS,
            acc as int == hex_val(s@.subrange(from as int, i as int)) % (FIELD_MODULUS as int),
        decreases s@.len() - i,
    {
        let b = s[i];
        let dv: u64;
        if 0x30 <= b && b <= 0x39 {
            dv = (b - 0x30) as u64;
        } else if 0x61 <= b && b <= 0x66 {
            dv = (b - 0x61 + 10) as u64;
        } else if 0x41 <= b && b <= 0x46 {
            dv = (b - 0x41 + 10) as u64;
        } else {
            proof {
                assert(s@.skip(from as int)[i - from] == s@[i as int]);
            }
            return None;
        }
        assert(dv as int == hex_digit_val(s@[i as int]));
        let wide: u128 = acc as u128 * 16 + dv as u128;
        let next: u64 = (wide % (FIELD_MODULUS as u128)) as u64;
        proof {
            let m = FIELD_MODULUS as int;
            let pre = s@.subrange(from as int, i as int);
            let ext = s@.subrange(from as int, i as int + 1);
            assert(ext.drop_last() =~= pre);
            assert(ext.last() == s@[i as int]);
            lemma_mul_mod_noop_left(hex_val(pre), 16, m);
            lemma_mul_mod_noop_left(acc as int, 16, m);
            lemma_add_mod_noop(hex_val(pre) * 16, dv as int, m);
            lemma_add_mod_noop(acc as int * 16, dv as int, m);
            lemma_mod_division_less_than_divisor(hex_val(ext), m);
        }
        acc = next;
        i = i + 1;
    }
    proof {
        assert(s@.subrange(from as int, i as int) =~= s@.skip(from as int));
    }
    if s.len() == from {
        None
    } else {
        Some(acc)
    }
}

/// Parses a non-empty decimal digit string as an exact 64-bit integer; `None`
/// when the text is not all digits or the value does not fit.
pub fn parse_dec_u64(s: &Vec<u8>) -> (r: Option<u64>)
    ensures
        match r {
            Some(v) => s@.len() > 0 && all_dec_digits(s@) && dec_val(s@) == v as int,
            None => !(s@.len() > 0 && all_dec_digits(s@) && dec_val(s@) <= u64::MAX),
        },
{
    let mut acc: u64 = 0;
    let mut i: usize = 0;
    while i < s.len()
        invariant
            0 <= i <= s@.len(),
            all_dec_digits(s@.subrange(0, i as int)),
            acc as int == dec_val(s@.subrange(0, i as int)),
        decreases s@.len() - i,
    {
        let b = s[i];
        if b < 0x30 || b > 0x39 {
            return None;
        }
        let wide: u128 = acc as u128 * 10 + (b - 0x30) as u128;
        proof {
            let pre = s@.subrange(0, i as int);
            let ext = s@.subrange(0, i as int + 1);
            assert(ext.drop_last() =~= pre);
            assert(ext.last() == s@[i as int]);
        }
        if wide > u64::MAX as u128 {
            proof {
                if s@.len() > 0 && all_dec_digits(s@) {
                    lemma_dec_val_prefix_le(s@, i as int + 1);
                }
            }
            return None;
        }
        acc = wide as u64;
        i = i + 1;
    }
    proof {
        assert(s@.subrange(0, i as int) =~= s@);
    }
    if s.len() == 0 {
        None
    } else {
        Some(acc)
    }
}

// ---------------------------------------------------------------------------
// Canonical decimal and hexadecimal encodings
// ---------------------------------------------------------------------------
/// The canonical decimal encoding of `n`: no leading zero except for zero
/// itself.
pub open spec fn spec_decimal(n: nat) -> Seq<u8>
    decreases n,
{
    if n < 10 {
        seq![(0x30 + n) as u8]
    } else {
        spec_decimal(n / 10).push((0x30 + n % 10) as u8)
    }
}

pub proof fn lemma_decimal_encodes(n: nat)
    ensures
        spec_decimal(n).len() >= 1,
        all_dec_digits(spec_decimal(n)),
        dec_val(spec_decimal(n)) == n,
        (spec_decimal(n)[0] == 0x30) <==> n == 0,
    decreases n,
{
    if n < 10 {
        let s = spec_decimal(n);
        assert(s =~= seq![(0x30 + n) as u8]);
        assert(s.drop_last() =~= Seq::<u8>::empty());
        assert(dec_val(Seq::<u8>::empty()) == 0);
        assert(dec_val(s) == 10 * dec_val(s.drop_last()) + s.last() - 0x30);
    } else {
        lemma_div_is_strictly_smaller(n as int, 10);
        lemma_decimal_encodes(n / 10);
        lemma_fundamental_div_mod(n as int, 10);
        let s = spec_decimal(n);
        let p = spec_decimal(n / 10);
        assert(s == p.push((0x30 + n % 10) as u8));
        assert(s.drop_last() =~= p);
        assert(s.last() == (0x30 + n % 10) as u8);
        assert(dec_val(s) == 10 * dec_val(s.drop_last()) + s.last() - 0x30);
        assert forall|i: int| 0 <= i < s.len() implies is_dec_digit(#[trigger] s[i]) by {
            if i < p.len() {
                assert(s[i] == p[i]);
            }
        }
        assert(s[0] == p[0]);
        assert(n / 10 > 0);
    }
}

/// The canonical lowercase hexadecimal digit encoding of `n`, without prefix.
pub open spec fn spec_hex(n: nat) -> Seq<u8>
    decreases n,
{
    if n < 16 {
        seq![hex_digit_char(n)]
    } else {
        spec_hex(n / 16).push(hex_digit_char(n % 16))
    }
}

pub open spec fn hex_digit_char(d: nat) -> u8 {
    if d < 10 {
        (0x30 + d) as u8
    } else {
        (0x61 + d - 10) as u8
    }
}

pub proof fn lemma_hex_encodes(n: nat)
    ensures
        spec_hex(n).len() >= 1,
        all_hex_digits(spec_hex(n)),
        hex_val(spec_hex(n)) == n,
    decreases n,
{
    if n < 16 {
        let s = spec_hex(n);
        assert(s =~= seq![hex_digit_char(n)]);
        assert(s.drop_last() =~= Seq::<u8>::empty());
        assert(hex_val(Seq::<u8>::empty()) == 0);
        assert(hex_val(s) == 16 * hex_val(s.drop_last()) + hex_digit_val(s.last()));
        assert(is_hex_digit(hex_digit_char(n)) && hex_digit_val(hex_digit_char(n)) == n);
    } else {
        lemma_div_is_strictly_smaller(n as int, 16);
        lemma_hex_encodes(n / 16);
        lemma_fundamental_div_mod(n as int, 16);
        let s = spec_hex(n);
        let p = spec_hex(n / 16);
        assert(s.drop_last() =~= p);
        assert(s.last() == hex_digit_char(n % 16));
        assert(hex_val(s) == 16 * hex_val(s.drop_last()) + hex_digit_val(s.last()));
        assert(is_hex_digit(hex_digit_char(n % 16)) && hex_digit_val(hex_digit_char(n % 16)) == n
            % 16);
        assert forall|i: int| 0 <= i < s.len() implies is_hex_digit(#[trigger] s[i]) by {
            if i < p.len() {
                assert(s[i] == p[i]);
            }
        }
    }
}

/// The canonical decimal digit string of a 64-bit integer.
pub fn decimal_of_u64(n: u64) -> (r: Vec<u8>)
    ensures
        r@ == spec_decimal(n as nat),
    decreases n,
{
    proof {
        if n >= 10 {
            lemma_div_is_strictly_smaller(n as int, 10);
        }
    }
    if n < 10 {
        let mut r: Vec<u8> = Vec::new();
        r.push(0x30 + n as u8);
        proof {
            assert(r@ =~= spec_decimal(n as nat));
        }
        r
    } else {
        let mut r = decimal_of_u64(n / 10);
        r.push(0x30 + (n % 10) as u8);
        proof {
            assert(r@ =~= spec_decimal(n as nat));
        }
        r
    }
}

/// The canonical lowercase hexadecimal digit string of a 64-bit integer.
fn hex_digits_of_u64(n: u64) -> (r: Vec<u8>)
    ensures
        r@ == spec_hex(n as nat),
    decreases n,
{
    proof {
        if n >= 16 {
            lemma_div_is_strictly_smaller(n as int, 16);
        }
    }
    if n < 16 {
        let d: u8 = if n < 10 {
            0x30 + n as u8
        } else {
            0x61 + (n - 10) as u8
        };
        let mut r: Vec<u8> = Vec::new();
        r.push(d);
        proof {
            assert(r@ =~= spec_hex(n as nat));
        }
        r
    } else {
        let mut r = hex_digits_of_u64(n / 16);
        let m = n % 16;
        let d: u8 = if m < 10 {
            0x30 + m as u8
        } else {
            0x61 + (m - 10) as u8
        };
        r.push(d);
        proof {
            assert(r@ =~= spec_hex(n as nat));
        }
        r
    }
}

/// The `0x`-prefixed lowercase hexadecimal literal of a 64-bit integer, as
/// the host serializes numeric values.
pub fn hex_literal_of_u64(n: u64) -> (r: Vec<u8>)
    ensures
        r@ == seq![0x30u8, 0x78u8] + spec_hex(n as nat),
{
    let mut r: Vec<u8> = Vec::new();
    r.push(0x30);
    r.push(0x78);
    let mut digits = hex_digits_of_u64(n);
    r.append(&mut digits);
    proof {
        assert(r@ =~= seq![0x30u8, 0x78u8] + spec_hex(n as nat));
    }
    r
}

/// Law: a hexadecimal literal produced from `n` parses back to the field
/// element with canonical value `n` reduced at the modulus.
pub proof fn lemma_hex_literal_round_trip(n: u64)
    ensures
        spec_parse_literal(seq![0x30u8, 0x78u8] + spec_hex(n as nat)) == Some(
            n as int % FIELD_MODULUS as int,
        ),
{
    lemma_hex_encodes(n as nat);
    let s = seq![0x30u8, 0x78u8] + spec_hex(n as nat);
    assert(s.skip(2) =~= spec_hex(n as nat));
    assert(s[0] == 0x30u8 && s[1] == 0x78u8 && s.len() > 2);
}

/// Law: a field literal round-trips. Decoding a syntactically valid literal
/// and re-encoding the element canonically yields a literal that decodes to
/// the same canonical field value.
pub proof fn lemma_literal_round_trip(s: Seq<u8>, v: int)
    requires
        spec_parse_literal(s) == Some(v),
    ensures
        0 <= v < FIELD_MODULUS,
        spec_parse_literal(spec_decimal(v as nat)) == Some(v),
{
    let m = FIELD_MODULUS as int;
    if s.len() >= 2 && s[0] == 0x30u8 && s[1] == 0x78u8 {
        lemma_mod_division_less_than_divisor(hex_val(s.skip(2)), m);
        lemma_hex_val_nonneg(s.skip(2));
    } else {
        lemma_mod_division_less_than_divisor(dec_val(s), m);
        lemma_dec_val_nonneg(s);
    }
    lemma_decimal_encodes(v as nat);
    let d = spec_decimal(v as nat);
    if d.len() >= 2 {
        assert(is_dec_digit(d[1]));
        assert(d[1] != 0x78u8);
    }
    lemma_small_mod(v as nat, FIELD_MODULUS as nat);
}

} // verus!
