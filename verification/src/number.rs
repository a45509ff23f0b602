use vstd::prelude::*;

use rust_decimal::Decimal;
use vstd::std_specs::cmp::PartialEqSpecImpl;

verus! {

/// The outside decimal type that numbers are computed with.
#[verifier::external_type_specification]
#[verifier::external_body]
pub struct ExDecimal(rust_decimal::Decimal);

/// The largest magnitude of a decimal mantissa: 96 bits.
pub const MAX_MANTISSA: i128 = 0x0000_0000_FFFF_FFFF_FFFF_FFFF_FFFF_FFFF;

/// The largest scale of a decimal.
pub const MAX_SCALE: u32 = 28;

/// Ten to the power `n`.
pub open spec fn pow10(n: nat) -> int
    decreases n,
{
    if n == 0 {
        1
    } else {
        10 * pow10((n - 1) as nat)
    }
}

pub proof fn lemma_pow10_positive(n: nat)
    ensures
        pow10(n) >= 1,
    decreases n,
{
    if n > 0 {
        lemma_pow10_positive((n - 1) as nat);
    }
}

/// Whether a mantissa and a scale form a decimal.
pub open spec fn parts_valid(m: int, s: int) -> bool {
    -MAX_MANTISSA <= m <= MAX_MANTISSA && 0 <= s <= MAX_SCALE
}

/// Whether mantissa, scale and sign form a decimal: the sign is that of the
/// mantissa, except that a zero may carry either sign.
pub open spec fn number_valid(p: (i128, u32, bool)) -> bool {
    parts_valid(p.0 as int, p.1 as int) && (p.0 != 0 ==> p.2 == (p.0 < 0))
}

/// The value `m / 10^s` is below `n / 10^t`.
pub open spec fn parts_less(m: int, s: nat, n: int, t: nat) -> bool {
    m * pow10(t) < n * pow10(s)
}

/// The value `m / 10^s` equals `n / 10^t`.
pub open spec fn parts_equal(m: int, s: nat, n: int, t: nat) -> bool {
    m * pow10(t) == n * pow10(s)
}

/// `m / 10^s` rounded toward zero.
pub open spec fn parts_trunc(m: int, s: nat) -> int {
    if m >= 0 {
        m / pow10(s)
    } else {
        -((-m) / pow10(s))
    }
}

/// Whether `m / 10^s` is a whole number.
pub open spec fn parts_integer(m: int, s: nat) -> bool {
    m % pow10(s) == 0
}

/// What `Decimal::checked_add` returns, as mantissa and scale.
pub uninterp spec fn decimal_checked_add(a: (i128, u32, bool), b: (i128, u32, bool)) -> Option<(i128, u32, bool)>;

/// What `Decimal::checked_sub` returns, as mantissa and scale.
pub uninterp spec fn decimal_checked_sub(a: (i128, u32, bool), b: (i128, u32, bool)) -> Option<(i128, u32, bool)>;

/// What `Decimal::checked_mul` returns, as mantissa and scale.
pub uninterp spec fn decimal_checked_mul(a: (i128, u32, bool), b: (i128, u32, bool)) -> Option<(i128, u32, bool)>;

/// What `Decimal::checked_div` returns, as mantissa and scale.
pub uninterp spec fn decimal_checked_div(a: (i128, u32, bool), b: (i128, u32, bool)) -> Option<(i128, u32, bool)>;

/// What `Decimal::checked_rem` returns, as mantissa and scale.
pub uninterp spec fn decimal_checked_rem(a: (i128, u32, bool), b: (i128, u32, bool)) -> Option<(i128, u32, bool)>;

/// What `Decimal::from_str` returns for a text, as mantissa and scale.
pub uninterp spec fn decimal_from_str(s: Seq<char>) -> Option<(i128, u32, bool)>;

/// What the `Display` of a decimal writes.
pub uninterp spec fn decimal_text(a: (i128, u32, bool)) -> Seq<char>;

/// In each wrapper below, the parts are turned into a `Decimal` with
/// `Decimal::from_i128_with_scale`, which panics on no parts that
/// `parts_valid` accepts, and `Decimal::set_sign_negative`, which sets the
/// sign (only that of a zero can differ from the mantissa's); a resulting
/// `Decimal` is taken apart with `Decimal::mantissa`, `Decimal::scale` and
/// `Decimal::is_sign_negative`, which always give a mantissa of at most 96
/// bits, a scale of at most 28, and the mantissa's sign unless it is zero.
///
/// `Decimal::checked_add`: the sum, or `None` on overflow. What the sum is
/// (exact, or rounded to fit 96 bits) is left to the name `decimal_checked_add`.
#[verifier::external_body]
fn checked_add_parts(a: (i128, u32, bool), b: (i128, u32, bool)) -> (r: Option<(i128, u32, bool)>)
    requires
        number_valid(a),
        number_valid(b),
    ensures
        r == decimal_checked_add(a, b),
        r matches Some(c) ==> number_valid(c),
{
    let mut x = Decimal::from_i128_with_scale(a.0, a.1);
    x.set_sign_negative(a.2);
    let mut y = Decimal::from_i128_with_scale(b.0, b.1);
    y.set_sign_negative(b.2);
    x.checked_add(y).map(|d| (d.mantissa(), d.scale(), d.is_sign_negative()))
}

/// `Decimal::checked_sub`: the difference, or `None` on overflow; its value is
/// left to the name `decimal_checked_sub`.
#[verifier::external_body]
fn checked_sub_parts(a: (i128, u32, bool), b: (i128, u32, bool)) -> (r: Option<(i128, u32, bool)>)
    requires
        number_valid(a),
        number_valid(b),
    ensures
        r == decimal_checked_sub(a, b),
        r matches Some(c) ==> number_valid(c),
{
    let mut x = Decimal::from_i128_with_scale(a.0, a.1);
    x.set_sign_negative(a.2);
    let mut y = Decimal::from_i128_with_scale(b.0, b.1);
    y.set_sign_negative(b.2);
    x.checked_sub(y).map(|d| (d.mantissa(), d.scale(), d.is_sign_negative()))
}

/// `Decimal::checked_mul`: the product, or `None` on overflow; its value is
/// left to the name `decimal_checked_mul`.
#[verifier::external_body]
fn checked_mul_parts(a: (i128, u32, bool), b: (i128, u32, bool)) -> (r: Option<(i128, u32, bool)>)
    requires
        number_valid(a),
        number_valid(b),
    ensures
        r == decimal_checked_mul(a, b),
        r matches Some(c) ==> number_valid(c),
{
    let mut x = Decimal::from_i128_with_scale(a.0, a.1);
    x.set_sign_negative(a.2);
    let mut y = Decimal::from_i128_with_scale(b.0, b.1);
    y.set_sign_negative(b.2);
    x.checked_mul(y).map(|d| (d.mantissa(), d.scale(), d.is_sign_negative()))
}

/// `Decimal::checked_div`: the quotient, or `None` when the divisor is zero
/// or on overflow; its value is left to the name `decimal_checked_div`.
#[verifier::external_body]
fn checked_div_parts(a: (i128, u32, bool), b: (i128, u32, bool)) -> (r: Option<(i128, u32, bool)>)
    requires
        number_valid(a),
        number_valid(b),
    ensures
        r == decimal_checked_div(a, b),
        b.0 == 0 ==> r is None,
        r matches Some(c) ==> number_valid(c),
{
    let mut x = Decimal::from_i128_with_scale(a.0, a.1);
    x.set_sign_negative(a.2);
    let mut y = Decimal::from_i128_with_scale(b.0, b.1);
    y.set_sign_negative(b.2);
    x.checked_div(y).map(|d| (d.mantissa(), d.scale(), d.is_sign_negative()))
}

/// `Decimal::checked_rem`: the remainder, or `None` when the divisor is zero
/// or on overflow; its value is left to the name `decimal_checked_rem`.
#[verifier::external_body]
fn checked_rem_parts(a: (i128, u32, bool), b: (i128, u32, bool)) -> (r: Option<(i128, u32, bool)>)
    requires
        number_valid(a),
        number_valid(b),
    ensures
        r == decimal_checked_rem(a, b),
        b.0 == 0 ==> r is None,
        r matches Some(c) ==> number_valid(c),
{
    let mut x = Decimal::from_i128_with_scale(a.0, a.1);
    x.set_sign_negative(a.2);
    let mut y = Decimal::from_i128_with_scale(b.0, b.1);
    y.set_sign_negative(b.2);
    x.checked_rem(y).map(|d| (d.mantissa(), d.scale(), d.is_sign_negative()))
}

/// `PartialOrd::lt` of `Decimal`, which orders decimals by their value.
#[verifier::external_body]
fn lt_parts(a: (i128, u32, bool), b: (i128, u32, bool)) -> (r: bool)
    requires
        number_valid(a),
        number_valid(b),
    ensures
        r == parts_less(a.0 as int, a.1 as nat, b.0 as int, b.1 as nat),
{
    Decimal::from_i128_with_scale(a.0, a.1) < Decimal::from_i128_with_scale(b.0, b.1)
}

/// `PartialEq::eq` of `Decimal`, which compares decimals by their value.
#[verifier::external_body]
fn eq_parts(a: (i128, u32, bool), b: (i128, u32, bool)) -> (r: bool)
    requires
        number_valid(a),
        number_valid(b),
    ensures
        r == parts_equal(a.0 as int, a.1 as nat, b.0 as int, b.1 as nat),
{
    Decimal::from_i128_with_scale(a.0, a.1) == Decimal::from_i128_with_scale(b.0, b.1)
}

/// `Decimal::is_integer`: whether the fractional part is zero.
#[verifier::external_body]
fn is_integer_parts(a: (i128, u32, bool)) -> (r: bool)
    requires
        number_valid(a),
    ensures
        r == parts_integer(a.0 as int, a.1 as nat),
{
    Decimal::from_i128_with_scale(a.0, a.1).is_integer()
}

/// `ToPrimitive::to_isize` of `Decimal`: the value rounded toward zero, when
/// it fits in an `isize`.
#[verifier::external_body]
fn to_isize_parts(a: (i128, u32, bool)) -> (r: Option<isize>)
    requires
        number_valid(a),
    ensures
        r matches Some(i) ==> i as int == parts_trunc(a.0 as int, a.1 as nat),
        (isize::MIN <= parts_trunc(a.0 as int, a.1 as nat) <= isize::MAX) ==> r is Some,
{
    rust_decimal::prelude::ToPrimitive::to_isize(&Decimal::from_i128_with_scale(a.0, a.1))
}

/// `Decimal::from_str`: parses a decimal literal; what it yields is left to
/// the name `decimal_from_str`.
#[verifier::external_body]
fn from_str_parts(s: &str) -> (r: Option<(i128, u32, bool)>)
    ensures
        r == decimal_from_str(s@),
        r matches Some(c) ==> number_valid(c),
{
    <Decimal as core::str::FromStr>::from_str(s).ok().map(|d| (d.mantissa(), d.scale(), d.is_sign_negative()))
}

/// `Display` of `Decimal`: the text of the number.
#[verifier::external_body]
fn to_string_parts(a: (i128, u32, bool)) -> (r: String)
    requires
        number_valid(a),
    ensures
        r@ == decimal_text(a),
{
    let mut x = Decimal::from_i128_with_scale(a.0, a.1);
    x.set_sign_negative(a.2);
    x.to_string()
}

/// The parts of an optional number.
pub open spec fn option_parts(r: Option<Number>) -> Option<(i128, u32, bool)> {
    match r {
        Some(n) => Some(n.parts()),
        None => None,
    }
}

/// A decimal number: `mantissa / 10^scale`, with a mantissa of at most 96 bits
/// and a scale of at most 28.
#[derive(Clone, Copy, Debug)]
pub struct Number {
    mantissa: i128,
    scale: u32,
    negative: bool,
}

impl Number {
    #[verifier::type_invariant]
    spec fn valid(self) -> bool {
        number_valid((self.mantissa, self.scale, self.negative))
    }

    /// Mantissa, scale and sign.
    pub closed spec fn parts(self) -> (i128, u32, bool) {
        (self.mantissa, self.scale, self.negative)
    }

    pub open spec fn spec_mantissa(self) -> int {
        self.parts().0 as int
    }

    pub open spec fn spec_scale(self) -> nat {
        self.parts().1 as nat
    }

    /// The number `mantissa / 10^scale`, when the parts form a decimal.
    pub fn from_parts(mantissa: i128, scale: u32) -> (r: Option<Number>)
        ensures
            r is Some <==> parts_valid(mantissa as int, scale as int),
            r matches Some(n) ==> n.parts() == (mantissa, scale, mantissa < 0),
    {
        if -MAX_MANTISSA <= mantissa && mantissa <= MAX_MANTISSA && scale <= MAX_SCALE {
            Some(Number { mantissa, scale, negative: mantissa < 0 })
        } else {
            None
        }
    }

    /// A whole number.
    pub fn from_i64(i: i64) -> (n: Number)
        ensures
            n.parts() == (i as i128, 0u32, i < 0),
    {
        Number { mantissa: i as i128, scale: 0, negative: i < 0 }
    }

    /// The mantissa.
    pub fn mantissa(&self) -> (m: i128)
        ensures
            m == self.parts().0,
    {
        self.mantissa
    }

    /// Whether the sign is negative; a zero may carry either sign.
    pub fn is_sign_negative(&self) -> (b: bool)
        ensures
            b == self.parts().2,
    {
        self.negative
    }

    /// The scale.
    pub fn scale(&self) -> (s: u32)
        ensures
            s == self.parts().1,
    {
        self.scale
    }

    /// The number read from a decimal literal, when `Decimal::from_str` accepts it.
    pub fn parse(s: &str) -> (r: Option<Number>)
        ensures
            r is Some <==> decimal_from_str(s@) is Some,
            r matches Some(n) ==> Some(n.parts()) == decimal_from_str(s@),
    {
        match from_str_parts(s) {
            Some(p) => Some(Number { mantissa: p.0, scale: p.1, negative: p.2 }),
            None => None,
        }
    }

    /// The text of the number, as `Decimal` displays it.
    pub fn to_text(&self) -> (s: String)
        ensures
            s@ == decimal_text(self.parts()),
    {
        proof { use_type_invariant(self); }
        to_string_parts((self.mantissa, self.scale, self.negative))
    }

    /// The negation, as `Decimal`'s `Neg` gives it: the mantissa negated, the
    /// scale kept, the sign flipped (so that zero becomes negative zero).
    pub fn neg(self) -> (n: Number)
        ensures
            n.parts() == (-self.spec_mantissa() as i128, self.parts().1, !self.parts().2),
    {
        proof { use_type_invariant(self); }
        Number { mantissa: -self.mantissa, scale: self.scale, negative: !self.negative }
    }

    /// The sum, or `None` where `Decimal` addition overflows.
    pub fn checked_add(self, other: Number) -> (r: Option<Number>)
        ensures
            option_parts(r) == decimal_checked_add(self.parts(), other.parts()),
    {
        proof { use_type_invariant(self); use_type_invariant(other); }
        match checked_add_parts((self.mantissa, self.scale, self.negative), (other.mantissa, other.scale, other.negative)) {
            Some(p) => Some(Number { mantissa: p.0, scale: p.1, negative: p.2 }),
            None => None,
        }
    }

    /// The difference, or `None` where `Decimal` subtraction overflows.
    pub fn checked_sub(self, other: Number) -> (r: Option<Number>)
        ensures
            option_parts(r) == decimal_checked_sub(self.parts(), other.parts()),
    {
        proof { use_type_invariant(self); use_type_invariant(other); }
        match checked_sub_parts((self.mantissa, self.scale, self.negative), (other.mantissa, other.scale, other.negative)) {
            Some(p) => Some(Number { mantissa: p.0, scale: p.1, negative: p.2 }),
            None => None,
        }
    }

    /// The product, or `None` where `Decimal` multiplication overflows.
    pub fn checked_mul(self, other: Number) -> (r: Option<Number>)
        ensures
            option_parts(r) == decimal_checked_mul(self.parts(), other.parts()),
    {
        proof { use_type_invariant(self); use_type_invariant(other); }
        match checked_mul_parts((self.mantissa, self.scale, self.negative), (other.mantissa, other.scale, other.negative)) {
            Some(p) => Some(Number { mantissa: p.0, scale: p.1, negative: p.2 }),
            None => None,
        }
    }

    /// The quotient, or `None` where the divisor is zero or `Decimal` division overflows.
    pub fn checked_div(self, other: Number) -> (r: Option<Number>)
        ensures
            option_parts(r) == decimal_checked_div(self.parts(), other.parts()),
            other.spec_mantissa() == 0 ==> r is None,
    {
        proof { use_type_invariant(self); use_type_invariant(other); }
        match checked_div_parts((self.mantissa, self.scale, self.negative), (other.mantissa, other.scale, other.negative)) {
            Some(p) => Some(Number { mantissa: p.0, scale: p.1, negative: p.2 }),
            None => None,
        }
    }

    /// The remainder, or `None` where the divisor is zero or `Decimal` overflows.
    pub fn checked_rem(self, other: Number) -> (r: Option<Number>)
        ensures
            option_parts(r) == decimal_checked_rem(self.parts(), other.parts()),
            other.spec_mantissa() == 0 ==> r is None,
    {
        proof { use_type_invariant(self); use_type_invariant(other); }
        match checked_rem_parts((self.mantissa, self.scale, self.negative), (other.mantissa, other.scale, other.negative)) {
            Some(p) => Some(Number { mantissa: p.0, scale: p.1, negative: p.2 }),
            None => None,
        }
    }

    /// Whether this number is below the other, by value.
    pub fn less_than(&self, other: &Number) -> (b: bool)
        ensures
            b == parts_less(self.spec_mantissa(), self.spec_scale(), other.spec_mantissa(), other.spec_scale()),
    {
        proof { use_type_invariant(self); use_type_invariant(other); }
        lt_parts((self.mantissa, self.scale, self.negative), (other.mantissa, other.scale, other.negative))
    }

    /// Whether the two numbers have the same value (`1.0` equals `1`).
    pub fn same_value(&self, other: &Number) -> (b: bool)
        ensures
            b == parts_equal(self.spec_mantissa(), self.spec_scale(), other.spec_mantissa(), other.spec_scale()),
    {
        proof { use_type_invariant(self); use_type_invariant(other); }
        eq_parts((self.mantissa, self.scale, self.negative), (other.mantissa, other.scale, other.negative))
    }

    /// Whether the number is a whole number.
    pub fn is_integer(&self) -> (b: bool)
        ensures
            b == parts_integer(self.spec_mantissa(), self.spec_scale()),
    {
        proof { use_type_invariant(self); }
        is_integer_parts((self.mantissa, self.scale, self.negative))
    }

    /// The number rounded toward zero, when it fits in an `isize`.
    pub fn to_isize(&self) -> (r: Option<isize>)
        ensures
            r matches Some(i) ==> i as int == parts_trunc(self.spec_mantissa(), self.spec_scale()),
            (isize::MIN <= parts_trunc(self.spec_mantissa(), self.spec_scale()) <= isize::MAX) ==> r is Some,
    {
        proof { use_type_invariant(self); }
        to_isize_parts((self.mantissa, self.scale, self.negative))
    }
}


impl PartialEq for Number {
    /// Numbers are equal when their values are: `1.0` equals `1`.
    fn eq(&self, other: &Number) -> (r: bool) {
        self.same_value(other)
    }
}

impl PartialEqSpecImpl for Number {
    open spec fn obeys_eq_spec() -> bool {
        true
    }

    open spec fn eq_spec(&self, other: &Number) -> bool {
        parts_equal(self.spec_mantissa(), self.spec_scale(), other.spec_mantissa(), other.spec_scale())
    }
}

} // verus!
