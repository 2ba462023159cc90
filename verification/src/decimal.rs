//! Exact decimal numbers.
//!
//! A [`Quantity`] holds what a `rust_decimal::Decimal` holds, as plain values:
//! a whole number of at most 96 bits and how many of its digits are decimal
//! places. The arithmetic is that crate's; what it promises is stated here
//! over [`Num`], the mathematical reading of a quantity.

use vstd::prelude::*;
use rust_decimal::Decimal;
use std::str::FromStr;
use crate::text::{self, CharClass};

verus! {

/// A decimal number: `mantissa` divided by ten to the power of `scale`.
#[verifier::ext_equal]
pub struct Num {
    pub mantissa: int,
    pub scale: nat,
}

/// The first number that no longer fits in 96 bits.
pub open spec fn limit() -> int {
    79228162514264337593543950336
}

/// The most decimal places a quantity can have.
pub open spec fn max_scale() -> nat {
    28
}

/// Ten to the power of `n`.
pub open spec fn pow10(n: nat) -> int
    decreases n,
{
    if n == 0 {
        1
    } else {
        10 * pow10((n - 1) as nat)
    }
}

pub open spec fn abs(n: int) -> int {
    if n < 0 {
        -n
    } else {
        n
    }
}

/// Whether a number fits in 96 bits.
pub open spec fn fits(n: int) -> bool {
    -limit() < n < limit()
}

impl Num {
    pub open spec fn zero() -> Num {
        Num { mantissa: 0, scale: 0 }
    }

    /// Whether a quantity can hold this number.
    pub open spec fn representable(self) -> bool {
        fits(self.mantissa) && self.scale <= max_scale()
    }

    /// The mantissa once the number is written with `scale` decimal places.
    pub open spec fn at(self, scale: nat) -> int {
        self.mantissa * pow10((scale - self.scale) as nat)
    }

    pub open spec fn abs(self) -> Num {
        Num { mantissa: abs(self.mantissa), scale: self.scale }
    }

    /// Without the zeros at the end of its decimal places.
    pub open spec fn normal(self) -> Num
        decreases self.scale,
    {
        if self.mantissa == 0 {
            Num::zero()
        } else if self.scale > 0 && self.mantissa % 10 == 0 {
            (Num { mantissa: self.mantissa / 10, scale: (self.scale - 1) as nat }).normal()
        } else {
            self
        }
    }

    /// Written with more decimal places: a zero at a time until there are
    /// `places` of them or the next would not fit.
    pub open spec fn grown(self, places: nat) -> Num
        decreases places - self.scale,
    {
        if self.scale >= places || !fits(self.mantissa * 10) {
            self
        } else {
            (Num { mantissa: self.mantissa * 10, scale: self.scale + 1 }).grown(places)
        }
    }

    /// Whether the number can be written with `places` decimal places without
    /// rounding.
    pub open spec fn exact_at(self, places: nat) -> bool {
        self.mantissa == 0 || places >= self.scale || self.mantissa % pow10(
            (self.scale - places) as nat,
        ) == 0
    }

    /// Written with `places` decimal places, or as close to it as fits.
    pub open spec fn rescaled(self, places: nat) -> Num {
        if self.mantissa == 0 {
            Num { mantissa: 0, scale: if places < max_scale() { places } else { max_scale() } }
        } else if places <= self.scale {
            Num { mantissa: self.mantissa / pow10((self.scale - places) as nat), scale: places }
        } else {
            self.grown(places)
        }
    }

    /// Whether two numbers have the same value.
    pub open spec fn equals(self, other: Num) -> bool {
        self.normal() == other.normal()
    }
}

/// The larger of two scales.
pub open spec fn wider(a: Num, b: Num) -> nat {
    if a.scale < b.scale {
        b.scale
    } else {
        a.scale
    }
}

/// Whether the sum (or, with `b` negated, the difference) of two numbers fits
/// once both are written with the same number of decimal places.
pub open spec fn sum_fits(a: Num, b: Num) -> bool {
    let s = wider(a, b);
    a.mantissa == 0 || b.mantissa == 0 || (fits(a.at(s)) && fits(b.at(s)) && fits(a.at(s) + b.at(s)))
}

/// The sum. A zero adds nothing, not even decimal places.
pub open spec fn exact_sum(a: Num, b: Num) -> Num {
    let s = wider(a, b);
    if a.mantissa == 0 {
        b
    } else if b.mantissa == 0 {
        a
    } else {
        Num { mantissa: a.at(s) + b.at(s), scale: s }
    }
}

pub open spec fn negated(a: Num) -> Num {
    Num { mantissa: -a.mantissa, scale: a.scale }
}

/// Whether the product of two numbers fits.
pub open spec fn product_fits(a: Num, b: Num) -> bool {
    a.mantissa == 0 || b.mantissa == 0 || (a.scale + b.scale <= max_scale() && fits(
        a.mantissa * b.mantissa,
    ))
}

/// The product. Nothing times anything is a plain zero.
pub open spec fn exact_product(a: Num, b: Num) -> Num {
    if a.mantissa == 0 || b.mantissa == 0 {
        Num::zero()
    } else {
        Num { mantissa: a.mantissa * b.mantissa, scale: a.scale + b.scale }
    }
}

/// `n` with exactly `width` digits, the higher ones dropped.
pub open spec fn fixed_digits(n: nat, width: nat) -> Seq<char>
    decreases width,
{
    if width == 0 {
        Seq::empty()
    } else {
        fixed_digits(n / 10, (width - 1) as nat).push(text::digit_char(n % 10))
    }
}

/// A number without a sign as text: its whole part, and its decimal places
/// behind a point where there are any.
pub open spec fn unsigned_text(m: nat, scale: nat) -> Seq<char> {
    let p = pow10(scale) as nat;
    if scale == 0 {
        text::digits_spec(m)
    } else {
        text::digits_spec(m / p) + seq!['.'] + fixed_digits(m % p, scale)
    }
}

/// A number as text.
pub open spec fn num_text(n: Num) -> Seq<char> {
    if n.mantissa < 0 {
        seq!['-'] + unsigned_text(abs(n.mantissa) as nat, n.scale)
    } else {
        unsigned_text(n.mantissa as nat, n.scale)
    }
}

/// The number that a plain decimal text writes: a sign or none, digits, and
/// more digits behind a point or not, at least one digit in all. `None` for
/// any other text, and where the number is too long to hold.
pub open spec fn plain_decimal(s: Seq<char>) -> Option<Num> {
    let signed = s.len() > 0 && CharClass::Sign.has(s[0]);
    let body = if signed {
        s.skip(1)
    } else {
        s
    };
    let n = text::run_spec(body, CharClass::Digit, true);
    let whole = body.take(n);
    let frac = if n < body.len() {
        body.skip(n + 1)
    } else {
        Seq::empty()
    };
    let m = text::digits_value(whole + frac) as int;
    if body.len() > 0 && (n < body.len() ==> body[n] == '.') && text::all_digits(frac) && whole.len()
        + frac.len() > 0 && frac.len() <= max_scale() && fits(m) {
        Some(Num { mantissa: if signed && s[0] == '-' { -m } else { m }, scale: frac.len() })
    } else {
        None
    }
}

/// What `Decimal::from_str` reads from a text, if it reads anything.
pub uninterp spec fn decimal_of(s: Seq<char>) -> Option<Num>;

/// The number that a text is read as: a plain decimal as it is written, and
/// any other text as `Decimal::from_str` reads it. Whatever is read fits.
pub open spec fn decimal_read(s: Seq<char>) -> Option<Num> {
    match plain_decimal(s) {
        Some(n) => Some(n),
        None => match decimal_of(s) {
            Some(n) if n.representable() => Some(n),
            _ => None,
        },
    }
}

/// What `Decimal::checked_add` gives for two numbers.
pub uninterp spec fn decimal_sum(a: Num, b: Num) -> Option<Num>;

/// What `Decimal::checked_sub` gives for two numbers.
pub uninterp spec fn decimal_difference(a: Num, b: Num) -> Option<Num>;

/// What `Decimal::checked_mul` gives for two numbers.
pub uninterp spec fn decimal_product(a: Num, b: Num) -> Option<Num>;

/// A result that a quantity can hold.
pub open spec fn held(n: Option<Num>) -> Option<Num> {
    match n {
        Some(n) if n.representable() => Some(n),
        _ => None,
    }
}

/// The sum of two numbers: exact where it fits, and as `Decimal::checked_add`
/// rounds it, if it gives one, where it does not.
pub open spec fn sum_of(a: Num, b: Num) -> Option<Num> {
    if sum_fits(a, b) {
        Some(exact_sum(a, b))
    } else {
        held(decimal_sum(a, b))
    }
}

/// The difference of two numbers: exact where it fits, and as
/// `Decimal::checked_sub` rounds it, if it gives one, where it does not.
pub open spec fn difference_of(a: Num, b: Num) -> Option<Num> {
    if sum_fits(a, negated(b)) {
        Some(exact_sum(a, negated(b)))
    } else {
        held(decimal_difference(a, b))
    }
}

/// The product of two numbers: exact where it fits, and as
/// `Decimal::checked_mul` rounds it, if it gives one, where it does not.
pub open spec fn product_of(a: Num, b: Num) -> Option<Num> {
    if product_fits(a, b) {
        Some(exact_product(a, b))
    } else {
        held(decimal_product(a, b))
    }
}

/// The number of an optional quantity.
pub open spec fn opt_num(q: Option<Quantity>) -> Option<Num> {
    match q {
        Some(q) => Some(q@),
        None => None,
    }
}

/// An exact decimal number of at most 96 bits and 28 decimal places.
#[derive(Debug, Clone, Copy)]
pub struct Quantity {
    mantissa: i128,
    scale: u32,
}

impl View for Quantity {
    type V = Num;

    closed spec fn view(&self) -> Num {
        Num { mantissa: self.mantissa as int, scale: self.scale as nat }
    }
}

impl Quantity {
    #[verifier::type_invariant]
    spec fn inv(self) -> bool {
        fits(self.mantissa as int) && self.scale <= 28
    }

    /// The number `mantissa / 10^scale`, where it fits.
    pub fn new(mantissa: i128, scale: u32) -> (r: Option<Quantity>)
        ensures
            opt_num(r) == (if (Num { mantissa: mantissa as int, scale: scale as nat }).representable() {
                Some(Num { mantissa: mantissa as int, scale: scale as nat })
            } else {
                None
            }),
    {
        if scale <= 28 && mantissa > -79228162514264337593543950336 && mantissa
            < 79228162514264337593543950336 {
            Some(Quantity { mantissa, scale })
        } else {
            None
        }
    }

    /// Nothing.
    pub fn zero() -> (r: Quantity)
        ensures
            r@ == Num::zero(),
    {
        Quantity { mantissa: 0, scale: 0 }
    }

    /// How many decimal places it has.
    pub fn scale(&self) -> (r: u32)
        ensures
            r == self@.scale,
            self@.representable(),
    {
        proof {
            use_type_invariant(self);
        }
        self.scale
    }

    /// Whether there is nothing of it.
    pub fn is_zero(&self) -> (r: bool)
        ensures
            r == (self@.mantissa == 0),
    {
        self.mantissa == 0
    }

    /// Whether it is below zero.
    pub fn is_negative(&self) -> (r: bool)
        ensures
            r == (self@.mantissa < 0),
    {
        self.mantissa < 0
    }

    /// Without its sign.
    pub fn abs(&self) -> (r: Quantity)
        ensures
            r@ == self@.abs(),
    {
        proof {
            use_type_invariant(self);
        }
        if self.mantissa < 0 {
            Quantity { mantissa: -self.mantissa, scale: self.scale }
        } else {
            *self
        }
    }

    /// Whether it is the same number with the same decimal places.
    pub fn is_written_as(&self, other: Quantity) -> (r: bool)
        ensures
            r == (self@ == other@),
    {
        self.mantissa == other.mantissa && self.scale == other.scale
    }

    /// `Decimal::from_str` of `rust_decimal`: reads a text as a number, the
    /// result a function of the text. A plain decimal that fits is read
    /// exactly as written, its decimal places counted.
    #[verifier::external_body]
    pub(crate) fn parse(s: &str) -> (r: Option<Quantity>)
        ensures
            opt_num(r) == (match plain_decimal(s@) {
                Some(n) => Some(n),
                None => decimal_of(s@),
            }),
    {
        Decimal::from_str(s).ok().map(|d| Quantity { mantissa: d.mantissa(), scale: d.scale() })
    }

    /// Reads a text as a number.
    pub(crate) fn read(s: &str) -> (r: Option<Quantity>)
        ensures
            opt_num(r) == decimal_read(s@),
    {
        match Quantity::parse(s) {
            Some(q) => {
                proof {
                    use_type_invariant(&q);
                }
                Some(q)
            },
            None => None,
        }
    }

    /// `Decimal::checked_add` of `rust_decimal`: the sum, exact with the wider
    /// scale of the two where it fits, and one operand unchanged where the
    /// other is zero. Where it does not fit the crate rounds or gives up, and
    /// what it gives fits.
    #[verifier::external_body]
    pub(crate) fn checked_sum(self, other: Quantity) -> (r: Option<Quantity>)
        ensures
            opt_num(r) == (if sum_fits(self@, other@) {
                Some(exact_sum(self@, other@))
            } else {
                held(decimal_sum(self@, other@))
            }),
    {
        let a = Decimal::from_i128_with_scale(self.mantissa, self.scale);
        let b = Decimal::from_i128_with_scale(other.mantissa, other.scale);
        a.checked_add(b).map(|d| Quantity { mantissa: d.mantissa(), scale: d.scale() })
    }

    /// `Decimal::checked_sub` of `rust_decimal`: the difference, exact under
    /// the same condition as a sum.
    #[verifier::external_body]
    pub(crate) fn checked_difference(self, other: Quantity) -> (r: Option<Quantity>)
        ensures
            opt_num(r) == (if sum_fits(self@, negated(other@)) {
                Some(exact_sum(self@, negated(other@)))
            } else {
                held(decimal_difference(self@, other@))
            }),
    {
        let a = Decimal::from_i128_with_scale(self.mantissa, self.scale);
        let b = Decimal::from_i128_with_scale(other.mantissa, other.scale);
        a.checked_sub(b).map(|d| Quantity { mantissa: d.mantissa(), scale: d.scale() })
    }

    /// `Decimal::checked_mul` of `rust_decimal`: the product, exact with the
    /// scales added where it fits. Where it does not fit the crate rounds or
    /// gives up, and what it gives fits.
    #[verifier::external_body]
    pub(crate) fn checked_product(self, other: Quantity) -> (r: Option<Quantity>)
        ensures
            opt_num(r) == (if product_fits(self@, other@) {
                Some(exact_product(self@, other@))
            } else {
                held(decimal_product(self@, other@))
            }),
    {
        let a = Decimal::from_i128_with_scale(self.mantissa, self.scale);
        let b = Decimal::from_i128_with_scale(other.mantissa, other.scale);
        a.checked_mul(b).map(|d| Quantity { mantissa: d.mantissa(), scale: d.scale() })
    }

    /// `Decimal::normalize` of `rust_decimal`: the same value without trailing
    /// zeros in its decimal places.
    #[verifier::external_body]
    pub(crate) fn normalize(self) -> (r: Quantity)
        ensures
            r@ == self@.normal(),
    {
        let d = Decimal::from_i128_with_scale(self.mantissa, self.scale).normalize();
        Quantity { mantissa: d.mantissa(), scale: d.scale() }
    }

    /// `Decimal::rescale` of `rust_decimal`: the same value with `places`
    /// decimal places, or with as many of them as fit. Only asked for where
    /// nothing would be rounded away and a quantity can hold that many places.
    #[verifier::external_body]
    pub(crate) fn rescale(self, places: u32) -> (r: Quantity)
        requires
            self@.exact_at(places as nat),
            places <= max_scale(),
        ensures
            r@ == self@.rescaled(places as nat),
    {
        let mut d = Decimal::from_i128_with_scale(self.mantissa, self.scale);
        d.rescale(places);
        Quantity { mantissa: d.mantissa(), scale: d.scale() }
    }

    /// `Display` of `rust_decimal`'s `Decimal`: the digits, with a point
    /// before the decimal places and a minus before a negative number.
    #[verifier::external_body]
    pub(crate) fn to_text(self) -> (r: String)
        ensures
            r@ == num_text(self@),
    {
        Decimal::from_i128_with_scale(self.mantissa, self.scale).to_string()
    }
}

/// Two quantities are equal where their values are: `1.50` equals `1.5`.
impl PartialEq for Quantity {
    fn eq(&self, other: &Self) -> (r: bool) {
        let a = self.normalize();
        let b = other.normalize();
        let r = a.mantissa == b.mantissa && a.scale == b.scale;
        assert(r == (a@ == b@));
        r
    }
}

impl vstd::std_specs::cmp::PartialEqSpecImpl for Quantity {
    open spec fn obeys_eq_spec() -> bool {
        true
    }

    open spec fn eq_spec(&self, other: &Self) -> bool {
        self@.equals(other@)
    }
}

impl Eq for Quantity {

}

} // verus!
