//! Decimal numbers as plain values: a 96-bit magnitude in three words, a sign
//! and a scale.
//!
//! The order, the arithmetic, the parser and the printer are those of the
//! `rust_decimal` crate. They are reached through the private functions at the
//! end of this file, which take a number apart into the same five parts.

use core::cmp::Ordering;
use vstd::prelude::*;

verus! {

/// Ten to the power of `n`.
pub open spec fn pow10(n: nat) -> int
    decreases n,
{
    if n == 0 {
        1
    } else {
        10 * pow10((n - 1) as nat)
    }
}

/// Every magnitude is below this bound, two to the power of 96.
pub open spec fn magnitude_limit() -> nat {
    0x1_0000_0000_0000_0000_0000_0000
}

/// A decimal number: its magnitude divided by ten to the power of its scale,
/// negated when it carries a minus sign. Two decimals are equal when they denote
/// the same number, whatever their scales.
#[derive(Clone, Copy, Debug)]
pub struct Decimal {
    lo: u32,
    mid: u32,
    hi: u32,
    negative: bool,
    scale: u32,
}

impl Decimal {
    #[verifier::type_invariant]
    spec fn in_range(self) -> bool {
        self.wf()
    }

    /// The scale is in range: what every executable `Decimal` satisfies.
    pub open spec fn wf(self) -> bool {
        self.scale() <= 28
    }

    /// The digits of the number, read as one integer.
    pub closed spec fn magnitude(self) -> nat {
        self.lo as nat + self.mid as nat * 0x1_0000_0000 + self.hi as nat * 0x1_0000_0000_0000_0000
    }

    /// Whether the number carries a minus sign.
    pub closed spec fn negative(self) -> bool {
        self.negative
    }

    /// How many of the digits stand behind the decimal point.
    pub closed spec fn scale(self) -> nat {
        self.scale as nat
    }

    /// The digits with their sign.
    pub open spec fn signed(self) -> int {
        if self.negative() {
            -(self.magnitude() as int)
        } else {
            self.magnitude() as int
        }
    }

    /// The digits with their sign, once the number is written with `scale`
    /// fraction digits.
    pub open spec fn signed_at(self, scale: nat) -> int {
        self.signed() * pow10((scale - self.scale()) as nat)
    }

    /// The number that is denoted, in units of ten to the power of minus 28.
    pub open spec fn value(self) -> int {
        self.signed_at(28)
    }

    /// The number in the usual notation, with exactly `scale` fraction digits.
    pub open spec fn text(self) -> Seq<char> {
        let digits = padded_digits(self.magnitude(), self.scale() + 1);
        let whole = digits.take(digits.len() - self.scale());
        let fraction = digits.skip(digits.len() - self.scale());
        let sign = if self.negative() {
            seq!['-']
        } else {
            seq![]
        };
        if self.scale() == 0 {
            sign + whole
        } else {
            sign + whole + seq!['.'] + fraction
        }
    }
}

/// There is a decimal with any digits below the limit, either sign and any scale in range.
pub proof fn lemma_decimal_of(magnitude: nat, negative: bool, scale: nat) -> (d: Decimal)
    requires
        magnitude < magnitude_limit(),
        scale <= 28,
    ensures
        d.wf(),
        d.magnitude() == magnitude,
        d.negative() == negative,
        d.scale() == scale,
{
    Decimal {
        lo: (magnitude % 0x1_0000_0000) as u32,
        mid: (magnitude / 0x1_0000_0000 % 0x1_0000_0000) as u32,
        hi: (magnitude / 0x1_0000_0000_0000_0000) as u32,
        negative,
        scale: scale as u32,
    }
}

/// The decimal digits of `n`, most significant first, at least one.
pub open spec fn digits_of(n: nat) -> Seq<char>
    decreases n,
{
    if n < 10 {
        seq![digit_char(n)]
    } else {
        digits_of(n / 10).push(digit_char(n % 10))
    }
}

/// The character that stands for a digit.
pub open spec fn digit_char(d: nat) -> char {
    ('0' as u32 + d) as char
}

/// The digits of `n`, with zeros in front of them up to `width` characters.
pub open spec fn padded_digits(n: nat, width: nat) -> Seq<char> {
    let digits = digits_of(n);
    if digits.len() < width {
        Seq::new((width - digits.len()) as nat, |i: int| '0') + digits
    } else {
        digits
    }
}

/// A character of a number in the usual or in scientific notation.
pub open spec fn decimal_char(c: char) -> bool {
    ('0' <= c <= '9') || c == '+' || c == '-' || c == '.' || c == '_' || c == 'e' || c == 'E'
}

/// What the text of a number is at least: it has no other characters, one of them is a
/// digit, and at most one is a point.
pub open spec fn decimal_notation(text: Seq<char>) -> bool {
    &&& forall|i: int| 0 <= i < text.len() ==> decimal_char(#[trigger] text[i])
    &&& exists|i: int| 0 <= i < text.len() && '0' <= #[trigger] text[i] <= '9'
    &&& forall|i: int, j: int| 0 <= i < j < text.len() ==> !(text[i] == '.' && text[j] == '.')
}

/// The larger of the two scales.
pub open spec fn common_scale(a: Decimal, b: Decimal) -> nat {
    if a.scale() < b.scale() {
        b.scale()
    } else {
        a.scale()
    }
}

/// The integer is the signed magnitude of some decimal.
pub open spec fn fits(signed: int) -> bool {
    -magnitude_limit() < signed < magnitude_limit()
}

/// Both numbers can be written with the larger of their two scales.
pub open spec fn aligned(a: Decimal, b: Decimal) -> bool {
    &&& fits(a.signed_at(common_scale(a, b)))
    &&& fits(b.signed_at(common_scale(a, b)))
}

/// The sum needs no rounding.
pub open spec fn sum_is_exact(a: Decimal, b: Decimal) -> bool {
    let scale = common_scale(a, b);
    a.magnitude() == 0 || b.magnitude() == 0 || (aligned(a, b) && fits(
        a.signed_at(scale) + b.signed_at(scale),
    ))
}

/// The difference needs no rounding.
pub open spec fn difference_is_exact(a: Decimal, b: Decimal) -> bool {
    let scale = common_scale(a, b);
    a.magnitude() == 0 || b.magnitude() == 0 || (aligned(a, b) && fits(
        a.signed_at(scale) - b.signed_at(scale),
    ))
}

/// `d` has the given digits and scale, and no minus sign on zero.
pub open spec fn is_written(d: Decimal, signed: int, scale: nat) -> bool {
    &&& d.signed() == signed
    &&& d.scale() == scale
    &&& d.magnitude() == 0 ==> !d.negative()
}

/// Zero, without fraction digits or sign.
pub closed spec fn zero_decimal() -> Decimal {
    Decimal { lo: 0, mid: 0, hi: 0, negative: false, scale: 0 }
}

/// Zero is written "0".
pub proof fn lemma_zero_decimal()
    ensures
        zero_decimal().wf(),
        zero_decimal().magnitude() == 0,
        zero_decimal().scale() == 0,
        !zero_decimal().negative(),
        zero_decimal().value() == 0,
        zero_decimal().text() == seq!['0'],
{
    assert(0 * pow10(28) == 0);
    assert(zero_decimal().text() =~= seq!['0']);
}

/// There is one zero without fraction digits or sign.
pub proof fn lemma_zero_is(d: Decimal)
    requires
        d.magnitude() == 0,
        d.scale() == 0,
        !d.negative(),
    ensures
        d == zero_decimal(),
{
}

/// `a` is `b` with the other sign.
pub open spec fn opposite(a: Decimal, b: Decimal) -> bool {
    &&& a.magnitude() == b.magnitude()
    &&& a.scale() == b.scale()
    &&& a.negative() == !b.negative()
}

pub proof fn lemma_pow10_adds(m: nat, n: nat)
    ensures
        pow10(m + n) == pow10(m) * pow10(n),
    decreases m,
{
    if m > 0 {
        let k = (m - 1) as nat;
        lemma_pow10_adds(k, n);
        assert(10 * (pow10(k) * pow10(n)) == (10 * pow10(k)) * pow10(n)) by (nonlinear_arith);
    }
}

/// The number denoted does not depend on the scale with which it is written.
proof fn lemma_value_at(d: Decimal, scale: nat)
    requires
        d.scale() <= scale <= 28,
    ensures
        d.value() == d.signed_at(scale) * pow10((28 - scale) as nat),
{
    let m = (scale - d.scale()) as nat;
    let n = (28 - scale) as nat;
    lemma_pow10_adds(m, n);
    assert(d.signed() * (pow10(m) * pow10(n)) == (d.signed() * pow10(m)) * pow10(n))
        by (nonlinear_arith);
}

/// A number that is zero denotes zero.
proof fn lemma_zero_value(d: Decimal)
    requires
        d.magnitude() == 0,
    ensures
        d.value() == 0,
{
    assert(0 * pow10((28 - d.scale()) as nat) == 0);
}

/// The parts of an exact sum or difference denote the numbers that were asked for.
proof fn lemma_written_value(r: Decimal, a: Decimal, b: Decimal, sign: int)
    requires
        a.wf(),
        b.wf(),
        sign == 1 || sign == -1,
        is_written(
            r,
            a.signed_at(common_scale(a, b)) + sign * b.signed_at(common_scale(a, b)),
            common_scale(a, b),
        ),
    ensures
        r.value() == a.value() + sign * b.value(),
{
    let scale = common_scale(a, b);
    let x = a.signed_at(scale);
    let y = b.signed_at(scale);
    let p = pow10((28 - scale) as nat);
    lemma_value_at(a, scale);
    lemma_value_at(b, scale);
    assert((x + sign * y) * p == x * p + sign * (y * p)) by (nonlinear_arith);
}

// ---------------------------------------------------------------------------
// Normal forms
// ---------------------------------------------------------------------------

/// The number `signed` divided by ten to the power of `scale`, with as few
/// fraction digits as it needs.
pub open spec fn fewest_digits(signed: int, scale: nat) -> (int, nat)
    decreases scale,
{
    if scale > 0 && signed % 10 == 0 {
        fewest_digits(signed / 10, (scale - 1) as nat)
    } else {
        (signed, scale)
    }
}

/// One integer for each number that a decimal can denote.
pub open spec fn tick_of(value: int) -> int {
    let (signed, scale) = fewest_digits(value, 28);
    if signed < 0 {
        -signed * 64 + scale * 2 + 1
    } else {
        signed * 64 + scale * 2
    }
}

proof fn lemma_fewest_digits(signed: int, scale: nat)
    ensures
        fewest_digits(signed, scale).1 <= scale,
        signed == fewest_digits(signed, scale).0 * pow10(
            (scale - fewest_digits(signed, scale).1) as nat,
        ),
    decreases scale,
{
    if scale > 0 && signed % 10 == 0 {
        lemma_fewest_digits(signed / 10, (scale - 1) as nat);
        let (m, s) = fewest_digits(signed, scale);
        let k = (scale - 1 - s) as nat;
        assert(pow10((k + 1) as nat) == 10 * pow10(k));
        assert(m * (10 * pow10(k)) == 10 * (m * pow10(k))) by (nonlinear_arith);
        assert((scale - s) as nat == (k + 1) as nat);
    } else {
        assert(pow10(0) == 1);
    }
}

/// Distinct numbers have distinct ticks.
pub proof fn lemma_tick_injective(a: int, b: int)
    ensures
        tick_of(a) == tick_of(b) ==> a == b,
{
    lemma_fewest_digits(a, 28);
    lemma_fewest_digits(b, 28);
    let (x, m) = fewest_digits(a, 28);
    let (y, n) = fewest_digits(b, 28);
    if tick_of(a) == tick_of(b) {
        let p = if x < 0 {
            -x
        } else {
            x
        };
        let q = if y < 0 {
            -y
        } else {
            y
        };
        assert(p == q);
        assert(m == n);
        assert(x == y);
    }
}

proof fn lemma_fewest_digits_of_normal(signed: int, scale: nat, more: nat)
    requires
        scale == 0 || signed % 10 != 0,
    ensures
        fewest_digits(signed * pow10(more), scale + more) == (signed, scale),
    decreases more,
{
    let y = signed * pow10(more);
    if more > 0 {
        let less = (more - 1) as nat;
        let x = signed * pow10(less);
        lemma_fewest_digits_of_normal(signed, scale, less);
        assert(y == 10 * x) by (nonlinear_arith)
            requires
                y == signed * pow10(more),
                x == signed * pow10(less),
                pow10(more) == 10 * pow10(less),
        ;
        assert(y % 10 == 0 && y / 10 == x);
        assert(scale + more - 1 == scale + less);
        assert(fewest_digits(y, scale + more) == fewest_digits(x, scale + less));
    } else {
        assert(pow10(0) == 1);
        assert(y == signed);
    }
}

proof fn lemma_zero_digits(scale: nat)
    ensures
        fewest_digits(0, scale) == (0int, 0nat),
    decreases scale,
{
    if scale > 0 {
        lemma_zero_digits((scale - 1) as nat);
    }
}

pub proof fn lemma_pow10_positive(n: nat)
    ensures
        pow10(n) > 0,
    decreases n,
{
    if n > 0 {
        lemma_pow10_positive((n - 1) as nat);
    }
}

impl Decimal {
    /// Whether the number is zero.
    pub fn is_zero(&self) -> (r: bool)
        ensures
            r == (self.magnitude() == 0),
            r == (self.value() == 0),
    {
        proof {
            lemma_pow10_positive((28 - self.scale()) as nat);
            assert(self.signed() != 0 ==> self.signed() * pow10((28 - self.scale()) as nat) != 0)
                by (nonlinear_arith)
                requires
                    pow10((28 - self.scale()) as nat) > 0,
            ;
        }
        self.lo == 0 && self.mid == 0 && self.hi == 0
    }

    /// One integer for each number: equal numbers give the same one, whatever
    /// their scales.
    pub fn tick(&self) -> (r: u128)
        ensures
            r == tick_of(self.value()),
    {
        proof {
            use_type_invariant(self);
        }
        let n = outside_normalize(*self);
        let magnitude: u128 = n.lo as u128 + n.mid as u128 * 0x1_0000_0000 + n.hi as u128
            * 0x1_0000_0000_0000_0000;
        proof {
            assert(self.value() == n.signed() * pow10((28 - n.scale()) as nat));
            if n.magnitude() == 0 {
                lemma_zero_digits(28);
                assert(0 * pow10((28 - n.scale()) as nat) == 0);
            } else {
                lemma_fewest_digits_of_normal(n.signed(), n.scale(), (28 - n.scale()) as nat);
            }
        }
        let sign: u128 = if n.negative {
            1
        } else {
            0
        };
        magnitude * 64 + n.scale as u128 * 2 + sign
    }
}

impl Decimal {
    /// Zero, without fraction digits.
    pub fn zero() -> (r: Decimal)
        ensures
            r == zero_decimal(),
    {
        Decimal { lo: 0, mid: 0, hi: 0, negative: false, scale: 0 }
    }

    /// A whole number.
    pub fn from(n: u32) -> (r: Decimal)
        ensures
            r.magnitude() == n,
            r.scale() == 0,
            !r.negative(),
    {
        Decimal { lo: n, mid: 0, hi: 0, negative: false, scale: 0 }
    }

    /// Reads a number in the usual notation.
    pub fn from_str(text: &str) -> (r: Option<Decimal>)
        ensures
            r == parsed_decimal(text@),
            r is Some ==> decimal_notation(text@),
            forall|d: Decimal|
                d.wf() && !(d.negative() && d.magnitude() == 0) && text@ == #[trigger] d.text()
                    ==> r == Some(d),
    {
        outside_parse(text)
    }

    /// Writes the number in the usual notation.
    pub fn to_string(&self) -> (r: String)
        ensures
            r@ == self.text(),
    {
        proof {
            use_type_invariant(self);
        }
        outside_text(*self)
    }

    /// The sum, or `None` where no decimal can hold it.
    pub fn checked_add(self, other: Decimal) -> (r: Option<Decimal>)
        ensures
            r == decimal_sum(self, other),
            self.magnitude() == 0 ==> r == Some(other),
            self.magnitude() != 0 && other.magnitude() == 0 ==> r == Some(self),
            ({
                let scale = common_scale(self, other);
                let sum = self.signed_at(scale) + other.signed_at(scale);
                self.magnitude() != 0 && other.magnitude() != 0 && aligned(self, other) && fits(sum)
                    ==> r is Some && is_written(r->0, sum, scale)
            }),
            sum_is_exact(self, other) ==> r is Some && r->0.value() == self.value()
                + other.value(),
    {
        proof {
            use_type_invariant(&self);
            use_type_invariant(&other);
        }
        let r = outside_add(self, other);
        proof {
            if self.magnitude() == 0 {
                lemma_zero_value(self);
            } else if other.magnitude() == 0 {
                lemma_zero_value(other);
            } else if sum_is_exact(self, other) {
                lemma_written_value(r->0, self, other, 1);
            }
        }
        r
    }

    /// The difference, or `None` where no decimal can hold it.
    pub fn checked_sub(self, other: Decimal) -> (r: Option<Decimal>)
        ensures
            r == decimal_difference(self, other),
            self.magnitude() == 0 && other.magnitude() == 0 ==> r == Some(other),
            self.magnitude() == 0 && other.magnitude() != 0 ==> r is Some && opposite(r->0, other),
            self.magnitude() != 0 && other.magnitude() == 0 ==> r == Some(self),
            ({
                let scale = common_scale(self, other);
                let difference = self.signed_at(scale) - other.signed_at(scale);
                self.magnitude() != 0 && other.magnitude() != 0 && aligned(self, other) && fits(
                    difference,
                ) ==> r is Some && is_written(r->0, difference, scale)
            }),
            difference_is_exact(self, other) ==> r is Some && r->0.value() == self.value()
                - other.value(),
    {
        proof {
            use_type_invariant(&self);
            use_type_invariant(&other);
        }
        let r = outside_sub(self, other);
        proof {
            if self.magnitude() == 0 {
                lemma_zero_value(self);
                if other.magnitude() == 0 {
                    lemma_zero_value(other);
                } else {
                    let p = pow10((28 - other.scale()) as nat);
                    assert(-other.signed() * p == -(other.signed() * p)) by (nonlinear_arith);
                }
            } else if other.magnitude() == 0 {
                lemma_zero_value(other);
            } else if difference_is_exact(self, other) {
                lemma_written_value(r->0, self, other, -1);
            }
        }
        r
    }

    /// Whether this number is less than `other`.
    pub fn less_than(&self, other: &Decimal) -> (r: bool)
        ensures
            r == (self.value() < other.value()),
    {
        proof {
            use_type_invariant(self);
            use_type_invariant(other);
        }
        match outside_order(*self, *other) {
            Ordering::Less => true,
            _ => false,
        }
    }
}

impl PartialEq for Decimal {
    #[verifier::spinoff_prover]
    fn eq(&self, other: &Decimal) -> (r: bool) {
        proof {
            use_type_invariant(self);
            use_type_invariant(other);
        }
        let order = outside_order(*self, *other);
        let r = match order {
            Ordering::Equal => true,
            _ => false,
        };
        assert(order == Ordering::Equal <==> self.value() == other.value());
        assert(r == (self.value() == other.value()));
        r
    }
}

impl vstd::std_specs::cmp::PartialEqSpecImpl for Decimal {
    open spec fn obeys_eq_spec() -> bool {
        true
    }

    open spec fn eq_spec(&self, other: &Decimal) -> bool {
        self.value() == other.value()
    }
}

impl Eq for Decimal {

}

impl PartialOrd for Decimal {
    fn partial_cmp(&self, other: &Decimal) -> (r: Option<Ordering>) {
        proof {
            use_type_invariant(self);
            use_type_invariant(other);
        }
        Some(outside_order(*self, *other))
    }
}

impl vstd::std_specs::cmp::PartialOrdSpecImpl for Decimal {
    open spec fn obeys_partial_cmp_spec() -> bool {
        true
    }

    open spec fn partial_cmp_spec(&self, other: &Decimal) -> Option<Ordering> {
        if self.value() < other.value() {
            Some(Ordering::Less)
        } else if self.value() == other.value() {
            Some(Ordering::Equal)
        } else {
            Some(Ordering::Greater)
        }
    }
}

// ---------------------------------------------------------------------------
// Outside functions
// ---------------------------------------------------------------------------

/// `rust_decimal::Decimal::cmp`: the order of the two numbers denoted.
#[verifier::external_body]
fn outside_order(a: Decimal, b: Decimal) -> (r: Ordering)
    requires
        a.wf(),
        b.wf(),
    ensures
        r == (if a.value() < b.value() {
            Ordering::Less
        } else if a.value() == b.value() {
            Ordering::Equal
        } else {
            Ordering::Greater
        }),
{
    let mut x = rust_decimal::Decimal::from_parts(a.lo, a.mid, a.hi, a.negative, a.scale);
    x.set_sign_negative(a.negative);
    let mut y = rust_decimal::Decimal::from_parts(b.lo, b.mid, b.hi, b.negative, b.scale);
    y.set_sign_negative(b.negative);
    x.cmp(&y)
}

/// `rust_decimal::Decimal::normalize`: the same number with no fraction digit to
/// spare, and zero without a sign.
#[verifier::external_body]
fn outside_normalize(a: Decimal) -> (r: Decimal)
    requires
        a.wf(),
    ensures
        r.wf(),
        r.value() == a.value(),
        r.scale() == 0 || r.magnitude() % 10 != 0,
        r.magnitude() == 0 ==> r.scale() == 0 && !r.negative(),
{
    let mut x = rust_decimal::Decimal::from_parts(a.lo, a.mid, a.hi, a.negative, a.scale);
    x.set_sign_negative(a.negative);
    let y = x.normalize().unpack();
    Decimal { lo: y.lo, mid: y.mid, hi: y.hi, negative: y.negative, scale: y.scale }
}

/// The number that a text denotes, if `rust_decimal` takes it for one.
pub uninterp spec fn parsed_decimal(text: Seq<char>) -> Option<Decimal>;

/// The parser of `rust_decimal`, `Decimal::from_str`: its result is a function of
/// the text. A number that was printed is read back as it was. (The minus sign of
/// a zero is not: it is dropped.) A text with other characters, with two points or
/// without a digit is not read.
#[verifier::external_body]
fn outside_parse(text: &str) -> (r: Option<Decimal>)
    ensures
        r == parsed_decimal(text@),
        r is Some ==> r->0.wf(),
        r is Some ==> decimal_notation(text@),
        forall|d: Decimal|
            d.wf() && !(d.negative() && d.magnitude() == 0) && text@ == #[trigger] d.text() ==> r
                == Some(d),
{
    let y = text.parse::<rust_decimal::Decimal>().ok()?.unpack();
    Some(Decimal { lo: y.lo, mid: y.mid, hi: y.hi, negative: y.negative, scale: y.scale })
}

/// The `Display` of `rust_decimal::Decimal`, without width or precision: the
/// digits with the point in front of the last `scale` of them, a zero where no
/// digit would stand in front of the point, and the minus sign.
#[verifier::external_body]
fn outside_text(a: Decimal) -> (r: String)
    requires
        a.wf(),
    ensures
        r@ == a.text(),
{
    let mut x = rust_decimal::Decimal::from_parts(a.lo, a.mid, a.hi, a.negative, a.scale);
    x.set_sign_negative(a.negative);
    x.to_string()
}

/// The sum of two decimals, if `rust_decimal` can hold it.
pub uninterp spec fn decimal_sum(a: Decimal, b: Decimal) -> Option<Decimal>;

/// `rust_decimal::Decimal::checked_add`: its result is a function of the summands.
/// Zero is neutral, and a sum that needs no rounding has the larger scale. Where
/// digits have to be dropped the rounding is left to the name.
#[verifier::external_body]
fn outside_add(a: Decimal, b: Decimal) -> (r: Option<Decimal>)
    requires
        a.wf(),
        b.wf(),
    ensures
        r == decimal_sum(a, b),
        r is Some ==> r->0.wf(),
        a.magnitude() == 0 ==> r == Some(b),
        a.magnitude() != 0 && b.magnitude() == 0 ==> r == Some(a),
        ({
            let scale = common_scale(a, b);
            let sum = a.signed_at(scale) + b.signed_at(scale);
            a.magnitude() != 0 && b.magnitude() != 0 && aligned(a, b) && fits(sum) ==> r is Some
                && is_written(r->0, sum, scale)
        }),
{
    let mut x = rust_decimal::Decimal::from_parts(a.lo, a.mid, a.hi, a.negative, a.scale);
    x.set_sign_negative(a.negative);
    let mut y = rust_decimal::Decimal::from_parts(b.lo, b.mid, b.hi, b.negative, b.scale);
    y.set_sign_negative(b.negative);
    let z = x.checked_add(y)?.unpack();
    Some(Decimal { lo: z.lo, mid: z.mid, hi: z.hi, negative: z.negative, scale: z.scale })
}

/// The difference of two decimals, if `rust_decimal` can hold it.
pub uninterp spec fn decimal_difference(a: Decimal, b: Decimal) -> Option<Decimal>;

/// `rust_decimal::Decimal::checked_sub`: its result is a function of the two
/// numbers. Zero is neutral, and a difference that needs no rounding has the
/// larger scale. Where digits have to be dropped the rounding is left to the name.
#[verifier::external_body]
fn outside_sub(a: Decimal, b: Decimal) -> (r: Option<Decimal>)
    requires
        a.wf(),
        b.wf(),
    ensures
        r == decimal_difference(a, b),
        r is Some ==> r->0.wf(),
        a.magnitude() == 0 && b.magnitude() == 0 ==> r == Some(b),
        a.magnitude() == 0 && b.magnitude() != 0 ==> r is Some && opposite(r->0, b),
        a.magnitude() != 0 && b.magnitude() == 0 ==> r == Some(a),
        ({
            let scale = common_scale(a, b);
            let difference = a.signed_at(scale) - b.signed_at(scale);
            a.magnitude() != 0 && b.magnitude() != 0 && aligned(a, b) && fits(difference) ==> r
                is Some && is_written(r->0, difference, scale)
        }),
{
    let mut x = rust_decimal::Decimal::from_parts(a.lo, a.mid, a.hi, a.negative, a.scale);
    x.set_sign_negative(a.negative);
    let mut y = rust_decimal::Decimal::from_parts(b.lo, b.mid, b.hi, b.negative, b.scale);
    y.set_sign_negative(b.negative);
    let z = x.checked_sub(y)?.unpack();
    Some(Decimal { lo: z.lo, mid: z.mid, hi: z.hi, negative: z.negative, scale: z.scale })
}

} // verus!
