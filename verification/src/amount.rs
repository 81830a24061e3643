//! Exact decimal amounts.
//!
//! An [`Amount`] is a decimal number `mantissa / 10^scale` with a 64-bit
//! mantissa and at most nine fractional digits. Sums, differences and
//! comparisons are computed by `rust_decimal`; this module states what they
//! return and proves that a sum that is returned is the exact sum.

use rust_decimal::Decimal;
use std::str::FromStr;
use vstd::arithmetic::mul::*;
use vstd::arithmetic::power::*;
use vstd::prelude::*;

verus! {

/// The largest number of fractional digits that an [`Amount`] can carry.
pub const MAX_SCALE: u32 = 9;

/// Ten to the power `n`.
pub open spec fn pow10(n: nat) -> int {
    pow(10, n)
}

/// The mathematical model of a decimal number: `mantissa / 10^scale`.
pub struct Dec {
    pub mantissa: int,
    pub scale: nat,
}

impl Dec {
    /// The number zero, without fractional digits.
    pub open spec fn zero() -> Dec {
        Dec { mantissa: 0, scale: 0 }
    }

    /// At most nine fractional digits.
    pub open spec fn scale_ok(self) -> bool {
        self.scale <= MAX_SCALE
    }

    /// The mantissa fits in 64 bits.
    pub open spec fn mantissa_ok(self) -> bool {
        i64::MIN <= self.mantissa <= i64::MAX
    }

    /// The number can be held by an [`Amount`].
    pub open spec fn wf(self) -> bool {
        self.scale_ok() && self.mantissa_ok()
    }

    /// The value in units of `10^-9`, the finest step an [`Amount`] can
    /// express. Two decimals denote the same number exactly when their units
    /// are equal.
    pub open spec fn units(self) -> int {
        self.mantissa * pow10((MAX_SCALE - self.scale) as nat)
    }

    /// The mantissa brought to the finer scale `scale`.
    pub open spec fn aligned(self, scale: nat) -> int {
        self.mantissa * pow10((scale - self.scale) as nat)
    }

    /// The finer of two scales.
    pub open spec fn finer_scale(self, other: Dec) -> nat {
        if self.scale >= other.scale {
            self.scale
        } else {
            other.scale
        }
    }

    /// The sum `self + other` in the representation that decimal addition
    /// gives it: a zero operand leaves the other operand as it is, otherwise
    /// both are aligned to the finer scale and the mantissas are added.
    pub open spec fn sum(self, other: Dec) -> Dec {
        if self.mantissa == 0 {
            other
        } else if other.mantissa == 0 {
            self
        } else {
            let scale = self.finer_scale(other);
            Dec { mantissa: self.aligned(scale) + other.aligned(scale), scale }
        }
    }

    /// The difference `self - other`, represented as [`Dec::sum`] represents
    /// a sum.
    pub open spec fn difference(self, other: Dec) -> Dec {
        if self.mantissa == 0 {
            Dec { mantissa: -other.mantissa, scale: other.scale }
        } else if other.mantissa == 0 {
            self
        } else {
            let scale = self.finer_scale(other);
            Dec { mantissa: self.aligned(scale) - other.aligned(scale), scale }
        }
    }

    /// The sum, if its mantissa fits in 64 bits.
    pub open spec fn checked_sum(self, other: Dec) -> Option<Dec> {
        if self.sum(other).mantissa_ok() {
            Some(self.sum(other))
        } else {
            None
        }
    }

    /// The difference, if its mantissa fits in 64 bits.
    pub open spec fn checked_difference(self, other: Dec) -> Option<Dec> {
        if self.difference(other).mantissa_ok() {
            Some(self.difference(other))
        } else {
            None
        }
    }

    /// The decimal made of `mantissa` and `scale`, if an [`Amount`] can hold
    /// it.
    pub open spec fn from_parts(mantissa: int, scale: nat) -> Option<Dec> {
        let d = Dec { mantissa, scale };
        if d.wf() {
            Some(d)
        } else {
            None
        }
    }
}

/// Ten to a power is positive, and powers of ten multiply by adding
/// exponents.
pub proof fn lemma_pow10(a: nat, b: nat)
    ensures
        pow10(a) > 0,
        pow10(a + b) == pow10(a) * pow10(b),
        pow10(0) == 1,
{
    lemma_pow_positive(10, a);
    lemma_pow_adds(10, a, b);
    lemma_pow0(10);
}

/// Bringing a mantissa to a finer scale does not change the value.
pub proof fn lemma_aligned_units(d: Dec, scale: nat)
    requires
        d.scale <= scale <= MAX_SCALE,
    ensures
        d.aligned(scale) * pow10((MAX_SCALE - scale) as nat) == d.units(),
{
    let up = (scale - d.scale) as nat;
    let rest = (MAX_SCALE - scale) as nat;
    lemma_pow10(up, rest);
    assert(up + rest == (MAX_SCALE - d.scale) as nat);
    lemma_mul_is_associative(d.mantissa, pow10(up), pow10(rest));
}

/// Decimal addition is exact: the value of the sum is the sum of the values,
/// and the sum has no more fractional digits than its operands.
pub proof fn lemma_sum_exact(a: Dec, b: Dec)
    requires
        a.scale_ok(),
        b.scale_ok(),
    ensures
        a.sum(b).units() == a.units() + b.units(),
        a.sum(b).scale_ok(),
{
    if a.mantissa != 0 && b.mantissa != 0 {
        let scale = a.finer_scale(b);
        let rest = pow10((MAX_SCALE - scale) as nat);
        lemma_aligned_units(a, scale);
        lemma_aligned_units(b, scale);
        lemma_mul_is_distributive_add_other_way(rest, a.aligned(scale), b.aligned(scale));
    }
}

/// Decimal subtraction is exact: the value of the difference is the
/// difference of the values.
pub proof fn lemma_difference_exact(a: Dec, b: Dec)
    requires
        a.scale_ok(),
        b.scale_ok(),
    ensures
        a.difference(b).units() == a.units() - b.units(),
        a.difference(b).scale_ok(),
{
    if a.mantissa == 0 {
        let p = pow10((MAX_SCALE - b.scale) as nat);
        lemma_mul_unary_negation(b.mantissa, p);
    } else if b.mantissa != 0 {
        let scale = a.finer_scale(b);
        let rest = pow10((MAX_SCALE - scale) as nat);
        lemma_aligned_units(a, scale);
        lemma_aligned_units(b, scale);
        lemma_mul_is_distributive_sub_other_way(rest, a.aligned(scale), b.aligned(scale));
    }
}

/// A decimal amount with a 64-bit mantissa and at most nine fractional
/// digits.
#[derive(Clone, Copy, Debug)]
pub struct Amount {
    mantissa: i64,
    scale: u32,
}

impl View for Amount {
    type V = Dec;

    closed spec fn view(&self) -> Dec {
        Dec { mantissa: self.mantissa as int, scale: self.scale as nat }
    }
}

/// What `rust_decimal` reads from a text: the mantissa and the scale of the
/// decimal it parses, or `None` where it rejects the text.
pub uninterp spec fn decimal_text_value(text: Seq<u8>) -> Option<(i128, u32)>;

/// The text `rust_decimal` writes for `mantissa / 10^scale` when asked for
/// four fractional digits in a column of width fourteen.
pub uninterp spec fn decimal_column_text(mantissa: i64, scale: u32) -> Seq<char>;

/// `Decimal + Decimal` on two amounts, handed back as mantissa and scale.
/// With 64-bit mantissas and scales of at most nine the aligned result stays
/// below 2^96, where `rust_decimal` returns it without rounding: a zero
/// operand yields the other operand, otherwise the result has the finer scale.
#[verifier::external_body]
fn decimal_sum(a: Amount, b: Amount) -> (parts: (i128, u32))
    requires
        a@.wf(),
        b@.wf(),
    ensures
        parts.0 == a@.sum(b@).mantissa,
        parts.1 == a@.sum(b@).scale,
{
    let d = Decimal::new(a.mantissa, a.scale) + Decimal::new(b.mantissa, b.scale);
    (d.mantissa(), d.scale())
}

/// `Decimal - Decimal` on two amounts, handed back as mantissa and scale.
/// Subtraction is addition of the negated operand, with the same exactness in
/// this range; `0 - b` yields `b` with its sign turned.
#[verifier::external_body]
fn decimal_difference(a: Amount, b: Amount) -> (parts: (i128, u32))
    requires
        a@.wf(),
        b@.wf(),
    ensures
        parts.0 == a@.difference(b@).mantissa,
        parts.1 == a@.difference(b@).scale,
{
    let d = Decimal::new(a.mantissa, a.scale) - Decimal::new(b.mantissa, b.scale);
    (d.mantissa(), d.scale())
}

/// `Decimal > Decimal` on two amounts: the order of the numbers they denote,
/// whatever their scales.
#[verifier::external_body]
fn decimal_greater(a: Amount, b: Amount) -> (greater: bool)
    requires
        a@.wf(),
        b@.wf(),
    ensures
        greater == (a@.units() > b@.units()),
{
    Decimal::new(a.mantissa, a.scale) > Decimal::new(b.mantissa, b.scale)
}

/// `Decimal::from_str` on a byte string: mantissa and scale of the decimal
/// read, `None` where the bytes are not UTF-8 or are rejected.
#[verifier::external_body]
fn decimal_from_text(text: &[u8]) -> (parts: Option<(i128, u32)>)
    ensures
        parts == decimal_text_value(text@),
{
    let text = std::str::from_utf8(text).ok()?;
    let d = Decimal::from_str(text).ok()?;
    Some((d.mantissa(), d.scale()))
}

/// The `Display` of `Decimal` with width fourteen and precision four.
#[verifier::external_body]
fn decimal_column(a: Amount) -> (text: String)
    requires
        a@.wf(),
    ensures
        text@ == decimal_column_text(a@.mantissa as i64, a@.scale as u32),
{
    format!("{:14.4}", Decimal::new(a.mantissa, a.scale))
}

impl Amount {
    /// Every amount that executable code holds is well formed.
    #[verifier::type_invariant]
    pub open spec fn inv(self) -> bool {
        self@.wf()
    }

    /// The amount zero.
    pub fn zero() -> (amount: Amount)
        ensures
            amount@ == Dec::zero(),
    {
        Amount { mantissa: 0, scale: 0 }
    }

    /// The amount `mantissa / 10^scale`, or `None` where `scale` exceeds
    /// [`MAX_SCALE`].
    pub fn new(mantissa: i64, scale: u32) -> (amount: Option<Amount>)
        ensures
            amount matches Some(a) ==> a@ == (Dec { mantissa: mantissa as int, scale: scale as nat }),
            amount is Some <==> scale <= MAX_SCALE,
    {
        if scale <= MAX_SCALE {
            Some(Amount { mantissa, scale })
        } else {
            None
        }
    }

    /// The amount `mantissa / 10^scale`, or `None` where the mantissa does not
    /// fit in 64 bits or `scale` exceeds [`MAX_SCALE`].
    pub fn from_parts(mantissa: i128, scale: u32) -> (amount: Option<Amount>)
        ensures
            amount matches Some(a) ==> Some(a@) == Dec::from_parts(mantissa as int, scale as nat),
            amount is Some <==> Dec::from_parts(mantissa as int, scale as nat) is Some,
    {
        if scale <= MAX_SCALE && -0x8000_0000_0000_0000 <= mantissa && mantissa
            <= 0x7fff_ffff_ffff_ffff {
            Some(Amount { mantissa: mantissa as i64, scale })
        } else {
            None
        }
    }

    /// The mantissa.
    pub fn mantissa(&self) -> (mantissa: i64)
        ensures
            mantissa == self@.mantissa,
    {
        self.mantissa
    }

    /// The number of fractional digits.
    pub fn scale(&self) -> (scale: u32)
        ensures
            scale == self@.scale,
            scale <= MAX_SCALE,
    {
        proof {
            use_type_invariant(self);
        }
        self.scale
    }

    /// `self + other`, or `None` where the mantissa of the sum does not fit
    /// in 64 bits.
    pub fn checked_add(&self, other: &Amount) -> (sum: Option<Amount>)
        ensures
            sum matches Some(s) ==> Some(s@) == self@.checked_sum(other@)
                && s@.units() == self@.units() + other@.units(),
            sum is Some <==> self@.checked_sum(other@) is Some,
    {
        proof {
            use_type_invariant(self);
            use_type_invariant(other);
            lemma_sum_exact(self@, other@);
        }
        let parts = decimal_sum(*self, *other);
        Amount::from_parts(parts.0, parts.1)
    }

    /// `self - other`, or `None` where the mantissa of the difference does
    /// not fit in 64 bits.
    pub fn checked_sub(&self, other: &Amount) -> (difference: Option<Amount>)
        ensures
            difference matches Some(d) ==> Some(d@) == self@.checked_difference(other@)
                && d@.units() == self@.units() - other@.units(),
            difference is Some <==> self@.checked_difference(other@) is Some,
    {
        proof {
            use_type_invariant(self);
            use_type_invariant(other);
            lemma_difference_exact(self@, other@);
        }
        let parts = decimal_difference(*self, *other);
        Amount::from_parts(parts.0, parts.1)
    }

    /// Whether `self` is the greater number.
    pub fn gt(&self, other: &Amount) -> (greater: bool)
        ensures
            greater == (self@.units() > other@.units()),
    {
        proof {
            use_type_invariant(self);
            use_type_invariant(other);
        }
        decimal_greater(*self, *other)
    }

    /// Whether both denote the same number: `1.50` and `1.5` do.
    pub fn same_value(&self, other: &Amount) -> (same: bool)
        ensures
            same == (self@.units() == other@.units()),
    {
        !self.gt(other) && !other.gt(self)
    }

    /// Reads a decimal number from text. `None` where the text is no decimal
    /// number or the number has more digits than an amount can hold.
    pub fn parse(text: &[u8]) -> (amount: Option<Amount>)
        ensures
            match amount {
                Some(a) => Amount::parsed(decimal_text_value(text@)) == Some(a@),
                None => Amount::parsed(decimal_text_value(text@)) is None,
            },
    {
        let parts = decimal_from_text(text);
        let amount = Amount::from_decimal_parts(parts);
        amount
    }

    /// What [`Amount::parse`] makes of the decimal that was read.
    pub open spec fn parsed(parts: Option<(i128, u32)>) -> Option<Dec> {
        match parts {
            Some((mantissa, scale)) => Dec::from_parts(mantissa as int, scale as nat),
            None => None,
        }
    }

    /// The amount for a decimal given as mantissa and scale, where there is
    /// one and an amount can hold it.
    pub fn from_decimal_parts(parts: Option<(i128, u32)>) -> (amount: Option<Amount>)
        ensures
            match amount {
                Some(a) => Amount::parsed(parts) == Some(a@),
                None => Amount::parsed(parts) is None,
            },
    {
        match parts {
            Some((mantissa, scale)) => Amount::from_parts(mantissa, scale),
            None => None,
        }
    }

    /// The amount with four fractional digits, right-aligned in fourteen
    /// columns.
    pub fn to_column(&self) -> (text: String)
        ensures
            text@ == decimal_column_text(self@.mantissa as i64, self@.scale as u32),
    {
        proof {
            use_type_invariant(self);
        }
        decimal_column(*self)
    }
}

} // verus!
