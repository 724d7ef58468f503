use vstd::prelude::*;

verus! {

/// `10^n`.
pub open spec fn pow10(n: nat) -> nat
    decreases n,
{
    if n == 0 {
        1
    } else {
        10 * pow10((n - 1) as nat)
    }
}

/// The largest scale (digits after the point) a decimal can carry.
pub const MAX_SCALE: u32 = 28;

/// `2^96`: mantissas are strictly smaller than this in magnitude.
pub open spec fn mantissa_limit() -> int {
    0x1_0000_0000_0000_0000_0000_0000
}

/// The value of the largest representable decimal, in units of `10^-28`.
pub open spec fn max_val() -> int {
    (mantissa_limit() - 1) * pow10(28)
}

/// A fixed-point decimal number `mantissa * 10^-scale`, the value held by
/// `rust_decimal::Decimal`.
#[derive(Clone, Copy, Debug)]
pub struct Dec {
    pub mantissa: i128,
    pub scale: u32,
}

/// `v` (in units of `10^-28`) is representable with exactly `scale` digits after the point.
pub open spec fn fits_at(v: int, scale: nat) -> bool {
    &&& scale <= 28
    &&& v % (pow10((28 - scale) as nat) as int) == 0
    &&& -mantissa_limit() < v / (pow10((28 - scale) as nat) as int) < mantissa_limit()
}

pub open spec fn abs(v: int) -> int {
    if v < 0 {
        -v
    } else {
        v
    }
}

pub open spec fn max_scale_of(a: Dec, b: Dec) -> nat {
    if a.scale <= b.scale {
        b.scale as nat
    } else {
        a.scale as nat
    }
}

/// `a + b` is representable exactly at the larger of the two scales.
pub open spec fn sum_is_exact(a: Dec, b: Dec) -> bool {
    fits_at(a.val() + b.val(), max_scale_of(a, b))
}

/// `a - b` is representable exactly at the larger of the two scales.
pub open spec fn difference_is_exact(a: Dec, b: Dec) -> bool {
    fits_at(a.val() - b.val(), max_scale_of(a, b))
}

/// Neither factor is zero and the digits of `a * b` fit in 96 bits at the summed scale,
/// at most 28.
pub open spec fn product_is_exact(a: Dec, b: Dec) -> bool {
    &&& a.mantissa != 0 && b.mantissa != 0
    &&& a.scale + b.scale <= 28
    &&& -mantissa_limit() < a.mantissa * b.mantissa < mantissa_limit()
}

impl Dec {
    /// A well-formed decimal: mantissa within 96 bits, scale at most 28.
    pub open spec fn wf(self) -> bool {
        &&& -mantissa_limit() < self.mantissa < mantissa_limit()
        &&& self.scale <= 28
    }

    /// The number's value in units of `10^-28`, so every decimal has an integer value.
    pub open spec fn val(self) -> int {
        self.mantissa * (pow10((28 - self.scale) as nat) as int)
    }

    /// Zero with no digits after the point.
    pub fn zero() -> (r: Dec)
        ensures
            r.wf(),
            r.val() == 0,
            r == (Dec { mantissa: 0, scale: 0 }),
    {
        Dec { mantissa: 0, scale: 0 }
    }

    /// The number `mantissa * 10^-scale`.
    pub fn new(mantissa: i128, scale: u32) -> (r: Dec)
        ensures
            r == (Dec { mantissa, scale }),
    {
        Dec { mantissa, scale }
    }

    /// Whether the number is a valid decimal: at most 28 digits after the point and a
    /// mantissa below `2^96` in magnitude.
    pub fn is_wf(&self) -> (r: bool)
        ensures
            r == self.wf(),
    {
        let limit: i128 = 0x1_0000_0000_0000_0000_0000_0000;
        self.scale <= MAX_SCALE && -limit < self.mantissa && self.mantissa < limit
    }

    /// Negation keeps the digits and the scale and flips the sign.
    pub fn neg(self) -> (r: Dec)
        requires
            self.wf(),
        ensures
            r.wf(),
            r.scale == self.scale,
            r.mantissa == -self.mantissa,
            r.val() == -self.val(),
    {
        proof {
            let p = pow10((28 - self.scale) as nat) as int;
            assert((-self.mantissa) * p == -(self.mantissa * p)) by (nonlinear_arith);
        }
        Dec { mantissa: -self.mantissa, scale: self.scale }
    }
}

pub proof fn lemma_pow10_pos(n: nat)
    ensures
        pow10(n) >= 1,
    decreases n,
{
    if n > 0 {
        lemma_pow10_pos((n - 1) as nat);
    }
}

/// Adding zero to a valid decimal is exact.
pub proof fn lemma_plus_zero_exact(x: Dec)
    requires
        x.wf(),
    ensures
        sum_is_exact(x, Dec { mantissa: 0, scale: 0 }),
        (Dec { mantissa: 0, scale: 0 }).val() == 0,
{
    let p = pow10((28 - x.scale) as nat) as int;
    lemma_pow10_pos((28 - x.scale) as nat);
    assert(x.mantissa * p == p * x.mantissa) by (nonlinear_arith);
    vstd::arithmetic::div_mod::lemma_mod_multiples_basic(x.mantissa as int, p);
    vstd::arithmetic::div_mod::lemma_div_multiples_vanish(x.mantissa as int, p);
    assert(0 * (pow10(28) as int) == 0);
}

/// Whether `a < b`, by value: `<` of `rust_decimal::Decimal`.
#[verifier::external_body]
pub(crate) fn dec_lt(a: Dec, b: Dec) -> (r: bool)
    requires
        a.wf(),
        b.wf(),
    ensures
        r == (a.val() < b.val()),
{
    let x = rust_decimal::Decimal::from_i128_with_scale(a.mantissa, a.scale);
    let y = rust_decimal::Decimal::from_i128_with_scale(b.mantissa, b.scale);
    x < y
}

/// What `rust_decimal::Decimal::checked_add` returns for two decimals.
pub uninterp spec fn checked_sum(a: Dec, b: Dec) -> Option<Dec>;

/// What `rust_decimal::Decimal::checked_sub` returns for two decimals.
pub uninterp spec fn checked_difference(a: Dec, b: Dec) -> Option<Dec>;

/// What `rust_decimal::Decimal::checked_mul` returns for two decimals.
pub uninterp spec fn checked_product(a: Dec, b: Dec) -> Option<Dec>;

/// What `rust_decimal::Decimal::checked_div` returns for two decimals.
pub uninterp spec fn checked_quotient(a: Dec, b: Dec) -> Option<Dec>;

/// What `rust_decimal::Decimal::round_dp` (round half to even) returns.
pub uninterp spec fn rounded(d: Dec, dp: u32) -> Dec;

/// What `rust_decimal::Decimal::round_dp_with_strategy` with `RoundingStrategy::ToZero` returns.
pub uninterp spec fn truncated(d: Dec, dp: u32) -> Dec;

/// Calls `rust_decimal::Decimal::checked_add`. Claimed of it: `None` only on overflow,
/// so a sum no larger than the largest decimal is `Some`; a sum that fits exactly at the
/// larger of the two scales is returned exactly; adding a zero to a non-zero number gives
/// that number unchanged, and zero plus zero gives the second zero; what comes back is a
/// valid decimal.
#[verifier::external_body]
pub(crate) fn dec_checked_add(a: Dec, b: Dec) -> (r: Option<Dec>)
    requires
        a.wf(),
        b.wf(),
    ensures
        r == checked_sum(a, b),
        r matches Some(x) ==> x.wf(),
        abs(a.val() + b.val()) <= max_val() ==> r is Some,
        sum_is_exact(a, b) ==> r is Some && r->0.val() == a.val() + b.val(),
        b.mantissa == 0 ==> r == Some(if a.mantissa == 0 { b } else { a }),
{
    let x = rust_decimal::Decimal::from_i128_with_scale(a.mantissa, a.scale);
    let y = rust_decimal::Decimal::from_i128_with_scale(b.mantissa, b.scale);
    match x.checked_add(y) {
        Some(z) => Some(Dec { mantissa: z.mantissa(), scale: z.scale() }),
        None => None,
    }
}

/// Calls `rust_decimal::Decimal::checked_sub`. Claimed of it: as for `checked_add`, with
/// the difference in place of the sum; subtracting a zero from a non-zero number gives
/// that number unchanged, and zero minus zero gives the second zero.
#[verifier::external_body]
pub(crate) fn dec_checked_sub(a: Dec, b: Dec) -> (r: Option<Dec>)
    requires
        a.wf(),
        b.wf(),
    ensures
        r == checked_difference(a, b),
        r matches Some(x) ==> x.wf(),
        abs(a.val() - b.val()) <= max_val() ==> r is Some,
        difference_is_exact(a, b) ==> r is Some && r->0.val() == a.val() - b.val(),
        b.mantissa == 0 ==> r == Some(if a.mantissa == 0 { b } else { a }),
{
    let x = rust_decimal::Decimal::from_i128_with_scale(a.mantissa, a.scale);
    let y = rust_decimal::Decimal::from_i128_with_scale(b.mantissa, b.scale);
    match x.checked_sub(y) {
        Some(z) => Some(Dec { mantissa: z.mantissa(), scale: z.scale() }),
        None => None,
    }
}

/// Calls `rust_decimal::Decimal::checked_mul`. Claimed of it: a zero factor gives zero;
/// a product of non-zero factors whose digits fit in 96 bits at the summed scale (at most
/// 28) is exact, with the digits multiplied and the scales added.
#[verifier::external_body]
pub(crate) fn dec_checked_mul(a: Dec, b: Dec) -> (r: Option<Dec>)
    requires
        a.wf(),
        b.wf(),
    ensures
        r == checked_product(a, b),
        r matches Some(x) ==> x.wf(),
        (a.mantissa == 0 || b.mantissa == 0) ==> r is Some && r->0.val() == 0,
        product_is_exact(a, b) ==> r is Some && r->0.mantissa == a.mantissa * b.mantissa && r->0.scale == a.scale + b.scale,
{
    let x = rust_decimal::Decimal::from_i128_with_scale(a.mantissa, a.scale);
    let y = rust_decimal::Decimal::from_i128_with_scale(b.mantissa, b.scale);
    match x.checked_mul(y) {
        Some(z) => Some(Dec { mantissa: z.mantissa(), scale: z.scale() }),
        None => None,
    }
}

/// Calls `rust_decimal::Decimal::checked_div`. Claimed of it: division by zero gives `None`.
#[verifier::external_body]
pub(crate) fn dec_checked_div(a: Dec, b: Dec) -> (r: Option<Dec>)
    requires
        a.wf(),
        b.wf(),
    ensures
        r == checked_quotient(a, b),
        r matches Some(x) ==> x.wf(),
        b.mantissa == 0 ==> r is None,
{
    let x = rust_decimal::Decimal::from_i128_with_scale(a.mantissa, a.scale);
    let y = rust_decimal::Decimal::from_i128_with_scale(b.mantissa, b.scale);
    match x.checked_div(y) {
        Some(z) => Some(Dec { mantissa: z.mantissa(), scale: z.scale() }),
        None => None,
    }
}

/// Calls `rust_decimal::Decimal::round_dp`. Claimed of it: a number with at most `dp`
/// digits after the point comes back unchanged; otherwise the result has exactly `dp`
/// digits after the point and lies within half a unit of the last place.
#[verifier::external_body]
pub(crate) fn dec_round_dp(d: Dec, dp: u32) -> (r: Dec)
    requires
        d.wf(),
    ensures
        r == rounded(d, dp),
        r.wf(),
        d.scale <= dp ==> r == d,
        d.scale > dp ==> r.scale == dp && 2 * abs(r.val() - d.val()) <= pow10((28 - dp) as nat),
{
    let x = rust_decimal::Decimal::from_i128_with_scale(d.mantissa, d.scale);
    let z = x.round_dp(dp);
    Dec { mantissa: z.mantissa(), scale: z.scale() }
}

/// Calls `rust_decimal::Decimal::round_dp_with_strategy` with `RoundingStrategy::ToZero`.
/// Claimed of it: a number with at most `dp` digits after the point comes back unchanged;
/// otherwise the result has exactly `dp` digits after the point, is no larger in magnitude,
/// has no opposite sign and is less than one unit of the last place away.
#[verifier::external_body]
pub(crate) fn dec_truncate(d: Dec, dp: u32) -> (r: Dec)
    requires
        d.wf(),
    ensures
        r == truncated(d, dp),
        r.wf(),
        d.scale <= dp ==> r == d,
        d.scale > dp ==> {
            &&& r.scale == dp
            &&& abs(r.val()) <= abs(d.val())
            &&& r.val() * d.val() >= 0
            &&& abs(d.val() - r.val()) < pow10((28 - dp) as nat)
        },
{
    let x = rust_decimal::Decimal::from_i128_with_scale(d.mantissa, d.scale);
    let z = x.round_dp_with_strategy(dp, rust_decimal::RoundingStrategy::ToZero);
    Dec { mantissa: z.mantissa(), scale: z.scale() }
}

} // verus!
