//! Exact decimal prices.
use vstd::prelude::*;

use core::cmp::Ordering;
use rust_decimal::Decimal;

verus! {

/// Largest scale (number of fractional decimal digits) a price can carry.
pub const MAX_SCALE: u32 = 28;

/// Largest magnitude of a price's mantissa: 2^96 - 1.
pub const MAX_MANTISSA: i128 = 0xFFFF_FFFF_FFFF_FFFF_FFFF_FFFF;

/// Ten to the power `n`.
pub open spec fn pow10(n: nat) -> int
    decreases n,
{
    if n == 0 {
        1
    } else {
        10 * pow10((n - 1) as nat)
    }
}

pub proof fn lemma_pow10_positive(n: nat)
    ensures
        pow10(n) > 0,
    decreases n,
{
    if n > 0 {
        lemma_pow10_positive((n - 1) as nat);
    }
}

/// An exact decimal number `mantissa / 10^scale`.
///
/// Two prices with different fields can denote the same number (`100.0` and `100.00`);
/// the order of prices, and which price level an order belongs to, go by the number.
#[derive(Clone, Copy, Debug, PartialEq, Eq, Structural)]
pub struct Price {
    pub mantissa: i128,
    pub scale: u32,
}

impl Price {
    /// The representable range of a decimal number.
    pub open spec fn wf(self) -> bool {
        &&& -MAX_MANTISSA <= self.mantissa <= MAX_MANTISSA
        &&& self.scale <= MAX_SCALE
    }

    /// The number this price denotes, counted in units of `10^-28`: exact for every
    /// well-formed price.
    pub open spec fn units(self) -> int {
        self.mantissa * pow10((MAX_SCALE - self.scale) as nat)
    }

    /// Builds `mantissa / 10^scale`.
    pub fn new(mantissa: i128, scale: u32) -> (r: Price)
        ensures
            r.mantissa == mantissa,
            r.scale == scale,
    {
        Price { mantissa, scale }
    }

    /// Whether the price is strictly above zero.
    pub fn is_positive(&self) -> (r: bool)
        requires
            self.wf(),
        ensures
            r == (self.units() > 0),
    {
        proof {
            lemma_pow10_positive((MAX_SCALE - self.scale) as nat);
            lemma_sign_of_units(*self);
        }
        self.mantissa > 0
    }
}

proof fn lemma_sign_of_units(p: Price)
    requires
        p.wf(),
    ensures
        p.units() > 0 <==> p.mantissa > 0,
{
    let f = pow10((MAX_SCALE - p.scale) as nat);
    lemma_pow10_positive((MAX_SCALE - p.scale) as nat);
    if p.mantissa > 0 {
        assert(p.mantissa * f > 0) by (nonlinear_arith)
            requires
                p.mantissa > 0,
                f > 0,
        ;
    } else {
        assert(p.mantissa * f <= 0) by (nonlinear_arith)
            requires
                p.mantissa <= 0,
                f > 0,
        ;
    }
}

/// How two integers compare.
pub open spec fn int_cmp(a: int, b: int) -> Ordering {
    if a < b {
        Ordering::Less
    } else if a == b {
        Ordering::Equal
    } else {
        Ordering::Greater
    }
}

/// Relies on rust_decimal's `Decimal::from_i128_with_scale`, which builds `mantissa / 10^scale`
/// and panics only outside a 96-bit mantissa and a scale of 28, and on `Ord for Decimal`,
/// which orders decimals by the numbers they denote.
#[verifier::external_body]
pub(crate) fn decimal_cmp(a: &Price, b: &Price) -> (r: Ordering)
    requires
        a.wf(),
        b.wf(),
    ensures
        r == int_cmp(a.units(), b.units()),
{
    let x = Decimal::from_i128_with_scale(a.mantissa, a.scale);
    let y = Decimal::from_i128_with_scale(b.mantissa, b.scale);
    x.cmp(&y)
}

} // verus!
