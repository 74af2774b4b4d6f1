use vstd::prelude::*;

verus! {

/// A signed monetary value, held as a whole number of minor units (cents).
#[derive(Clone, Copy, Debug, PartialEq, Eq, Structural, PartialOrd, Ord, Hash)]
pub struct Amount(pub i64);

impl View for Amount {
    type V = int;

    open spec fn view(&self) -> int {
        self.0 as int
    }
}

/// `p / q` rounded to the nearest integer, halves away from zero.
pub open spec fn round_div(p: int, q: int) -> int {
    let a = if p >= 0 { p } else { -p };
    let b = if q >= 0 { q } else { -q };
    let m = (2 * a + b) / (2 * b);
    if (p >= 0) == (q > 0) { m } else { -m }
}

impl Amount {
    /// Builds an amount from its whole units and its minor units:
    /// `from_int_and_frac(12, 34)` is 12.34.
    pub fn from_int_and_frac(units: i64, frac: i64) -> (r: Amount)
        requires
            i64::MIN <= units * 100 + frac <= i64::MAX,
        ensures
            r@ == units * 100 + frac,
    {
        Amount(((units as i128) * 100 + frac as i128) as i64)
    }

    /// Construct a new amount with the value of zero
    pub fn zero() -> (r: Amount)
        ensures
            r@ == 0,
    {
        Amount(0)
    }

    pub fn is_negative(&self) -> (r: bool)
        ensures
            r == (self@ < 0),
    {
        self.0 < 0
    }

    /// The number of minor units.
    pub fn cents(&self) -> (r: i64)
        ensures
            r == self@,
    {
        self.0
    }

    /// The sum of two amounts, or `None` where it does not fit.
    pub fn checked_add(self, rhs: Amount) -> (r: Option<Amount>)
        ensures
            r matches Some(v) ==> v@ == self@ + rhs@,
            r is None <==> !(i64::MIN <= self@ + rhs@ <= i64::MAX),
    {
        match self.0.checked_add(rhs.0) {
            Some(v) => Some(Amount(v)),
            None => None,
        }
    }

    /// The difference of two amounts, or `None` where it does not fit.
    pub fn checked_sub(self, rhs: Amount) -> (r: Option<Amount>)
        ensures
            r matches Some(v) ==> v@ == self@ - rhs@,
            r is None <==> !(i64::MIN <= self@ - rhs@ <= i64::MAX),
    {
        match self.0.checked_sub(rhs.0) {
            Some(v) => Some(Amount(v)),
            None => None,
        }
    }

    /// The negated amount, or `None` for the one value whose negation does not fit.
    pub fn checked_neg(self) -> (r: Option<Amount>)
        ensures
            r matches Some(v) ==> v@ == -self@,
            r is None <==> self@ == i64::MIN,
    {
        if self.0 == i64::MIN {
            None
        } else {
            Some(Amount(-self.0))
        }
    }

    /// The amount times `num / den`, rounded to the nearest minor unit with
    /// halves away from zero; `None` where the result does not fit.
    pub fn scaled(self, num: i64, den: i64) -> (r: Option<Amount>)
        requires
            den != 0,
        ensures
            r is Some <==> i64::MIN <= round_div(self@ * num, den as int) <= i64::MAX,
            r matches Some(v) ==> v@ == round_div(self@ * num, den as int),
    {
        let x = self.0 as i128;
        let y = num as i128;
        assert(-0x4000_0000_0000_0000_0000_0000_0000_0000 <= x * y <= 0x4000_0000_0000_0000_0000_0000_0000_0000) by (nonlinear_arith)
            requires
                -0x8000_0000_0000_0000 <= x <= 0x7fff_ffff_ffff_ffff,
                -0x8000_0000_0000_0000 <= y <= 0x7fff_ffff_ffff_ffff,
        ;
        let p = x * y;
        let a: u128 = if p >= 0 { p as u128 } else { (-p) as u128 };
        let b: u128 = if den >= 0 { den as u128 } else { (-(den as i128)) as u128 };
        let m: u128 = (2 * a + b) / (2 * b);
        assert(m <= 2 * a + b) by (nonlinear_arith)
            requires
                m == (2 * a + b) / (2 * b),
                b >= 1,
                a >= 0,
        ;
        let limit: u128 = if (p >= 0) == (den > 0) { i64::MAX as u128 } else { 0x8000_0000_0000_0000 };
        if m > limit {
            None
        } else if (p >= 0) == (den > 0) {
            Some(Amount(m as i64))
        } else {
            Some(Amount((-(m as i128)) as i64))
        }
    }

    /// The smaller of two amounts.
    pub fn min(self, rhs: Amount) -> (r: Amount)
        ensures
            r@ == if self@ <= rhs@ { self@ } else { rhs@ },
    {
        if self.0 <= rhs.0 {
            self
        } else {
            rhs
        }
    }
}

impl From<i64> for Amount {
    fn from(inner: i64) -> (r: Amount) {
        Amount(inner)
    }
}

impl vstd::std_specs::convert::FromSpecImpl<i64> for Amount {
    open spec fn obeys_from_spec() -> bool {
        true
    }

    open spec fn from_spec(inner: i64) -> Amount {
        Amount(inner)
    }
}

} // verus!
