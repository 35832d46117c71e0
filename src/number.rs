//! Exact rational numbers: the numeric values of the scripting language.
use vstd::prelude::*;

verus! {

/// Greatest common divisor, by Euclid's algorithm.
pub open spec fn gcd(a: nat, b: nat) -> nat
    decreases b,
{
    if b == 0 {
        a
    } else {
        gcd(b, a % b)
    }
}

pub open spec fn abs(x: int) -> nat {
    if x < 0 {
        (-x) as nat
    } else {
        x as nat
    }
}

/// The fraction `n / d` (with `d > 0`) in lowest terms, as (numerator, denominator).
pub open spec fn lowest_terms(n: int, d: int) -> (int, int) {
    let g = gcd(abs(n), d as nat) as int;
    let q = (abs(n) as int) / g;
    (if n < 0 { -q } else { q }, d / g)
}

pub open spec fn fits_i64(x: int) -> bool {
    i64::MIN <= x <= i64::MAX
}

/// Why an arithmetic operation produced no number.
#[derive(Clone, Copy, Debug, PartialEq, Eq)]
pub enum NumError {
    /// The exact result does not fit the representation.
    Overflow,
    /// The divisor was zero.
    DivisionByZero,
}

/// A rational number `num / den`, always kept in lowest terms with `den > 0`.
#[derive(Clone, Copy, Debug, PartialEq, Eq)]
pub struct Number {
    pub num: i64,
    pub den: i64,
}

/// The number `n / d` in lowest terms, or `Overflow` when it does not fit.
pub open spec fn ratio_of(n: int, d: int) -> Result<Number, NumError> {
    let p = lowest_terms(n, d);
    if fits_i64(p.0) && fits_i64(p.1) {
        Ok(Number { num: p.0 as i64, den: p.1 as i64 })
    } else {
        Err(NumError::Overflow)
    }
}

proof fn lemma_gcd_bounds(a: nat, b: nat)
    requires
        b > 0,
    ensures
        0 < gcd(a, b) <= b,
    decreases b,
{
    assert(gcd(a, b) == gcd(b, a % b));
    if a % b != 0 {
        lemma_gcd_bounds(b, a % b);
    } else {
        assert(gcd(b, 0) == b);
    }
}

proof fn lemma_gcd_divides(a: nat, b: nat)
    requires
        b > 0,
    ensures
        a % gcd(a, b) == 0,
        b % gcd(a, b) == 0,
    decreases b,
{
    lemma_gcd_bounds(a, b);
    let g = gcd(a, b);
    assert(g == gcd(b, a % b));
    if a % b == 0 {
        assert(gcd(b, 0) == b);
        assert(b % b == 0) by (nonlinear_arith)
            requires b > 0;
    } else {
        lemma_gcd_divides(b, a % b);
        let r = a % b;
        let q = a / b;
        assert(a == q * b + r) by (nonlinear_arith)
            requires b > 0, q == a / b, r == a % b;
        let kb = b / g;
        let kr = r / g;
        assert(b == kb * g) by (nonlinear_arith)
            requires g > 0, b % g == 0, kb == b / g;
        assert(r == kr * g) by (nonlinear_arith)
            requires g > 0, r % g == 0, kr == r / g;
        assert(a == (q * kb + kr) * g) by (nonlinear_arith)
            requires a == q * b + r, b == kb * g, r == kr * g;
        assert(a % g == 0) by (nonlinear_arith)
            requires a == (q * kb + kr) * g, g > 0, q * kb + kr >= 0;
    }
}

/// `lowest_terms(n, d)` is a fraction equal to `n / d`, with a positive denominator.
pub proof fn lemma_lowest_terms(n: int, d: int)
    requires
        d > 0,
    ensures
        lowest_terms(n, d).0 * d == n * lowest_terms(n, d).1,
        lowest_terms(n, d).1 > 0,
{
    let g = gcd(abs(n), d as nat) as int;
    lemma_gcd_bounds(abs(n), d as nat);
    lemma_gcd_divides(abs(n), d as nat);
    let q = (abs(n) as int) / g;
    let e = d / g;
    assert(abs(n) as int == q * g) by (nonlinear_arith)
        requires g > 0, (abs(n) as int) % g == 0, q == (abs(n) as int) / g;
    assert(d == e * g) by (nonlinear_arith)
        requires g > 0, d % g == 0, e == d / g;
    assert(e > 0) by (nonlinear_arith)
        requires d == e * g, d > 0, g > 0;
    if n < 0 {
        assert((-q) * d == n * e) by (nonlinear_arith)
            requires -n == q * g, d == e * g;
    } else {
        assert(q * d == n * e) by (nonlinear_arith)
            requires n == q * g, d == e * g;
    }
}

fn gcd_u128(a: u128, b: u128) -> (g: u128)
    ensures
        g == gcd(a as nat, b as nat),
{
    let mut x = a;
    let mut y = b;
    while y != 0
        invariant
            gcd(x as nat, y as nat) == gcd(a as nat, b as nat),
        decreases y,
    {
        let t = x % y;
        x = y;
        y = t;
    }
    x
}

/// Builds the number `n / d` in lowest terms.
pub(crate) fn from_wide(n: i128, d: i128) -> (r: Result<Number, NumError>)
    requires
        0 < d,
        i128::MIN < n,
    ensures
        r == ratio_of(n as int, d as int),
        r is Ok ==> r->Ok_0.wf(),
{
    let mag: u128 = if n < 0 { (-n) as u128 } else { n as u128 };
    let g = gcd_u128(mag, d as u128);
    proof {
        lemma_gcd_bounds(abs(n as int), d as nat);
    }
    let q = mag / g;
    let e = (d as u128) / g;
    proof {
        assert(e >= 1) by (nonlinear_arith)
            requires e == (d as u128) / g, 0 < g <= d;
    }
    if q > i64::MAX as u128 + 1 || e > i64::MAX as u128 {
        return Err(NumError::Overflow);
    }
    if n < 0 {
        Ok(Number { num: (-(q as i128)) as i64, den: e as i64 })
    } else if q > i64::MAX as u128 {
        Err(NumError::Overflow)
    } else {
        Ok(Number { num: q as i64, den: e as i64 })
    }
}

/// The exact product of two 64-bit integers.
fn wide_mul(a: i64, b: i64) -> (r: i128)
    ensures
        r == a * b,
        -0x4000_0000_0000_0000_0000_0000_0000_0000 <= r <= 0x4000_0000_0000_0000_0000_0000_0000_0000,
        b > 0 ==> -0x4000_0000_0000_0000_0000_0000_0000_0000 < r < 0x4000_0000_0000_0000_0000_0000_0000_0000,
{
    proof {
        assert(-0x4000_0000_0000_0000_0000_0000_0000_0000 <= a * b <= 0x4000_0000_0000_0000_0000_0000_0000_0000)
            by (nonlinear_arith)
            requires
                i64::MIN <= a <= i64::MAX,
                i64::MIN <= b <= i64::MAX,
        ;
        if b > 0 {
            assert(-0x4000_0000_0000_0000_0000_0000_0000_0000 < a * b < 0x4000_0000_0000_0000_0000_0000_0000_0000)
                by (nonlinear_arith)
                requires
                    i64::MIN <= a <= i64::MAX,
                    0 < b <= i64::MAX,
            ;
        }
    }
    (a as i128) * (b as i128)
}

impl Number {
    /// A number is valid when its denominator is positive.
    pub open spec fn wf(self) -> bool {
        self.den > 0
    }

    /// `self <= o` as rationals.
    pub open spec fn le(self, o: Number) -> bool {
        self.num * o.den <= o.num * self.den
    }

    pub open spec fn spec_add(self, o: Number) -> Result<Number, NumError> {
        ratio_of(self.num * o.den + o.num * self.den, self.den * o.den)
    }

    pub open spec fn spec_sub(self, o: Number) -> Result<Number, NumError> {
        ratio_of(self.num * o.den - o.num * self.den, self.den * o.den)
    }

    pub open spec fn spec_mul(self, o: Number) -> Result<Number, NumError> {
        ratio_of(self.num * o.num, self.den * o.den)
    }

    pub open spec fn spec_div(self, o: Number) -> Result<Number, NumError> {
        if o.num == 0 {
            Err(NumError::DivisionByZero)
        } else if o.num > 0 {
            ratio_of(self.num * o.den, self.den * o.num)
        } else {
            ratio_of(-(self.num * o.den), -(self.den * o.num))
        }
    }

    /// The integer `n`.
    pub fn from_int(n: i64) -> (r: Number)
        ensures
            r == (Number { num: n, den: 1 }),
    {
        Number { num: n, den: 1 }
    }

    /// The number `n / d` in lowest terms; `d` must not be zero.
    pub fn ratio(n: i64, d: i64) -> (r: Result<Number, NumError>)
        ensures
            d == 0 ==> r == Err::<Number, NumError>(NumError::DivisionByZero),
            d > 0 ==> r == ratio_of(n as int, d as int),
            d < 0 ==> r == ratio_of(-n, -d),
    {
        if d == 0 {
            Err(NumError::DivisionByZero)
        } else if d > 0 {
            from_wide(n as i128, d as i128)
        } else {
            from_wide(-(n as i128), -(d as i128))
        }
    }

    pub fn add(self, o: Number) -> (r: Result<Number, NumError>)
        requires
            self.wf(),
            o.wf(),
        ensures
            r == self.spec_add(o),
            r is Ok ==> r->Ok_0.wf(),
    {
        let a = wide_mul(self.num, o.den);
        let b = wide_mul(o.num, self.den);
        proof {
            assert(0 < self.den * o.den) by (nonlinear_arith)
                requires self.den > 0, o.den > 0;
        }
        from_wide(a + b, wide_mul(self.den, o.den))
    }

    pub fn sub(self, o: Number) -> (r: Result<Number, NumError>)
        requires
            self.wf(),
            o.wf(),
        ensures
            r == self.spec_sub(o),
            r is Ok ==> r->Ok_0.wf(),
    {
        let a = wide_mul(self.num, o.den);
        let b = wide_mul(o.num, self.den);
        proof {
            assert(0 < self.den * o.den) by (nonlinear_arith)
                requires self.den > 0, o.den > 0;
        }
        from_wide(a - b, wide_mul(self.den, o.den))
    }

    pub fn mul(self, o: Number) -> (r: Result<Number, NumError>)
        requires
            self.wf(),
            o.wf(),
        ensures
            r == self.spec_mul(o),
            r is Ok ==> r->Ok_0.wf(),
    {
        proof {
            assert(0 < self.den * o.den) by (nonlinear_arith)
                requires self.den > 0, o.den > 0;
        }
        from_wide(wide_mul(self.num, o.num), wide_mul(self.den, o.den))
    }

    pub fn div(self, o: Number) -> (r: Result<Number, NumError>)
        requires
            self.wf(),
            o.wf(),
        ensures
            r == self.spec_div(o),
            r is Ok ==> r->Ok_0.wf(),
    {
        if o.num == 0 {
            return Err(NumError::DivisionByZero);
        }
        let a = wide_mul(self.num, o.den);
        let b = wide_mul(self.den, o.num);
        proof {
            if o.num > 0 {
                assert(0 < b) by (nonlinear_arith)
                    requires b == o.num * self.den, self.den > 0, o.num > 0;
            } else {
                assert(b < 0) by (nonlinear_arith)
                    requires b == o.num * self.den, self.den > 0, o.num < 0;
            }
        }
        if o.num > 0 {
            from_wide(a, b)
        } else {
            from_wide(-a, -b)
        }
    }

    /// `self <= o`.
    pub fn le_num(self, o: Number) -> (r: bool)
        ensures
            r == self.le(o),
    {
        wide_mul(self.num, o.den) <= wide_mul(o.num, self.den)
    }

    /// The larger of `self` and `o`.
    pub fn max(self, o: Number) -> (r: Number)
        ensures
            r == (if o.le(self) { self } else { o }),
    {
        if o.le_num(self) {
            self
        } else {
            o
        }
    }
}

} // verus!
