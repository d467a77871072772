use vstd::prelude::*;

use crate::decimal::{decimal, push_decimal, push_signed, signed_decimal};

verus! {

/// A rational number as a numerator over a positive denominator.
#[derive(Debug, PartialEq, Eq, Clone, Copy, Structural)]
pub struct Fraction {
    pub num: i64,
    pub den: u32,
}

/// Euclid's greatest common divisor; `gcd_of(a, 0) == a`.
pub open spec fn gcd_of(a: nat, b: nat) -> nat
    decreases b,
{
    if b == 0 {
        a
    } else {
        gcd_of(b, a % b)
    }
}

/// The absolute value of `x`.
pub open spec fn magnitude(x: int) -> nat {
    if x < 0 {
        (-x) as nat
    } else {
        x as nat
    }
}

/// The greatest common divisor divides both numbers: the result holds the
/// two quotients. It is positive unless both numbers are zero.
pub proof fn lemma_gcd_divides(a: nat, b: nat) -> (w: (nat, nat))
    ensures
        a == gcd_of(a, b) * w.0,
        b == gcd_of(a, b) * w.1,
        a > 0 || b > 0 ==> gcd_of(a, b) > 0,
    decreases b,
{
    let g = gcd_of(a, b);
    if b == 0 {
        assert(a == g * 1);
        assert(b == g * 0);
        (1, 0)
    } else {
        let (p, q) = lemma_gcd_divides(b, a % b);
        vstd::arithmetic::div_mod::lemma_fundamental_div_mod(a as int, b as int);
        let k = a / b;
        assert(a == g * (k * p + q)) by (nonlinear_arith)
            requires
                a == b * k + a % b,
                b == g * p,
                a % b == g * q,
        ;
        assert(k * p + q >= 0) by (nonlinear_arith)
            requires
                k >= 0,
                p >= 0,
                q >= 0,
        ;
        ((k * p + q) as nat, p)
    }
}

/// Euclid's algorithm.
pub fn gcd(a: u32, b: u32) -> (r: u32)
    ensures
        r == gcd_of(a as nat, b as nat),
{
    let mut x = a;
    let mut y = b;
    while y != 0
        invariant
            gcd_of(x as nat, y as nat) == gcd_of(a as nat, b as nat),
        decreases y,
    {
        let c = x % y;
        x = y;
        y = c;
    }
    x
}

/// `a / b` in lowest terms, for `b > 0`.
pub open spec fn reduced(a: int, b: nat) -> Fraction {
    let g = gcd_of(magnitude(a), b);
    Fraction { num: (a / g as int) as i64, den: (b / g) as u32 }
}

/// A denominator above zero.
pub open spec fn well_formed(f: Fraction) -> bool {
    f.den > 0
}

/// Whether `a / b` can be reduced in the representation: `a` fits in `i64`
/// and `b` is positive and fits in `u32`.
pub open spec fn representable(a: int, b: int) -> bool {
    i64::MIN <= a <= i64::MAX && 0 < b <= u32::MAX
}

/// `-1` for a negative `x`, else `1`.
pub open spec fn sign(x: int) -> int {
    if x < 0 {
        -1
    } else {
        1
    }
}

/// `v` fits in `i64`.
pub open spec fn fits_i64(v: int) -> bool {
    i64::MIN <= v <= i64::MAX
}

impl Fraction {
    /// The value of `a / b` in lowest terms: numerator and denominator are
    /// divided by their greatest common divisor.
    pub fn new(a: i64, b: u32) -> (r: Fraction)
        requires
            b != 0,
        ensures
            r.den > 0,
            r.num * gcd_of(magnitude(a as int), b as nat) == a,
            r.den * gcd_of(magnitude(a as int), b as nat) == b,
            r.num * b == a * r.den,
            r == reduced(a as int, b as nat),
    {
        let ua: u64 = if a < 0 {
            (-(a + 1)) as u64 + 1
        } else {
            a as u64
        };
        let g = gcd(b, (ua % (b as u64)) as u32);
        let ghost gs = gcd_of(magnitude(a as int), b as nat);
        proof {
            assert(gs == gcd_of(b as nat, (ua as nat) % (b as nat)));
        }
        let ghost (kn, kd) = lemma_gcd_divides(ua as nat, b as nat);
        proof {
            vstd::arithmetic::div_mod::lemma_div_multiples_vanish(kn as int, gs as int);
            vstd::arithmetic::div_mod::lemma_div_multiples_vanish(kd as int, gs as int);
            assert(gs * kn == kn * gs) by (nonlinear_arith);
            assert(gs * kd == kd * gs) by (nonlinear_arith);
        }
        let k = ua / (g as u64);
        let den = b / g;
        let num: i64 = if a < 0 {
            -((k - 1) as i64) - 1
        } else {
            k as i64
        };
        proof {
            assert(g == gs);
            assert(k == kn);
            assert(den == kd);
            assert(kd > 0) by (nonlinear_arith)
                requires
                    b == gs * kd,
                    b > 0,
                    gs > 0,
            ;
            assert(ua == kn * gs);
            if a < 0 {
                assert(num == -(kn as int));
                assert(num * gs == -(kn * gs)) by (nonlinear_arith)
                    requires
                        num == -(kn as int),
                ;
            } else {
                assert(num == kn);
            }
            assert(num * gs == a);
            assert(den * gs == b);
            vstd::arithmetic::div_mod::lemma_div_multiples_vanish(num as int, gs as int);
            assert(a as int / gs as int == num);
            assert(num * b == a * den) by (nonlinear_arith)
                requires
                    num * gs == a,
                    den * gs == b,
            ;
        }
        Fraction { num, den }
    }

    /// The text of the fraction: `"num"` when the denominator is one, else
    /// `"num/den"`.
    pub fn to_string(&self) -> (r: String)
        ensures
            r@ == if self.den == 1 {
                signed_decimal(self.num as int)
            } else {
                signed_decimal(self.num as int) + seq!['/'] + decimal(self.den as nat)
            },
    {
        let mut out = String::new();
        push_signed(&mut out, self.num);
        if self.den != 1 {
            proof {
                reveal_strlit("/");
            }
            out.append("/");
            push_decimal(&mut out, self.den as u64);
        }
        out
    }

    /// The sum `self + rhs`, in lowest terms.
    pub fn add(self, rhs: Fraction) -> (r: Fraction)
        requires
            well_formed(self),
            well_formed(rhs),
            fits_i64(self.num * rhs.den),
            fits_i64(rhs.num * self.den),
            representable(self.num * rhs.den + rhs.num * self.den, self.den * rhs.den),
        ensures
            r == reduced(self.num * rhs.den + rhs.num * self.den, (self.den * rhs.den) as nat),
    {
        Fraction::new(self.num * rhs.den as i64 + rhs.num * self.den as i64, self.den * rhs.den)
    }

    /// The sum `self + rhs` with an integer `rhs`, in lowest terms.
    pub fn add_int(self, rhs: i64) -> (r: Fraction)
        requires
            well_formed(self),
            fits_i64(rhs * self.den),
            representable(self.num + rhs * self.den, self.den as int),
        ensures
            r == reduced(self.num + rhs * self.den, self.den as nat),
    {
        Fraction::new(self.num + rhs * self.den as i64, self.den)
    }

    /// The sum `lhs + rhs` with an integer `lhs`, in lowest terms.
    pub fn int_add(lhs: u32, rhs: Fraction) -> (r: Fraction)
        requires
            well_formed(rhs),
            fits_i64(lhs * rhs.den),
            representable(lhs * rhs.den + rhs.num, rhs.den as int),
        ensures
            r == reduced(lhs * rhs.den + rhs.num, rhs.den as nat),
    {
        Fraction::new(lhs as i64 * rhs.den as i64 + rhs.num, rhs.den)
    }

    /// The difference `self - rhs`, in lowest terms.
    pub fn sub(self, rhs: Fraction) -> (r: Fraction)
        requires
            well_formed(self),
            well_formed(rhs),
            fits_i64(self.num * rhs.den),
            fits_i64(rhs.num * self.den),
            representable(self.num * rhs.den - rhs.num * self.den, self.den * rhs.den),
        ensures
            r == reduced(self.num * rhs.den - rhs.num * self.den, (self.den * rhs.den) as nat),
    {
        Fraction::new(self.num * rhs.den as i64 - rhs.num * self.den as i64, self.den * rhs.den)
    }

    /// The difference `self - rhs` with an integer `rhs`, in lowest terms.
    pub fn sub_int(self, rhs: i64) -> (r: Fraction)
        requires
            well_formed(self),
            fits_i64(rhs * self.den),
            representable(self.num - rhs * self.den, self.den as int),
        ensures
            r == reduced(self.num - rhs * self.den, self.den as nat),
    {
        Fraction::new(self.num - rhs * self.den as i64, self.den)
    }

    /// The difference `lhs - rhs` with an integer `lhs`, in lowest terms.
    pub fn int_sub(lhs: u32, rhs: Fraction) -> (r: Fraction)
        requires
            well_formed(rhs),
            fits_i64(lhs * rhs.den),
            representable(lhs * rhs.den - rhs.num, rhs.den as int),
        ensures
            r == reduced(lhs * rhs.den - rhs.num, rhs.den as nat),
    {
        Fraction::new(lhs as i64 * rhs.den as i64 - rhs.num, rhs.den)
    }

    /// The product `self * rhs`, in lowest terms.
    pub fn mul(self, rhs: Fraction) -> (r: Fraction)
        requires
            well_formed(self),
            well_formed(rhs),
            representable(self.num * rhs.num, self.den * rhs.den),
        ensures
            r == reduced(self.num * rhs.num, (self.den * rhs.den) as nat),
    {
        Fraction::new(self.num * rhs.num, self.den * rhs.den)
    }

    /// The product `self * rhs` with an integer `rhs`, in lowest terms.
    pub fn mul_int(self, rhs: i64) -> (r: Fraction)
        requires
            well_formed(self),
            representable(self.num * rhs, self.den as int),
        ensures
            r == reduced(self.num * rhs, self.den as nat),
    {
        Fraction::new(self.num * rhs, self.den)
    }

    /// The product `lhs * rhs` with an integer `lhs`, in lowest terms.
    pub fn int_mul(lhs: u32, rhs: Fraction) -> (r: Fraction)
        requires
            well_formed(rhs),
            representable(lhs * rhs.num, rhs.den as int),
        ensures
            r == reduced(lhs * rhs.num, rhs.den as nat),
    {
        Fraction::new(lhs as i64 * rhs.num, rhs.den)
    }

    /// The quotient `self / rhs`, in lowest terms.
    pub fn div(self, rhs: Fraction) -> (r: Fraction)
        requires
            well_formed(self),
            well_formed(rhs),
            rhs.num != 0,
            fits_i64(self.num * rhs.den),
            representable(
                sign(rhs.num as int) * (self.num * rhs.den),
                self.den * magnitude(rhs.num as int),
            ),
        ensures
            r == reduced(
                sign(rhs.num as int) * (self.num * rhs.den),
                (self.den * magnitude(rhs.num as int)) as nat,
            ),
    {
        proof {
            assert(magnitude(rhs.num as int) <= self.den * magnitude(rhs.num as int))
                by (nonlinear_arith)
                requires
                    self.den >= 1,
            ;
        }
        let n = self.num * rhs.den as i64;
        let m = if rhs.num < 0 {
            -rhs.num
        } else {
            rhs.num
        };
        Fraction::new(if rhs.num < 0 {
            -n
        } else {
            n
        }, self.den * m as u32)
    }

    /// The quotient `self / rhs` with an integer `rhs`, in lowest terms.
    pub fn div_int(self, rhs: i64) -> (r: Fraction)
        requires
            well_formed(self),
            rhs != 0,
            representable(sign(rhs as int) * self.num, self.den * magnitude(rhs as int)),
        ensures
            r == reduced(sign(rhs as int) * self.num, (self.den * magnitude(rhs as int)) as nat),
    {
        proof {
            assert(magnitude(rhs as int) <= self.den * magnitude(rhs as int)) by (nonlinear_arith)
                requires
                    self.den >= 1,
            ;
        }
        let m = if rhs < 0 {
            -rhs
        } else {
            rhs
        };
        Fraction::new(if rhs < 0 {
            -self.num
        } else {
            self.num
        }, self.den * m as u32)
    }

    /// The quotient `lhs / rhs` with an integer `lhs`, in lowest terms.
    pub fn int_div(lhs: u32, rhs: Fraction) -> (r: Fraction)
        requires
            well_formed(rhs),
            rhs.num != 0,
            fits_i64(lhs * rhs.den),
            representable(sign(rhs.num as int) * (lhs * rhs.den), magnitude(rhs.num as int) as int),
        ensures
            r == reduced(sign(rhs.num as int) * (lhs * rhs.den), magnitude(rhs.num as int)),
    {
        let n = lhs as i64 * rhs.den as i64;
        let m = if rhs.num < 0 {
            -rhs.num
        } else {
            rhs.num
        };
        Fraction::new(if rhs.num < 0 {
            -n
        } else {
            n
        }, m as u32)
    }
}

} // verus!
