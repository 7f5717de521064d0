//! Exact rational numbers kept in lowest terms, with checked arithmetic.
use crate::gcd::{
    lemma_gcd_zero_left,
    lemma_gcd_divides,
    divides, gcd, gcd_u64, lemma_divides_antisym, lemma_gcd_commutes, lemma_gcd_greatest, lemma_gcd_pos,
    lemma_gcd_reduce, lemma_gcd_scale,
};
use core::cmp::Ordering;
use vstd::arithmetic::div_mod::*;
use vstd::arithmetic::mul::*;
use vstd::prelude::*;

verus! {

#[derive(Debug, Clone, Copy, PartialEq, Eq, Structural)]
enum Sign {
    Positive,
    Negative,
}

/// A rational number `±p/q`, always in lowest terms, with zero positive.
#[derive(Debug, Clone, Copy, PartialEq, Eq, Structural)]
pub struct Rational {
    p: u64,
    q: u64,
    sign: Sign,
}

/// Why an arithmetic operation produced no value.
#[derive(Debug, Clone, Copy, PartialEq, Eq, Structural)]
pub enum ArithmeticError {
    /// The divisor was zero.
    DivisionByZero,
    /// An intermediate value did not fit in 64 bits.
    Overflow,
}

pub open spec fn abs(n: int) -> nat {
    if n < 0 {
        (-n) as nat
    } else {
        n as nat
    }
}

/// The rational `n/d` (for `d > 0`) written in lowest terms.
pub closed spec fn frac(n: int, d: int) -> Rational {
    let g = gcd(abs(n), d as nat);
    Rational {
        p: (abs(n) / g) as u64,
        q: (d as nat / g) as u64,
        sign: if n < 0 {
            Sign::Negative
        } else {
            Sign::Positive
        },
    }
}

impl Rational {
    /// The signed numerator.
    pub closed spec fn num(self) -> int {
        if self.sign == Sign::Negative {
            -(self.p as int)
        } else {
            self.p as int
        }
    }

    /// The denominator.
    pub closed spec fn den(self) -> int {
        self.q as int
    }

    /// Positive denominator, lowest terms, and a positive zero.
    pub closed spec fn wf(self) -> bool {
        &&& self.q > 0
        &&& gcd(self.p as nat, self.q as nat) == 1
        &&& self.p == 0 ==> self.sign == Sign::Positive
    }

    pub open spec fn spec_neg(self) -> Rational {
        frac(-self.num(), self.den())
    }

    pub open spec fn spec_add(self, rhs: Rational) -> Rational {
        frac(self.num() * rhs.den() + rhs.num() * self.den(), self.den() * rhs.den())
    }

    pub open spec fn spec_sub(self, rhs: Rational) -> Rational {
        frac(self.num() * rhs.den() - rhs.num() * self.den(), self.den() * rhs.den())
    }

    pub open spec fn spec_mul(self, rhs: Rational) -> Rational {
        frac(self.num() * rhs.num(), self.den() * rhs.den())
    }

    pub open spec fn spec_div(self, rhs: Rational) -> Rational {
        if rhs.num() < 0 {
            frac(-(self.num() * rhs.den()), -(self.den() * rhs.num()))
        } else {
            frac(self.num() * rhs.den(), self.den() * rhs.num())
        }
    }

    /// Order of the values `self` and `rhs`, by cross-multiplication.
    pub open spec fn spec_cmp(self, rhs: Rational) -> Ordering {
        let l = self.num() * rhs.den();
        let r = rhs.num() * self.den();
        if l < r {
            Ordering::Less
        } else if l == r {
            Ordering::Equal
        } else {
            Ordering::Greater
        }
    }

    /// The addition, carried out over the least common multiple of the
    /// denominators, stays within 64 bits: the common denominator, both
    /// scaled numerators and, for equal signs, their sum.
    #[verifier::opaque]
    pub open spec fn add_fits(self, rhs: Rational) -> bool {
        let g = gcd(self.den() as nat, rhs.den() as nat);
        let fa = rhs.den() as nat / g;
        let fb = self.den() as nat / g;
        &&& self.den() * fa <= u64::MAX
        &&& abs(self.num()) * fa <= u64::MAX
        &&& abs(rhs.num()) * fb <= u64::MAX
        &&& (self.num() < 0) == (rhs.num() < 0) ==> abs(self.num()) * fa + abs(rhs.num()) * fb
            <= u64::MAX
    }

    /// The subtraction stays within 64 bits: the addition of `-rhs` does.
    #[verifier::opaque]
    pub open spec fn sub_fits(self, rhs: Rational) -> bool {
        let g = gcd(self.den() as nat, rhs.den() as nat);
        let fa = rhs.den() as nat / g;
        let fb = self.den() as nat / g;
        &&& self.den() * fa <= u64::MAX
        &&& abs(self.num()) * fa <= u64::MAX
        &&& abs(rhs.num()) * fb <= u64::MAX
        &&& (self.num() < 0) == (rhs.num() > 0) ==> abs(self.num()) * fa + abs(rhs.num()) * fb
            <= u64::MAX
    }

    /// The products of numerators and of denominators fit in 64 bits.
    #[verifier::opaque]
    pub open spec fn mul_fits(self, rhs: Rational) -> bool {
        &&& abs(self.num()) * abs(rhs.num()) <= u64::MAX
        &&& self.den() * rhs.den() <= u64::MAX
    }

    /// The dividend is zero, or the cross products fit in 64 bits.
    #[verifier::opaque]
    pub open spec fn div_fits(self, rhs: Rational) -> bool {
        self.num() == 0 || (abs(self.num()) * rhs.den() <= u64::MAX && self.den() * abs(rhs.num())
            <= u64::MAX)
    }
}

/// The stored parts of a well-formed value, in terms of its numerator and
/// denominator.
proof fn lemma_parts(x: Rational)
    requires
        x.wf(),
    ensures
        abs(x.num()) == x.p,
        x.den() == x.q,
        x.sign == Sign::Negative <==> x.num() < 0,
{
}

proof fn lemma_coprime_unique(a: nat, b: nat, c: nat, e: nat)
    requires
        gcd(a, b) == 1,
        gcd(c, e) == 1,
        b > 0,
        e > 0,
        a * e == c * b,
    ensures
        a == c,
        b == e,
{
    lemma_gcd_scale(e, a, b);
    lemma_gcd_scale(b, c, e);
    lemma_mul_is_commutative(a as int, e as int);
    lemma_mul_is_commutative(b as int, e as int);
    lemma_mul_is_commutative(c as int, b as int);
    assert(divides(b as int, (e * a) as int)) by {
        assert((e * a) as int == b * (c as int));
    }
    assert(divides(b as int, (e * b) as int)) by {
        assert((e * b) as int == b * (e as int));
    }
    lemma_gcd_greatest(e * a, e * b, b as int);
    assert(divides(e as int, (b * c) as int)) by {
        assert((b * c) as int == e * (a as int));
    }
    assert(divides(e as int, (b * e) as int)) by {
        assert((b * e) as int == e * (b as int));
    }
    lemma_gcd_greatest(b * c, b * e, e as int);
    lemma_divides_antisym(b, e);
    assert(a == c) by (nonlinear_arith)
        requires
            a * e == c * b,
            b == e,
            b > 0,
    ;
}

/// `frac` of a representable pair is well formed and has the value `n/d`.
proof fn lemma_frac_props(n: int, d: int)
    requires
        d > 0,
        abs(n) / gcd(abs(n), d as nat) <= u64::MAX,
        d as nat / gcd(abs(n), d as nat) <= u64::MAX,
    ensures
        frac(n, d).wf(),
        frac(n, d).num() * d == n * frac(n, d).den(),
        frac(n, d).num() == 0 <==> n == 0,
        frac(n, d).num() < 0 <==> n < 0,
{
    let m = abs(n);
    let g = gcd(m, d as nat);
    lemma_gcd_reduce(m, d as nat);
    let r = frac(n, d);
    assert(r.p == m / g && r.q == d as nat / g);
    assert(r.p * (d as int) == m * r.q) by (nonlinear_arith)
        requires
            m == g * r.p,
            d == g * r.q,
    ;
    if n < 0 {
        assert(r.num() * d == -(r.p * (d as int))) by (nonlinear_arith)
            requires
                r.num() == -(r.p as int),
        ;
        assert(n * r.den() == -(m * r.q)) by (nonlinear_arith)
            requires
                n == -m,
        ;
    }
    assert(r.p == 0 <==> m == 0) by (nonlinear_arith)
        requires
            m == g * r.p,
            g > 0,
    ;
}

/// A fraction whose value equals a well-formed rational reduces to it.
proof fn lemma_frac_of_equal(n: int, d: int, x: Rational)
    requires
        x.wf(),
        d > 0,
        n * x.den() == x.num() * d,
    ensures
        frac(n, d) == x,
{
    let m = abs(n);
    let g = gcd(m, d as nat);
    lemma_gcd_reduce(m, d as nat);
    let m1 = m / g;
    let d1 = d as nat / g;
    if x.sign == Sign::Negative {
        assert(m * x.q == x.p * d) by (nonlinear_arith)
            requires
                n * x.q == -(x.p as int) * d,
                x.q > 0,
                d > 0,
                m == abs(n),
        {
            if n >= 0 {
                assert(n * x.q >= 0);
                assert(-(x.p as int) * d <= 0);
            }
        }
    } else {
        assert(m * x.q == x.p * d) by (nonlinear_arith)
            requires
                n * x.q == (x.p as int) * d,
                x.q > 0,
                d > 0,
                m == abs(n),
        {
            if n < 0 {
                assert(n * x.q < 0);
            }
        }
    }
    assert(m1 * x.q == x.p * d1) by (nonlinear_arith)
        requires
            m * x.q == x.p * d,
            m == g * m1,
            d == g * d1,
            g > 0,
    ;
    lemma_coprime_unique(m1, d1, x.p as nat, x.q as nat);
    if x.p == 0 {
        assert(n * x.den() == 0);
        assert(n == 0) by (nonlinear_arith)
            requires
                n * x.den() == 0,
                x.den() > 0,
        ;
    } else if x.sign == Sign::Negative {
        assert(n < 0) by (nonlinear_arith)
            requires
                n * x.den() == x.num() * d,
                x.num() < 0,
                x.den() > 0,
                d > 0,
        ;
    } else {
        assert(n > 0) by (nonlinear_arith)
            requires
                n * x.den() == x.num() * d,
                x.num() > 0,
                x.den() > 0,
                d > 0,
        ;
    }
}

/// Scaling numerator and denominator by the same positive factor does not
/// change the reduced fraction.
proof fn lemma_frac_scale(n: int, d: int, k: int)
    requires
        k > 0,
        d > 0,
    ensures
        frac(k * n, k * d) == frac(n, d),
{
    let m = abs(n);
    assert(abs(k * n) == k * m) by (nonlinear_arith)
        requires
            k > 0,
            m == abs(n),
    ;
    lemma_mul_strictly_positive(k, d);
    lemma_gcd_scale(k as nat, m, d as nat);
    let g = gcd(m, d as nat);
    lemma_gcd_pos(m, d as nat);
    lemma_div_multiples_vanish(m as int, k);
    lemma_div_multiples_vanish(d, k);
    lemma_div_denominator(k * m, k, g as int);
    lemma_div_denominator(k * d, k, g as int);
    assert(k * n < 0 <==> n < 0) by (nonlinear_arith)
        requires
            k > 0,
    ;
}

/// Builds `±mag/den` in lowest terms.
fn reduce(mag: u64, den: u64, negative: bool) -> (r: Rational)
    requires
        den > 0,
    ensures
        r == frac(if negative { -(mag as int) } else { mag as int }, den as int),
        r.wf(),
{
    let g = gcd_u64(mag, den);
    proof {
        lemma_gcd_reduce(mag as nat, den as nat);
        lemma_frac_props(if negative { -(mag as int) } else { mag as int }, den as int);
        assert(mag > 0 ==> mag / g > 0) by (nonlinear_arith)
            requires
                mag == g * (mag / g),
        ;
    }
    let p = mag / g;
    let q = den / g;
    Rational { p, q, sign: if negative && p != 0 { Sign::Negative } else { Sign::Positive } }
}

impl Rational {
    /// The rational `n/1`.
    pub fn from_u64(n: u64) -> (r: Rational)
        ensures
            r == frac(n as int, 1),
            r.wf(),
            r.num() == n,
            r.den() == 1,
    {
        proof {
            lemma_gcd_commutes(n as nat, 1);
            assert(1nat % 1nat == 0);
            assert(n as nat % 1 == 0);
            assert(gcd(1, n as nat % 1) == 1);
            lemma_gcd_commutes(0, 1);
            lemma_frac_of_equal(n as int, 1, Rational { p: n, q: 1, sign: Sign::Positive });
        }
        Rational { p: n, q: 1, sign: Sign::Positive }
    }

    /// The rational `n/1`, for any signed 64-bit integer.
    pub fn from_i64(n: i64) -> (r: Rational)
        ensures
            r == frac(n as int, 1),
            r.wf(),
            r.num() == n,
            r.den() == 1,
    {
        let p: u64 = if n < 0 { (-(n as i128)) as u64 } else { n as u64 };
        let r = Rational { p, q: 1, sign: if n < 0 { Sign::Negative } else { Sign::Positive } };
        proof {
            lemma_gcd_commutes(p as nat, 1);
            assert(p as nat % 1 == 0);
            assert(gcd(1, p as nat % 1) == 1);
            lemma_frac_of_equal(n as int, 1, r);
        }
        r
    }

    /// `true` when the value is below zero.
    pub fn is_neg(&self) -> (r: bool)
        ensures
            r == self.is_neg_spec(),
    {
        self.sign == Sign::Negative && self.p != 0
    }

    /// The magnitude of the numerator.
    pub fn numerator(&self) -> (r: u64)
        ensures
            r == abs(self.num()),
    {
        self.p
    }

    /// The denominator.
    pub fn denominator(&self) -> (r: u64)
        ensures
            r == self.den(),
    {
        self.q
    }
}


/// `frac` of a pair that fits in 64 bits is well formed and has its value.
pub proof fn lemma_frac_exact(n: int, d: int)
    requires
        d > 0,
        abs(n) <= u64::MAX,
        d <= u64::MAX,
    ensures
        frac(n, d).wf(),
        frac(n, d).num() * d == n * frac(n, d).den(),
        frac(n, d).num() == 0 <==> n == 0,
        frac(n, d).num() < 0 <==> n < 0,
{
    lemma_gcd_reduce(abs(n), d as nat);
    lemma_frac_props(n, d);
}

proof fn lemma_num_mul(a: Rational, f: int)
    ensures
        a.num() * f == if a.sign == Sign::Negative {
            -(a.p * f)
        } else {
            a.p * f
        },
{
    if a.sign == Sign::Negative {
        assert(-(a.p as int) * f == -(a.p * f)) by (nonlinear_arith);
    }
}

proof fn lemma_cancel_algebra(sn: int, sd: int, nx: int, dx: int, ny: int, dy: int)
    requires
        sn * (dx * dy) == (nx * dy + ny * dx) * sd,
    ensures
        (sn * dy - ny * sd) * dx == nx * (sd * dy),
{
    assert((sn * dy - ny * sd) * dx == (sn * dy) * dx - (ny * sd) * dx) by (nonlinear_arith);
    assert(sn * (dx * dy) == (sn * dy) * dx) by (nonlinear_arith);
    assert((nx * dy + ny * dx) * sd == (nx * dy) * sd + (ny * dx) * sd) by (nonlinear_arith);
    assert((ny * dx) * sd == (ny * sd) * dx) by (nonlinear_arith);
    assert((nx * dy) * sd == nx * (sd * dy)) by (nonlinear_arith);
}

proof fn lemma_signed_product(a: Rational, b: Rational)
    ensures
        a.p * b.p == if a.sign != b.sign {
            -(a.num() * b.num())
        } else {
            a.num() * b.num()
        },
{
    let pa = a.p as int;
    let pb = b.p as int;
    if a.sign == Sign::Negative {
        if b.sign == Sign::Negative {
            assert((-pa) * (-pb) == pa * pb) by (nonlinear_arith);
        } else {
            assert((-pa) * pb == -(pa * pb)) by (nonlinear_arith);
        }
    } else if b.sign == Sign::Negative {
        assert(pa * (-pb) == -(pa * pb)) by (nonlinear_arith);
    }
}

impl Rational {
    closed spec fn add_num(self, rhs: Rational) -> int {
        let g = gcd(self.q as nat, rhs.q as nat);
        self.num() * (rhs.q as nat / g) + rhs.num() * (self.q as nat / g)
    }

    closed spec fn add_den(self, rhs: Rational) -> int {
        let g = gcd(self.q as nat, rhs.q as nat);
        self.q * (rhs.q as nat / g)
    }

    proof fn lemma_add_scaled(self, rhs: Rational)
        requires
            self.wf(),
            rhs.wf(),
        ensures
            self.spec_add(rhs) == frac(self.add_num(rhs), self.add_den(rhs)),
            self.num() * rhs.den() + rhs.num() * self.den() == gcd(self.q as nat, rhs.q as nat)
                * self.add_num(rhs),
            self.den() * rhs.den() == gcd(self.q as nat, rhs.q as nat) * self.add_den(rhs),
            self.add_den(rhs) > 0,
            self.add_fits(rhs) ==> abs(self.add_num(rhs)) <= u64::MAX && self.add_den(rhs)
                <= u64::MAX,
    {
        reveal(Rational::add_fits);
        reveal(Rational::sub_fits);
        reveal(Rational::mul_fits);
        reveal(Rational::div_fits);
        lemma_parts(self);
        lemma_parts(rhs);
        let g = gcd(self.q as nat, rhs.q as nat);
        lemma_gcd_reduce(self.q as nat, rhs.q as nat);
        let fa = rhs.q as nat / g;
        let fb = self.q as nat / g;
        let n = self.add_num(rhs);
        let l = self.add_den(rhs);
        assert(l > 0) by (nonlinear_arith)
            requires
                l == self.q * fa,
                self.q > 0,
                fa > 0,
        ;
        assert(self.num() * rhs.den() + rhs.num() * self.den() == g * n && self.den() * rhs.den()
            == g * l) by (nonlinear_arith)
            requires
                rhs.den() == g * fa,
                self.den() == g * fb,
                n == self.num() * fa + rhs.num() * fb,
                l == self.den() * fa,
        ;
        lemma_frac_scale(n, l, g as int);
        lemma_num_mul(self, fa as int);
        lemma_num_mul(rhs, fb as int);
    }

    /// The sum, when `add_fits` holds, is well formed and has the value of
    /// the exact sum.
    pub proof fn lemma_add_exact(self, rhs: Rational)
        requires
            self.wf(),
            rhs.wf(),
            self.add_fits(rhs),
        ensures
            self.spec_add(rhs).wf(),
            self.spec_add(rhs).num() * (self.den() * rhs.den()) == (self.num() * rhs.den()
                + rhs.num() * self.den()) * self.spec_add(rhs).den(),
    {
        reveal(Rational::add_fits);
        reveal(Rational::sub_fits);
        reveal(Rational::mul_fits);
        reveal(Rational::div_fits);
        let g = gcd(self.q as nat, rhs.q as nat);
        lemma_gcd_reduce(self.q as nat, rhs.q as nat);
        self.lemma_add_scaled(rhs);
        let n = self.add_num(rhs);
        let l = self.add_den(rhs);
        lemma_frac_exact(n, l);
        let s = self.spec_add(rhs);
        let big_n = self.num() * rhs.den() + rhs.num() * self.den();
        let big_d = self.den() * rhs.den();
        assert(s.num() * big_d == big_n * s.den()) by (nonlinear_arith)
            requires
                s.num() * l == n * s.den(),
                big_n == g * n,
                big_d == g * l,
        ;
    }

    /// The negation; zero stays positive.
    pub fn neg(self) -> (r: Rational)
        requires
            self.wf(),
        ensures
            r == self.spec_neg(),
            r.wf(),
            r.num() == -self.num(),
            r.den() == self.den(),
    {
        let r = Rational {
            p: self.p,
            q: self.q,
            sign: if self.sign == Sign::Positive && self.p != 0 {
                Sign::Negative
            } else {
                Sign::Positive
            },
        };
        proof {
            assert(-self.num() * r.den() == r.num() * self.den()) by (nonlinear_arith)
                requires
                    r.den() == self.den(),
                    r.num() == -self.num(),
            ;
            lemma_frac_of_equal(-self.num(), self.den(), r);
        }
        r
    }

    /// The exact sum, over the least common multiple of the denominators.
    pub fn add(self, rhs: Rational) -> (r: Result<Rational, ArithmeticError>)
        requires
            self.wf(),
            rhs.wf(),
        ensures
            r is Ok <==> self.add_fits(rhs),
            r matches Ok(v) ==> v == self.spec_add(rhs) && v.wf(),
            r matches Err(e) ==> e == ArithmeticError::Overflow,
    {
        proof {
            reveal(Rational::add_fits);
            reveal(Rational::sub_fits);
            reveal(Rational::mul_fits);
            reveal(Rational::div_fits);
        }
        let g = gcd_u64(self.q, rhs.q);
        proof {
            lemma_parts(self);
            lemma_parts(rhs);
            lemma_gcd_reduce(self.q as nat, rhs.q as nat);
            self.lemma_add_scaled(rhs);
            lemma_num_mul(self, (rhs.q / g) as int);
            lemma_num_mul(rhs, (self.q / g) as int);
        }
        let fa = rhs.q / g;
        let fb = self.q / g;
        let l = match self.q.checked_mul(fa) {
            Some(v) => v,
            None => return Err(ArithmeticError::Overflow),
        };
        let x = match self.p.checked_mul(fa) {
            Some(v) => v,
            None => return Err(ArithmeticError::Overflow),
        };
        let y = match rhs.p.checked_mul(fb) {
            Some(v) => v,
            None => return Err(ArithmeticError::Overflow),
        };
        let mag: u64;
        let negative: bool;
        if self.sign == rhs.sign {
            match x.checked_add(y) {
                Some(v) => {
                    mag = v;
                    negative = self.sign == Sign::Negative;
                },
                None => return Err(ArithmeticError::Overflow),
            }
        } else if x >= y {
            mag = x - y;
            negative = self.sign == Sign::Negative;
        } else {
            mag = y - x;
            negative = rhs.sign == Sign::Negative;
        }
        assert((if negative { -(mag as int) } else { mag as int }) == self.add_num(rhs));
        let r = reduce(mag, l, negative);
        Ok(r)
    }

    /// The exact difference `self - rhs`.
    pub fn sub(self, rhs: Rational) -> (r: Result<Rational, ArithmeticError>)
        requires
            self.wf(),
            rhs.wf(),
        ensures
            r is Ok <==> self.sub_fits(rhs),
            r matches Ok(v) ==> v == self.spec_sub(rhs) && v.wf(),
            r matches Err(e) ==> e == ArithmeticError::Overflow,
    {
        proof {
            reveal(Rational::add_fits);
            reveal(Rational::sub_fits);
            reveal(Rational::mul_fits);
            reveal(Rational::div_fits);
        }
        let n = rhs.neg();
        proof {
            assert(abs(n.num()) == abs(rhs.num()));
            assert(self.sub_fits(rhs) == self.add_fits(n));
            assert(self.num() * n.den() + n.num() * self.den() == self.num() * rhs.den()
                - rhs.num() * self.den()) by (nonlinear_arith)
                requires
                    n.num() == -rhs.num(),
                    n.den() == rhs.den(),
            ;
        }
        self.add(n)
    }

    /// The exact product.
    pub fn mul(self, rhs: Rational) -> (r: Result<Rational, ArithmeticError>)
        requires
            self.wf(),
            rhs.wf(),
        ensures
            r is Ok <==> self.mul_fits(rhs),
            r matches Ok(v) ==> v == self.spec_mul(rhs) && v.wf(),
            r matches Err(e) ==> e == ArithmeticError::Overflow,
    {
        proof {
            reveal(Rational::add_fits);
            reveal(Rational::sub_fits);
            reveal(Rational::mul_fits);
            reveal(Rational::div_fits);
        }
        proof {
            lemma_parts(self);
            lemma_parts(rhs);
        }
        let p = match self.p.checked_mul(rhs.p) {
            Some(v) => v,
            None => return Err(ArithmeticError::Overflow),
        };
        let q = match self.q.checked_mul(rhs.q) {
            Some(v) => v,
            None => return Err(ArithmeticError::Overflow),
        };
        let negative = self.sign != rhs.sign;
        proof {
            lemma_mul_strictly_positive(self.q as int, rhs.q as int);
            lemma_signed_product(self, rhs);
        }
        Ok(reduce(p, q, negative))
    }

    /// The exact quotient; dividing zero gives zero without further work.
    pub fn div(self, rhs: Rational) -> (r: Result<Rational, ArithmeticError>)
        requires
            self.wf(),
            rhs.wf(),
        ensures
            r == Err::<Rational, ArithmeticError>(ArithmeticError::DivisionByZero) <==> rhs.num()
                == 0,
            r is Ok <==> rhs.num() != 0 && self.div_fits(rhs),
            self.num() == 0 && rhs.num() != 0 ==> r == Ok::<Rational, ArithmeticError>(zero()),
            r matches Ok(v) ==> v == self.spec_div(rhs) && v.wf(),
    {
        proof {
            reveal(Rational::add_fits);
            reveal(Rational::sub_fits);
            reveal(Rational::mul_fits);
            reveal(Rational::div_fits);
        }
        proof {
            lemma_parts(self);
            lemma_parts(rhs);
        }
        if rhs.p == 0 {
            return Err(ArithmeticError::DivisionByZero);
        }
        proof {
            lemma_mul_strictly_positive(self.q as int, rhs.p as int);
        }
        if self.p == 0 {
            let z = Rational::from_u64(0);
            proof {
                let n = self.num() * rhs.den();
                let d = self.den() * rhs.num();
                assert(self.num() == 0);
                lemma_mul_basics(rhs.den());
                assert(rhs.num() < 0 ==> d < 0) by (nonlinear_arith)
                    requires
                        d == self.den() * rhs.num(),
                        self.den() > 0,
                ;
                assert(rhs.num() > 0 ==> d > 0) by (nonlinear_arith)
                    requires
                        d == self.den() * rhs.num(),
                        self.den() > 0,
                ;
                if rhs.num() < 0 {
                    assert(-n * z.den() == z.num() * -d);
                    lemma_frac_of_equal(-n, -d, z);
                } else {
                    assert(n * z.den() == z.num() * d);
                    lemma_frac_of_equal(n, d, z);
                }
            }
            return Ok(z);
        }
        let p = match self.p.checked_mul(rhs.q) {
            Some(v) => v,
            None => return Err(ArithmeticError::Overflow),
        };
        let q = match self.q.checked_mul(rhs.p) {
            Some(v) => v,
            None => return Err(ArithmeticError::Overflow),
        };
        let negative = self.sign != rhs.sign;
        proof {
            lemma_num_mul(self, rhs.q as int);
            lemma_num_mul(rhs, self.q as int);
            lemma_mul_is_commutative(rhs.p as int, self.q as int);
            lemma_mul_is_commutative(rhs.num(), self.den());
            if rhs.num() < 0 {
                assert((if negative { -(p as int) } else { p as int }) == -(self.num()
                    * rhs.den()));
                assert(q as int == -(self.den() * rhs.num()));
            } else {
                assert((if negative { -(p as int) } else { p as int }) == self.num() * rhs.den());
                assert(q as int == self.den() * rhs.num());
            }
        }
        Ok(reduce(p, q, negative))
    }

    /// Orders two values: differing signs decide at once, otherwise the
    /// numerators are compared over a common denominator.
    pub fn compare(&self, other: &Rational) -> (r: Ordering)
        requires
            self.wf(),
            other.wf(),
        ensures
            r == self.spec_cmp(*other),
    {
        proof {
            lemma_num_mul(*self, other.q as int);
            lemma_num_mul(*other, self.q as int);
            lemma_mul_is_commutative(other.q as int, self.p as int);
            lemma_mul_is_commutative(self.q as int, other.p as int);
            lemma_mul_strictly_positive(self.p as int, other.q as int);
            lemma_mul_strictly_positive(other.p as int, self.q as int);
            lemma_mul_nonnegative(self.p as int, other.q as int);
            lemma_mul_nonnegative(other.p as int, self.q as int);
        }
        if self.sign != other.sign {
            if self.sign == Sign::Positive {
                return Ordering::Greater;
            }
            return Ordering::Less;
        }
        assert(self.p as u128 * other.q as u128 <= u128::MAX) by (nonlinear_arith);
        assert(other.p as u128 * self.q as u128 <= u128::MAX) by (nonlinear_arith);
        let lhs = self.p as u128 * other.q as u128;
        let rhs = other.p as u128 * self.q as u128;
        if self.sign == Sign::Positive {
            if lhs < rhs {
                Ordering::Less
            } else if lhs == rhs {
                Ordering::Equal
            } else {
                Ordering::Greater
            }
        } else {
            if rhs < lhs {
                Ordering::Less
            } else if lhs == rhs {
                Ordering::Equal
            } else {
                Ordering::Greater
            }
        }
    }
}

impl Rational {
    /// The product, when `mul_fits` holds, is well formed and has the value
    /// of the exact product.
    pub proof fn lemma_mul_exact(self, rhs: Rational)
        requires
            self.wf(),
            rhs.wf(),
            self.mul_fits(rhs),
        ensures
            self.spec_mul(rhs).wf(),
            self.spec_mul(rhs).num() * (self.den() * rhs.den()) == (self.num() * rhs.num())
                * self.spec_mul(rhs).den(),
    {
        reveal(Rational::add_fits);
        reveal(Rational::sub_fits);
        reveal(Rational::mul_fits);
        reveal(Rational::div_fits);
        lemma_parts(self);
        lemma_parts(rhs);
        lemma_num_mul(self, rhs.num());
        lemma_num_mul(rhs, self.p as int);
        lemma_mul_is_commutative(rhs.p as int, self.p as int);
        lemma_mul_strictly_positive(self.q as int, rhs.q as int);
        lemma_signed_product(self, rhs);
        lemma_mul_nonnegative(self.p as int, rhs.p as int);
        assert(abs(self.num() * rhs.num()) == self.p * rhs.p);
        lemma_frac_exact(self.num() * rhs.num(), self.den() * rhs.den());
    }

    /// Subtraction is addition of the negation.
    pub proof fn lemma_sub_is_add_neg(self, rhs: Rational)
        requires
            self.wf(),
            rhs.wf(),
        ensures
            self.spec_sub(rhs) == self.spec_add(rhs.spec_neg()),
            rhs.spec_neg().wf(),
            rhs.spec_neg().num() == -rhs.num(),
            rhs.spec_neg().den() == rhs.den(),
            self.sub_fits(rhs) == self.add_fits(rhs.spec_neg()),
    {
        reveal(Rational::add_fits);
        reveal(Rational::sub_fits);
        reveal(Rational::mul_fits);
        reveal(Rational::div_fits);
        let n = rhs.spec_neg();
        let r = Rational {
            p: rhs.p,
            q: rhs.q,
            sign: if rhs.sign == Sign::Positive && rhs.p != 0 {
                Sign::Negative
            } else {
                Sign::Positive
            },
        };
        assert(-rhs.num() * r.den() == r.num() * rhs.den()) by (nonlinear_arith)
            requires
                r.den() == rhs.den(),
                r.num() == -rhs.num(),
        ;
        lemma_frac_of_equal(-rhs.num(), rhs.den(), r);
        assert(abs(n.num()) == abs(rhs.num()));
        assert(self.num() * n.den() + n.num() * self.den() == self.num() * rhs.den() - rhs.num()
            * self.den()) by (nonlinear_arith)
            requires
                n.num() == -rhs.num(),
                n.den() == rhs.den(),
        ;
    }
}

/// The quotient of a non-zero divisor, when `div_fits` holds, is well formed
/// and has the value of the exact quotient; dividing zero gives zero.
pub proof fn lemma_div_exact(x: Rational, y: Rational)
    requires
        x.wf(),
        y.wf(),
        y.num() != 0,
        x.div_fits(y),
    ensures
        x.spec_div(y).wf(),
        x.spec_div(y).num() * (x.den() * y.num()) == (x.num() * y.den()) * x.spec_div(y).den(),
        x.num() == 0 ==> x.spec_div(y) == zero(),
        x.spec_div(y).num() < 0 <==> (x.num() < 0 && y.num() > 0) || (x.num() > 0 && y.num()
            < 0),
{
    reveal(Rational::add_fits);
    reveal(Rational::sub_fits);
    reveal(Rational::mul_fits);
    reveal(Rational::div_fits);
    lemma_zero_one();
    lemma_lowest_terms(x);
    lemma_lowest_terms(y);
    let q = x.spec_div(y);
    let n = x.num() * y.den();
    let d = x.den() * y.num();
    assert(y.num() < 0 ==> d < 0) by (nonlinear_arith)
        requires
            d == x.den() * y.num(),
            x.den() > 0,
    ;
    assert(y.num() > 0 ==> d > 0) by (nonlinear_arith)
        requires
            d == x.den() * y.num(),
            x.den() > 0,
    ;
    assert(abs(n) == abs(x.num()) * y.den() && abs(d) == x.den() * abs(y.num())) by (
    nonlinear_arith)
        requires
            n == x.num() * y.den(),
            d == x.den() * y.num(),
            x.den() > 0,
            y.den() > 0,
    ;
    assert(n < 0 <==> x.num() < 0) by (nonlinear_arith)
        requires
            n == x.num() * y.den(),
            y.den() > 0,
    ;
    assert(n == 0 <==> x.num() == 0) by (nonlinear_arith)
        requires
            n == x.num() * y.den(),
            y.den() > 0,
    ;
    if x.num() == 0 {
        if y.num() < 0 {
            lemma_frac_of_equal(-n, -d, zero());
        } else {
            lemma_frac_of_equal(n, d, zero());
        }
        assert(q.num() * d == n * q.den()) by (nonlinear_arith)
            requires
                q.num() == 0,
                n == 0,
        ;
    } else if y.num() < 0 {
        lemma_frac_exact(-n, -d);
        assert(q.num() * d == n * q.den()) by (nonlinear_arith)
            requires
                q.num() * (-d) == (-n) * q.den(),
        ;
    } else {
        lemma_frac_exact(n, d);
    }
}

/// Every well-formed rational is stored in lowest terms over a positive
/// denominator, and a zero value is the one positive zero `0/1`.
pub proof fn lemma_lowest_terms(x: Rational)
    requires
        x.wf(),
    ensures
        x.den() > 0,
        gcd(abs(x.num()), x.den() as nat) == 1,
        x.num() == 0 ==> x == frac(0, 1) && x.den() == 1,
{
    assert(abs(x.num()) == x.p as nat);
    assert(x.den() as nat == x.q as nat);
    assert(gcd(x.p as nat, x.q as nat) == 1);
    if x.num() == 0 {
        assert(0 * x.den() == x.num() * 1);
        lemma_frac_of_equal(0, 1, x);
        lemma_gcd_zero_left(1);
    }
}

/// Adding a value and then subtracting it again gives back the original
/// value, whenever the addition is carried out within 64 bits.
pub proof fn lemma_add_sub_cancel(x: Rational, y: Rational)
    requires
        x.wf(),
        y.wf(),
        x.add_fits(y),
    ensures
        x.spec_add(y).spec_sub(y) == x,
{
    x.lemma_add_exact(y);
    let s = x.spec_add(y);
    let n = s.num() * y.den() - y.num() * s.den();
    let d = s.den() * y.den();
    lemma_cancel_algebra(s.num(), s.den(), x.num(), x.den(), y.num(), y.den());
    lemma_mul_strictly_positive(s.den(), y.den());
    lemma_frac_of_equal(n, d, x);
}

/// Multiplying by a non-zero value and then dividing by it gives back the
/// original value, whenever the product is carried out within 64 bits.
pub proof fn lemma_mul_div_cancel(x: Rational, y: Rational)
    requires
        x.wf(),
        y.wf(),
        y.num() != 0,
        x.mul_fits(y),
    ensures
        x.spec_mul(y).spec_div(y) == x,
{
    x.lemma_mul_exact(y);
    let m = x.spec_mul(y);
    let n = m.num() * y.den();
    let d = m.den() * y.num();
    assert(n * x.den() == x.num() * d) by (nonlinear_arith)
        requires
            m.num() * (x.den() * y.den()) == (x.num() * y.num()) * m.den(),
            n == m.num() * y.den(),
            d == m.den() * y.num(),
    ;
    if y.num() < 0 {
        assert(-n * x.den() == x.num() * -d && -d > 0) by (nonlinear_arith)
            requires
                n * x.den() == x.num() * d,
                d == m.den() * y.num(),
                m.den() > 0,
                y.num() < 0,
        ;
        lemma_frac_of_equal(-n, -d, x);
    } else {
        assert(d > 0) by (nonlinear_arith)
            requires
                d == m.den() * y.num(),
                m.den() > 0,
                y.num() > 0,
        ;
        lemma_frac_of_equal(n, d, x);
    }
}

/// Comparison is total and exact: it reports `Equal` exactly for equal
/// values, and whenever `x - y` is computed within 64 bits, `Less` and
/// `Greater` agree with the sign of the difference.
pub proof fn lemma_compare_total(x: Rational, y: Rational)
    requires
        x.wf(),
        y.wf(),
    ensures
        x.spec_cmp(y) == Ordering::Equal <==> x == y,
        x.sub_fits(y) ==> (x.spec_cmp(y) == Ordering::Less <==> x.spec_sub(y).num() < 0),
        x.sub_fits(y) ==> (x.spec_cmp(y) == Ordering::Greater <==> x.spec_sub(y).num() > 0),
        x.sub_fits(y) ==> (x.spec_cmp(y) == Ordering::Equal <==> x.spec_sub(y).num() == 0),
{
    if x.spec_cmp(y) == Ordering::Equal {
        lemma_frac_of_equal(x.num(), x.den(), x);
        assert(x.num() * y.den() == y.num() * x.den());
        lemma_frac_of_equal(x.num(), x.den(), y);
    }
    if x.sub_fits(y) {
        x.lemma_sub_is_add_neg(y);
        let ny = y.spec_neg();
        x.lemma_add_exact(ny);
        let s = x.spec_sub(y);
        let dn = x.num() * y.den() - y.num() * x.den();
        assert(x.num() * ny.den() + ny.num() * x.den() == dn) by (nonlinear_arith)
            requires
                ny.num() == -y.num(),
                ny.den() == y.den(),
                dn == x.num() * y.den() - y.num() * x.den(),
        ;
        assert(s.num() * (x.den() * y.den()) == dn * s.den());
        assert((s.num() < 0 <==> dn < 0) && (s.num() == 0 <==> dn == 0)) by (nonlinear_arith)
            requires
                s.num() * (x.den() * y.den()) == dn * s.den(),
                x.den() > 0,
                y.den() > 0,
                s.den() > 0,
        {
            assert(x.den() * y.den() > 0);
        }
    }
}

/// The zero value `0/1`.
pub open spec fn zero() -> Rational {
    frac(0, 1)
}

/// The unit value `1/1`.
pub open spec fn one() -> Rational {
    frac(1, 1)
}

impl Rational {
    /// The integer `n` as a rational.
    pub open spec fn from_int(n: int) -> Rational {
        frac(n, 1)
    }

    /// The value is below zero.
    pub open spec fn is_neg_spec(self) -> bool {
        self.num() < 0
    }

    /// `self < o` as values.
    pub open spec fn lt(self, o: Rational) -> bool {
        self.num() * o.den() < o.num() * self.den()
    }

    /// `self <= o` as values.
    pub open spec fn le(self, o: Rational) -> bool {
        self.num() * o.den() <= o.num() * self.den()
    }
}

/// Zero and one are well formed, with their expected numerators.
pub proof fn lemma_zero_one()
    ensures
        zero().wf(),
        one().wf(),
        zero().num() == 0,
        zero().den() == 1,
        one().num() == 1,
        one().den() == 1,
{
    lemma_gcd_zero_left(1);
    lemma_frac_exact(0, 1);
    lemma_frac_exact(1, 1);
    assert(1nat % 1nat == 0);
    assert(gcd(1, 1) == gcd(1, 0));
}

/// A well-formed value is zero exactly when its numerator is zero.
pub proof fn lemma_zero_iff(x: Rational)
    requires
        x.wf(),
    ensures
        x == zero() <==> x.num() == 0,
{
    lemma_zero_one();
    lemma_lowest_terms(x);
}

/// Order facts: comparisons chain through a middle value.
pub proof fn lemma_order_trans(a: Rational, b: Rational, c: Rational)
    requires
        a.wf(),
        b.wf(),
        c.wf(),
    ensures
        a.lt(b) && b.le(c) ==> a.lt(c),
        a.le(b) && b.lt(c) ==> a.lt(c),
        a.le(b) && b.le(c) ==> a.le(c),
        a.lt(b) ==> !b.le(a),
        !a.lt(b) ==> b.le(a),
        a.lt(zero()) <==> a.num() < 0,
{
    lemma_zero_one();
    let (an, ad, bn, bd, cn, cd) = (a.num(), a.den(), b.num(), b.den(), c.num(), c.den());
    assert(an * bd < bn * ad && bn * cd <= cn * bd ==> an * cd < cn * ad) by (nonlinear_arith)
        requires
            ad > 0,
            bd > 0,
            cd > 0,
    {
        if an * bd < bn * ad && bn * cd <= cn * bd {
            assert(an * bd * cd < bn * ad * cd);
            assert(bn * cd * ad <= cn * bd * ad);
            assert(an * cd * bd < cn * ad * bd);
        }
    }
    assert(an * bd <= bn * ad && bn * cd < cn * bd ==> an * cd < cn * ad) by (nonlinear_arith)
        requires
            ad > 0,
            bd > 0,
            cd > 0,
    {
        if an * bd <= bn * ad && bn * cd < cn * bd {
            assert(an * bd * cd <= bn * ad * cd);
            assert(bn * cd * ad < cn * bd * ad);
            assert(an * cd * bd < cn * ad * bd);
        }
    }
    assert(an * bd <= bn * ad && bn * cd <= cn * bd ==> an * cd <= cn * ad) by (nonlinear_arith)
        requires
            ad > 0,
            bd > 0,
            cd > 0,
    {
        if an * bd <= bn * ad && bn * cd <= cn * bd {
            assert(an * bd * cd <= bn * ad * cd);
            assert(bn * cd * ad <= cn * bd * ad);
            assert(an * cd * bd <= cn * ad * bd);
        }
    }
    lemma_mul_is_commutative(an, bd);
    lemma_mul_is_commutative(bn, ad);
}

/// A non-zero value divided by itself is one.
pub proof fn lemma_div_self(x: Rational)
    requires
        x.wf(),
        x != zero(),
    ensures
        x.spec_div(x) == one(),
{
    lemma_zero_one();
    lemma_zero_iff(x);
    let n = x.num() * x.den();
    let d = x.den() * x.num();
    lemma_mul_is_commutative(x.num(), x.den());
    if x.num() < 0 {
        assert(-d > 0) by (nonlinear_arith)
            requires
                d == x.den() * x.num(),
                x.den() > 0,
                x.num() < 0,
        ;
        lemma_frac_of_equal(-n, -d, one());
    } else {
        assert(d > 0) by (nonlinear_arith)
            requires
                d == x.den() * x.num(),
                x.den() > 0,
                x.num() > 0,
        ;
        lemma_frac_of_equal(n, d, one());
    }
}

/// Subtracting a value times one from itself leaves zero.
pub proof fn lemma_cancel_self(x: Rational)
    requires
        x.wf(),
    ensures
        x.spec_sub(x.spec_mul(one())) == zero(),
        x.spec_mul(one()) == x,
{
    lemma_zero_one();
    lemma_frac_of_equal(x.num() * 1, x.den() * 1, x);
    let d = x.den() * x.den();
    lemma_mul_strictly_positive(x.den(), x.den());
    assert(x.num() * x.den() - x.num() * x.den() == 0);
    lemma_frac_of_equal(0, d, zero());
}

} // verus!
