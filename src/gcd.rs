//! Greatest common divisors: the mathematical definition, the facts the
//! rational type needs about it, and Stein's binary algorithm on `u64`.
use vstd::arithmetic::div_mod::*;
use vstd::arithmetic::mul::*;
use vstd::prelude::*;

verus! {

/// `d` divides `a`.
pub open spec fn divides(d: int, a: int) -> bool {
    exists|k: int| a == #[trigger] (d * k)
}

/// Euclid's definition of the greatest common divisor.
pub open spec fn gcd(a: nat, b: nat) -> nat
    decreases b,
{
    if b == 0 {
        a
    } else {
        gcd(b, a % b)
    }
}

proof fn lemma_divides_witness(d: int, a: int, k: int)
    requires
        a == d * k,
    ensures
        divides(d, a),
{
}

/// The greatest common divisor divides both arguments.
pub proof fn lemma_gcd_divides(a: nat, b: nat)
    ensures
        divides(gcd(a, b) as int, a as int),
        divides(gcd(a, b) as int, b as int),
    decreases b,
{
    if b == 0 {
        lemma_divides_witness(a as int, a as int, 1);
        lemma_divides_witness(a as int, 0, 0);
    } else {
        let g = gcd(a, b) as int;
        lemma_gcd_divides(b, a % b);
        let k1 = choose|k: int| b == #[trigger] (g * k);
        let k2 = choose|k: int| (a % b) as int == #[trigger] (g * k);
        lemma_fundamental_div_mod(a as int, b as int);
        let q = a as int / b as int;
        assert(a as int == g * (k1 * q + k2)) by (nonlinear_arith)
            requires
                a as int == b * q + (a % b) as int,
                b == g * k1,
                (a % b) as int == g * k2,
        ;
        lemma_divides_witness(g, a as int, k1 * q + k2);
    }
}

/// Every common divisor divides the greatest common divisor.
pub proof fn lemma_gcd_greatest(a: nat, b: nat, d: int)
    requires
        divides(d, a as int),
        divides(d, b as int),
    ensures
        divides(d, gcd(a, b) as int),
    decreases b,
{
    if b != 0 {
        let k1 = choose|k: int| a as int == #[trigger] (d * k);
        let k2 = choose|k: int| b as int == #[trigger] (d * k);
        lemma_fundamental_div_mod(a as int, b as int);
        let q = a as int / b as int;
        assert((a % b) as int == d * (k1 - k2 * q)) by (nonlinear_arith)
            requires
                a as int == b * q + (a % b) as int,
                a as int == d * k1,
                b as int == d * k2,
        ;
        lemma_divides_witness(d, (a % b) as int, k1 - k2 * q);
        lemma_gcd_greatest(b, a % b, d);
    }
}

/// Two non-negative integers that divide each other are equal.
pub proof fn lemma_divides_antisym(x: nat, y: nat)
    requires
        divides(x as int, y as int),
        divides(y as int, x as int),
    ensures
        x == y,
{
    let k1 = choose|k: int| y as int == #[trigger] (x * k);
    let k2 = choose|k: int| x as int == #[trigger] (y * k);
    if x == 0 {
        lemma_mul_basics(k1);
    } else if y == 0 {
        lemma_mul_basics(k2);
    } else {
        assert(x == y) by (nonlinear_arith)
            requires
                x > 0,
                y > 0,
                y == x * k1,
                x == y * k2,
        {
            assert(k1 > 0);
            assert(k2 > 0);
            assert(y >= x);
            assert(x >= y);
        }
    }
}

/// A positive multiple is at least the divisor.
pub proof fn lemma_divides_le(d: nat, a: nat)
    requires
        divides(d as int, a as int),
        a > 0,
    ensures
        d <= a,
{
    let k = choose|k: int| a as int == #[trigger] (d * k);
    assert(d <= a) by (nonlinear_arith)
        requires
            a > 0,
            a == d * k,
    {
        assert(k > 0);
    }
}

/// `gcd(0, b) == b`.
pub proof fn lemma_gcd_zero_left(b: nat)
    ensures
        gcd(0, b) == b,
{
    if b != 0 {
        assert(0nat % b == 0);
        assert(gcd(0, b) == gcd(b, 0));
    }
}

/// The greatest common divisor of a positive value is positive.
pub proof fn lemma_gcd_pos(a: nat, b: nat)
    requires
        a > 0 || b > 0,
    ensures
        gcd(a, b) > 0,
{
    lemma_gcd_divides(a, b);
    if gcd(a, b) == 0 {
        let k1 = choose|k: int| a as int == #[trigger] (0 * k);
        let k2 = choose|k: int| b as int == #[trigger] (0 * k);
        assert(false);
    }
}

/// Two pairs whose greatest common divisors divide each other's arguments
/// have the same greatest common divisor.
pub proof fn lemma_gcd_mutual(a: nat, b: nat, c: nat, e: nat)
    requires
        divides(gcd(a, b) as int, c as int),
        divides(gcd(a, b) as int, e as int),
        divides(gcd(c, e) as int, a as int),
        divides(gcd(c, e) as int, b as int),
    ensures
        gcd(a, b) == gcd(c, e),
{
    lemma_gcd_greatest(c, e, gcd(a, b) as int);
    lemma_gcd_greatest(a, b, gcd(c, e) as int);
    lemma_divides_antisym(gcd(a, b), gcd(c, e));
}

/// The greatest common divisor does not depend on the order of its arguments.
pub proof fn lemma_gcd_commutes(a: nat, b: nat)
    ensures
        gcd(a, b) == gcd(b, a),
{
    lemma_gcd_divides(a, b);
    lemma_gcd_divides(b, a);
    lemma_gcd_mutual(a, b, b, a);
}

/// A common factor comes out of the greatest common divisor.
pub proof fn lemma_gcd_scale(k: nat, a: nat, b: nat)
    requires
        k > 0,
    ensures
        gcd(k * a, k * b) == k * gcd(a, b),
    decreases b,
{
    if b == 0 {
        assert(k * b == 0);
    } else {
        lemma_mul_strictly_positive(k as int, b as int);
        lemma_truncate_middle(a as int, k as int, b as int);
        assert((k * a) % (k * b) == k * (a % b));
        lemma_gcd_scale(k, b, a % b);
    }
}

/// Subtracting the smaller argument from the larger keeps the greatest
/// common divisor.
pub proof fn lemma_gcd_sub(m: nat, n: nat)
    requires
        m >= n,
    ensures
        gcd(m, n) == gcd((m - n) as nat, n),
{
    lemma_gcd_divides(m, n);
    lemma_gcd_divides((m - n) as nat, n);
    let g = gcd(m, n) as int;
    let h = gcd((m - n) as nat, n) as int;
    let a1 = choose|k: int| m as int == #[trigger] (g * k);
    let a2 = choose|k: int| n as int == #[trigger] (g * k);
    let b1 = choose|k: int| (m - n) as int == #[trigger] (h * k);
    let b2 = choose|k: int| n as int == #[trigger] (h * k);
    assert((m - n) as int == g * (a1 - a2)) by (nonlinear_arith)
        requires
            m as int == g * a1,
            n as int == g * a2,
    ;
    assert(m as int == h * (b1 + b2)) by (nonlinear_arith)
        requires
            (m - n) as int == h * b1,
            n as int == h * b2,
            m >= n,
    ;
    lemma_divides_witness(g, (m - n) as int, a1 - a2);
    lemma_divides_witness(h, m as int, b1 + b2);
    lemma_gcd_mutual(m, n, (m - n) as nat, n);
}

/// Halving an even argument keeps the greatest common divisor when the other
/// argument is odd.
pub proof fn lemma_gcd_halve(m: nat, n: nat)
    requires
        m % 2 == 0,
        n % 2 == 1,
    ensures
        gcd(m, n) == gcd(m / 2, n),
{
    lemma_gcd_divides(m, n);
    lemma_gcd_divides(m / 2, n);
    let g = gcd(m, n) as int;
    let h = gcd(m / 2, n) as int;
    let a1 = choose|k: int| m as int == #[trigger] (g * k);
    let a2 = choose|k: int| n as int == #[trigger] (g * k);
    let b1 = choose|k: int| (m / 2) as int == #[trigger] (h * k);
    assert(m as int == h * (2 * b1)) by (nonlinear_arith)
        requires
            (m / 2) as int == h * b1,
            m % 2 == 0,
    ;
    lemma_divides_witness(h, m as int, 2 * b1);
    assert(a1 % 2 == 0) by (nonlinear_arith)
        requires
            m as int == g * a1,
            n as int == g * a2,
            m % 2 == 0,
            n % 2 == 1,
    {
        if g % 2 == 0 {
            assert(n as int == 2 * ((g / 2) * a2));
        } else if a1 % 2 == 1 {
            assert(g == 2 * (g / 2) + 1);
            assert(a1 == 2 * (a1 / 2) + 1);
            assert(m as int == 2 * (2 * (g / 2) * (a1 / 2) + (g / 2) + (a1 / 2)) + 1);
        }
    }
    assert((m / 2) as int == g * (a1 / 2)) by (nonlinear_arith)
        requires
            m as int == g * a1,
            a1 % 2 == 0,
    {
        assert(a1 == 2 * (a1 / 2));
    }
    lemma_divides_witness(g, (m / 2) as int, a1 / 2);
    lemma_gcd_mutual(m, n, m / 2, n);
}

/// Reducing by the greatest common divisor leaves coprime parts.
pub proof fn lemma_gcd_reduce(a: nat, b: nat)
    requires
        b > 0,
    ensures
        gcd(a, b) > 0,
        a == gcd(a, b) * (a / gcd(a, b)),
        b == gcd(a, b) * (b / gcd(a, b)),
        gcd(a / gcd(a, b), b / gcd(a, b)) == 1,
        a / gcd(a, b) <= a,
        0 < b / gcd(a, b) <= b,
{
    let g = gcd(a, b);
    lemma_gcd_pos(a, b);
    lemma_gcd_divides(a, b);
    let k1 = choose|k: int| a as int == #[trigger] (g * k);
    let k2 = choose|k: int| b as int == #[trigger] (g * k);
    lemma_div_multiples_vanish(k1, g as int);
    lemma_div_multiples_vanish(k2, g as int);
    assert(k1 >= 0 && k2 > 0) by (nonlinear_arith)
        requires
            g > 0,
            a as int == g * k1,
            b as int == g * k2,
            b > 0,
    ;
    lemma_gcd_scale(g, k1 as nat, k2 as nat);
    assert(g * gcd(k1 as nat, k2 as nat) == g * 1);
    lemma_mul_equality_converse(g as int, gcd(k1 as nat, k2 as nat) as int, 1);
    assert(k1 <= a && k2 <= b) by (nonlinear_arith)
        requires
            g > 0,
            a as int == g * k1,
            b as int == g * k2,
            k1 >= 0,
            k2 > 0,
    ;
}

proof fn lemma_mul_equality_converse(k: int, x: int, y: int)
    requires
        k > 0,
        k * x == k * y,
    ensures
        x == y,
{
    assert(x == y) by (nonlinear_arith)
        requires
            k > 0,
            k * x == k * y,
    ;
}

/// Greatest common divisor by Stein's binary algorithm: common factors of two
/// are taken out first, then the smaller odd value is subtracted from the
/// larger until the two meet.
pub fn gcd_u64(a: u64, b: u64) -> (r: u64)
    ensures
        r == gcd(a as nat, b as nat),
{
    if a == 0 {
        proof {
            lemma_gcd_zero_left(b as nat);
        }
        return b;
    }
    if b == 0 {
        return a;
    }
    let mut m: u64 = a;
    let mut n: u64 = b;
    let mut factor: u64 = 1;
    while m % 2 == 0 && n % 2 == 0
        invariant
            m > 0,
            n > 0,
            factor > 0,
            a == m * factor,
            b == n * factor,
            gcd(a as nat, b as nat) == factor * gcd(m as nat, n as nat),
        decreases m,
    {
        proof {
            lemma_gcd_scale(2, (m / 2) as nat, (n / 2) as nat);
            assert(m == 2 * (m / 2) && n == 2 * (n / 2));
            assert(factor * 2 <= a) by (nonlinear_arith)
                requires
                    a == m * factor,
                    m >= 2,
                    factor > 0,
            ;
            assert(a == (m / 2) * (factor * 2) && b == (n / 2) * (factor * 2)) by (nonlinear_arith)
                requires
                    a == m * factor,
                    b == n * factor,
                    m == 2 * (m / 2),
                    n == 2 * (n / 2),
            ;
            assert(factor * gcd(m as nat, n as nat) == (factor * 2) * gcd((m / 2) as nat, (n / 2) as nat)) by (nonlinear_arith)
                requires
                    gcd(m as nat, n as nat) == 2 * gcd((m / 2) as nat, (n / 2) as nat),
            ;
        }
        m = m / 2;
        n = n / 2;
        factor = factor * 2;
    }
    while m % 2 == 0
        invariant
            m > 0,
            n > 0,
            m % 2 == 1 || n % 2 == 1,
            gcd(a as nat, b as nat) == factor * gcd(m as nat, n as nat),
        decreases m,
    {
        proof {
            lemma_gcd_halve(m as nat, n as nat);
        }
        m = m / 2;
    }
    while n % 2 == 0
        invariant
            m > 0,
            n > 0,
            m % 2 == 1,
            gcd(a as nat, b as nat) == factor * gcd(m as nat, n as nat),
        decreases n,
    {
        proof {
            lemma_gcd_commutes(m as nat, n as nat);
            lemma_gcd_commutes(m as nat, (n / 2) as nat);
            lemma_gcd_halve(n as nat, m as nat);
        }
        n = n / 2;
    }
    while m != n
        invariant
            m > 0,
            n > 0,
            m % 2 == 1,
            n % 2 == 1,
            gcd(a as nat, b as nat) == factor * gcd(m as nat, n as nat),
        decreases m + n,
    {
        let ghost s = m + n;
        if m > n {
            proof {
                lemma_gcd_sub(m as nat, n as nat);
            }
            m = m - n;
            while m % 2 == 0
                invariant
                    m + n < s,
                    m > 0,
                    n % 2 == 1,
                    n > 0,
                    gcd(a as nat, b as nat) == factor * gcd(m as nat, n as nat),
                decreases m,
            {
                proof {
                    lemma_gcd_halve(m as nat, n as nat);
                }
                m = m / 2;
            }
        } else {
            proof {
                lemma_gcd_commutes(m as nat, n as nat);
                lemma_gcd_sub(n as nat, m as nat);
                lemma_gcd_commutes(m as nat, (n - m) as nat);
            }
            n = n - m;
            while n % 2 == 0
                invariant
                    m + n < s,
                    n > 0,
                    m % 2 == 1,
                    m > 0,
                    gcd(a as nat, b as nat) == factor * gcd(m as nat, n as nat),
                decreases n,
            {
                proof {
                    lemma_gcd_commutes(m as nat, n as nat);
                    lemma_gcd_commutes(m as nat, (n / 2) as nat);
                    lemma_gcd_halve(n as nat, m as nat);
                }
                n = n / 2;
            }
        }
    }
    proof {
        assert((m as nat) % (m as nat) == 0) by {
            lemma_mod_self_0(m as int);
        }
        assert(gcd(m as nat, m as nat) == gcd(m as nat, 0));
        lemma_gcd_divides(a as nat, b as nat);
        lemma_divides_le(gcd(a as nat, b as nat), a as nat);
        assert(m * factor == factor * m) by {
            lemma_mul_is_commutative(m as int, factor as int);
        }
    }
    m * factor
}

} // verus!
