//! The prime field of order 1613, a demonstration field that is far too
//! small for real protection, and the extended Euclidean algorithm that
//! computes its inverses.

use crate::field::Field;
use rand::{Rng, StdRng};
use vstd::arithmetic::div_mod::{
    lemma_add_mod_noop, lemma_fundamental_div_mod, lemma_mod_multiples_vanish,
    lemma_mul_mod_noop_general,
};
use vstd::arithmetic::mul::{lemma_mul_is_associative, lemma_mul_is_distributive_add};
use vstd::arithmetic::power::{
    lemma_pow0, lemma_pow1, lemma_pow_adds, lemma_pow_mod_noop, lemma_pow_multiplies,
    lemma_square_is_pow2, pow,
};
use vstd::math::abs;
use vstd::prelude::*;

verus! {

/// The order of the field.
pub const P: u32 = 1613;

/// An element of the integers modulo 1613, held as its representative in
/// `[0, 1613)`.
#[derive(Debug, Clone, Copy, PartialEq, Eq, Structural)]
pub struct G1613(pub u32);

impl G1613 {
    /// The element that `v` represents, reduced into `[0, 1613)`.
    pub fn new(v: u32) -> (r: Self)
        ensures
            r.is_member(),
            r.0 == v % P,
    {
        G1613(v % P)
    }
}

/// The quotient of `a` by `b` rounded toward zero, for `b != 0`.
pub open spec fn quotient_toward_zero(a: int, b: int) -> int {
    if b > 0 {
        if a >= 0 {
            a / b
        } else {
            -((-a) / b)
        }
    } else {
        if a >= 0 {
            -(a / (-b))
        } else {
            (-a) / (-b)
        }
    }
}

/// What division with remainder toward zero gives: the remainder is smaller
/// than the divisor in size and takes the sign of the dividend, and the sizes
/// of quotient and remainder divide the size of the dividend.
pub proof fn lemma_division_toward_zero(a: int, b: int)
    requires
        b != 0,
    ensures
        ({
            let q = quotient_toward_zero(a, b);
            let rest = a - q * b;
            &&& abs(rest) < abs(b)
            &&& a >= 0 ==> rest >= 0
            &&& a <= 0 ==> rest <= 0
            &&& (a >= 0) == (b > 0) ==> q >= 0
            &&& (a >= 0) != (b > 0) ==> q <= 0
            &&& abs(q) * abs(b) + abs(rest) == abs(a)
        }),
{
    let x: int = abs(a) as int;
    let y: int = abs(b) as int;
    let m = x / y;
    lemma_fundamental_div_mod(x, y);
    assert(0 <= x % y < y);
    assert(m >= 0) by (nonlinear_arith)
        requires
            x >= 0,
            y > 0,
            m == x / y,
    ;
    let q = quotient_toward_zero(a, b);
    assert(abs(q) == m);
    assert(q * b == m * y || q * b == -(m * y)) by (nonlinear_arith)
        requires
            (q == m || q == -m),
            (b == y || b == -y),
    ;
    assert(y * m == m * y) by (nonlinear_arith);
    if (a >= 0) == (b > 0) {
        assert(q == m);
    } else {
        assert(q == -m);
    }
    assert(q * b == if a >= 0 { m * y } else { -(m * y) }) by (nonlinear_arith)
        requires
            y > 0,
            m >= 0,
            (b == y || b == -y),
            (a >= 0) == (b > 0) ==> q == m,
            (a >= 0) != (b > 0) ==> q == -m,
            b > 0 <==> b == y,
    ;
}

/// Dividing a non-negative number by a negative one negates the quotient by
/// its size: `a / b == -(a / -b)`.
pub proof fn lemma_quotient_by_negative(a: int, b: int)
    requires
        a >= 0,
        b != 0,
    ensures
        b < 0 ==> a / b == -(a / (-b)),
{
    if b < 0 {
        let d = -b;
        lemma_fundamental_div_mod(a, d);
        lemma_fundamental_div_mod(a, b);
        assert(0 <= a % d < d);
        assert(0 <= a % b < d);
        let q1 = a / b;
        let q2 = a / d;
        assert(q1 == -q2) by (nonlinear_arith)
            requires
                a == b * q1 + a % b,
                a == d * q2 + a % d,
                d == -b,
                d > 0,
                0 <= a % d < d,
                0 <= a % b < d,
        ;
    }
}

/// The recursion of the extended Euclidean algorithm on the pair `(a, b)`
/// with the running coefficient pairs `(s, s1)` and `(t, t1)`: divide, and
/// stop with `(b, s1, t1)` once the remainder is zero.
pub open spec fn euclid_step(a: int, b: int, s: int, s1: int, t: int, t1: int) -> (int, int, int)
    decreases abs(b),
{
    let q = quotient_toward_zero(a, b);
    let rest = a - q * b;
    if b == 0 || rest == 0 {
        (b, s1, t1)
    } else {
        proof {
            lemma_division_toward_zero(a, b);
        }
        euclid_step(b, rest, s1, s - q * s1, t1, t - q * t1)
    }
}

/// The triple `(g, x, y)` that the extended Euclidean algorithm gives for
/// `(a, b)`: the last non-zero remainder and the coefficients reached with it.
pub open spec fn euclid_triple(a: int, b: int) -> (int, int, int) {
    euclid_step(a, b, 1, 0, 0, 1)
}

/// `k` times `d`.
pub open spec fn multiple(k: int, d: int) -> int {
    k * d
}

/// `d` divides `x`: some multiple of `d` is `x`.
pub open spec fn divides(d: int, x: int) -> bool {
    exists|k: int| x == #[trigger] multiple(k, d)
}

/// The result of the recursion is an integer combination of the initial
/// inputs `(a0, b0)` whenever the running pair is: from `a == s a0 + t b0`
/// and `b == s1 a0 + t1 b0` follows `g == x a0 + y b0`.
pub proof fn lemma_euclid_step_combination(
    a: int,
    b: int,
    s: int,
    s1: int,
    t: int,
    t1: int,
    a0: int,
    b0: int,
)
    requires
        b != 0,
        a == s * a0 + t * b0,
        b == s1 * a0 + t1 * b0,
    ensures
        ({
            let r = euclid_step(a, b, s, s1, t, t1);
            r.0 == r.1 * a0 + r.2 * b0
        }),
    decreases abs(b),
{
    let q = quotient_toward_zero(a, b);
    let rest = a - q * b;
    if rest != 0 {
        lemma_division_toward_zero(a, b);
        assert(rest == (s - q * s1) * a0 + (t - q * t1) * b0) by (nonlinear_arith)
            requires
                rest == a - q * b,
                a == s * a0 + t * b0,
                b == s1 * a0 + t1 * b0,
        ;
        lemma_euclid_step_combination(b, rest, s1, s - q * s1, t1, t - q * t1, a0, b0);
    }
}

/// The first component of the result is not zero and divides both members
/// of the pair.
pub proof fn lemma_euclid_step_divides(a: int, b: int, s: int, s1: int, t: int, t1: int)
    requires
        b != 0,
    ensures
        ({
            let g = euclid_step(a, b, s, s1, t, t1).0;
            &&& g != 0
            &&& divides(g, a)
            &&& divides(g, b)
            &&& a >= 0 && b > 0 ==> g > 0
        }),
    decreases abs(b),
{
    let q = quotient_toward_zero(a, b);
    let rest = a - q * b;
    let g = euclid_step(a, b, s, s1, t, t1).0;
    lemma_division_toward_zero(a, b);
    if rest == 0 {
        assert(g == b);
        assert(b == multiple(1, g));
        assert(a == multiple(q, g));
    } else {
        lemma_euclid_step_divides(b, rest, s1, s - q * s1, t1, t - q * t1);
        let kb = choose|k: int| b == #[trigger] multiple(k, g);
        let kr = choose|k: int| rest == #[trigger] multiple(k, g);
        assert(a == multiple(q * kb + kr, g)) by (nonlinear_arith)
            requires
                a - q * b == rest,
                b == kb * g,
                rest == kr * g,
        ;
    }
}

/// The triple for `(a, b)` holds a common divisor of `a` and `b` together
/// with coefficients that combine `a` and `b` to it.
pub proof fn lemma_euclid_triple(a: int, b: int)
    requires
        b != 0,
    ensures
        ({
            let r = euclid_triple(a, b);
            &&& r.0 == r.1 * a + r.2 * b
            &&& r.0 != 0
            &&& divides(r.0, a)
            &&& divides(r.0, b)
            &&& a >= 0 && b > 0 ==> r.0 > 0
        }),
{
    lemma_euclid_step_combination(a, b, 1, 0, 0, 1, a, b);
    lemma_euclid_step_divides(a, b, 1, 0, 0, 1);
}

/// Two whole numbers of the same sign, one of them possibly zero.
pub open spec fn same_direction(c: int, d: int) -> bool {
    (c >= 0 && d >= 0) || (c <= 0 && d <= 0)
}

/// What the algorithm keeps true of two successive coefficients `c`, `c1`
/// beside the running pair `(a, b)`: their sizes weigh the pair to `total`,
/// and their signs alternate exactly when `a` and `b` point the same way.
pub open spec fn coefficients_balanced(a: int, b: int, c: int, c1: int, total: int) -> bool {
    &&& abs(c) * abs(b) + abs(c1) * abs(a) == total
    &&& if (a > 0) == (b > 0) {
        same_direction(c, -c1)
    } else {
        same_direction(c, c1)
    }
}

/// One division step keeps the coefficients balanced, and the new
/// coefficient and the product that forms it are at most half of `total` in
/// size.
pub proof fn lemma_coefficients_step(a: int, b: int, c: int, c1: int, total: int)
    requires
        b != 0,
        coefficients_balanced(a, b, c, c1, total),
        a - quotient_toward_zero(a, b) * b != 0,
    ensures
        ({
            let q = quotient_toward_zero(a, b);
            let rest = a - q * b;
            let c2 = c - q * c1;
            &&& coefficients_balanced(b, rest, c1, c2, total)
            &&& 2 * abs(c2) <= total
            &&& abs(q * c1) <= abs(c2)
        }),
{
    let q = quotient_toward_zero(a, b);
    let rest = a - q * b;
    let c2 = c - q * c1;
    lemma_division_toward_zero(a, b);
    let qm: int = abs(q) as int;
    let am: int = abs(a) as int;
    let bm: int = abs(b) as int;
    let rm: int = abs(rest) as int;
    let cm: int = abs(c) as int;
    let c1m: int = abs(c1) as int;
    assert(a != 0);
    // the product q * c1 points against c, so the sizes add up
    let prod = q * c1;
    assert(abs(prod) == qm * c1m && same_direction(c, -prod) && if (a > 0) == (b > 0) {
        same_direction(prod, c1)
    } else {
        same_direction(prod, -c1)
    }) by (nonlinear_arith)
        requires
            prod == q * c1,
            qm == abs(q),
            c1m == abs(c1),
            (a > 0) == (b > 0) ==> q >= 0 && same_direction(c, -c1),
            (a > 0) != (b > 0) ==> q <= 0 && same_direction(c, c1),
    ;
    assert(abs(c2) == cm + qm * c1m);
    assert(qm * c1m >= 0) by (nonlinear_arith)
        requires
            qm >= 0,
            c1m >= 0,
    ;
    assert(c1m * rm + (cm + qm * c1m) * bm == cm * bm + c1m * am) by (nonlinear_arith)
        requires
            qm * bm + rm == am,
    ;
    assert((b > 0) == (rest > 0) <==> (a > 0) == (b > 0));
    assert(same_direction(c2, c));
    assert(bm >= 2) by {
        if bm == 1 {
            assert(rm == 0);
        }
    }
    assert(2 * abs(c2) <= total) by (nonlinear_arith)
        requires
            c1m * rm + abs(c2) * bm == total,
            bm >= 2,
            c1m >= 0,
            rm >= 0,
            abs(c2) >= 0,
    ;
}

/// The extended Euclidean algorithm on `(a, b)`: the last non-zero
/// remainder `g` of the repeated division of `a` by `b`, rounded toward zero,
/// and the coefficients `x`, `y` with `g == x a + y b`.
///
/// `b` must not be zero, and the two pairs `(i32::MIN, -1)` and
/// `(-1, i32::MIN)`, on which a quotient leaves the range of `i32`, are not
/// accepted.
pub fn extended_euclid(a: i32, b: i32) -> (r: (i32, i32, i32))
    requires
        b != 0,
        !(a == i32::MIN && b == -1),
        !(a == -1 && b == i32::MIN),
    ensures
        (r.0 as int, r.1 as int, r.2 as int) == euclid_triple(a as int, b as int),
        r.0 == r.1 * a + r.2 * b,
        r.0 != 0,
        divides(r.0 as int, a as int),
        divides(r.0 as int, b as int),
        a >= 0 && b > 0 ==> r.0 > 0,
{
    let mut x: i32 = a;
    let mut y: i32 = b;
    let mut s: i32 = 1;
    let mut s1: i32 = 0;
    let mut t: i32 = 0;
    let mut t1: i32 = 1;
    proof {
        assert(1 * abs(b as int) + 0 * abs(a as int) == abs(b as int));
        assert(0 * abs(b as int) + 1 * abs(a as int) == abs(a as int));
    }
    loop
        invariant
            y != 0,
            x == i32::MIN ==> y != -1,
            y == i32::MIN ==> x != -1,
            euclid_step(x as int, y as int, s as int, s1 as int, t as int, t1 as int)
                == euclid_triple(a as int, b as int),
            coefficients_balanced(x as int, y as int, s as int, s1 as int, abs(b as int) as int),
            coefficients_balanced(x as int, y as int, t as int, t1 as int, abs(a as int) as int),
        decreases abs(y as int),
    {
        proof {
            lemma_division_toward_zero(x as int, y as int);
            lemma_quotient_by_negative(abs(x as int) as int, y as int);
            let q = quotient_toward_zero(x as int, y as int);
            assert(abs(q) <= abs(x as int) && (abs(q) == abs(x as int) ==> abs(y as int) == 1 || q
                == 0)) by (nonlinear_arith)
                requires
                    abs(q) * abs(y as int) + abs(x as int - q * y as int) == abs(x as int),
                    y != 0,
            ;
        }
        let quotient: i32 = x / y;
        assert(quotient == quotient_toward_zero(x as int, y as int));
        let rest: i32 = x - quotient * y;
        if rest == 0 {
            proof {
                lemma_euclid_triple(a as int, b as int);
            }
            return (y, s1, t1);
        }
        proof {
            if y == i32::MIN {
                assert(quotient == 0) by (nonlinear_arith)
                    requires
                        abs(quotient as int) * 0x8000_0000 + abs(rest as int) == abs(x as int),
                        abs(x as int) <= 0x8000_0000,
                        rest != 0,
                ;
                assert(quotient * y == 0) by (nonlinear_arith)
                    requires
                        quotient == 0,
                ;
                assert(rest == x);
            }
            lemma_coefficients_step(x as int, y as int, s as int, s1 as int, abs(b as int) as int);
            lemma_coefficients_step(x as int, y as int, t as int, t1 as int, abs(a as int) as int);
        }
        let s2: i32 = s - quotient * s1;
        let t2: i32 = t - quotient * t1;
        x = y;
        y = rest;
        s = s1;
        s1 = s2;
        t = t1;
        t1 = t2;
    }
}

/// 1613 is prime: its only positive divisors are 1 and itself.
pub proof fn lemma_order_is_prime(d: int)
    requires
        d > 0,
        divides(d, 1613),
    ensures
        d == 1 || d == 1613,
{
    let k = choose|k: int| 1613 == #[trigger] multiple(k, d);
    assert(k > 0 && (d <= 40 || k <= 40)) by (nonlinear_arith)
        requires
            d > 0,
            k * d == 1613,
    ;
    if d <= 40 {
        lemma_no_small_factor(d, k);
    } else {
        assert(d * k == 1613) by (nonlinear_arith)
            requires
                k * d == 1613,
        ;
        lemma_no_small_factor(k, d);
    }
}

/// 1613 has no factor from 2 to 40.
proof fn lemma_no_small_factor(d: int, k: int)
    requires
        1 <= d <= 40,
        k * d == 1613,
    ensures
        d == 1,
{
    let n: int = 1613;
    assert(n % d == 0) by (nonlinear_arith)
        requires
            d >= 1,
            k * d == n,
    ;
    assert(n % 2 != 0 && n % 3 != 0 && n % 4 != 0 && n % 5 != 0 && n % 6 != 0);
    assert(n % 7 != 0 && n % 8 != 0 && n % 9 != 0 && n % 10 != 0 && n % 11 != 0);
    assert(n % 12 != 0 && n % 13 != 0 && n % 14 != 0 && n % 15 != 0 && n % 16 != 0);
    assert(n % 17 != 0 && n % 18 != 0 && n % 19 != 0 && n % 20 != 0 && n % 21 != 0);
    assert(n % 22 != 0 && n % 23 != 0 && n % 24 != 0 && n % 25 != 0 && n % 26 != 0);
    assert(n % 27 != 0 && n % 28 != 0 && n % 29 != 0 && n % 30 != 0 && n % 31 != 0);
    assert(n % 32 != 0 && n % 33 != 0 && n % 34 != 0 && n % 35 != 0 && n % 36 != 0);
    assert(n % 37 != 0 && n % 38 != 0 && n % 39 != 0 && n % 40 != 0);
}

/// For `0 < a < 1613` the coefficient `y` that the extended Euclidean
/// algorithm gives for `(1613, a)` is an inverse of `a` modulo 1613.
pub proof fn lemma_coefficient_inverts(a: int)
    requires
        0 < a < 1613,
    ensures
        euclid_triple(1613, a).0 == 1,
        (a * (euclid_triple(1613, a).2 % 1613)) % 1613 == 1,
{
    let r = euclid_triple(1613, a);
    lemma_euclid_triple(1613, a);
    let k = choose|k: int| a == #[trigger] multiple(k, r.0);
    assert(r.0 <= a) by (nonlinear_arith)
        requires
            a == k * r.0,
            a > 0,
            r.0 > 0,
    ;
    lemma_order_is_prime(r.0);
    assert(r.0 == 1);
    // a y == 1613 (-x) + 1
    assert(a * r.2 == 1613 * (-r.1) + 1) by (nonlinear_arith)
        requires
            1 == r.1 * 1613 + r.2 * a,
    ;
    lemma_mod_multiples_vanish(-r.1, 1, 1613);
    lemma_mul_mod_noop_general(a, r.2, 1613);
}

impl Field for G1613 {
    open spec fn is_member(self) -> bool {
        self.0 < P
    }

    open spec fn zero_spec() -> Self {
        G1613(0)
    }

    open spec fn one_spec() -> Self {
        G1613(1)
    }

    open spec fn add_spec(self, other: Self) -> Self {
        G1613(((self.0 + other.0) % (P as int)) as u32)
    }

    open spec fn mul_spec(self, other: Self) -> Self {
        G1613(((self.0 * other.0) % (P as int)) as u32)
    }

    open spec fn neg_spec(self) -> Self {
        if self.0 == 0 {
            G1613(0)
        } else {
            G1613((P - self.0) as u32)
        }
    }

    open spec fn inv_spec(self) -> Self {
        choose|b: G1613| b.is_member() && self.mul_spec(b) == G1613(1)
    }

    open spec fn pow_spec(self, n: nat) -> Self {
        G1613((pow(self.0 as int, n) % (P as int)) as u32)
    }

    open spec fn scalar_mul_spec(self, n: nat) -> Self {
        G1613(((self.0 * n) % (P as int)) as u32)
    }

    proof fn law_closed(a: Self, b: Self) {
        if a != Self::zero_spec() {
            lemma_inverse_exists(a);
        }
    }

    proof fn law_identities() {
    }

    proof fn law_add_commutative(a: Self, b: Self) {
    }

    proof fn law_add_associative(a: Self, b: Self, c: Self) {
    }

    proof fn law_add_zero(a: Self) {
    }

    proof fn law_add_negative(a: Self) {
    }

    proof fn law_mul_commutative(a: Self, b: Self) {
        assert(a.0 * b.0 == b.0 * a.0) by (nonlinear_arith);
    }

    proof fn law_mul_associative(a: Self, b: Self, c: Self) {
        let (x, y, z) = (a.0 as int, b.0 as int, c.0 as int);
        lemma_mul_mod_noop_general(x, y * z, 1613);
        lemma_mul_mod_noop_general(x * y, z, 1613);
        lemma_mul_is_associative(x, y, z);
        assert(0 <= y * z && 0 <= x * y) by (nonlinear_arith)
            requires
                0 <= x,
                0 <= y,
                0 <= z,
        ;
    }

    proof fn law_mul_one(a: Self) {
    }

    proof fn law_mul_inverse(a: Self) {
        lemma_inverse_exists(a);
    }

    proof fn law_distributive(a: Self, b: Self, c: Self) {
        let (x, y, z) = (a.0 as int, b.0 as int, c.0 as int);
        lemma_mul_mod_noop_general(x, y + z, 1613);
        lemma_mul_is_distributive_add(x, y, z);
        lemma_add_mod_noop(x * y, x * z, 1613);
        assert(0 <= x * y && 0 <= x * z) by (nonlinear_arith)
            requires
                0 <= x,
                0 <= y,
                0 <= z,
        ;
    }

    proof fn law_pow(a: Self, n: nat) {
        reveal(pow);
        let x = a.0 as int;
        assert(pow(x, 0) == 1);
        assert(pow(x, n + 1) == x * pow(x, n));
        lemma_mul_mod_noop_general(pow(x, n), x, 1613);
        assert(x * pow(x, n) == pow(x, n) * x) by (nonlinear_arith);
    }

    proof fn law_scalar_mul(a: Self, n: nat) {
        let x = a.0 as int;
        assert(x * (n + 1) == x * n + x) by (nonlinear_arith);
        lemma_add_mod_noop(x * n, x, 1613);
        assert(0 <= x * n) by (nonlinear_arith)
            requires
                0 <= x,
                0 <= n,
        ;
    }

    fn zero() -> (r: Self) {
        G1613(0)
    }

    fn one() -> (r: Self) {
        G1613(1)
    }

    fn add(&self, other: &Self) -> (r: Self) {
        G1613((self.0 + other.0) % P)
    }

    fn subtract(&self, other: &Self) -> (r: Self) {
        G1613((self.0 + other.negative().0) % P)
    }

    fn multiply(&self, other: &Self) -> (r: Self) {
        assert(self.0 * other.0 <= 1612 * 1612) by (nonlinear_arith)
            requires
                self.0 <= 1612,
                other.0 <= 1612,
        ;
        G1613((self.0 * other.0) % P)
    }

    fn negative(&self) -> (r: Self) {
        if self.0 == 0 {
            G1613(0)
        } else {
            G1613(P - self.0)
        }
    }

    fn inverse(&self) -> (r: Option<Self>) {
        if self.0 == 0 {
            None
        } else {
            let p_int: i32 = P as i32;
            let (_, _, y) = extended_euclid(p_int, self.0 as i32);
            let modp: u32 = ((y % p_int + p_int) % p_int) as u32;
            proof {
                lemma_coefficient_inverts(self.0 as int);
                assert(modp == (y as int) % 1613);
                lemma_inverse_exists(*self);
                lemma_inverse_unique(*self, G1613(modp), self.inv_spec());
            }
            Some(G1613(modp))
        }
    }

    fn to_pow(&self, pow: u32) -> (r: Self) {
        let mut p: u32 = pow;
        let mut base: u32 = self.0;
        let mut res: u32 = 1;
        while p > 0
            invariant
                base < P,
                res < P,
                (res * vstd::arithmetic::power::pow(base as int, p as nat)) % 1613
                    == vstd::arithmetic::power::pow(self.0 as int, pow as nat) % 1613,
            decreases p,
        {
            proof {
                assert(p >> 1 == p / 2) by (bit_vector);
                lemma_squaring_step(res as int, base as int, p as nat);
                assert(base * base <= 1612 * 1612 && res * base <= 1612 * 1612) by (nonlinear_arith)
                    requires
                        base <= 1612,
                        res <= 1612,
                ;
            }
            if p % 2 == 1 {
                res = (res * base) % P
            }
            p = p >> 1;
            base = (base * base) % P
        }
        proof {
            lemma_pow0(base as int);
        }
        G1613(res)
    }

    fn mul_by_scalar(&self, scalar: u32) -> (r: Self) {
        assert(self.0 * scalar <= 1612 * 0xffff_ffff) by (nonlinear_arith)
            requires
                self.0 <= 1612,
                scalar <= 0xffff_ffff,
        ;
        G1613((((self.0 as u64) * (scalar as u64)) % (P as u64)) as u32)
    }

    fn equals(&self, other: &Self) -> (r: bool) {
        self.0 == other.0
    }

    fn rand(rng: &mut StdRng) -> (r: Self) {
        G1613(sample_below(rng, P))
    }
}

/// One round of exponentiation by squaring keeps the value of
/// `acc * base^e` modulo 1613: the base is squared, the exponent halved, and
/// `acc` takes one factor `base` when `e` is odd.
pub proof fn lemma_squaring_step(acc: int, base: int, e: nat)
    requires
        e > 0,
    ensures
        ({
            let next = if e % 2 == 1 {
                (acc * base) % 1613
            } else {
                acc
            };
            (next * pow((base * base) % 1613, e / 2)) % 1613 == (acc * pow(base, e)) % 1613
        }),
{
    let h = e / 2;
    let sq = base * base;
    let tail = pow(sq, h);
    // base^(2 h) == (base^2)^h, and squaring may be reduced first
    lemma_square_is_pow2(base);
    lemma_pow_multiplies(base, 2, h);
    lemma_pow_mod_noop(sq, h, 1613);
    assert(pow(base, 2 * h) == tail);
    if e % 2 == 1 {
        lemma_pow_adds(base, 1, 2 * h);
        lemma_pow1(base);
        assert(1 + 2 * h == e);
        assert(acc * pow(base, e) == (acc * base) * tail) by (nonlinear_arith)
            requires
                pow(base, e) == base * tail,
        ;
        lemma_mul_mod_noop_general(acc * base, tail, 1613);
        lemma_mul_mod_noop_general(acc * base, pow(sq % 1613, h), 1613);
    } else {
        assert(2 * h == e);
        lemma_mul_mod_noop_general(acc, tail, 1613);
        lemma_mul_mod_noop_general(acc, pow(sq % 1613, h), 1613);
    }
}

/// Every non-zero element has an inverse, so `inv_spec` picks one.
pub proof fn lemma_inverse_exists(a: G1613)
    requires
        a.is_member(),
        a != G1613(0),
    ensures
        a.inv_spec().is_member(),
        a.mul_spec(a.inv_spec()) == G1613(1),
{
    lemma_coefficient_inverts(a.0 as int);
    let y = euclid_triple(1613, a.0 as int).2 % 1613;
    let witness = G1613(y as u32);
    assert(witness.is_member() && a.mul_spec(witness) == G1613(1));
}

/// An element of the field has at most one inverse.
pub proof fn lemma_inverse_unique(a: G1613, b: G1613, c: G1613)
    requires
        a.is_member(),
        b.is_member(),
        c.is_member(),
        a.mul_spec(b) == G1613(1),
        a.mul_spec(c) == G1613(1),
    ensures
        b == c,
{
    // b == b * (a * c) == (b * a) * c == c
    G1613::law_mul_one(b);
    G1613::law_mul_associative(b, a, c);
    G1613::law_mul_commutative(b, a);
    G1613::law_mul_one(c);
    G1613::law_mul_commutative(G1613(1), c);
}

/// Draws a number below `bound` with `rand::Rng::gen_range(0, bound)`, which
/// returns a value of the half-open range and panics on an empty one. Which
/// value comes back is left open.
#[verifier::external_body]
fn sample_below(rng: &mut StdRng, bound: u32) -> (r: u32)
    requires
        0 < bound,
    ensures
        r < bound,
{
    rng.gen_range(0, bound)
}

} // verus!
