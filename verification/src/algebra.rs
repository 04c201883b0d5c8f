//! Consequences of the field laws: identities of the basic operations, of
//! powers and scalar multiples, and of finite sums and products.

use crate::field::{all_members, product_of, sub_spec, sum_of, Field};
use vstd::prelude::*;

verus! {

/// `0 + a == a`.
pub proof fn lemma_add_zero_left<F: Field>(a: F)
    requires
        a.is_member(),
    ensures
        F::zero_spec().add_spec(a) == a,
{
    F::law_identities();
    F::law_closed(a, a);
    F::law_add_commutative(F::zero_spec(), a);
    F::law_add_zero(a);
}

/// `1 * a == a`.
pub proof fn lemma_mul_one_left<F: Field>(a: F)
    requires
        a.is_member(),
    ensures
        F::one_spec().mul_spec(a) == a,
{
    F::law_identities();
    F::law_closed(a, a);
    F::law_mul_commutative(F::one_spec(), a);
    F::law_mul_one(a);
}

/// `(-a) + a == 0`.
pub proof fn lemma_negative_add<F: Field>(a: F)
    requires
        a.is_member(),
    ensures
        a.neg_spec().add_spec(a) == F::zero_spec(),
{
    F::law_identities();
    F::law_closed(a, a);
    F::law_add_commutative(a.neg_spec(), a);
    F::law_add_negative(a);
}

/// Addition can be cancelled on the right: `a + c == b + c` forces `a == b`.
pub proof fn lemma_add_cancel<F: Field>(a: F, b: F, c: F)
    requires
        a.is_member(),
        b.is_member(),
        c.is_member(),
        a.add_spec(c) == b.add_spec(c),
    ensures
        a == b,
{
    F::law_identities();
    let n = c.neg_spec();
    F::law_closed(c, c);
    F::law_add_negative(c);
    F::law_add_associative(a, c, n);
    F::law_add_associative(b, c, n);
    F::law_add_zero(a);
    F::law_add_zero(b);
    assert(a == a.add_spec(c).add_spec(n));
    assert(b == b.add_spec(c).add_spec(n));
}

/// `(a + b) + (c + d) == (a + c) + (b + d)`.
pub proof fn lemma_add_interchange<F: Field>(a: F, b: F, c: F, d: F)
    requires
        a.is_member(),
        b.is_member(),
        c.is_member(),
        d.is_member(),
    ensures
        a.add_spec(b).add_spec(c.add_spec(d)) == a.add_spec(c).add_spec(b.add_spec(d)),
{
    F::law_identities();
    F::law_closed(a, b);
    F::law_closed(c, d);
    F::law_closed(a, c);
    F::law_closed(b, d);
    F::law_closed(b, c);
    // (a + b) + (c + d) == ((a + b) + c) + d == (a + (b + c)) + d
    F::law_add_associative(a.add_spec(b), c, d);
    F::law_add_associative(a, b, c);
    // (a + c) + (b + d) == ((a + c) + b) + d == (a + (c + b)) + d
    F::law_add_associative(a.add_spec(c), b, d);
    F::law_add_associative(a, c, b);
    F::law_add_commutative(b, c);
}

/// `(a * b) * (c * d) == (a * c) * (b * d)`.
pub proof fn lemma_mul_interchange<F: Field>(a: F, b: F, c: F, d: F)
    requires
        a.is_member(),
        b.is_member(),
        c.is_member(),
        d.is_member(),
    ensures
        a.mul_spec(b).mul_spec(c.mul_spec(d)) == a.mul_spec(c).mul_spec(b.mul_spec(d)),
{
    F::law_identities();
    F::law_closed(a, b);
    F::law_closed(c, d);
    F::law_closed(a, c);
    F::law_closed(b, d);
    F::law_closed(b, c);
    F::law_mul_associative(a.mul_spec(b), c, d);
    F::law_mul_associative(a, b, c);
    F::law_mul_associative(a.mul_spec(c), b, d);
    F::law_mul_associative(a, c, b);
    F::law_mul_commutative(b, c);
}

/// `a * (b * c) == b * (a * c)`.
pub proof fn lemma_mul_left_swap<F: Field>(a: F, b: F, c: F)
    requires
        a.is_member(),
        b.is_member(),
        c.is_member(),
    ensures
        a.mul_spec(b.mul_spec(c)) == b.mul_spec(a.mul_spec(c)),
{
    F::law_mul_associative(a, b, c);
    F::law_mul_associative(b, a, c);
    F::law_mul_commutative(a, b);
}

/// `(a + b) + c == (a + c) + b`.
pub proof fn lemma_add_right_swap<F: Field>(a: F, b: F, c: F)
    requires
        a.is_member(),
        b.is_member(),
        c.is_member(),
    ensures
        a.add_spec(b).add_spec(c) == a.add_spec(c).add_spec(b),
{
    F::law_add_associative(a, b, c);
    F::law_add_associative(a, c, b);
    F::law_add_commutative(b, c);
}

/// `(a + b) * c == a * c + b * c`.
pub proof fn lemma_distributive_right<F: Field>(a: F, b: F, c: F)
    requires
        a.is_member(),
        b.is_member(),
        c.is_member(),
    ensures
        a.add_spec(b).mul_spec(c) == a.mul_spec(c).add_spec(b.mul_spec(c)),
{
    F::law_identities();
    F::law_closed(a, b);
    F::law_mul_commutative(a.add_spec(b), c);
    F::law_distributive(c, a, b);
    F::law_mul_commutative(c, a);
    F::law_mul_commutative(c, b);
}

/// `a * 0 == 0` and `0 * a == 0`.
pub proof fn lemma_mul_zero<F: Field>(a: F)
    requires
        a.is_member(),
    ensures
        a.mul_spec(F::zero_spec()) == F::zero_spec(),
        F::zero_spec().mul_spec(a) == F::zero_spec(),
{
    F::law_identities();
    let z = F::zero_spec();
    F::law_closed(a, z);
    let az = a.mul_spec(z);
    // a * 0 == a * (0 + 0) == a * 0 + a * 0, and also a * 0 == 0 + a * 0
    F::law_add_zero(z);
    F::law_distributive(a, z, z);
    lemma_add_zero_left(az);
    assert(az.add_spec(az) == z.add_spec(az));
    lemma_add_cancel(az, z, az);
    F::law_mul_commutative(a, z);
}

/// `a - b == 0` exactly when `a == b`.
pub proof fn lemma_sub_zero_iff_equal<F: Field>(a: F, b: F)
    requires
        a.is_member(),
        b.is_member(),
    ensures
        sub_spec(a, b).is_member(),
        (sub_spec(a, b) == F::zero_spec()) <==> (a == b),
{
    F::law_identities();
    F::law_closed(b, b);
    F::law_closed(a, b.neg_spec());
    if a == b {
        F::law_add_negative(a);
    }
    if sub_spec(a, b) == F::zero_spec() {
        // a == a + ((-b) + b) == (a + (-b)) + b == 0 + b
        lemma_negative_add(b);
        F::law_add_zero(a);
        F::law_add_associative(a, b.neg_spec(), b);
        lemma_add_zero_left(b);
    }
}

/// For `a != b` and `u == (a - b)^-1`: `a * u == 1 + b * u`.
pub proof fn lemma_inverse_of_difference<F: Field>(a: F, b: F)
    requires
        a.is_member(),
        b.is_member(),
        a != b,
    ensures
        sub_spec(a, b) != F::zero_spec(),
        sub_spec(a, b).inv_spec().is_member(),
        a.mul_spec(sub_spec(a, b).inv_spec()) == F::one_spec().add_spec(
            b.mul_spec(sub_spec(a, b).inv_spec()),
        ),
{
    F::law_identities();
    lemma_sub_zero_iff_equal(a, b);
    let d = sub_spec(a, b);
    let u = d.inv_spec();
    let nb = b.neg_spec();
    F::law_closed(d, d);
    F::law_closed(b, b);
    F::law_closed(a, u);
    F::law_closed(b, u);
    F::law_closed(nb, u);
    F::law_mul_inverse(d);
    let au = a.mul_spec(u);
    let bu = b.mul_spec(u);
    let z = nb.mul_spec(u);
    // 1 == (a + (-b)) * u == a * u + (-b) * u
    lemma_distributive_right(a, nb, u);
    assert(au.add_spec(z) == F::one_spec());
    // (-b) * u + b * u == ((-b) + b) * u == 0
    lemma_distributive_right(nb, b, u);
    lemma_negative_add(b);
    lemma_mul_zero(u);
    assert(z.add_spec(bu) == F::zero_spec());
    // a * u == a * u + ((-b) * u + b * u) == (a * u + (-b) * u) + b * u
    F::law_add_zero(au);
    F::law_add_associative(au, z, bu);
}

/// A product with a non-zero factor `c` on both sides can be cancelled:
/// `c * a == c * b` forces `a == b`.
pub proof fn lemma_mul_cancel<F: Field>(c: F, a: F, b: F)
    requires
        a.is_member(),
        b.is_member(),
        c.is_member(),
        c != F::zero_spec(),
        c.mul_spec(a) == c.mul_spec(b),
    ensures
        a == b,
{
    F::law_identities();
    let u = c.inv_spec();
    F::law_closed(c, c);
    F::law_mul_inverse(c);
    F::law_mul_commutative(c, u);
    F::law_mul_associative(u, c, a);
    F::law_mul_associative(u, c, b);
    lemma_mul_one_left(a);
    lemma_mul_one_left(b);
}

/// A product is zero only if one of its factors is.
pub proof fn lemma_no_zero_divisors<F: Field>(a: F, b: F)
    requires
        a.is_member(),
        b.is_member(),
        a.mul_spec(b) == F::zero_spec(),
    ensures
        a == F::zero_spec() || b == F::zero_spec(),
{
    F::law_identities();
    if a != F::zero_spec() {
        lemma_mul_zero(a);
        lemma_mul_cancel(a, b, F::zero_spec());
    }
}

/// If `t + a == a * m` and `t + b == b * m` for two different elements `a`
/// and `b`, then `m` is one.
pub proof fn lemma_two_point_unit<F: Field>(a: F, b: F, m: F, t: F)
    requires
        a.is_member(),
        b.is_member(),
        m.is_member(),
        t.is_member(),
        a != b,
        t.add_spec(a) == a.mul_spec(m),
        t.add_spec(b) == b.mul_spec(m),
    ensures
        m == F::one_spec(),
{
    F::law_identities();
    let am = a.mul_spec(m);
    let bm = b.mul_spec(m);
    let nb = b.neg_spec();
    let d = sub_spec(a, b);
    F::law_closed(a, m);
    F::law_closed(b, m);
    F::law_closed(b, b);
    F::law_closed(nb, m);
    lemma_sub_zero_iff_equal(a, b);
    // a m + b == b m + a
    lemma_add_right_swap(t, a, b);
    assert(am.add_spec(b) == bm.add_spec(a));
    // a m == (a m + b) + (-b) == (b m + a) + (-b) == d + b m
    F::law_add_associative(am, b, nb);
    F::law_add_negative(b);
    F::law_add_zero(am);
    F::law_add_associative(bm, a, nb);
    F::law_add_commutative(bm, d);
    assert(am == d.add_spec(bm));
    // d m + b m == a m
    let nbm = nb.mul_spec(m);
    lemma_distributive_right(a, nb, m);
    lemma_distributive_right(nb, b, m);
    lemma_negative_add(b);
    lemma_mul_zero(m);
    F::law_add_associative(am, nbm, bm);
    assert(d.mul_spec(m).add_spec(bm) == am);
    F::law_closed(d, m);
    lemma_add_cancel(d.mul_spec(m), d, bm);
    F::law_mul_one(d);
    lemma_mul_cancel(d, m, F::one_spec());
}

/// Powers of a field element are field elements.
pub proof fn lemma_pow_member<F: Field>(a: F, n: nat)
    requires
        a.is_member(),
    ensures
        a.pow_spec(n).is_member(),
    decreases n,
{
    F::law_identities();
    if n == 0 {
        F::law_pow(a, 0);
    } else {
        let k = (n - 1) as nat;
        lemma_pow_member(a, k);
        F::law_pow(a, k);
        F::law_closed(a.pow_spec(k), a);
    }
}

/// `a^0 == 1` and `a^1 == a`.
pub proof fn law_pow_zero_one<F: Field>(a: F)
    requires
        a.is_member(),
    ensures
        a.pow_spec(0) == F::one_spec(),
        a.pow_spec(1) == a,
{
    F::law_pow(a, 0);
    lemma_mul_one_left(a);
}

/// `a^(m + n) == a^m * a^n`.
pub proof fn law_pow_add<F: Field>(a: F, m: nat, n: nat)
    requires
        a.is_member(),
    ensures
        a.pow_spec(m + n) == a.pow_spec(m).mul_spec(a.pow_spec(n)),
    decreases n,
{
    lemma_pow_member(a, m);
    if n == 0 {
        F::law_pow(a, 0);
        F::law_mul_one(a.pow_spec(m));
    } else {
        let k = (n - 1) as nat;
        law_pow_add(a, m, k);
        lemma_pow_member(a, k);
        F::law_pow(a, m + k);
        F::law_pow(a, k);
        assert(m + k + 1 == m + n);
        F::law_mul_associative(a.pow_spec(m), a.pow_spec(k), a);
    }
}

/// Scalar multiples of a field element are field elements.
pub proof fn lemma_scalar_mul_member<F: Field>(a: F, n: nat)
    requires
        a.is_member(),
    ensures
        a.scalar_mul_spec(n).is_member(),
    decreases n,
{
    F::law_identities();
    if n == 0 {
        F::law_scalar_mul(a, 0);
    } else {
        let k = (n - 1) as nat;
        lemma_scalar_mul_member(a, k);
        F::law_scalar_mul(a, k);
        F::law_closed(a.scalar_mul_spec(k), a);
    }
}

/// `(m + n) a == m a + n a`.
pub proof fn lemma_scalar_mul_add<F: Field>(a: F, m: nat, n: nat)
    requires
        a.is_member(),
    ensures
        a.scalar_mul_spec(m + n) == a.scalar_mul_spec(m).add_spec(a.scalar_mul_spec(n)),
    decreases n,
{
    lemma_scalar_mul_member(a, m);
    if n == 0 {
        F::law_scalar_mul(a, 0);
        F::law_add_zero(a.scalar_mul_spec(m));
    } else {
        let k = (n - 1) as nat;
        lemma_scalar_mul_add(a, m, k);
        lemma_scalar_mul_member(a, k);
        F::law_scalar_mul(a, m + k);
        F::law_scalar_mul(a, k);
        assert(m + k + 1 == m + n);
        F::law_add_associative(a.scalar_mul_spec(m), a.scalar_mul_spec(k), a);
    }
}

/// If none of the multiples `1 a, ..., n a` is zero, they are all different.
pub proof fn lemma_scalar_multiples_distinct<F: Field>(a: F, n: nat, i: nat, j: nat)
    requires
        a.is_member(),
        forall|m: nat| 1 <= m <= n ==> #[trigger] a.scalar_mul_spec(m) != F::zero_spec(),
        1 <= i < j <= n,
    ensures
        a.scalar_mul_spec(i) != a.scalar_mul_spec(j),
{
    F::law_identities();
    let d = (j - i) as nat;
    lemma_scalar_mul_add(a, d, i);
    lemma_scalar_mul_member(a, i);
    lemma_scalar_mul_member(a, d);
    assert(d + i == j);
    if a.scalar_mul_spec(i) == a.scalar_mul_spec(j) {
        lemma_add_zero_left(a.scalar_mul_spec(i));
        lemma_add_cancel(a.scalar_mul_spec(d), F::zero_spec(), a.scalar_mul_spec(i));
        assert(a.scalar_mul_spec(d) != F::zero_spec());
    }
}

/// A sum of field elements is a field element.
pub proof fn lemma_sum_member<F: Field>(s: Seq<F>)
    requires
        all_members(s),
    ensures
        sum_of(s).is_member(),
    decreases s.len(),
{
    F::law_identities();
    if s.len() == 0 {
        F::law_identities();
    } else {
        lemma_sum_member(s.drop_last());
        F::law_closed(sum_of(s.drop_last()), s.last());
    }
}

/// A product of field elements is a field element.
pub proof fn lemma_product_member<F: Field>(s: Seq<F>)
    requires
        all_members(s),
    ensures
        product_of(s).is_member(),
    decreases s.len(),
{
    if s.len() == 0 {
        F::law_identities();
    } else {
        lemma_product_member(s.drop_last());
        F::law_closed(product_of(s.drop_last()), s.last());
    }
}

/// Taking one entry out of a sum: `sum(s) == sum(s without s[r]) + s[r]`.
pub proof fn lemma_sum_remove<F: Field>(s: Seq<F>, r: int)
    requires
        all_members(s),
        0 <= r < s.len(),
    ensures
        all_members(s.remove(r)),
        sum_of(s) == sum_of(s.remove(r)).add_spec(s[r]),
    decreases s.len(),
{
    let rest = s.remove(r);
    assert(all_members(rest)) by {
        assert forall|i: int| 0 <= i < rest.len() implies (#[trigger] rest[i]).is_member() by {
            if i < r {
                assert(rest[i] == s[i]);
            } else {
                assert(rest[i] == s[i + 1]);
            }
        }
    }
    if r == s.len() - 1 {
        assert(rest =~= s.drop_last());
    } else {
        let front = s.drop_last();
        lemma_sum_remove(front, r);
        assert(front.remove(r) =~= rest.drop_last());
        assert(rest.last() == s.last());
        assert(front[r] == s[r]);
        let head = sum_of(front.remove(r));
        lemma_sum_member(front.remove(r));
        // sum(s) == (head + s[r]) + last == (head + last) + s[r]
        F::law_add_associative(head, s[r], s.last());
        F::law_add_associative(head, s.last(), s[r]);
        F::law_add_commutative(s[r], s.last());
    }
}

/// Taking one entry out of a product:
/// `product(s) == product(s without s[r]) * s[r]`.
pub proof fn lemma_product_remove<F: Field>(s: Seq<F>, r: int)
    requires
        all_members(s),
        0 <= r < s.len(),
    ensures
        all_members(s.remove(r)),
        product_of(s) == product_of(s.remove(r)).mul_spec(s[r]),
    decreases s.len(),
{
    let rest = s.remove(r);
    assert(all_members(rest)) by {
        assert forall|i: int| 0 <= i < rest.len() implies (#[trigger] rest[i]).is_member() by {
            if i < r {
                assert(rest[i] == s[i]);
            } else {
                assert(rest[i] == s[i + 1]);
            }
        }
    }
    if r == s.len() - 1 {
        assert(rest =~= s.drop_last());
    } else {
        let front = s.drop_last();
        lemma_product_remove(front, r);
        assert(front.remove(r) =~= rest.drop_last());
        assert(rest.last() == s.last());
        assert(front[r] == s[r]);
        let head = product_of(front.remove(r));
        lemma_product_member(front.remove(r));
        F::law_mul_associative(head, s[r], s.last());
        F::law_mul_associative(head, s.last(), s[r]);
        F::law_mul_commutative(s[r], s.last());
    }
}

/// Sums add entry by entry: if `c[i] == a[i] + b[i]` throughout, then
/// `sum(c) == sum(a) + sum(b)`.
pub proof fn lemma_sum_pointwise_add<F: Field>(a: Seq<F>, b: Seq<F>, c: Seq<F>)
    requires
        all_members(a),
        all_members(b),
        a.len() == b.len(),
        a.len() == c.len(),
        forall|i: int| 0 <= i < c.len() ==> #[trigger] c[i] == a[i].add_spec(b[i]),
    ensures
        sum_of(c) == sum_of(a).add_spec(sum_of(b)),
    decreases c.len(),
{
    F::law_identities();
    if c.len() == 0 {
        F::law_add_zero(F::zero_spec());
    } else {
        lemma_sum_pointwise_add(a.drop_last(), b.drop_last(), c.drop_last());
        lemma_sum_member(a.drop_last());
        lemma_sum_member(b.drop_last());
        assert(c.last() == a.last().add_spec(b.last()));
        lemma_add_interchange(sum_of(a.drop_last()), sum_of(b.drop_last()), a.last(), b.last());
    }
}

/// Sums scale entry by entry: if `b[i] == c * a[i]` throughout, then
/// `sum(b) == c * sum(a)`.
pub proof fn lemma_sum_pointwise_scale<F: Field>(c: F, a: Seq<F>, b: Seq<F>)
    requires
        c.is_member(),
        all_members(a),
        a.len() == b.len(),
        forall|i: int| 0 <= i < b.len() ==> #[trigger] b[i] == c.mul_spec(a[i]),
    ensures
        sum_of(b) == c.mul_spec(sum_of(a)),
    decreases b.len(),
{
    F::law_identities();
    if b.len() == 0 {
        lemma_mul_zero(c);
    } else {
        lemma_sum_pointwise_scale(c, a.drop_last(), b.drop_last());
        lemma_sum_member(a.drop_last());
        assert(b.last() == c.mul_spec(a.last()));
        F::law_distributive(c, sum_of(a.drop_last()), a.last());
    }
}

/// The sum of the first `k + 1` entries is the sum of the first `k` plus
/// the next entry.
pub proof fn lemma_sum_take_next<F: Field>(s: Seq<F>, k: int)
    requires
        0 <= k < s.len(),
    ensures
        sum_of(s.take(k + 1)) == sum_of(s.take(k)).add_spec(s[k]),
{
    assert(s.take(k + 1).drop_last() =~= s.take(k));
}

/// The product of the first `k + 1` entries is the product of the first `k`
/// times the next entry.
pub proof fn lemma_product_take_next<F: Field>(s: Seq<F>, k: int)
    requires
        0 <= k < s.len(),
    ensures
        product_of(s.take(k + 1)) == product_of(s.take(k)).mul_spec(s[k]),
{
    assert(s.take(k + 1).drop_last() =~= s.take(k));
}

} // verus!
