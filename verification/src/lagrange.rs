//! Polynomials over a field and their interpolation at zero: the definitions
//! that the sharing engine computes, and the proof that interpolating the
//! values of a polynomial at enough distinct points gives back its constant
//! term.

use crate::algebra::{
    lemma_add_cancel, lemma_add_right_swap, lemma_add_zero_left, lemma_distributive_right,
    lemma_inverse_of_difference, lemma_mul_interchange, lemma_mul_left_swap, lemma_mul_one_left,
    lemma_mul_zero, lemma_no_zero_divisors, lemma_pow_member, lemma_product_member,
    lemma_product_remove, lemma_sum_member, lemma_sum_pointwise_add, lemma_sum_pointwise_scale,
    lemma_sum_remove, lemma_two_point_unit,
};
use crate::field::{all_members, pairwise_distinct, product_of, sub_spec, sum_of, Field};
use vstd::prelude::*;

verus! {

/// The terms `c_j x^j` of the polynomial with coefficients `coeffs`, lowest
/// degree first, at the point `x`.
pub open spec fn polynomial_terms<F: Field>(coeffs: Seq<F>, x: F) -> Seq<F> {
    Seq::new(coeffs.len(), |j: int| coeffs[j].mul_spec(x.pow_spec(j as nat)))
}

/// The value at `x` of the polynomial with coefficients `coeffs`.
pub open spec fn eval_polynomial<F: Field>(coeffs: Seq<F>, x: F) -> F {
    sum_of(polynomial_terms(coeffs, x))
}

/// The values of the polynomial with coefficients `coeffs` at the points `xs`.
pub open spec fn evaluations<F: Field>(coeffs: Seq<F>, xs: Seq<F>) -> Seq<F> {
    Seq::new(xs.len(), |i: int| eval_polynomial(coeffs, xs[i]))
}

/// The constant term of the polynomial with coefficients `coeffs`, zero for
/// the empty polynomial.
pub open spec fn constant_term<F: Field>(coeffs: Seq<F>) -> F {
    if coeffs.len() == 0 {
        F::zero_spec()
    } else {
        coeffs[0]
    }
}

/// `xj / (xj - xi)`, the factor that the point `xj` contributes at zero to
/// the basis polynomial of the point `xi`.
pub open spec fn basis_factor<F: Field>(xj: F, xi: F) -> F {
    xj.mul_spec(sub_spec(xj, xi).inv_spec())
}

/// The factors of the basis polynomial of `xs[i]` at zero, one for each
/// point; the point itself contributes one.
pub open spec fn basis_factors<F: Field>(xs: Seq<F>, i: int) -> Seq<F> {
    Seq::new(
        xs.len(),
        |j: int|
            if j == i {
                F::one_spec()
            } else {
                basis_factor(xs[j], xs[i])
            },
    )
}

/// The value at zero of the Lagrange basis polynomial of `xs[i]`: the
/// product of `xs[j] / (xs[j] - xs[i])` over all `j != i`.
pub open spec fn basis_at_zero<F: Field>(xs: Seq<F>, i: int) -> F {
    product_of(basis_factors(xs, i))
}

/// The summands `ys[i] * basis_at_zero(xs, i)` of the interpolation at zero.
pub open spec fn interpolation_terms<F: Field>(xs: Seq<F>, ys: Seq<F>) -> Seq<F> {
    Seq::new(xs.len(), |i: int| ys[i].mul_spec(basis_at_zero(xs, i)))
}

/// The value at zero of the polynomial of least degree that takes the value
/// `ys[i]` at `xs[i]` for every `i`, by Lagrange's formula.
pub open spec fn interpolate_at_zero<F: Field>(xs: Seq<F>, ys: Seq<F>) -> F {
    sum_of(interpolation_terms(xs, ys))
}

/// The `d`-th powers of the points `xs`.
pub open spec fn powers<F: Field>(xs: Seq<F>, d: nat) -> Seq<F> {
    Seq::new(xs.len(), |i: int| xs[i].pow_spec(d))
}

/// The value of a polynomial with coefficients in the field is in the field.
pub proof fn lemma_eval_member<F: Field>(coeffs: Seq<F>, x: F)
    requires
        all_members(coeffs),
        x.is_member(),
    ensures
        all_members(polynomial_terms(coeffs, x)),
        eval_polynomial(coeffs, x).is_member(),
{
    let terms = polynomial_terms(coeffs, x);
    assert forall|j: int| 0 <= j < terms.len() implies (#[trigger] terms[j]).is_member() by {
        lemma_pow_member(x, j as nat);
        F::law_closed(coeffs[j], x.pow_spec(j as nat));
    }
    lemma_sum_member(terms);
}

/// Taking a point out keeps the points distinct members.
pub proof fn lemma_remove_keeps_distinct<F: Field>(xs: Seq<F>, r: int)
    requires
        all_members(xs),
        pairwise_distinct(xs),
        0 <= r < xs.len(),
    ensures
        all_members(xs.remove(r)),
        pairwise_distinct(xs.remove(r)),
{
    let rest = xs.remove(r);
    assert forall|i: int| 0 <= i < rest.len() implies (#[trigger] rest[i]).is_member() by {
        if i < r {
            assert(rest[i] == xs[i]);
        } else {
            assert(rest[i] == xs[i + 1]);
        }
    }
    assert forall|i: int, j: int| 0 <= i < j < rest.len() implies rest[i] != rest[j] by {
        let i0 = if i < r {
            i
        } else {
            i + 1
        };
        let j0 = if j < r {
            j
        } else {
            j + 1
        };
        assert(rest[i] == xs[i0] && rest[j] == xs[j0]);
    }
}

/// For distinct points the basis factors, and so the basis value, are in
/// the field.
pub proof fn lemma_basis_member<F: Field>(xs: Seq<F>, i: int)
    requires
        all_members(xs),
        pairwise_distinct(xs),
        0 <= i < xs.len(),
    ensures
        all_members(basis_factors(xs, i)),
        basis_at_zero(xs, i).is_member(),
{
    F::law_identities();
    let factors = basis_factors(xs, i);
    assert forall|j: int| 0 <= j < factors.len() implies (#[trigger] factors[j]).is_member() by {
        if j != i {
            assert(xs[j] != xs[i]) by {
                if j < i {
                    assert(xs[j] != xs[i]);
                } else {
                    assert(xs[i] != xs[j]);
                }
            }
            lemma_inverse_of_difference(xs[j], xs[i]);
            F::law_closed(xs[j], sub_spec(xs[j], xs[i]).inv_spec());
        }
    }
    lemma_product_member(factors);
}

/// The summands of an interpolation over distinct points are in the field,
/// and so is their sum.
pub proof fn lemma_interpolation_member<F: Field>(xs: Seq<F>, ys: Seq<F>)
    requires
        all_members(xs),
        pairwise_distinct(xs),
        all_members(ys),
        ys.len() == xs.len(),
    ensures
        all_members(interpolation_terms(xs, ys)),
        interpolate_at_zero(xs, ys).is_member(),
{
    let terms = interpolation_terms(xs, ys);
    assert forall|i: int| 0 <= i < terms.len() implies (#[trigger] terms[i]).is_member() by {
        lemma_basis_member(xs, i);
        F::law_closed(ys[i], basis_at_zero(xs, i));
    }
    lemma_sum_member(terms);
}

/// The powers of members are members.
pub proof fn lemma_powers_members<F: Field>(xs: Seq<F>, d: nat)
    requires
        all_members(xs),
    ensures
        all_members(powers(xs, d)),
        powers(xs, d).len() == xs.len(),
{
    let ps = powers(xs, d);
    assert forall|i: int| 0 <= i < ps.len() implies (#[trigger] ps[i]).is_member() by {
        lemma_pow_member(xs[i], d);
    }
}

/// The position that index `i` of a sequence takes once position `r` is
/// taken out.
pub open spec fn index_after_remove(i: int, r: int) -> int {
    if i < r {
        i
    } else {
        i - 1
    }
}

/// Taking the point `xs[r]` out divides the basis value of every other point
/// `xs[i]` by the factor of `xs[r]`:
/// `basis(xs, i) == basis(xs without r, i') * xs[r] / (xs[r] - xs[i])`.
pub proof fn lemma_basis_remove<F: Field>(xs: Seq<F>, i: int, r: int)
    requires
        all_members(xs),
        pairwise_distinct(xs),
        0 <= i < xs.len(),
        0 <= r < xs.len(),
        i != r,
    ensures
        basis_at_zero(xs, i) == basis_at_zero(xs.remove(r), index_after_remove(i, r)).mul_spec(
            basis_factor(xs[r], xs[i]),
        ),
{
    let factors = basis_factors(xs, i);
    let rest = xs.remove(r);
    let i1 = index_after_remove(i, r);
    lemma_basis_member(xs, i);
    lemma_product_remove(factors, r);
    assert(rest[i1] == xs[i]);
    assert(factors.remove(r) =~= basis_factors(rest, i1)) by {
        assert forall|j: int| 0 <= j < rest.len() implies #[trigger] factors.remove(r)[j]
            == basis_factors(rest, i1)[j] by {
            if j < r {
                assert(rest[j] == xs[j]);
                assert(factors.remove(r)[j] == factors[j]);
            } else {
                assert(rest[j] == xs[j + 1]);
                assert(factors.remove(r)[j] == factors[j + 1]);
            }
        }
    }
    assert(factors[r] == basis_factor(xs[r], xs[i]));
}

/// The identity behind the removal of a point `a` from an interpolation:
/// with `u == (a - b)^-1` and `l == w * (a * u)`,
/// `(p * b) * l + a * (p * w) == a * (p * l)`.
pub proof fn lemma_removed_point_term<F: Field>(a: F, b: F, p: F, w: F)
    requires
        a.is_member(),
        b.is_member(),
        p.is_member(),
        w.is_member(),
        a != b,
    ensures
        ({
            let l = w.mul_spec(basis_factor(a, b));
            p.mul_spec(b).mul_spec(l).add_spec(a.mul_spec(p.mul_spec(w))) == a.mul_spec(
                p.mul_spec(l),
            )
        }),
{
    F::law_identities();
    lemma_inverse_of_difference(a, b);
    let u = sub_spec(a, b).inv_spec();
    let f = a.mul_spec(u);
    let g = b.mul_spec(u);
    let l = w.mul_spec(f);
    F::law_closed(a, u);
    F::law_closed(b, u);
    F::law_closed(w, f);
    F::law_closed(w, g);
    F::law_closed(a, w);
    F::law_closed(b, l);
    F::law_closed(a, l);
    // l == w * (1 + g) == w + w * g
    F::law_distributive(w, F::one_spec(), g);
    F::law_mul_one(w);
    assert(l == w.add_spec(w.mul_spec(g)));
    // b * l == b * (w * (a * u)) == a * (w * (b * u))
    F::law_mul_associative(b, w, f);
    F::law_closed(b, w);
    lemma_mul_interchange(b, w, a, u);
    lemma_mul_interchange(a, w, b, u);
    F::law_mul_commutative(a, b);
    F::law_mul_associative(a, w, g);
    assert(b.mul_spec(l) == a.mul_spec(w.mul_spec(g)));
    // a * l == a * w + b * l
    F::law_distributive(a, w, w.mul_spec(g));
    assert(a.mul_spec(l) == a.mul_spec(w).add_spec(b.mul_spec(l)));
    // times p
    lemma_mul_left_swap(a, p, l);
    F::law_distributive(p, a.mul_spec(w), b.mul_spec(l));
    lemma_mul_left_swap(p, a, w);
    F::law_mul_associative(p, b, l);
    F::law_closed(p, w);
    F::law_closed(p, b);
    F::law_closed(a, p.mul_spec(w));
    F::law_closed(p.mul_spec(b), l);
    F::law_add_commutative(a.mul_spec(p.mul_spec(w)), p.mul_spec(b).mul_spec(l));
}

/// The interpolation at zero of the monomial `x^d` over the points `xs`.
pub open spec fn monomial_at_zero<F: Field>(xs: Seq<F>, d: nat) -> F {
    interpolate_at_zero(xs, powers(xs, d))
}

/// Taking the point `a == xs[r]` out of the interpolation of a monomial
/// lowers the degree: for `d >= 1`,
/// `m(xs, d) + a * m(xs without r, d - 1) == a * m(xs, d - 1)`,
/// where `m` is `monomial_at_zero`.
pub proof fn lemma_monomial_remove_point<F: Field>(xs: Seq<F>, d: nat, r: int)
    requires
        all_members(xs),
        pairwise_distinct(xs),
        0 <= r < xs.len(),
        d >= 1,
    ensures
        monomial_at_zero(xs, d).add_spec(
            xs[r].mul_spec(monomial_at_zero(xs.remove(r), (d - 1) as nat)),
        ) == xs[r].mul_spec(monomial_at_zero(xs, (d - 1) as nat)),
{
    let a = xs[r];
    let e = (d - 1) as nat;
    let rest = xs.remove(r);
    let ta = interpolation_terms(xs, powers(xs, d));
    let tc = interpolation_terms(xs, powers(xs, e));
    let tb = interpolation_terms(rest, powers(rest, e));
    lemma_remove_keeps_distinct(xs, r);
    lemma_powers_members(xs, d);
    lemma_powers_members(xs, e);
    lemma_powers_members(rest, e);
    lemma_interpolation_member(xs, powers(xs, d));
    lemma_interpolation_member(xs, powers(xs, e));
    lemma_interpolation_member(rest, powers(rest, e));
    lemma_sum_remove(ta, r);
    lemma_sum_remove(tc, r);
    let ta1 = ta.remove(r);
    let tc1 = tc.remove(r);
    let sb = Seq::new(rest.len(), |k: int| a.mul_spec(tb[k]));
    let sc = Seq::new(rest.len(), |k: int| a.mul_spec(tc1[k]));
    assert(all_members(sb)) by {
        assert forall|k: int| 0 <= k < sb.len() implies (#[trigger] sb[k]).is_member() by {
            F::law_closed(a, tb[k]);
        }
    }
    assert forall|k: int| 0 <= k < sc.len() implies #[trigger] sc[k] == ta1[k].add_spec(sb[k]) by {
        let i = if k < r {
            k
        } else {
            k + 1
        };
        let b = xs[i];
        let p = b.pow_spec(e);
        let w = basis_at_zero(rest, k);
        assert(ta1[k] == ta[i] && tc1[k] == tc[i] && rest[k] == b);
        assert(index_after_remove(i, r) == k);
        assert(a != b) by {
            if i < r {
                assert(xs[i] != xs[r]);
            } else {
                assert(xs[r] != xs[i]);
            }
        }
        lemma_basis_remove(xs, i, r);
        lemma_basis_member(rest, k);
        lemma_pow_member(b, e);
        F::law_pow(b, e);
        lemma_removed_point_term(a, b, p, w);
        assert(ta[i] == p.mul_spec(b).mul_spec(basis_at_zero(xs, i)));
        assert(tb[k] == p.mul_spec(w));
        assert(tc[i] == p.mul_spec(basis_at_zero(xs, i)));
        F::law_closed(p, w);
        F::law_closed(a, p.mul_spec(w));
    }
    lemma_sum_pointwise_scale(a, tb, sb);
    lemma_sum_pointwise_scale(a, tc1, sc);
    lemma_sum_pointwise_add(ta1, sb, sc);
    // the summand of the removed point itself
    let p = a.pow_spec(e);
    let l = basis_at_zero(xs, r);
    lemma_pow_member(a, e);
    lemma_basis_member(xs, r);
    F::law_pow(a, e);
    F::law_mul_commutative(p, a);
    F::law_mul_associative(a, p, l);
    assert(ta[r] == a.mul_spec(tc[r]));
    // putting the sums together
    lemma_sum_member(ta1);
    lemma_sum_member(tb);
    lemma_sum_member(tc1);
    F::law_closed(a, sum_of(tb));
    lemma_add_right_swap(sum_of(ta1), ta[r], a.mul_spec(sum_of(tb)));
    F::law_distributive(a, sum_of(tc1), tc[r]);
}

/// Interpolating the monomial `x^d` over more than `d` distinct points gives
/// its value at zero: one for `d == 0` and zero otherwise.
pub proof fn lemma_monomial_at_zero<F: Field>(xs: Seq<F>, d: nat)
    requires
        all_members(xs),
        pairwise_distinct(xs),
        d < xs.len(),
    ensures
        monomial_at_zero(xs, d) == if d == 0 {
            F::one_spec()
        } else {
            F::zero_spec()
        },
    decreases xs.len(), d,
{
    F::law_identities();
    let last = xs.len() - 1;
    let a = xs[last];
    lemma_powers_members(xs, d);
    lemma_interpolation_member(xs, powers(xs, d));
    if d >= 1 {
        let e = (d - 1) as nat;
        lemma_remove_keeps_distinct(xs, last);
        lemma_monomial_remove_point(xs, d, last);
        lemma_monomial_at_zero(xs.remove(last), e);
        lemma_monomial_at_zero(xs, e);
        let v = monomial_at_zero(xs, e);
        F::law_closed(a, v);
        lemma_add_zero_left(a.mul_spec(v));
        lemma_add_cancel(monomial_at_zero(xs, d), F::zero_spec(), a.mul_spec(v));
    } else if xs.len() == 1 {
        let factors = basis_factors(xs, 0);
        let terms = interpolation_terms(xs, powers(xs, 0));
        assert(factors.drop_last().len() == 0);
        assert(product_of(factors.drop_last()) == F::one_spec());
        assert(factors.last() == F::one_spec());
        assert(product_of(factors) == F::one_spec().mul_spec(F::one_spec()));
        F::law_mul_one(F::one_spec());
        F::law_pow(xs[0], 0);
        assert(terms.drop_last().len() == 0);
        assert(sum_of(terms.drop_last()) == F::zero_spec());
        assert(terms.last() == F::one_spec().mul_spec(basis_at_zero(xs, 0)));
        assert(sum_of(terms) == F::zero_spec().add_spec(terms.last()));
        lemma_add_zero_left(F::one_spec());
    } else {
        let b = xs[0];
        assert(a != b);
        lemma_powers_members(xs, 1);
        lemma_interpolation_member(xs, powers(xs, 1));
        lemma_remove_keeps_distinct(xs, last);
        lemma_remove_keeps_distinct(xs, 0);
        lemma_monomial_remove_point(xs, 1, last);
        lemma_monomial_remove_point(xs, 1, 0);
        lemma_monomial_at_zero(xs.remove(last), 0);
        lemma_monomial_at_zero(xs.remove(0), 0);
        F::law_mul_one(a);
        F::law_mul_one(b);
        lemma_two_point_unit(a, b, monomial_at_zero(xs, 0), monomial_at_zero(xs, 1));
    }
}

/// The interpolation of a polynomial splits off its leading term: with
/// `c` the last of the coefficients and `e` its degree, the interpolation of
/// the values at `xs` is that of the polynomial without its leading term
/// plus `c` times that of the monomial `x^e`.
pub proof fn lemma_interpolation_splits_leading_term<F: Field>(coeffs: Seq<F>, xs: Seq<F>)
    requires
        all_members(coeffs),
        all_members(xs),
        pairwise_distinct(xs),
        coeffs.len() >= 1,
    ensures
        all_members(evaluations(coeffs, xs)),
        interpolate_at_zero(xs, evaluations(coeffs, xs)) == interpolate_at_zero(
            xs,
            evaluations(coeffs.drop_last(), xs),
        ).add_spec(coeffs.last().mul_spec(monomial_at_zero(xs, (coeffs.len() - 1) as nat))),
{
    let ys = evaluations(coeffs, xs);
    let terms = interpolation_terms(xs, ys);
    let e = (coeffs.len() - 1) as nat;
    let c = coeffs.last();
    let front = coeffs.drop_last();
    lemma_evaluations_members(coeffs, xs);
    lemma_evaluations_members(front, xs);
    let lower = interpolation_terms(xs, evaluations(front, xs));
    let top = interpolation_terms(xs, powers(xs, e));
    let scaled = Seq::new(xs.len(), |i: int| c.mul_spec(top[i]));
    lemma_interpolation_member(xs, evaluations(front, xs));
    lemma_powers_members(xs, e);
    lemma_interpolation_member(xs, powers(xs, e));
    assert(all_members(scaled)) by {
        assert forall|i: int| 0 <= i < scaled.len() implies (#[trigger] scaled[i]).is_member() by {
            F::law_closed(c, top[i]);
        }
    }
    assert forall|i: int| 0 <= i < terms.len() implies #[trigger] terms[i] == lower[i].add_spec(
        scaled[i],
    ) by {
        let x = xs[i];
        let l = basis_at_zero(xs, i);
        let pt = polynomial_terms(coeffs, x);
        assert(pt.drop_last() =~= polynomial_terms(front, x));
        let low = eval_polynomial(front, x);
        let px = x.pow_spec(e);
        assert(eval_polynomial(coeffs, x) == low.add_spec(c.mul_spec(px)));
        lemma_eval_member(front, x);
        lemma_pow_member(x, e);
        lemma_basis_member(xs, i);
        F::law_closed(c, px);
        lemma_distributive_right(low, c.mul_spec(px), l);
        F::law_mul_associative(c, px, l);
    }
    lemma_sum_pointwise_scale(c, top, scaled);
    lemma_sum_pointwise_add(lower, scaled, terms);
}

/// The values of a polynomial over the field at points of the field are in
/// the field.
pub proof fn lemma_evaluations_members<F: Field>(coeffs: Seq<F>, xs: Seq<F>)
    requires
        all_members(coeffs),
        all_members(xs),
    ensures
        all_members(evaluations(coeffs, xs)),
        evaluations(coeffs, xs).len() == xs.len(),
{
    let ys = evaluations(coeffs, xs);
    assert forall|i: int| 0 <= i < ys.len() implies (#[trigger] ys[i]).is_member() by {
        lemma_eval_member(coeffs, xs[i]);
    }
}

/// Lagrange interpolation recovers the constant term: if `ys` holds the
/// values at the pairwise distinct points `xs` of a polynomial with no more
/// coefficients than there are points, then the interpolation at zero is
/// the polynomial's constant term.
pub proof fn lemma_interpolation_gives_constant_term<F: Field>(coeffs: Seq<F>, xs: Seq<F>)
    requires
        all_members(coeffs),
        all_members(xs),
        pairwise_distinct(xs),
        coeffs.len() <= xs.len(),
    ensures
        all_members(evaluations(coeffs, xs)),
        interpolate_at_zero(xs, evaluations(coeffs, xs)) == constant_term(coeffs),
    decreases coeffs.len(),
{
    F::law_identities();
    lemma_evaluations_members(coeffs, xs);
    if coeffs.len() == 0 {
        let terms = interpolation_terms(xs, evaluations(coeffs, xs));
        let weights = Seq::new(xs.len(), |i: int| basis_at_zero(xs, i));
        assert(all_members(weights)) by {
            assert forall|i: int| 0 <= i < weights.len() implies (
            #[trigger] weights[i]).is_member() by {
                lemma_basis_member(xs, i);
            }
        }
        assert forall|i: int| 0 <= i < terms.len() implies #[trigger] terms[i]
            == F::zero_spec().mul_spec(weights[i]) by {
            assert(polynomial_terms(coeffs, xs[i]).len() == 0);
        }
        lemma_sum_pointwise_scale(F::zero_spec(), weights, terms);
        lemma_sum_member(weights);
        lemma_mul_zero(sum_of(weights));
    } else {
        let e = (coeffs.len() - 1) as nat;
        let c = coeffs.last();
        let front = coeffs.drop_last();
        lemma_interpolation_splits_leading_term(coeffs, xs);
        lemma_interpolation_gives_constant_term(front, xs);
        lemma_monomial_at_zero(xs, e);
        if e == 0 {
            F::law_mul_one(c);
            lemma_add_zero_left(c);
        } else {
            lemma_mul_zero(c);
            F::law_add_zero(front[0]);
        }
    }
}

/// Every entry of `s` differs from zero.
pub open spec fn all_nonzero<F: Field>(s: Seq<F>) -> bool {
    forall|i: int| 0 <= i < s.len() ==> #[trigger] s[i] != F::zero_spec()
}

/// Interpolating the monomial `x^m` over exactly `m` distinct non-zero
/// points does not give zero, its value at zero.
pub proof fn lemma_monomial_one_point_short<F: Field>(xs: Seq<F>)
    requires
        all_members(xs),
        pairwise_distinct(xs),
        all_nonzero(xs),
        xs.len() >= 1,
    ensures
        monomial_at_zero(xs, xs.len()).is_member(),
        monomial_at_zero(xs, xs.len()) != F::zero_spec(),
    decreases xs.len(),
{
    F::law_identities();
    let m = xs.len();
    let last = m - 1;
    let a = xs[last];
    lemma_powers_members(xs, m);
    lemma_interpolation_member(xs, powers(xs, m));
    let top = monomial_at_zero(xs, m);
    if m == 1 {
        let factors = basis_factors(xs, 0);
        let terms = interpolation_terms(xs, powers(xs, 1));
        assert(factors.drop_last().len() == 0);
        assert(product_of(factors.drop_last()) == F::one_spec());
        assert(factors.last() == F::one_spec());
        F::law_mul_one(F::one_spec());
        F::law_pow(a, 0);
        lemma_mul_one_left(a);
        F::law_mul_one(a);
        assert(terms.drop_last().len() == 0);
        assert(sum_of(terms.drop_last()) == F::zero_spec());
        assert(terms.last() == a.pow_spec(1).mul_spec(basis_at_zero(xs, 0)));
        lemma_add_zero_left(a);
        assert(top == a);
    } else {
        let rest = xs.remove(last);
        let e = (m - 1) as nat;
        lemma_remove_keeps_distinct(xs, last);
        assert(all_nonzero(rest)) by {
            assert forall|i: int| 0 <= i < rest.len() implies #[trigger] rest[i]
                != F::zero_spec() by {
                assert(rest[i] == xs[i]);
            }
        }
        lemma_monomial_one_point_short(rest);
        lemma_monomial_remove_point(xs, m, last);
        lemma_monomial_at_zero(xs, e);
        lemma_mul_zero(a);
        let below = monomial_at_zero(rest, e);
        // top + a * below == 0, and a * below is not zero
        F::law_closed(a, below);
        if top == F::zero_spec() {
            lemma_add_zero_left(a.mul_spec(below));
            lemma_no_zero_divisors(a, below);
        }
    }
}

/// Interpolating a polynomial of `m + 1` coefficients over only `m`
/// distinct non-zero points gives its constant term exactly if its leading
/// coefficient is zero.
pub proof fn lemma_interpolation_one_point_short<F: Field>(coeffs: Seq<F>, xs: Seq<F>)
    requires
        all_members(coeffs),
        all_members(xs),
        pairwise_distinct(xs),
        all_nonzero(xs),
        xs.len() >= 1,
        coeffs.len() == xs.len() + 1,
    ensures
        interpolate_at_zero(xs, evaluations(coeffs, xs)) == coeffs[0] <==> coeffs.last()
            == F::zero_spec(),
{
    F::law_identities();
    let c = coeffs.last();
    let front = coeffs.drop_last();
    let top = monomial_at_zero(xs, xs.len());
    lemma_interpolation_splits_leading_term(coeffs, xs);
    lemma_interpolation_gives_constant_term(front, xs);
    lemma_monomial_one_point_short(xs);
    let s = coeffs[0];
    let excess = c.mul_spec(top);
    F::law_closed(c, top);
    F::law_add_zero(s);
    if c == F::zero_spec() {
        lemma_mul_zero(top);
    }
    if s.add_spec(excess) == s {
        F::law_add_commutative(s, excess);
        lemma_add_zero_left(s);
        lemma_add_cancel(excess, F::zero_spec(), s);
        lemma_no_zero_divisors(c, top);
    }
}

} // verus!
