//! Threshold secret sharing: a secret becomes the constant term of a
//! polynomial with random further coefficients, the shares are values of
//! that polynomial, and enough shares give the secret back by interpolation.

use crate::algebra::{
    lemma_add_zero_left, lemma_pow_member, lemma_product_take_next, lemma_scalar_mul_member,
    lemma_scalar_multiples_distinct, lemma_sub_zero_iff_equal, lemma_sum_take_next,
};
use crate::field::{all_members, pairwise_distinct, product_of, sub_spec, sum_of, Field};
use crate::field_instance::G1613;
use crate::lagrange::{
    all_nonzero, basis_factors, eval_polynomial, evaluations, interpolate_at_zero,
    interpolation_terms, lemma_eval_member, lemma_interpolation_gives_constant_term,
    lemma_interpolation_one_point_short, polynomial_terms,
};
use rand::StdRng;
use vstd::prelude::*;

verus! {

/// How often a coefficient is drawn again before the generator gives up on
/// finding one that differs from those already taken.
pub const MAX_DRAWS_PER_COEFFICIENT: u32 = 65536;

/// Why sharing or reconstruction did not produce a result.
#[derive(Debug, Clone, Copy, PartialEq, Eq, Structural)]
pub enum ShareError {
    /// Two of the shares handed to reconstruction carry the same index, so
    /// the difference of their indices is zero and has no inverse.
    DuplicateOrZeroShareIndex,
    /// The generator did not find enough pairwise distinct coefficients
    /// within the permitted number of draws.
    InsufficientDistinctCoefficients,
}

/// A secret: one field element.
#[derive(Debug, Copy)]
pub struct Secret<F: Field>(pub F);

impl<F: Field> Clone for Secret<F> {
    fn clone(&self) -> (r: Self)
        ensures
            r == *self,
    {
        *self
    }
}

/// One share of a secret: the point `index` and the value `share` that the
/// sharing polynomial takes there.
#[derive(Debug, Copy)]
pub struct SecretShare<F: Field> {
    pub index: F,
    pub share: F,
}

impl<F: Field> Clone for SecretShare<F> {
    fn clone(&self) -> (r: Self)
        ensures
            r == *self,
    {
        *self
    }
}

/// The indices of the shares, in order.
pub open spec fn share_indices<F: Field>(shares: Seq<SecretShare<F>>) -> Seq<F> {
    Seq::new(shares.len(), |i: int| shares[i].index)
}

/// The values of the shares, in order.
pub open spec fn share_values<F: Field>(shares: Seq<SecretShare<F>>) -> Seq<F> {
    Seq::new(shares.len(), |i: int| shares[i].share)
}

/// Index and value of every share are field elements.
pub open spec fn valid_shares<F: Field>(shares: Seq<SecretShare<F>>) -> bool {
    forall|i: int|
        0 <= i < shares.len() ==> (#[trigger] shares[i]).index.is_member()
            && shares[i].share.is_member()
}

/// What reconstruction makes of `shares`: with pairwise distinct indices the
/// value at zero of the interpolating polynomial, and an error otherwise.
pub open spec fn reveal_spec<F: Field>(shares: Seq<SecretShare<F>>) -> Result<
    Secret<F>,
    ShareError,
> {
    if pairwise_distinct(share_indices(shares)) {
        Ok(Secret(interpolate_at_zero(share_indices(shares), share_values(shares))))
    } else {
        Err(ShareError::DuplicateOrZeroShareIndex)
    }
}

/// The share of participant `i`, counted from one, under the polynomial with
/// coefficients `coefficients`: the point is `i` times the field's one.
pub open spec fn share_of<F: Field>(coefficients: Seq<F>, i: nat) -> SecretShare<F> {
    let x = F::one_spec().scalar_mul_spec(i);
    SecretShare { index: x, share: eval_polynomial(coefficients, x) }
}

/// The shares of participants `1` to `n` under the polynomial with
/// coefficients `coefficients`.
pub open spec fn sharing<F: Field>(coefficients: Seq<F>, n: nat) -> Seq<SecretShare<F>> {
    Seq::new(n, |i: int| share_of(coefficients, (i + 1) as nat))
}

/// `coefficients` is a polynomial that shares `secret` with threshold `k`:
/// `k` field elements, the first of them the secret, the others pairwise
/// distinct.
pub open spec fn sharing_polynomial<F: Field>(secret: F, k: nat, coefficients: Seq<F>) -> bool {
    &&& coefficients.len() == k
    &&& k >= 1
    &&& coefficients[0] == secret
    &&& all_members(coefficients)
    &&& pairwise_distinct(coefficients.skip(1))
}

/// Whether `candidate` already occurs among `taken`.
pub fn contains_element<F: Field>(taken: &Vec<F>, candidate: &F) -> (r: bool)
    requires
        all_members(taken@),
        candidate.is_member(),
    ensures
        r == taken@.contains(*candidate),
{
    let mut i: usize = 0;
    while i < taken.len()
        invariant
            i <= taken.len(),
            all_members(taken@),
            candidate.is_member(),
            forall|j: int| 0 <= j < i ==> taken@[j] != *candidate,
        decreases taken.len() - i,
    {
        if taken[i].equals(candidate) {
            return true;
        }
        i += 1;
    }
    false
}

/// Decides on one drawn candidate: it is taken as the next coefficient
/// exactly if it differs from all coefficients taken so far.
pub fn accept_if_new<F: Field>(taken: &Vec<F>, candidate: F) -> (r: Option<F>)
    requires
        all_members(taken@),
        candidate.is_member(),
    ensures
        r == (if taken@.contains(candidate) {
            None
        } else {
            Some(candidate)
        }),
{
    if contains_element(taken, &candidate) {
        None
    } else {
        Some(candidate)
    }
}

/// Decides what follows one draw, `draws_before` repeated draws having gone
/// before it since the last coefficient was taken: a value that is new
/// among `taken` is the next coefficient; a repeated one is discarded and
/// drawn again, unless it is repeat number `MAX_DRAWS_PER_COEFFICIENT` in a
/// row, on which the generator gives up.
pub fn after_draw<F: Field>(taken: &Vec<F>, candidate: F, draws_before: u32) -> (r: Result<
    Option<F>,
    ShareError,
>)
    requires
        all_members(taken@),
        candidate.is_member(),
        draws_before < MAX_DRAWS_PER_COEFFICIENT,
    ensures
        r == (if !taken@.contains(candidate) {
            Ok::<Option<F>, ShareError>(Some(candidate))
        } else if draws_before + 1 < MAX_DRAWS_PER_COEFFICIENT {
            Ok::<Option<F>, ShareError>(None)
        } else {
            Err::<Option<F>, ShareError>(ShareError::InsufficientDistinctCoefficients)
        }),
{
    match accept_if_new(taken, candidate) {
        Some(coefficient) => Ok(Some(coefficient)),
        None => {
            if draws_before + 1 < MAX_DRAWS_PER_COEFFICIENT {
                Ok(None)
            } else {
                Err(ShareError::InsufficientDistinctCoefficients)
            }
        },
    }
}

/// The values of `draws` in the order in which each was first drawn.
pub open spec fn first_distinct<F: Field>(draws: Seq<F>) -> Seq<F>
    decreases draws.len(),
{
    if draws.len() == 0 {
        Seq::empty()
    } else {
        let kept = first_distinct(draws.drop_last());
        if kept.contains(draws.last()) {
            kept
        } else {
            kept.push(draws.last())
        }
    }
}

/// How many draws at the end of `draws` only repeated a value drawn earlier,
/// counted back to the last draw that brought a new value.
pub open spec fn repeats_at_end<F: Field>(draws: Seq<F>) -> nat
    decreases draws.len(),
{
    if draws.len() == 0 {
        0
    } else if first_distinct(draws.drop_last()).contains(draws.last()) {
        repeats_at_end(draws.drop_last()) + 1
    } else {
        0
    }
}

/// What the generator of `amount` coefficients has decided once it has seen
/// `draws`: the coefficients, if that many different values were drawn; to
/// give up, if the last `MAX_DRAWS_PER_COEFFICIENT` draws were all repeats;
/// and otherwise nothing yet.
pub open spec fn decision_after<F: Field>(draws: Seq<F>, amount: nat) -> Option<
    Result<Seq<F>, ShareError>,
> {
    if first_distinct(draws).len() == amount {
        Some(Ok(first_distinct(draws)))
    } else if repeats_at_end(draws) == MAX_DRAWS_PER_COEFFICIENT {
        Some(Err(ShareError::InsufficientDistinctCoefficients))
    } else {
        None
    }
}

/// `draws` is what the generator of `amount` coefficients drew, from its
/// first draw to the one on which it stopped with `result`: no decision fell
/// before the last draw, and `result` is the decision after it.
pub open spec fn generator_run<F: Field>(
    draws: Seq<F>,
    amount: nat,
    result: Result<Seq<F>, ShareError>,
) -> bool {
    &&& all_members(draws)
    &&& forall|i: int|
        0 <= i < draws.len() ==> decision_after(#[trigger] draws.take(i), amount) is None
    &&& decision_after(draws, amount) == Some(result)
}

/// The coefficients of a result as a sequence.
pub open spec fn drawn_coefficients<F: Field>(r: Result<Vec<F>, ShareError>) -> Result<
    Seq<F>,
    ShareError,
> {
    match r {
        Ok(coefficients) => Ok(coefficients@),
        Err(e) => Err(e),
    }
}

/// One more draw, made while the generator has not decided: what it adds to
/// the values kept and to the count of repeats, and that no decision fell
/// before it.
pub proof fn lemma_one_more_draw<F: Field>(draws: Seq<F>, candidate: F, amount: nat)
    requires
        all_members(draws),
        candidate.is_member(),
        forall|i: int|
            0 <= i < draws.len() ==> decision_after(#[trigger] draws.take(i), amount) is None,
        decision_after(draws, amount) is None,
    ensures
        all_members(draws.push(candidate)),
        forall|i: int|
            0 <= i < draws.push(candidate).len() ==> decision_after(
                #[trigger] draws.push(candidate).take(i),
                amount,
            ) is None,
        first_distinct(draws.push(candidate)) == (if first_distinct(draws).contains(candidate) {
            first_distinct(draws)
        } else {
            first_distinct(draws).push(candidate)
        }),
        repeats_at_end(draws.push(candidate)) == (if first_distinct(draws).contains(candidate) {
            repeats_at_end(draws) + 1
        } else {
            0
        }),
{
    let longer = draws.push(candidate);
    assert(longer.drop_last() =~= draws);
    assert(longer.last() == candidate);
    assert forall|i: int| 0 <= i < longer.len() implies decision_after(
        #[trigger] longer.take(i),
        amount,
    ) is None by {
        if i < draws.len() {
            assert(longer.take(i) =~= draws.take(i));
        } else {
            assert(longer.take(i) =~= draws);
        }
    }
}

/// Draws `amount` pairwise distinct field elements: the first `amount`
/// different values that `rng` gives, in the order drawn. A draw that
/// repeats a value already taken is discarded and drawn again; after
/// `MAX_DRAWS_PER_COEFFICIENT` repeats in a row the generator gives up.
fn get_coefficients<F: Field>(amount: u32, rng: &mut StdRng) -> (r: Result<Vec<F>, ShareError>)
    ensures
        exists|draws: Seq<F>| #[trigger] generator_run(draws, amount as nat, drawn_coefficients(r)),
        match r {
            Ok(coefficients) => {
                &&& coefficients@.len() == amount
                &&& all_members(coefficients@)
                &&& pairwise_distinct(coefficients@)
            },
            Err(e) => e == ShareError::InsufficientDistinctCoefficients && amount > 1,
        },
{
    let mut coefficients: Vec<F> = Vec::new();
    let mut count: u32 = 0;
    let ghost mut drawn: Seq<F> = Seq::empty();
    while count < amount
        invariant
            count <= amount,
            coefficients@.len() == count,
            all_members(coefficients@),
            pairwise_distinct(coefficients@),
            all_members(drawn),
            coefficients@ == first_distinct(drawn),
            repeats_at_end(drawn) == 0,
            forall|i: int|
                0 <= i < drawn.len() ==> decision_after(#[trigger] drawn.take(i), amount as nat)
                    is None,
        decreases amount - count,
    {
        let mut opt: Option<F> = None;
        let mut repeats: u32 = 0;
        while opt.is_none()
            invariant
                count < amount,
                repeats < MAX_DRAWS_PER_COEFFICIENT,
                coefficients@.len() == count,
                all_members(coefficients@),
                all_members(drawn),
                forall|i: int|
                    0 <= i < drawn.len() ==> decision_after(
                        #[trigger] drawn.take(i),
                        amount as nat,
                    ) is None,
                match opt {
                    None => coefficients@ == first_distinct(drawn) && repeats_at_end(drawn)
                        == repeats,
                    Some(c) => c.is_member() && !coefficients@.contains(c) && first_distinct(drawn)
                        == coefficients@.push(c) && repeats_at_end(drawn) == 0,
                },
            decreases
                    MAX_DRAWS_PER_COEFFICIENT - repeats + (if opt is None {
                        1int
                    } else {
                        0int
                    }),
        {
            let coeff = F::rand(rng);
            proof {
                lemma_one_more_draw(drawn, coeff, amount as nat);
                drawn = drawn.push(coeff);
            }
            match after_draw(&coefficients, coeff, repeats) {
                Err(e) => {
                    proof {
                        assert(coefficients@.contains(coeff));
                        assert(generator_run(
                            drawn,
                            amount as nat,
                            Err::<Seq<F>, ShareError>(e),
                        ));
                    }
                    return Err(e);
                },
                Ok(None) => {
                    repeats += 1;
                },
                Ok(Some(c)) => {
                    opt = Some(c);
                },
            }
        }
        match opt {
            None => {},
            Some(coeff) => {
                proof {
                    let before = coefficients@;
                    let after = before.push(coeff);
                    assert forall|i: int, j: int| 0 <= i < j < after.len() implies after[i]
                        != after[j] by {
                        if j == before.len() {
                            assert(before.contains(before[i]));
                        }
                    }
                }
                coefficients.push(coeff);
            },
        }
        count += 1;
    }
    proof {
        assert(generator_run(drawn, amount as nat, Ok::<Seq<F>, ShareError>(coefficients@)));
    }
    Ok(coefficients)
}

impl<F: Field> Secret<F> {
    /// The shares of participants `1` to `n` under the polynomial whose
    /// constant term is the secret and whose further coefficients are
    /// `coefficients`, lowest degree first.
    pub fn shares_from_coefficients(&self, coefficients: &Vec<F>, n: u32) -> (shares: Vec<
        SecretShare<F>,
    >)
        requires
            self.0.is_member(),
            all_members(coefficients@),
            coefficients@.len() < u32::MAX,
            room_for_participants::<F>(n as nat),
        ensures
            shares@ == sharing(seq![self.0] + coefficients@, n as nat),
            shares@.len() == n,
            valid_shares(shares@),
            pairwise_distinct(share_indices(shares@)),
            all_nonzero(share_indices(shares@)),
    {
        let ghost full = seq![self.0] + coefficients@;
        assert(all_members(full)) by {
            assert forall|j: int| 0 <= j < full.len() implies (#[trigger] full[j]).is_member() by {
                if j > 0 {
                    assert(full[j] == coefficients@[j - 1]);
                }
            }
        }
        let mut shares: Vec<SecretShare<F>> = Vec::new();
        let mut i: u32 = 0;
        while i < n
            invariant
                i <= n,
                self.0.is_member(),
                all_members(coefficients@),
                coefficients@.len() < u32::MAX,
                full == seq![self.0] + coefficients@,
                all_members(full),
                shares@.len() == i,
                forall|m: int| 0 <= m < i ==> shares@[m] == share_of(full, (m + 1) as nat),
            decreases n - i,
        {
            proof {
                F::law_identities();
            }
            let x = F::one().mul_by_scalar(i + 1);
            let ghost terms = polynomial_terms(full, x);
            let mut result = self.0;
            let mut exponent: u32 = 1;
            let mut j: usize = 0;
            proof {
                lemma_scalar_mul_member(F::one_spec(), (i + 1) as nat);
                lemma_eval_member(full, x);
                // the polynomial starts with secret * x^0
                F::law_pow(x, 0);
                F::law_mul_one(self.0);
                lemma_add_zero_left(self.0);
                lemma_sum_take_next(terms, 0);
                assert(terms.take(0).len() == 0);
            }
            while j < coefficients.len()
                invariant
                    j <= coefficients.len(),
                    exponent == j + 1,
                    coefficients@.len() < u32::MAX,
                    all_members(coefficients@),
                    full == seq![self.0] + coefficients@,
                    x.is_member(),
                    terms == polynomial_terms(full, x),
                    all_members(terms),
                    result.is_member(),
                    result == sum_of(terms.take(j + 1)),
                decreases coefficients.len() - j,
            {
                let a = coefficients[j];
                proof {
                    lemma_pow_member(x, exponent as nat);
                    F::law_closed(a, x.pow_spec(exponent as nat));
                    F::law_closed(result, a.mul_spec(x.pow_spec(exponent as nat)));
                    lemma_sum_take_next(terms, j + 1);
                    assert(full[j + 1] == a);
                }
                result = result.add(&a.multiply(&x.to_pow(exponent)));
                exponent += 1;
                j += 1;
            }
            proof {
                assert(terms.take(j + 1) =~= terms);
            }
            shares.push(SecretShare { index: x, share: result });
            i += 1;
        }
        proof {
            assert(shares@ =~= sharing(full, n as nat));
            lemma_sharing_is_valid(full, n as nat);
            law_share_indices_distinct_nonzero(full, n as nat);
        }
        shares
    }

    /// Splits the secret into `n` shares with threshold `k`: the shares of
    /// participants `1` to `n` under a polynomial of `k` coefficients whose
    /// constant term is the secret and whose other coefficients are the
    /// first `k - 1` different values drawn from `rng`, in the order drawn.
    ///
    /// The field must have room for `n` participants, so that every share
    /// gets an index of its own and none gets zero, where the polynomial
    /// takes the secret itself.
    ///
    /// With `k <= 2` the call succeeds whatever is drawn. Otherwise it fails
    /// only if `MAX_DRAWS_PER_COEFFICIENT` draws in a row repeat coefficients
    /// already taken, which takes a field with hardly more than `k` elements.
    pub fn generate_shares(&self, k: u32, n: u32, rng: &mut StdRng) -> (r: Result<
        Vec<SecretShare<F>>,
        ShareError,
    >)
        requires
            self.0.is_member(),
            k >= 1,
            room_for_participants::<F>(n as nat),
        ensures
            match r {
                Ok(shares) => {
                    &&& exists|draws: Seq<F>|
                        #[trigger] generator_run(
                            draws,
                            (k - 1) as nat,
                            Ok::<Seq<F>, ShareError>(first_distinct(draws)),
                        ) && shares@ == sharing(seq![self.0] + first_distinct(draws), n as nat)
                    &&& exists|coefficients: Seq<F>|
                        #[trigger] sharing_polynomial(self.0, k as nat, coefficients) && shares@
                            == sharing(coefficients, n as nat)
                    &&& shares@.len() == n
                    &&& valid_shares(shares@)
                    &&& pairwise_distinct(share_indices(shares@))
                    &&& all_nonzero(share_indices(shares@))
                },
                Err(e) => {
                    &&& e == ShareError::InsufficientDistinctCoefficients
                    &&& k > 2
                    &&& exists|draws: Seq<F>|
                        #[trigger] generator_run(
                            draws,
                            (k - 1) as nat,
                            Err::<Seq<F>, ShareError>(e),
                        )
                },
            },
    {
        let drawn = get_coefficients::<F>(k - 1, rng);
        let ghost draws = choose|draws: Seq<F>|
            #[trigger] generator_run(draws, (k - 1) as nat, drawn_coefficients(drawn));
        match drawn {
            Err(e) => Err(e),
            Ok(coefficients) => {
                let shares = self.shares_from_coefficients(&coefficients, n);
                proof {
                    let full = seq![self.0] + coefficients@;
                    assert(full.skip(1) =~= coefficients@);
                    assert(all_members(full)) by {
                        assert forall|j: int| 0 <= j < full.len() implies (
                        #[trigger] full[j]).is_member() by {
                            if j > 0 {
                                assert(full[j] == coefficients@[j - 1]);
                            }
                        }
                    }
                    assert(sharing_polynomial(self.0, k as nat, full));
                    assert(coefficients@ == first_distinct(draws));
                    assert(generator_run(
                        draws,
                        (k - 1) as nat,
                        Ok::<Seq<F>, ShareError>(first_distinct(draws)),
                    ));
                }
                Ok(shares)
            },
        }
    }
}

/// Reconstructs the secret from `shares` by Lagrange interpolation at zero.
///
/// The indices of the shares must be pairwise distinct; where two of them
/// agree, the result is `DuplicateOrZeroShareIndex`. Given at least as many
/// shares of one sharing as its threshold, the result is the shared secret.
pub fn reveal_secret<F: Field>(shares: Vec<SecretShare<F>>) -> (r: Result<Secret<F>, ShareError>)
    requires
        valid_shares(shares@),
    ensures
        r == reveal_spec(shares@),
{
    let ghost xs = share_indices(shares@);
    let ghost ys = share_values(shares@);
    let ghost terms = interpolation_terms(xs, ys);
    let n = shares.len();
    let mut sum = F::zero();
    let mut i: usize = 0;
    proof {
        F::law_identities();
        assert(terms.take(0).len() == 0);
    }
    while i < n
        invariant
            n == shares.len(),
            i <= n,
            valid_shares(shares@),
            xs == share_indices(shares@),
            ys == share_values(shares@),
            terms == interpolation_terms(xs, ys),
            forall|a: int, b: int| 0 <= a < i && 0 <= b < n && a != b ==> xs[a] != xs[b],
            sum.is_member(),
            sum == sum_of(terms.take(i as int)),
        decreases n - i,
    {
        let x = shares[i].index;
        let fx = shares[i].share;
        let ghost factors = basis_factors(xs, i as int);
        let mut product = F::one();
        let mut j: usize = 0;
        proof {
            F::law_identities();
            assert(factors.take(0).len() == 0);
        }
        while j < n
            invariant
                n == shares.len(),
                i < n,
                j <= n,
                valid_shares(shares@),
                xs == share_indices(shares@),
                x == xs[i as int],
                x.is_member(),
                factors == basis_factors(xs, i as int),
                forall|b: int| 0 <= b < j && b != i ==> xs[b] != xs[i as int],
                product.is_member(),
                product == product_of(factors.take(j as int)),
            decreases n - j,
        {
            proof {
                lemma_product_take_next(factors, j as int);
            }
            if j == i {
                proof {
                    F::law_mul_one(product);
                }
            } else {
                let idx = shares[j].index;
                proof {
                    lemma_sub_zero_iff_equal(idx, x);
                }
                match idx.subtract(&x).inverse() {
                    None => {
                        proof {
                            let (lo, hi) = if j < i {
                                (j as int, i as int)
                            } else {
                                (i as int, j as int)
                            };
                            assert(xs[lo] == xs[hi]);
                        }
                        return Err(ShareError::DuplicateOrZeroShareIndex);
                    },
                    Some(denom) => {
                        proof {
                            F::law_closed(sub_spec(idx, x), sub_spec(idx, x));
                            F::law_closed(idx, denom);
                            F::law_closed(product, idx.mul_spec(denom));
                        }
                        product = product.multiply(&idx.multiply(&denom));
                    },
                }
            }
            j += 1;
        }
        proof {
            assert(factors.take(n as int) =~= factors);
            lemma_sum_take_next(terms, i as int);
            F::law_closed(fx, product);
            F::law_closed(sum, fx.mul_spec(product));
        }
        sum = sum.add(&fx.multiply(&product));
        i += 1;
    }
    proof {
        assert(terms.take(n as int) =~= terms);
    }
    Ok(Secret(sum))
}

/// The shares at the given positions of `shares`, in the order of
/// `positions`.
pub open spec fn select<F: Field>(shares: Seq<SecretShare<F>>, positions: Seq<int>) -> Seq<
    SecretShare<F>,
> {
    Seq::new(positions.len(), |j: int| shares[positions[j]])
}

/// `positions` names positions below `n`, none of them twice.
pub open spec fn distinct_positions(positions: Seq<int>, n: nat) -> bool {
    &&& forall|j: int| 0 <= j < positions.len() ==> 0 <= #[trigger] positions[j] < n
    &&& forall|a: int, b: int|
        0 <= a < b < positions.len() ==> #[trigger] positions[a] != #[trigger] positions[b]
}

/// The field is large enough for `n` participants: none of the multiples
/// `1, 2, ..., n` of its one is zero.
pub open spec fn room_for_participants<F: Field>(n: nat) -> bool {
    forall|m: nat| 1 <= m <= n ==> #[trigger] F::one_spec().scalar_mul_spec(m) != F::zero_spec()
}

/// The shares of a polynomial over the field are made of field elements.
pub proof fn lemma_sharing_is_valid<F: Field>(coefficients: Seq<F>, n: nat)
    requires
        all_members(coefficients),
    ensures
        valid_shares(sharing(coefficients, n)),
        sharing(coefficients, n).len() == n,
{
    F::law_identities();
    let shares = sharing(coefficients, n);
    assert forall|i: int| 0 <= i < shares.len() implies (#[trigger] shares[i]).index.is_member()
        && shares[i].share.is_member() by {
        lemma_scalar_mul_member(F::one_spec(), (i + 1) as nat);
        lemma_eval_member(coefficients, shares[i].index);
    }
}

/// In a field with room for `n` participants the `n` shares carry pairwise
/// distinct indices, none of them zero.
pub proof fn law_share_indices_distinct_nonzero<F: Field>(coefficients: Seq<F>, n: nat)
    requires
        room_for_participants::<F>(n),
    ensures
        pairwise_distinct(share_indices(sharing(coefficients, n))),
        all_nonzero(share_indices(sharing(coefficients, n))),
{
    F::law_identities();
    let xs = share_indices(sharing(coefficients, n));
    assert forall|i: int, j: int| 0 <= i < j < xs.len() implies xs[i] != xs[j] by {
        lemma_scalar_multiples_distinct(F::one_spec(), n, (i + 1) as nat, (j + 1) as nat);
    }
    assert forall|i: int| 0 <= i < xs.len() implies #[trigger] xs[i] != F::zero_spec() by {
        assert(xs[i] == F::one_spec().scalar_mul_spec((i + 1) as nat));
    }
}

/// Shares picked from a sharing lie on its polynomial: their values are the
/// values of the polynomial at their indices.
pub proof fn lemma_chosen_lie_on_polynomial<F: Field>(
    coefficients: Seq<F>,
    n: nat,
    chosen: Seq<SecretShare<F>>,
)
    requires
        all_members(coefficients),
        forall|j: int|
            0 <= j < chosen.len() ==> sharing(coefficients, n).contains(#[trigger] chosen[j]),
    ensures
        valid_shares(chosen),
        all_members(share_indices(chosen)),
        share_values(chosen) == evaluations(coefficients, share_indices(chosen)),
{
    let all = sharing(coefficients, n);
    lemma_sharing_is_valid(coefficients, n);
    assert forall|j: int| 0 <= j < chosen.len() implies (#[trigger] chosen[j]).index.is_member()
        && chosen[j].share.is_member() && chosen[j].share == eval_polynomial(
        coefficients,
        chosen[j].index,
    ) by {
        assert(all.contains(chosen[j]));
        let i = choose|i: int| 0 <= i < all.len() && all[i] == chosen[j];
        assert(all[i] == share_of(coefficients, (i + 1) as nat));
    }
    assert(all_members(share_indices(chosen)));
    assert(share_values(chosen) =~= evaluations(coefficients, share_indices(chosen)));
}

/// Reconstruction from any `k` or more shares of one sharing with threshold
/// `k` gives exactly the secret, provided that the indices of the chosen
/// shares are pairwise distinct.
pub proof fn law_threshold_reveals_secret<F: Field>(
    coefficients: Seq<F>,
    n: nat,
    chosen: Seq<SecretShare<F>>,
)
    requires
        coefficients.len() >= 1,
        all_members(coefficients),
        chosen.len() >= coefficients.len(),
        forall|j: int|
            0 <= j < chosen.len() ==> sharing(coefficients, n).contains(#[trigger] chosen[j]),
        pairwise_distinct(share_indices(chosen)),
    ensures
        valid_shares(chosen),
        reveal_spec(chosen) == Ok::<Secret<F>, ShareError>(Secret(coefficients[0])),
{
    lemma_chosen_lie_on_polynomial(coefficients, n, chosen);
    lemma_interpolation_gives_constant_term(coefficients, share_indices(chosen));
}

/// Reconstruction from one share fewer than the threshold gives the secret
/// exactly if the leading coefficient of the sharing polynomial is zero:
/// for every other polynomial those shares reconstruct a different value.
/// The indices of the chosen shares are to be pairwise distinct and not zero.
pub proof fn law_one_share_short<F: Field>(
    coefficients: Seq<F>,
    n: nat,
    chosen: Seq<SecretShare<F>>,
)
    requires
        coefficients.len() >= 2,
        all_members(coefficients),
        chosen.len() + 1 == coefficients.len(),
        forall|j: int|
            0 <= j < chosen.len() ==> sharing(coefficients, n).contains(#[trigger] chosen[j]),
        pairwise_distinct(share_indices(chosen)),
        all_nonzero(share_indices(chosen)),
    ensures
        reveal_spec(chosen) == Ok::<Secret<F>, ShareError>(Secret(coefficients[0]))
            <==> coefficients.last() == F::zero_spec(),
{
    lemma_chosen_lie_on_polynomial(coefficients, n, chosen);
    lemma_interpolation_one_point_short(coefficients, share_indices(chosen));
}

/// Two selections of `k` or more shares of one sharing with threshold `k`
/// reconstruct the same value, and that value is the secret.
pub proof fn law_qualified_selections_agree<F: Field>(
    coefficients: Seq<F>,
    n: nat,
    first: Seq<SecretShare<F>>,
    second: Seq<SecretShare<F>>,
)
    requires
        coefficients.len() >= 1,
        all_members(coefficients),
        first.len() >= coefficients.len(),
        second.len() >= coefficients.len(),
        forall|j: int|
            0 <= j < first.len() ==> sharing(coefficients, n).contains(#[trigger] first[j]),
        forall|j: int|
            0 <= j < second.len() ==> sharing(coefficients, n).contains(#[trigger] second[j]),
        pairwise_distinct(share_indices(first)),
        pairwise_distinct(share_indices(second)),
    ensures
        reveal_spec(first) == reveal_spec(second),
        reveal_spec(first) == Ok::<Secret<F>, ShareError>(Secret(coefficients[0])),
{
    law_threshold_reveals_secret(coefficients, n, first);
    law_threshold_reveals_secret(coefficients, n, second);
}

/// In a field with room for `n` participants, reconstruction from the shares
/// at any `k` or more different positions of a sharing with threshold `k`
/// gives exactly the secret.
pub proof fn law_any_subset_reveals_secret<F: Field>(
    coefficients: Seq<F>,
    n: nat,
    positions: Seq<int>,
)
    requires
        coefficients.len() >= 1,
        all_members(coefficients),
        room_for_participants::<F>(n),
        distinct_positions(positions, n),
        positions.len() >= coefficients.len(),
    ensures
        valid_shares(select(sharing(coefficients, n), positions)),
        reveal_spec(select(sharing(coefficients, n), positions)) == Ok::<Secret<F>, ShareError>(
            Secret(coefficients[0]),
        ),
{
    let all = sharing(coefficients, n);
    let chosen = select(all, positions);
    let xs = share_indices(chosen);
    law_share_indices_distinct_nonzero(coefficients, n);
    let all_xs = share_indices(all);
    assert forall|a: int, b: int| 0 <= a < b < xs.len() implies xs[a] != xs[b] by {
        let (pa, pb) = (positions[a], positions[b]);
        assert(xs[a] == all_xs[pa] && xs[b] == all_xs[pb]);
        if pa < pb {
            assert(all_xs[pa] != all_xs[pb]);
        } else {
            assert(all_xs[pb] != all_xs[pa]);
        }
    }
    assert forall|j: int| 0 <= j < chosen.len() implies all.contains(#[trigger] chosen[j]) by {
        assert(all[positions[j]] == chosen[j]);
    }
    law_threshold_reveals_secret(coefficients, n, chosen);
}

/// The field of order 1613 has room for up to 1612 participants.
pub proof fn lemma_g1613_room(n: nat)
    requires
        n < 1613,
    ensures
        room_for_participants::<G1613>(n),
{
    assert forall|m: nat| 1 <= m <= n implies #[trigger] G1613::one_spec().scalar_mul_spec(m)
        != G1613::zero_spec() by {
        assert(1 * m == m);
    }
}

/// Over the field of order 1613 and with at most 1612 participants,
/// reconstruction from the shares at any `k` or more different positions of
/// a sharing with threshold `k` gives exactly the secret.
pub proof fn law_g1613_any_subset_reveals_secret(
    coefficients: Seq<G1613>,
    n: nat,
    positions: Seq<int>,
)
    requires
        coefficients.len() >= 1,
        all_members(coefficients),
        n < 1613,
        distinct_positions(positions, n),
        positions.len() >= coefficients.len(),
    ensures
        reveal_spec(select(sharing(coefficients, n), positions)) == Ok::<
            Secret<G1613>,
            ShareError,
        >(Secret(coefficients[0])),
{
    lemma_g1613_room(n);
    law_any_subset_reveals_secret(coefficients, n, positions);
}

} // verus!
