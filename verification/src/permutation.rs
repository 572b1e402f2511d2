//! The verifier's side of the permutation argument, which proves that the
//! cells tied by copy constraints hold equal values.

use crate::arithmetic::{
    congruent, lemma_add_congruent, lemma_mul_congruent, lemma_represents_add,
    lemma_represents_mul, lemma_represents_self, lemma_represents_sub, represents, FieldExt, Scalar,
};
use crate::circuit::{Any, Column};
use crate::plonk::{
    ChallengeBeta, ChallengeGamma, ChallengeX, ConstraintSystem, Error, VerifyingKey as PlonkKey,
};
use crate::poly::{rotate_omega, rotated, EvaluationDomain, Rotation, VerifierQuery};
use crate::transcript::{
    continues, grown, lemma_grown_none, lemma_grown_push, Read, TranscriptRead,
};
use vstd::arithmetic::div_mod::lemma_small_mod;
use vstd::arithmetic::power::{lemma_pow0, lemma_pow1, lemma_pow_adds, pow};
use vstd::prelude::*;

verus! {

/// A permutation argument: the columns whose cells copy constraints may
/// tie.
#[derive(Debug)]
pub struct Argument {
    pub columns: Vec<Column<Any>>,
}

/// The verifying key of a permutation argument: one commitment for each
/// column of the argument, to the polynomial that holds where the cells of
/// that column are permuted to.
#[derive(Debug)]
pub struct VerifyingKey<C> {
    pub commitments: Vec<C>,
}

/// The argument once the commitment to the grand product was read.
#[derive(Debug)]
pub struct Committed<C> {
    permutation_product_commitment: C,
}

/// The argument once the evaluations at the challenge point were read.
#[derive(Debug)]
pub struct Evaluated<C, F> {
    permutation_product_commitment: C,
    permutation_product_eval: F,
    permutation_product_next_eval: F,
    permutation_evals: Vec<F>,
}

impl<C> Committed<C> {
    /// The commitment to the grand product.
    pub closed spec fn product_commitment(&self) -> C {
        self.permutation_product_commitment
    }
}

impl<C, F> Evaluated<C, F> {
    /// The commitment to the grand product.
    pub closed spec fn product_commitment(&self) -> C {
        self.permutation_product_commitment
    }

    /// The grand product at the challenge point.
    pub closed spec fn product_eval(&self) -> F {
        self.permutation_product_eval
    }

    /// The grand product at the row after the challenge point.
    pub closed spec fn product_next_eval(&self) -> F {
        self.permutation_product_next_eval
    }

    /// The permutation polynomials at the challenge point, one for each
    /// column of the argument.
    pub closed spec fn evals(&self) -> Seq<F> {
        self.permutation_evals@
    }
}

/// Only scalars were asked for, and all but the last attempt gave one.
pub open spec fn scalars_read<C, F>(t: Seq<Read<C, F>>) -> bool {
    &&& forall|k: int| 0 <= k < t.len() ==> (#[trigger] t[k]) is Scalar
    &&& forall|k: int| 0 <= k < t.len() - 1 ==> (#[trigger] t[k])->Scalar_0 is Some
}

/// The last attempt to read gave nothing.
pub open spec fn read_failed<C, F>(t: Seq<Read<C, F>>) -> bool {
    t.len() > 0 && t.last()->Scalar_0 is None
}

impl Argument {
    /// Reads the commitment to the grand product from the transcript.
    /// Fails where the transcript gives no point.
    pub fn read_product_commitment<C, F, T: TranscriptRead<C, F>>(&self, transcript: &mut T) -> (r:
        Result<Committed<C>, Error>)
        ensures
            final(transcript).reads() == old(transcript).reads().push(
                Read::Point(
                    match r {
                        Ok(committed) => Some(committed.product_commitment()),
                        Err(_) => None,
                    },
                ),
            ),
            r is Err ==> r->Err_0 == Error::TranscriptError,
    {
        let permutation_product_commitment = match transcript.read_point() {
            Ok(point) => point,
            Err(_) => {
                return Err(Error::TranscriptError);
            },
        };
        Ok(Committed { permutation_product_commitment })
    }
}

impl<C> Committed<C> {
    /// Reads the evaluations from the transcript, in the order of the
    /// wire: the grand product at the challenge point, the grand product at
    /// the next row, and one evaluation for each column of the argument.
    /// Stops and fails at the first scalar that the transcript does not
    /// give.
    pub fn evaluate<F: Copy, T: TranscriptRead<C, F>>(
        self,
        vkey: &VerifyingKey<C>,
        transcript: &mut T,
    ) -> (r: Result<Evaluated<C, F>, Error>)
        ensures
            continues(old(transcript).reads(), final(transcript).reads()),
            ({
                let t = grown(old(transcript).reads(), final(transcript).reads());
                let n = vkey.commitments@.len();
                &&& scalars_read(t)
                &&& 1 <= t.len() <= n + 2
                &&& read_failed(t) ==> r is Err && r->Err_0 == Error::TranscriptError
                &&& !read_failed(t) ==> {
                    &&& t.len() == n + 2
                    &&& r is Ok
                    &&& r->Ok_0.product_commitment() == self.product_commitment()
                    &&& r->Ok_0.product_eval() == t[0]->Scalar_0->Some_0
                    &&& r->Ok_0.product_next_eval() == t[1]->Scalar_0->Some_0
                    &&& r->Ok_0.evals() == Seq::new(n, |i: int| t[i + 2]->Scalar_0->Some_0)
                }
            }),
    {
        let ghost before = transcript.reads();
        proof {
            lemma_grown_none(before);
        }
        let permutation_product_eval = match transcript.read_scalar() {
            Ok(scalar) => scalar,
            Err(_) => {
                proof {
                    lemma_grown_push(before, before, transcript.reads().last());
                    assert(transcript.reads() == before.push(transcript.reads().last()));
                }
                return Err(Error::TranscriptError);
            },
        };
        let ghost first = transcript.reads();
        proof {
            lemma_grown_push(before, before, first.last());
            assert(first == before.push(first.last()));
        }
        let permutation_product_next_eval = match transcript.read_scalar() {
            Ok(scalar) => scalar,
            Err(_) => {
                proof {
                    lemma_grown_push(before, first, transcript.reads().last());
                    assert(transcript.reads() == first.push(transcript.reads().last()));
                }
                return Err(Error::TranscriptError);
            },
        };
        proof {
            let second = transcript.reads();
            lemma_grown_push(before, first, second.last());
            assert(second == first.push(second.last()));
        }
        let mut permutation_evals: Vec<F> = Vec::with_capacity(vkey.commitments.len());
        let mut i: usize = 0;
        while i < vkey.commitments.len()
            invariant
                0 <= i <= vkey.commitments.len(),
                before == old(transcript).reads(),
                continues(before, transcript.reads()),
                scalars_read(grown(before, transcript.reads())),
                !read_failed(grown(before, transcript.reads())),
                grown(before, transcript.reads()).len() == i + 2,
                grown(before, transcript.reads())[0]->Scalar_0 == Some(permutation_product_eval),
                grown(before, transcript.reads())[1]->Scalar_0 == Some(
                    permutation_product_next_eval,
                ),
                permutation_evals@.len() == i,
                forall|j: int|
                    0 <= j < i ==> #[trigger] permutation_evals@[j] == grown(
                        before,
                        transcript.reads(),
                    )[j + 2]->Scalar_0->Some_0,
            decreases vkey.commitments.len() - i,
        {
            let ghost mid = transcript.reads();
            let read = transcript.read_scalar();
            proof {
                let now = transcript.reads();
                lemma_grown_push(before, mid, now.last());
                assert(now == mid.push(now.last()));
                let t = grown(before, now);
                assert forall|k: int| 0 <= k < t.len() implies (#[trigger] t[k]) is Scalar by {
                    if k < t.len() - 1 {
                        assert(t[k] == grown(before, mid)[k]);
                    }
                }
                assert forall|k: int| 0 <= k < t.len() - 1 implies (
                #[trigger] t[k])->Scalar_0 is Some by {
                    assert(t[k] == grown(before, mid)[k]);
                }
            }
            match read {
                Ok(scalar) => {
                    permutation_evals.push(scalar);
                },
                Err(_) => {
                    return Err(Error::TranscriptError);
                },
            }
            i = i + 1;
        }
        proof {
            let t = grown(before, transcript.reads());
            assert(permutation_evals@ =~= Seq::new(
                vkey.commitments@.len(),
                |i: int| t[i + 2]->Scalar_0->Some_0,
            ));
        }
        Ok(
            Evaluated {
                permutation_product_commitment: self.permutation_product_commitment,
                permutation_product_eval,
                permutation_product_next_eval,
                permutation_evals,
            },
        )
    }
}

/// The representative of the evaluation, at the current row, of `column`:
/// it is looked up among the evaluations of the column's kind, at the place
/// of the query of the column at the current row.
pub open spec fn column_value<F: FieldExt>(
    cs: ConstraintSystem,
    column: Column<Any>,
    advice: Seq<F>,
    fixed: Seq<F>,
    instance: Seq<F>,
) -> int {
    let i = cs.any_query_position(column, Rotation(0));
    match column.column_type {
        Any::Advice => advice[i].val(),
        Any::Fixed => fixed[i].val(),
        Any::Instance => instance[i].val(),
    }
}

/// The representatives of the evaluations, at the current row, of
/// `columns`.
pub open spec fn column_values<F: FieldExt>(
    cs: ConstraintSystem,
    columns: Seq<Column<Any>>,
    advice: Seq<F>,
    fixed: Seq<F>,
    instance: Seq<F>,
) -> Seq<int> {
    Seq::new(columns.len(), |i: int| column_value(cs, columns[i], advice, fixed, instance))
}

/// The column is queried at the current row, and the evaluation of that
/// query was handed over.
pub open spec fn covered<F>(
    cs: ConstraintSystem,
    column: Column<Any>,
    advice: Seq<F>,
    fixed: Seq<F>,
    instance: Seq<F>,
) -> bool {
    let at = cs.any_query_position(column, Rotation(0));
    match column.column_type {
        Any::Advice => at < cs.advice_queries@.len() && at < advice.len(),
        Any::Fixed => at < cs.fixed_queries@.len() && at < fixed.len(),
        Any::Instance => at < cs.instance_queries@.len() && at < instance.len(),
    }
}

/// Every column is queried at the current row, and the evaluation of that
/// query was handed over.
pub open spec fn evals_cover<F>(
    cs: ConstraintSystem,
    columns: Seq<Column<Any>>,
    advice: Seq<F>,
    fixed: Seq<F>,
    instance: Seq<F>,
) -> bool {
    forall|i: int|
        0 <= i < columns.len() ==> covered(cs, #[trigger] columns[i], advice, fixed, instance)
}

/// The left side of the grand-product identity over the first `k`
/// columns: the product at the next row, times one factor
/// `value + beta * permuted + gamma` for each column.
pub open spec fn left_product(
    values: Seq<int>,
    permuted: Seq<int>,
    beta: int,
    gamma: int,
    z_next: int,
    k: nat,
) -> int
    decreases k,
{
    if k == 0 {
        z_next
    } else {
        left_product(values, permuted, beta, gamma, z_next, (k - 1) as nat) * (values[k - 1] + beta
            * permuted[k - 1] + gamma)
    }
}

/// The right side of the grand-product identity over the first `k`
/// columns: the product at the current row, times one factor
/// `value + delta^i * beta * x + gamma` for each column `i`.
pub open spec fn right_product(
    values: Seq<int>,
    beta: int,
    gamma: int,
    x: int,
    delta: int,
    z: int,
    k: nat,
) -> int
    decreases k,
{
    if k == 0 {
        z
    } else {
        right_product(values, beta, gamma, x, delta, z, (k - 1) as nat) * (values[k - 1] + beta * x
            * pow(delta, (k - 1) as nat) + gamma)
    }
}

/// The smaller of two lengths.
pub open spec fn min_len(a: nat, b: nat) -> nat {
    if a <= b {
        a
    } else {
        b
    }
}

/// Looks up the evaluation of `column` at the current row.
fn column_eval<F: FieldExt>(
    cs: &ConstraintSystem,
    column: Column<Any>,
    advice_evals: &Vec<F>,
    fixed_evals: &Vec<F>,
    instance_evals: &Vec<F>,
) -> (r: F)
    requires
        covered(*cs, column, advice_evals@, fixed_evals@, instance_evals@),
    ensures
        r.val() == column_value(*cs, column, advice_evals@, fixed_evals@, instance_evals@),
{
    let index = cs.get_any_query_index(column, Rotation::cur());
    match column.column_type {
        Any::Advice => advice_evals[index],
        Any::Fixed => fixed_evals[index],
        Any::Instance => instance_evals[index],
    }
}

impl<C, F: FieldExt> Evaluated<C, F> {
    /// The three terms that the permutation argument adds to the
    /// constraints, each of which the proof system requires to vanish on
    /// the rows of the domain. In their order:
    /// `l_0 * (1 - z)`, `l_last * (1 - z)`, and
    /// `(z_next * prod(value_i + beta * permuted_i + gamma)
    ///   - z * prod(value_i + delta^i * beta * x + gamma))
    ///   * (1 - (l_cover + l_last))`.
    pub fn expressions<D>(
        &self,
        vk: &PlonkKey<D>,
        p: &Argument,
        advice_evals: &Vec<F>,
        fixed_evals: &Vec<F>,
        instance_evals: &Vec<F>,
        l_0: F,
        l_last: F,
        l_cover: F,
        beta: ChallengeBeta<F>,
        gamma: ChallengeGamma<F>,
        x: ChallengeX<F>,
    ) -> (r: Vec<F>)
        requires
            evals_cover(vk.cs, p.columns@, advice_evals@, fixed_evals@, instance_evals@),
        ensures
            r@.len() == 3,
            represents(r@[0], l_0.val() * (1 - self.product_eval().val())),
            represents(r@[1], l_last.val() * (1 - self.product_eval().val())),
            ({
                let values = column_values(
                    vk.cs,
                    p.columns@,
                    advice_evals@,
                    fixed_evals@,
                    instance_evals@,
                );
                let permuted = crate::arithmetic::vals(self.evals());
                let left = left_product(
                    values,
                    permuted,
                    beta.0.val(),
                    gamma.0.val(),
                    self.product_next_eval().val(),
                    min_len(p.columns@.len(), self.evals().len()),
                );
                let right = right_product(
                    values,
                    beta.0.val(),
                    gamma.0.val(),
                    x.0.val(),
                    F::delta_val(),
                    self.product_eval().val(),
                    p.columns@.len(),
                );
                represents(r@[2], (left - right) * (1 - (l_cover.val() + l_last.val())))
            }),
    {
        let ghost values = column_values(
            vk.cs,
            p.columns@,
            advice_evals@,
            fixed_evals@,
            instance_evals@,
        );
        let ghost permuted = crate::arithmetic::vals(self.evals());
        let ghost b = beta.0.val();
        let ghost g = gamma.0.val();
        let ghost xv = x.0.val();
        let ghost d = F::delta_val();
        let one = F::one();
        let z = self.permutation_product_eval;
        let z_next = self.permutation_product_next_eval;
        proof {
            lemma_represents_self(one);
            lemma_represents_self(z);
            lemma_represents_self(z_next);
            lemma_represents_self(l_0);
            lemma_represents_self(l_last);
            lemma_represents_self(l_cover);
            lemma_represents_self(beta.0);
            lemma_represents_self(gamma.0);
            lemma_represents_self(x.0);
        }

        // l_0(X) * (1 - z(X)) = 0
        let one_minus_z = one.sub(&z);
        let first = l_0.mul(&one_minus_z);
        // l_last(X) * (1 - z(X)) = 0
        let second = l_last.mul(&one_minus_z);
        proof {
            lemma_represents_sub(one, 1, z, z.val(), one_minus_z);
            lemma_represents_mul(l_0, l_0.val(), one_minus_z, 1 - z.val(), first);
            lemma_represents_mul(l_last, l_last.val(), one_minus_z, 1 - z.val(), second);
        }

        // (1 - (l_cover(X) + l_last(X))) * (
        // z(omega X) \prod (p(X) + \beta s_i(X) + \gamma)
        // - z(X) \prod (p(X) + \delta^i \beta X + \gamma)
        // )
        let count = if p.columns.len() <= self.permutation_evals.len() {
            p.columns.len()
        } else {
            self.permutation_evals.len()
        };
        let mut left = z_next;
        let mut i: usize = 0;
        while i < count
            invariant
                0 <= i <= count,
                count == min_len(p.columns@.len(), self.permutation_evals@.len()),
                evals_cover(vk.cs, p.columns@, advice_evals@, fixed_evals@, instance_evals@),
                values == column_values(
                    vk.cs,
                    p.columns@,
                    advice_evals@,
                    fixed_evals@,
                    instance_evals@,
                ),
                permuted == crate::arithmetic::vals(self.evals()),
                b == beta.0.val(),
                g == gamma.0.val(),
                represents(beta.0, b),
                represents(gamma.0, g),
                represents(left, left_product(values, permuted, b, g, z_next.val(), i as nat)),
            decreases count - i,
        {
            let column = p.columns[i];
            proof {
                assert(p.columns@[i as int] == column);
                assert(values[i as int] == column_value(
                    vk.cs,
                    column,
                    advice_evals@,
                    fixed_evals@,
                    instance_evals@,
                ));
            }
            let eval = column_eval(&vk.cs, column, advice_evals, fixed_evals, instance_evals);
            let permutation_eval = self.permutation_evals[i];
            let scaled = beta.0.mul(&permutation_eval);
            let shifted = eval.add(&scaled);
            let factor = shifted.add(&gamma.0);
            let next = left.mul(&factor);
            proof {
                lemma_represents_self(eval);
                lemma_represents_self(permutation_eval);
                assert(permuted[i as int] == permutation_eval.val());
                lemma_represents_mul(beta.0, b, permutation_eval, permuted[i as int], scaled);
                lemma_represents_add(eval, values[i as int], scaled, b * permuted[i as int], shifted);
                lemma_represents_add(
                    shifted,
                    values[i as int] + b * permuted[i as int],
                    gamma.0,
                    g,
                    factor,
                );
                lemma_represents_mul(
                    left,
                    left_product(values, permuted, b, g, z_next.val(), i as nat),
                    factor,
                    values[i as int] + b * permuted[i as int] + g,
                    next,
                );
            }
            left = next;
            i = i + 1;
        }

        let mut right = z;
        let mut current_delta = beta.0.mul(&x.0);
        let delta = F::delta();
        proof {
            lemma_represents_mul(beta.0, b, x.0, xv, current_delta);
            lemma_represents_self(delta);
            lemma_pow0(d);
            assert(b * xv * 1 == b * xv);
        }
        let mut i: usize = 0;
        while i < p.columns.len()
            invariant
                0 <= i <= p.columns.len(),
                evals_cover(vk.cs, p.columns@, advice_evals@, fixed_evals@, instance_evals@),
                values == column_values(
                    vk.cs,
                    p.columns@,
                    advice_evals@,
                    fixed_evals@,
                    instance_evals@,
                ),
                b == beta.0.val(),
                g == gamma.0.val(),
                xv == x.0.val(),
                d == F::delta_val(),
                represents(gamma.0, g),
                represents(delta, d),
                represents(current_delta, b * xv * pow(d, i as nat)),
                represents(right, right_product(values, b, g, xv, d, z.val(), i as nat)),
            decreases p.columns.len() - i,
        {
            let column = p.columns[i];
            proof {
                assert(p.columns@[i as int] == column);
                assert(values[i as int] == column_value(
                    vk.cs,
                    column,
                    advice_evals@,
                    fixed_evals@,
                    instance_evals@,
                ));
            }
            let eval = column_eval(&vk.cs, column, advice_evals, fixed_evals, instance_evals);
            let shifted = eval.add(&current_delta);
            let factor = shifted.add(&gamma.0);
            let next = right.mul(&factor);
            let next_delta = current_delta.mul(&delta);
            proof {
                let label = b * xv * pow(d, i as nat);
                lemma_represents_self(eval);
                lemma_represents_add(eval, values[i as int], current_delta, label, shifted);
                lemma_represents_add(shifted, values[i as int] + label, gamma.0, g, factor);
                lemma_represents_mul(
                    right,
                    right_product(values, b, g, xv, d, z.val(), i as nat),
                    factor,
                    values[i as int] + label + g,
                    next,
                );
                lemma_represents_mul(current_delta, label, delta, d, next_delta);
                lemma_pow_adds(d, i as nat, 1);
                lemma_pow1(d);
                assert(b * xv * pow(d, i as nat) * d == b * xv * (pow(d, i as nat) * d))
                    by (nonlinear_arith);
            }
            right = next;
            current_delta = next_delta;
            i = i + 1;
        }

        let difference = left.sub(&right);
        let covered = l_cover.add(&l_last);
        let active = one.sub(&covered);
        let third = difference.mul(&active);
        proof {
            let lp = left_product(values, permuted, b, g, z_next.val(), count as nat);
            let rp = right_product(values, b, g, xv, d, z.val(), p.columns@.len());
            lemma_represents_sub(left, lp, right, rp, difference);
            lemma_represents_add(l_cover, l_cover.val(), l_last, l_last.val(), covered);
            lemma_represents_sub(one, 1, covered, l_cover.val() + l_last.val(), active);
            lemma_represents_mul(
                difference,
                lp - rp,
                active,
                1 - (l_cover.val() + l_last.val()),
                third,
            );
        }
        let mut terms: Vec<F> = Vec::new();
        terms.push(first);
        terms.push(second);
        terms.push(third);
        terms
    }

    /// The openings that the opening protocol is to check, in their order:
    /// the commitment to the grand product at the challenge point and at
    /// the next row, and then the commitment of each column of the argument
    /// at the challenge point, as far as an evaluation was read for it.
    pub fn queries<D: EvaluationDomain<F>>(
        &self,
        vk: &PlonkKey<D>,
        vkey: &VerifyingKey<C>,
        x: ChallengeX<F>,
    ) -> (r: Vec<VerifierQuery<C, F>>) where C: Copy
        ensures
            r@.len() == 2 + min_len(vkey.commitments@.len(), self.evals().len()),
            r@[0] == (VerifierQuery {
                commitment: self.product_commitment(),
                point: x.0,
                eval: self.product_eval(),
            }),
            r@[1].commitment == self.product_commitment(),
            r@[1].eval == self.product_next_eval(),
            represents(r@[1].point, rotated(vk.domain, x.0, Rotation(1))),
            forall|i: int|
                0 <= i < min_len(vkey.commitments@.len(), self.evals().len()) ==> #[trigger] r@[i
                    + 2] == (VerifierQuery {
                    commitment: vkey.commitments@[i],
                    point: x.0,
                    eval: self.evals()[i],
                }),
    {
        let x_next = rotate_omega(&vk.domain, x.0, Rotation::next());
        let mut queries: Vec<VerifierQuery<C, F>> = Vec::new();
        // Open permutation product commitments at x and \omega x
        queries.push(
            VerifierQuery {
                commitment: self.permutation_product_commitment,
                point: x.0,
                eval: self.permutation_product_eval,
            },
        );
        queries.push(
            VerifierQuery {
                commitment: self.permutation_product_commitment,
                point: x_next,
                eval: self.permutation_product_next_eval,
            },
        );
        // Open permutation commitments for each permutation argument at x
        let count = if vkey.commitments.len() <= self.permutation_evals.len() {
            vkey.commitments.len()
        } else {
            self.permutation_evals.len()
        };
        let mut i: usize = 0;
        while i < count
            invariant
                0 <= i <= count,
                count == min_len(vkey.commitments@.len(), self.permutation_evals@.len()),
                queries@.len() == 2 + i,
                queries@[0] == (VerifierQuery {
                    commitment: self.permutation_product_commitment,
                    point: x.0,
                    eval: self.permutation_product_eval,
                }),
                queries@[1] == (VerifierQuery {
                    commitment: self.permutation_product_commitment,
                    point: x_next,
                    eval: self.permutation_product_next_eval,
                }),
                forall|j: int|
                    0 <= j < i ==> #[trigger] queries@[j + 2] == (VerifierQuery {
                        commitment: vkey.commitments@[j],
                        point: x.0,
                        eval: self.permutation_evals@[j],
                    }),
            decreases count - i,
        {
            queries.push(
                VerifierQuery {
                    commitment: vkey.commitments[i],
                    point: x.0,
                    eval: self.permutation_evals[i],
                },
            );
            i = i + 1;
        }
        queries
    }
}

/// A boundary term vanishes where the grand product is 1: the term
/// `l * (1 - z)` reduces to zero whenever `z` reduces to one.
pub proof fn lemma_boundary_term_vanishes(l: int, z: int, m: int)
    requires
        m >= 2,
        congruent(z, 1, m),
    ensures
        (l * (1 - z)) % m == 0,
{
    lemma_small_mod(0, m as nat);
    crate::arithmetic::lemma_sub_congruent(1, 1, z, 1, m);
    lemma_mul_congruent(l, l, 1 - z, 0, m);
    assert(l * 0 == 0);
}

/// The interior term vanishes where the two sides of the grand-product
/// identity agree: the term `(left - right) * active` reduces to zero
/// whenever `left` and `right` reduce to the same scalar.
pub proof fn lemma_interior_term_vanishes(left: int, right: int, active: int, m: int)
    requires
        m >= 2,
        congruent(left, right, m),
    ensures
        ((left - right) * active) % m == 0,
{
    lemma_small_mod(0, m as nat);
    crate::arithmetic::lemma_sub_congruent(left, right, right, right, m);
    lemma_mul_congruent(left - right, 0, active, active, m);
    assert(0 * active == 0);
}

/// The ring of integers modulo `m` has no zero divisors: it is a field.
pub open spec fn no_zero_divisors(m: int) -> bool {
    forall|a: int, b: int| #[trigger] ((a * b) % m) == 0 ==> a % m == 0 || b % m == 0
}

/// In a field, the interior term tells a broken identity: on a row where
/// the term is switched on, it vanishes only where the two sides of the
/// grand-product identity reduce to the same scalar.
pub proof fn lemma_interior_term_detects(left: int, right: int, active: int, m: int)
    requires
        m >= 2,
        no_zero_divisors(m),
        active % m != 0,
        ((left - right) * active) % m == 0,
    ensures
        congruent(left, right, m),
{
    assert((left - right) % m == 0);
    lemma_small_mod(0, m as nat);
    lemma_add_congruent(left - right, 0, right, right, m);
}

/// The two sides of the grand-product identity agree for the identity
/// permutation: where every column is permuted to its own label,
/// `delta^i * x`, and the grand product is the same at the current and the
/// next row, the left product and the right product reduce to the same
/// scalar.
pub proof fn lemma_identity_permutation(
    values: Seq<int>,
    permuted: Seq<int>,
    beta: int,
    gamma: int,
    x: int,
    delta: int,
    z: int,
    z_next: int,
    k: nat,
    m: int,
)
    requires
        m >= 2,
        k <= values.len(),
        k <= permuted.len(),
        congruent(z_next, z, m),
        forall|i: int| 0 <= i < k ==> congruent(#[trigger] permuted[i], x * pow(delta, i as nat), m),
    ensures
        congruent(
            left_product(values, permuted, beta, gamma, z_next, k),
            right_product(values, beta, gamma, x, delta, z, k),
            m,
        ),
    decreases k,
{
    if k > 0 {
        let j = (k - 1) as nat;
        lemma_identity_permutation(values, permuted, beta, gamma, x, delta, z, z_next, j, m);
        let label = x * pow(delta, j);
        assert(congruent(permuted[j as int], label, m));
        lemma_mul_congruent(beta, beta, permuted[j as int], label, m);
        lemma_add_congruent(values[j as int], values[j as int], beta * permuted[j as int], beta * label, m);
        lemma_add_congruent(
            values[j as int] + beta * permuted[j as int],
            values[j as int] + beta * label,
            gamma,
            gamma,
            m,
        );
        assert(beta * label == beta * x * pow(delta, j)) by (nonlinear_arith)
            requires
                label == x * pow(delta, j),
        ;
        lemma_mul_congruent(
            left_product(values, permuted, beta, gamma, z_next, j),
            right_product(values, beta, gamma, x, delta, z, j),
            values[j as int] + beta * permuted[j as int] + gamma,
            values[j as int] + beta * x * pow(delta, j) + gamma,
            m,
        );
    }
}

} // verus!
