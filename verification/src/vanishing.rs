//! The prover's side of the vanishing argument, which folds every
//! constraint of the circuit into one quotient polynomial, commits to it in
//! pieces, and opens it at the challenge point.

use crate::arithmetic::{
    congruent, eval_int, eval_polynomial, lemma_eval_concat, lemma_eval_congruent,
    lemma_eval_linear, lemma_eval_zeros, lemma_represents_add,
    lemma_represents_mul, lemma_represents_self, lemma_represents_sub, represents, vals, vals2,
    FieldExt, Scalar, ScalarSource,
};
use crate::plonk::{ChallengeX, ChallengeY, Error, ProvingKey};
use crate::poly::{Blind, EvaluationDomain, Params, ProverQuery};
use crate::transcript::{
    continues, grown, lemma_grown_none, lemma_grown_push, TranscriptWrite, Written,
};
use vstd::arithmetic::div_mod::lemma_fundamental_div_mod_converse;
use vstd::arithmetic::power::pow;
use vstd::prelude::*;

verus! {

/// The vanishing argument.
#[derive(Debug)]
pub struct Argument;

/// The argument once the random polynomial, which masks the opening of the
/// quotient, was committed to.
#[derive(Debug)]
pub struct Committed<F> {
    random_poly: Vec<F>,
    random_blind: Blind<F>,
}

/// The argument once the quotient was committed to, piece by piece.
#[derive(Debug)]
pub struct Constructed<F> {
    h_pieces: Vec<Vec<F>>,
    h_blinds: Vec<Blind<F>>,
    random_poly: Vec<F>,
    random_blind: Blind<F>,
}

/// The argument once the pieces of the quotient were put together at the
/// challenge point.
#[derive(Debug)]
pub struct Evaluated<F> {
    h_poly: Vec<F>,
    h_blind: Blind<F>,
    random_poly: Vec<F>,
    random_blind: Blind<F>,
}

impl<F> Committed<F> {
    /// The coefficients of the random polynomial.
    pub closed spec fn random_poly(&self) -> Seq<F> {
        self.random_poly@
    }

    /// The blind of the commitment to the random polynomial.
    pub closed spec fn random_blind(&self) -> Blind<F> {
        self.random_blind
    }
}

impl<F> Constructed<F> {
    /// The pieces of the quotient, lowest degrees first.
    pub closed spec fn pieces(&self) -> Seq<Vec<F>> {
        self.h_pieces@
    }

    /// The blinds of the commitments to the pieces.
    pub closed spec fn blinds(&self) -> Seq<Blind<F>> {
        self.h_blinds@
    }

    /// The coefficients of the random polynomial.
    pub closed spec fn random_poly(&self) -> Seq<F> {
        self.random_poly@
    }

    /// The blind of the commitment to the random polynomial.
    pub closed spec fn random_blind(&self) -> Blind<F> {
        self.random_blind
    }

    /// There is a blind for each piece, and every piece has `n`
    /// coefficients.
    pub open spec fn wf(&self, n: nat) -> bool {
        &&& self.pieces().len() == self.blinds().len()
        &&& forall|i: int| 0 <= i < self.pieces().len() ==> (#[trigger] self.pieces()[i])@.len() == n
    }
}

impl<F> Evaluated<F> {
    /// The coefficients of the polynomial that the pieces of the quotient
    /// make at the challenge point.
    pub closed spec fn h_poly(&self) -> Seq<F> {
        self.h_poly@
    }

    /// The blind that the blinds of the pieces make at the challenge
    /// point.
    pub closed spec fn h_blind(&self) -> Blind<F> {
        self.h_blind
    }

    /// The coefficients of the random polynomial.
    pub closed spec fn random_poly(&self) -> Seq<F> {
        self.random_poly@
    }

    /// The blind of the commitment to the random polynomial.
    pub closed spec fn random_blind(&self) -> Blind<F> {
        self.random_blind
    }
}

/// The scalars of a sequence of blinds.
pub open spec fn unblinded<F>(blinds: Seq<Blind<F>>) -> Seq<F> {
    Seq::new(blinds.len(), |i: int| blinds[i].0)
}

/// The blinds made of a sequence of scalars.
pub open spec fn blinded<F>(scalars: Seq<F>) -> Seq<Blind<F>> {
    Seq::new(scalars.len(), |i: int| Blind(scalars[i]))
}

/// The value at the `j`-th point of the domain of the expressions `exprs`
/// folded into `init` by Horner's rule in `y`: each expression in its turn
/// is added to `y` times what was folded before.
pub open spec fn fold_at(exprs: Seq<Seq<int>>, init: int, y: int, j: int) -> int
    decreases exprs.len(),
{
    if exprs.len() == 0 {
        init
    } else {
        fold_at(exprs.drop_last(), init, y, j) * y + exprs.last()[j]
    }
}

/// The value at the `j`-th point of the extended domain of what is to be
/// divided by the vanishing polynomial: the gates folded in `y`, switched
/// off on the rows where gates do not hold, and the custom expressions
/// folded in after them.
pub open spec fn numerator_at(
    gates: Seq<Seq<int>>,
    customs: Seq<Seq<int>>,
    l_cover: Seq<int>,
    l_last: Seq<int>,
    y: int,
    j: int,
) -> int {
    fold_at(customs, fold_at(gates, 0, y, j) * (1 - (l_cover[j] + l_last[j])), y, j)
}

/// The scalars that are to be divided by the vanishing polynomial, one for
/// each point of the extended domain.
pub open spec fn numerator(
    gates: Seq<Seq<int>>,
    customs: Seq<Seq<int>>,
    l_cover: Seq<int>,
    l_last: Seq<int>,
    y: int,
    size: nat,
    m: int,
) -> Seq<int> {
    Seq::new(size, |j: int| numerator_at(gates, customs, l_cover, l_last, y, j) % m)
}

/// How many pieces of `n` coefficients it takes to hold `len`
/// coefficients.
pub open spec fn piece_count(len: nat, n: nat) -> nat {
    ((len + n - 1) / (n as int)) as nat
}

/// The `i`-th piece of `n` coefficients of `h`: the coefficients from the
/// `i * n`-th on, and zeros where `h` has run out.
pub open spec fn piece(h: Seq<int>, n: nat, i: int) -> Seq<int> {
    Seq::new(
        n,
        |j: int|
            if i * n + j < h.len() {
                h[i * n + j]
            } else {
                0
            },
    )
}

/// The coefficients `h` cut into pieces of `n` coefficients, lowest
/// degrees first.
pub open spec fn split(h: Seq<int>, n: nat) -> Seq<Seq<int>> {
    Seq::new(piece_count(h.len(), n), |i: int| piece(h, n, i))
}

/// The `j`-th coefficient of each piece.
pub open spec fn column(pieces: Seq<Seq<int>>, j: int) -> Seq<int> {
    Seq::new(pieces.len(), |i: int| pieces[i][j])
}

/// The pieces put together with `xn` in the place of the `n`-th power of
/// the variable: a polynomial of `n` coefficients, each the value at `xn`
/// of the polynomial that the pieces' coefficients of that degree make.
pub open spec fn recombined(pieces: Seq<Seq<int>>, n: nat, xn: int) -> Seq<int> {
    Seq::new(n, |j: int| eval_int(column(pieces, j), xn))
}

/// Only points were written, in the order of `points` and from its first,
/// and all but the last were accepted.
pub open spec fn points_written<C, F>(w: Seq<Written<C, F>>, points: Seq<C>) -> bool {
    &&& w.len() <= points.len()
    &&& forall|k: int|
        0 <= k < w.len() ==> (#[trigger] w[k]) is Point && w[k]->Point_0 == points[k]
    &&& forall|k: int| 0 <= k < w.len() - 1 ==> (#[trigger] w[k])->Point_1
}

/// The last point was not accepted.
pub open spec fn write_failed<C, F>(w: Seq<Written<C, F>>) -> bool {
    w.len() > 0 && !w.last()->Point_1
}

/// The commitments to the pieces, each hidden by its blind.
pub open spec fn piece_commitments<C, F: FieldExt, P: Params<C, F>>(
    params: P,
    pieces: Seq<Seq<int>>,
    blinds: Seq<F>,
) -> Seq<C> {
    Seq::new(pieces.len(), |i: int| params.commitment(pieces[i], blinds[i].val()))
}

/// `len` coefficients take `i + 1` pieces where they take more than `i`
/// and no more than `i + 1`.
proof fn lemma_piece_count(len: nat, n: nat, i: nat)
    requires
        n > 0,
        i * n < len <= (i + 1) * n,
    ensures
        piece_count(len, n) == i + 1,
{
    let x = len + n - 1;
    let r = x - (i + 1) * n;
    assert(0 <= r < n) by (nonlinear_arith)
        requires
            n > 0,
            i * n < len <= (i + 1) * n,
            x == len + n - 1,
            r == x - (i + 1) * n,
    ;
    assert(x == (i + 1) * n + r);
    lemma_fundamental_div_mod_converse(x, n as int, (i + 1) as int, r);
}

/// No coefficients take no pieces.
proof fn lemma_piece_count_none(n: nat)
    requires
        n > 0,
    ensures
        piece_count(0, n) == 0,
{
    lemma_fundamental_div_mod_converse(n - 1, n as int, 0, n - 1);
}

/// A polynomial of `len` zeros.
fn zeros<F: FieldExt>(len: usize) -> (r: Vec<F>)
    ensures
        r@.len() == len,
        forall|j: int| 0 <= j < len ==> (#[trigger] r@[j]).val() == 0,
{
    let mut r: Vec<F> = Vec::new();
    let mut j: usize = 0;
    while j < len
        invariant
            0 <= j <= len,
            r@.len() == j,
            forall|k: int| 0 <= k < j ==> (#[trigger] r@[k]).val() == 0,
        decreases len - j,
    {
        r.push(F::zero());
        j = j + 1;
    }
    r
}

/// One step of Horner's rule on polynomials: `h * y + v`, point by point.
fn fold_expression<F: FieldExt>(h: Vec<F>, y: F, v: &Vec<F>, Ghost(big): Ghost<Seq<int>>) -> (r:
    Vec<F>)
    requires
        h@.len() == v@.len(),
        big.len() == h@.len(),
        forall|j: int| 0 <= j < h@.len() ==> represents(#[trigger] h@[j], big[j]),
    ensures
        r@.len() == h@.len(),
        forall|j: int|
            0 <= j < r@.len() ==> represents(#[trigger] r@[j], big[j] * y.val() + v@[j].val()),
{
    let mut r = h;
    let mut j: usize = 0;
    while j < r.len()
        invariant
            0 <= j <= r.len(),
            r@.len() == h@.len(),
            r@.len() == v@.len(),
            big.len() == h@.len(),
            forall|k: int| j <= k < r@.len() ==> represents(#[trigger] r@[k], big[k]),
            forall|k: int|
                0 <= k < j ==> represents(#[trigger] r@[k], big[k] * y.val() + v@[k].val()),
        decreases r.len() - j,
    {
        let old_value = r[j];
        let scaled = old_value.mul(&y);
        let next = scaled.add(&v[j]);
        proof {
            lemma_represents_self(y);
            lemma_represents_self(v@[j as int]);
            lemma_represents_mul(old_value, big[j as int], y, y.val(), scaled);
            lemma_represents_add(scaled, big[j as int] * y.val(), v@[j as int], v@[j as int].val(), next);
        }
        r.set(j, next);
        j = j + 1;
    }
    r
}

/// Switches `h` off, point by point, where `l_cover` or `l_last` is on:
/// `h * (1 - (l_cover + l_last))`.
fn switch_off<F: FieldExt>(h: Vec<F>, l_cover: &Vec<F>, l_last: &Vec<F>, Ghost(big): Ghost<Seq<int>>) -> (r:
    Vec<F>)
    requires
        h@.len() == l_cover@.len(),
        h@.len() == l_last@.len(),
        big.len() == h@.len(),
        forall|j: int| 0 <= j < h@.len() ==> represents(#[trigger] h@[j], big[j]),
    ensures
        r@.len() == h@.len(),
        forall|j: int|
            0 <= j < r@.len() ==> represents(
                #[trigger] r@[j],
                big[j] * (1 - (l_cover@[j].val() + l_last@[j].val())),
            ),
{
    let mut r = h;
    let one = F::one();
    let mut j: usize = 0;
    while j < r.len()
        invariant
            0 <= j <= r.len(),
            r@.len() == h@.len(),
            r@.len() == l_cover@.len(),
            r@.len() == l_last@.len(),
            big.len() == h@.len(),
            one.val() == 1,
            forall|k: int| j <= k < r@.len() ==> represents(#[trigger] r@[k], big[k]),
            forall|k: int|
                0 <= k < j ==> represents(
                    #[trigger] r@[k],
                    big[k] * (1 - (l_cover@[k].val() + l_last@[k].val())),
                ),
        decreases r.len() - j,
    {
        let old_value = r[j];
        let covered = l_cover[j].add(&l_last[j]);
        let active = one.sub(&covered);
        let next = old_value.mul(&active);
        proof {
            let lc = l_cover@[j as int];
            let ll = l_last@[j as int];
            lemma_represents_self(one);
            lemma_represents_self(lc);
            lemma_represents_self(ll);
            lemma_represents_add(lc, lc.val(), ll, ll.val(), covered);
            lemma_represents_sub(one, 1, covered, lc.val() + ll.val(), active);
            lemma_represents_mul(old_value, big[j as int], active, 1 - (lc.val() + ll.val()), next);
        }
        r.set(j, next);
        j = j + 1;
    }
    r
}

/// Folds the expressions `exprs` into `h` by Horner's rule in `y`.
fn fold_all<F: FieldExt>(
    h: Vec<F>,
    y: F,
    exprs: &Vec<Vec<F>>,
    Ghost(init): Ghost<Seq<int>>,
) -> (r: Vec<F>)
    requires
        init.len() == h@.len(),
        forall|j: int| 0 <= j < h@.len() ==> represents(#[trigger] h@[j], init[j]),
        forall|i: int| 0 <= i < exprs@.len() ==> (#[trigger] exprs@[i])@.len() == h@.len(),
    ensures
        r@.len() == h@.len(),
        forall|j: int|
            0 <= j < r@.len() ==> represents(
                #[trigger] r@[j],
                fold_at(vals2(exprs@), init[j], y.val(), j),
            ),
{
    let ghost all = vals2(exprs@);
    let ghost size = h@.len();
    let mut r = h;
    let mut i: usize = 0;
    proof {
        assert(all.take(0) =~= Seq::<Seq<int>>::empty());
    }
    while i < exprs.len()
        invariant
            0 <= i <= exprs.len(),
            all == vals2(exprs@),
            size == init.len(),
            r@.len() == size,
            forall|i: int| 0 <= i < exprs@.len() ==> (#[trigger] exprs@[i])@.len() == size,
            forall|j: int|
                0 <= j < size ==> represents(
                    #[trigger] r@[j],
                    fold_at(all.take(i as int), init[j], y.val(), j),
                ),
        decreases exprs.len() - i,
    {
        let ghost big = Seq::new(size, |j: int| fold_at(all.take(i as int), init[j], y.val(), j));
        let ghost before = r@;
        r = fold_expression(r, y, &exprs[i], Ghost(big));
        proof {
            assert(all.take(i as int + 1).drop_last() =~= all.take(i as int));
            assert(all.take(i as int + 1).last() == vals(exprs@[i as int]@));
            assert forall|j: int| 0 <= j < size implies represents(
                #[trigger] r@[j],
                fold_at(all.take(i as int + 1), init[j], y.val(), j),
            ) by {
                assert(vals(exprs@[i as int]@)[j] == exprs@[i as int]@[j].val());
            }
        }
        i = i + 1;
    }
    proof {
        assert(all.take(exprs@.len() as int) =~= all);
    }
    r
}

/// Cuts the coefficients `coeffs` into pieces of `n` coefficients, lowest
/// degrees first. The last piece is filled up with zeros.
pub fn split_pieces<F: FieldExt>(coeffs: &Vec<F>, n: usize) -> (r: Vec<Vec<F>>)
    requires
        n > 0,
    ensures
        vals2(r@) == split(vals(coeffs@), n as nat),
        forall|i: int| 0 <= i < r@.len() ==> (#[trigger] r@[i])@.len() == n,
{
    let ghost h = vals(coeffs@);
    let len = coeffs.len();
    let mut pieces: Vec<Vec<F>> = Vec::new();
    let mut start: usize = 0;
    proof {
        if len == 0 {
            lemma_piece_count_none(n as nat);
        }
        assert(0 * n == 0);
    }
    while start < len
        invariant
            n > 0,
            len == coeffs@.len(),
            h == vals(coeffs@),
            start <= len,
            start < len ==> start == pieces@.len() * n,
            start == len ==> pieces@.len() == piece_count(len as nat, n as nat),
            forall|i: int| 0 <= i < pieces@.len() ==> (#[trigger] pieces@[i])@.len() == n,
            forall|i: int|
                0 <= i < pieces@.len() ==> vals((#[trigger] pieces@[i])@) == piece(h, n as nat, i),
        decreases len - start,
    {
        let ghost i = pieces@.len() as int;
        let mut piece_coeffs: Vec<F> = Vec::new();
        let mut j: usize = 0;
        while j < n
            invariant
                0 <= j <= n,
                start < len,
                len == coeffs@.len(),
                h == vals(coeffs@),
                start == i * n,
                piece_coeffs@.len() == j,
                forall|k: int|
                    0 <= k < j ==> (#[trigger] piece_coeffs@[k]).val() == piece(h, n as nat, i)[k],
            decreases n - j,
        {
            if j < len - start {
                piece_coeffs.push(coeffs[start + j]);
            } else {
                piece_coeffs.push(F::zero());
            }
            j = j + 1;
        }
        proof {
            assert(vals(piece_coeffs@) =~= piece(h, n as nat, i));
        }
        pieces.push(piece_coeffs);
        if len - start <= n {
            proof {
                assert((i + 1) * n == i * n + n) by (nonlinear_arith);
                lemma_piece_count(len as nat, n as nat, i as nat);
            }
            start = len;
        } else {
            proof {
                assert((i + 1) * n == i * n + n) by (nonlinear_arith);
            }
            start = start + n;
        }
    }
    proof {
        assert(vals2(pieces@) =~= split(h, n as nat));
    }
    pieces
}

impl Argument {
    /// Samples a random polynomial with as many coefficients as the circuit
    /// has rows, and a blind; commits to the polynomial, and writes the
    /// commitment to the transcript. Fails where the transcript does not
    /// accept it.
    pub fn commit<
        C,
        F: FieldExt,
        P: Params<C, F>,
        D: EvaluationDomain<F>,
        R: ScalarSource<F>,
        T: TranscriptWrite<C, F>,
    >(params: &P, domain: &D, rng: &mut R, transcript: &mut T) -> (r: Result<Committed<F>, Error>)
        requires
            params.size() == domain.size(),
        ensures
            continues(old(rng).drawn(), final(rng).drawn()),
            ({
                let d = grown(old(rng).drawn(), final(rng).drawn());
                let n = domain.size() as int;
                &&& d.len() == n + 1
                &&& final(transcript).writes() == old(transcript).writes().push(
                    Written::Point(params.commitment(vals(d.take(n)), d[n].val()), r is Ok),
                )
                &&& r is Ok ==> r->Ok_0.random_poly() == d.take(n) && r->Ok_0.random_blind()
                    == Blind(d[n])
                &&& r is Err ==> r->Err_0 == Error::TranscriptError
            }),
    {
        let ghost before = rng.drawn();
        let n = domain.n();
        // Sample a random polynomial of degree n - 1
        let mut random_poly: Vec<F> = Vec::new();
        let mut i: usize = 0;
        proof {
            lemma_grown_none(before);
        }
        while i < n
            invariant
                0 <= i <= n,
                before == old(rng).drawn(),
                continues(before, rng.drawn()),
                grown(before, rng.drawn()) == random_poly@,
                random_poly@.len() == i,
            decreases n - i,
        {
            let ghost mid = rng.drawn();
            let coeff = rng.next_scalar();
            random_poly.push(coeff);
            proof {
                lemma_grown_push(before, mid, coeff);
            }
            i = i + 1;
        }
        // Sample a random blinding factor
        let ghost mid = rng.drawn();
        let random_blind = Blind(rng.next_scalar());
        proof {
            lemma_grown_push(before, mid, random_blind.0);
            let d = grown(before, rng.drawn());
            assert(d.take(n as int) =~= random_poly@);
        }

        // Commit
        let c = params.commit(&random_poly, random_blind);
        match transcript.write_point(c) {
            Ok(_) => {},
            Err(_) => {
                return Err(Error::TranscriptError);
            },
        }
        Ok(Committed { random_poly, random_blind })
    }
}

impl<F: FieldExt> Committed<F> {
    /// Folds the constraints into the quotient polynomial, commits to its
    /// pieces, and writes the commitments to the transcript in the order of
    /// the pieces.
    ///
    /// The gates are folded by Horner's rule in `y` and switched off on
    /// the rows where gates do not hold; the custom expressions are folded
    /// in after them. The domain divides the result by its vanishing
    /// polynomial and hands back the coefficients of the quotient; where it
    /// hands back nothing, the constraints are not satisfied, and nothing
    /// is drawn or written. The coefficients are cut into pieces of as many
    /// coefficients as the circuit has rows, and a blind is drawn for each
    /// piece.
    pub fn construct<
        C: Copy,
        P: Params<C, F>,
        D: EvaluationDomain<F>,
        R: ScalarSource<F>,
        T: TranscriptWrite<C, F>,
    >(
        self,
        params: &P,
        pk: &ProvingKey<F>,
        domain: &D,
        gate_expressions: &Vec<Vec<F>>,
        custom_expressions: &Vec<Vec<F>>,
        y: ChallengeY<F>,
        rng: &mut R,
        transcript: &mut T,
    ) -> (r: Result<Constructed<F>, Error>)
        requires
            params.size() == domain.size(),
            pk.l_cover@.len() == domain.extended_size(),
            pk.l_last@.len() == domain.extended_size(),
            forall|i: int|
                0 <= i < gate_expressions@.len() ==> (#[trigger] gate_expressions@[i])@.len()
                    == domain.extended_size(),
            forall|i: int|
                0 <= i < custom_expressions@.len() ==> (#[trigger] custom_expressions@[i])@.len()
                    == domain.extended_size(),
        ensures
            continues(old(rng).drawn(), final(rng).drawn()),
            continues(old(transcript).writes(), final(transcript).writes()),
            ({
                let quotient = domain.coefficients(
                    domain.divided(
                        numerator(
                            vals2(gate_expressions@),
                            vals2(custom_expressions@),
                            vals(pk.l_cover@),
                            vals(pk.l_last@),
                            y.0.val(),
                            domain.extended_size(),
                            F::modulus(),
                        ),
                    ),
                );
                let blinds = grown(old(rng).drawn(), final(rng).drawn());
                let w = grown(old(transcript).writes(), final(transcript).writes());
                match quotient {
                    None => {
                        &&& r is Err
                        &&& r->Err_0 == Error::ConstraintSystemFailure
                        &&& blinds.len() == 0
                        &&& w.len() == 0
                    },
                    Some(h) => {
                        let pieces = split(h, domain.size());
                        &&& blinds.len() == pieces.len()
                        &&& points_written(w, piece_commitments(*params, pieces, blinds))
                        &&& write_failed(w) ==> r is Err && r->Err_0 == Error::TranscriptError
                        &&& !write_failed(w) ==> {
                            &&& w.len() == pieces.len()
                            &&& r is Ok
                            &&& r->Ok_0.wf(domain.size())
                            &&& vals2(r->Ok_0.pieces()) == pieces
                            &&& r->Ok_0.blinds() == blinded(blinds)
                            &&& r->Ok_0.random_poly() == self.random_poly()
                            &&& r->Ok_0.random_blind() == self.random_blind()
                        }
                    },
                }
            }),
    {
        let ghost gates = vals2(gate_expressions@);
        let ghost customs = vals2(custom_expressions@);
        let ghost lc = vals(pk.l_cover@);
        let ghost ll = vals(pk.l_last@);
        let ghost yv = y.0.val();
        let ghost drawn_before = rng.drawn();
        let ghost written_before = transcript.writes();
        let size = domain.extended_len();
        proof {
            lemma_grown_none(drawn_before);
            lemma_grown_none(written_before);
        }

        // Evaluate the h(X) polynomial's constraint system expressions for the constraints provided
        let h_poly = zeros::<F>(size);
        let ghost zero = Seq::new(size as nat, |j: int| 0int);
        proof {
            assert forall|j: int| 0 <= j < size implies represents(#[trigger] h_poly@[j], zero[j]) by {
                lemma_represents_self(h_poly@[j]);
            }
        }
        let h_poly = fold_all(h_poly, y.0, gate_expressions, Ghost(zero));
        // All gates are multiplied by (1 - (l_cover(X) + l_last(X)))
        let ghost folded = Seq::new(size as nat, |j: int| fold_at(gates, 0, yv, j));
        let h_poly = switch_off(h_poly, &pk.l_cover, &pk.l_last, Ghost(folded));
        let ghost switched = Seq::new(
            size as nat,
            |j: int| fold_at(gates, 0, yv, j) * (1 - (lc[j] + ll[j])),
        );
        let h_poly = fold_all(h_poly, y.0, custom_expressions, Ghost(switched));
        proof {
            reveal(represents);
            assert(vals(h_poly@) =~= numerator(gates, customs, lc, ll, yv, size as nat, F::modulus()));
        }

        // Divide by t(X) = X^{params.n} - 1.
        let h_poly = domain.divide_by_vanishing_poly(h_poly);

        // Obtain final h(X) polynomial
        let h_poly = match domain.extended_to_coeff(h_poly) {
            Some(h_poly) => h_poly,
            None => {
                return Err(Error::ConstraintSystemFailure);
            },
        };

        let ghost quotient = vals(h_poly@);

        // Split h(X) up into pieces
        let h_pieces = split_pieces(&h_poly, domain.n());
        let ghost pieces = vals2(h_pieces@);
        let mut h_blinds: Vec<Blind<F>> = Vec::new();
        let mut i: usize = 0;
        while i < h_pieces.len()
            invariant
                0 <= i <= h_pieces.len(),
                drawn_before == old(rng).drawn(),
                continues(drawn_before, rng.drawn()),
                grown(drawn_before, rng.drawn()).len() == i,
                h_blinds@ == blinded(grown(drawn_before, rng.drawn())),
            decreases h_pieces.len() - i,
        {
            let ghost mid = rng.drawn();
            let blind = Blind(rng.next_scalar());
            h_blinds.push(blind);
            proof {
                lemma_grown_push(drawn_before, mid, blind.0);
                assert(h_blinds@ =~= blinded(grown(drawn_before, rng.drawn())));
            }
            i = i + 1;
        }
        let ghost blinds = grown(drawn_before, rng.drawn());

        // Compute commitments to each h(X) piece
        let mut h_commitments: Vec<C> = Vec::new();
        let mut i: usize = 0;
        while i < h_pieces.len()
            invariant
                0 <= i <= h_pieces.len(),
                params.size() == domain.size(),
                pieces == vals2(h_pieces@),
                h_blinds@ == blinded(blinds),
                blinds.len() == h_pieces@.len(),
                forall|k: int|
                    0 <= k < h_pieces@.len() ==> (#[trigger] h_pieces@[k])@.len() == domain.size(),
                h_commitments@.len() == i,
                forall|k: int|
                    0 <= k < i ==> #[trigger] h_commitments@[k] == params.commitment(
                        pieces[k],
                        blinds[k].val(),
                    ),
            decreases h_pieces.len() - i,
        {
            let c = params.commit(&h_pieces[i], h_blinds[i]);
            proof {
                assert(h_blinds@[i as int] == Blind(blinds[i as int]));
                assert(pieces[i as int] == vals(h_pieces@[i as int]@));
            }
            h_commitments.push(c);
            i = i + 1;
        }
        proof {
            assert(h_commitments@ =~= piece_commitments(*params, pieces, blinds));
        }

        // Hash each h(X) piece
        let mut i: usize = 0;
        while i < h_commitments.len()
            invariant
                0 <= i <= h_commitments.len(),
                written_before == old(transcript).writes(),
                drawn_before == old(rng).drawn(),
                continues(drawn_before, rng.drawn()),
                blinds == grown(drawn_before, rng.drawn()),
                blinds.len() == pieces.len(),
                pieces == split(quotient, domain.size()),
                h_commitments@ == piece_commitments(*params, pieces, blinds),
                domain.coefficients(
                    domain.divided(
                        numerator(
                            vals2(gate_expressions@),
                            vals2(custom_expressions@),
                            vals(pk.l_cover@),
                            vals(pk.l_last@),
                            y.0.val(),
                            domain.extended_size(),
                            F::modulus(),
                        ),
                    ),
                ) == Some(quotient),
                continues(written_before, transcript.writes()),
                grown(written_before, transcript.writes()).len() == i,
                points_written(grown(written_before, transcript.writes()), h_commitments@),
                !write_failed(grown(written_before, transcript.writes())),
            decreases h_commitments.len() - i,
        {
            let ghost mid = transcript.writes();
            let written = transcript.write_point(h_commitments[i]);
            proof {
                let now = transcript.writes();
                lemma_grown_push(written_before, mid, now.last());
                assert(now == mid.push(now.last()));
                let w = grown(written_before, now);
                let before = grown(written_before, mid);
                assert forall|k: int| 0 <= k < w.len() implies (#[trigger] w[k]) is Point
                    && w[k]->Point_0 == h_commitments@[k] by {
                    if k < before.len() {
                        assert(w[k] == before[k]);
                    }
                }
                assert forall|k: int| 0 <= k < w.len() - 1 implies (#[trigger] w[k])->Point_1 by {
                    assert(w[k] == before[k]);
                    if before.len() > 0 && k == before.len() - 1 {
                        assert(before.last() == before[k]);
                    }
                }
            }
            match written {
                Ok(_) => {},
                Err(_) => {
                    return Err(Error::TranscriptError);
                },
            }
            i = i + 1;
        }

        Ok(
            Constructed {
                h_pieces,
                h_blinds,
                random_poly: self.random_poly,
                random_blind: self.random_blind,
            },
        )
    }
}

impl<F: FieldExt> Constructed<F> {
    /// Puts the pieces of the quotient together at the challenge point:
    /// the pieces are folded by Horner's rule in `xn`, from the last piece
    /// down, and so are their blinds. Evaluates the random polynomial at
    /// `x` and writes the value to the transcript. Fails where the
    /// transcript does not accept it.
    pub fn evaluate<C, D: EvaluationDomain<F>, T: TranscriptWrite<C, F>>(
        self,
        x: ChallengeX<F>,
        xn: F,
        domain: &D,
        transcript: &mut T,
    ) -> (r: Result<Evaluated<F>, Error>)
        requires
            self.wf(domain.size()),
        ensures
            ({
                let w = final(transcript).writes().last();
                &&& final(transcript).writes() == old(transcript).writes().push(w)
                &&& w is Scalar
                &&& represents(w->Scalar_0, eval_int(vals(self.random_poly()), x.0.val()))
                &&& w->Scalar_1 == r is Ok
            }),
            r is Err ==> r->Err_0 == Error::TranscriptError,
            r is Ok ==> {
                let e = r->Ok_0;
                &&& e.h_poly().len() == domain.size()
                &&& forall|j: int|
                    0 <= j < domain.size() ==> represents(
                        #[trigger] e.h_poly()[j],
                        eval_int(column(vals2(self.pieces()), j), xn.val()),
                    )
                &&& represents(e.h_blind().0, eval_int(vals(unblinded(self.blinds())), xn.val()))
                &&& e.random_poly() == self.random_poly()
                &&& e.random_blind() == self.random_blind()
            },
    {
        let n = domain.n();
        let ghost pieces = vals2(self.h_pieces@);
        let ghost blinds = vals(unblinded(self.h_blinds@));
        let ghost xv = xn.val();
        let mut h_poly = zeros::<F>(n);
        let mut i: usize = self.h_pieces.len();
        proof {
            assert forall|j: int| 0 <= j < n implies represents(
                #[trigger] h_poly@[j],
                eval_int(column(pieces, j).skip(i as int), xv),
            ) by {
                lemma_represents_self(h_poly@[j]);
                assert(column(pieces, j).skip(i as int).len() == 0);
            }
        }
        while i > 0
            invariant
                0 <= i <= self.h_pieces.len(),
                n == domain.size(),
                self.wf(domain.size()),
                pieces == vals2(self.h_pieces@),
                xv == xn.val(),
                h_poly@.len() == n,
                forall|j: int|
                    0 <= j < n ==> represents(
                        #[trigger] h_poly@[j],
                        eval_int(column(pieces, j).skip(i as int), xv),
                    ),
            decreases i,
        {
            i = i - 1;
            let ghost big = Seq::new(
                n as nat,
                |j: int| eval_int(column(pieces, j).skip(i as int + 1), xv),
            );
            proof {
                assert(self.pieces()[i as int]@.len() == n);
            }
            let next = fold_expression(h_poly, xn, &self.h_pieces[i], Ghost(big));
            proof {
                assert forall|j: int| 0 <= j < n implies represents(
                    #[trigger] next@[j],
                    eval_int(column(pieces, j).skip(i as int), xv),
                ) by {
                    let col = column(pieces, j);
                    assert(col.skip(i as int).skip(1) =~= col.skip(i as int + 1));
                    assert(col.skip(i as int)[0] == pieces[i as int][j]);
                    assert(pieces[i as int][j] == self.h_pieces@[i as int]@[j].val());
                    assert(big[j] * xv == xv * big[j]) by (nonlinear_arith);
                    assert(eval_int(col.skip(i as int), xv) == pieces[i as int][j] + xv * big[j]);
                }
            }
            h_poly = next;
        }
        proof {
            assert forall|j: int| 0 <= j < n implies represents(
                #[trigger] h_poly@[j],
                eval_int(column(pieces, j), xv),
            ) by {
                assert(column(pieces, j).skip(0) =~= column(pieces, j));
            }
        }

        let mut h_blind = F::zero();
        let mut i: usize = self.h_blinds.len();
        proof {
            lemma_represents_self(h_blind);
            assert(blinds.skip(i as int).len() == 0);
        }
        while i > 0
            invariant
                0 <= i <= self.h_blinds.len(),
                blinds == vals(unblinded(self.h_blinds@)),
                xv == xn.val(),
                represents(h_blind, eval_int(blinds.skip(i as int), xv)),
            decreases i,
        {
            i = i - 1;
            let ghost e = eval_int(blinds.skip(i as int + 1), xv);
            let blind = self.h_blinds[i].0;
            let scaled = h_blind.mul(&xn);
            let next = scaled.add(&blind);
            proof {
                assert(blinds.skip(i as int).skip(1) =~= blinds.skip(i as int + 1));
                assert(blinds.skip(i as int)[0] == blind.val());
                lemma_represents_self(xn);
                lemma_represents_self(blind);
                lemma_represents_mul(h_blind, e, xn, xv, scaled);
                lemma_represents_add(scaled, e * xv, blind, blind.val(), next);
                assert(e * xv == xv * e) by (nonlinear_arith);
            }
            h_blind = next;
        }
        proof {
            assert(blinds.skip(0) =~= blinds);
        }

        let random_eval = eval_polynomial(&self.random_poly, x.0);
        match transcript.write_scalar(random_eval) {
            Ok(_) => {},
            Err(_) => {
                return Err(Error::TranscriptError);
            },
        }
        Ok(
            Evaluated {
                h_poly,
                h_blind: Blind(h_blind),
                random_poly: self.random_poly,
                random_blind: self.random_blind,
            },
        )
    }
}

impl<F: FieldExt> Evaluated<F> {
    /// The openings that the opening protocol is to make, in their order:
    /// the quotient and the random polynomial, both at the challenge point.
    pub fn open<'a>(&'a self, x: ChallengeX<F>) -> (r: Vec<ProverQuery<'a, F>>)
        ensures
            r@.len() == 2,
            r@[0].point == x.0,
            r@[0].poly@ == self.h_poly(),
            r@[0].blind == self.h_blind(),
            r@[1].point == x.0,
            r@[1].poly@ == self.random_poly(),
            r@[1].blind == self.random_blind(),
    {
        let mut queries: Vec<ProverQuery<'a, F>> = Vec::new();
        queries.push(ProverQuery { point: x.0, poly: &self.h_poly, blind: self.h_blind });
        queries.push(ProverQuery { point: x.0, poly: &self.random_poly, blind: self.random_blind });
        queries
    }
}

/// The first piece of `h` and the rest of `h` make `h`: the value of `h`
/// is the value of its first `n` coefficients, plus the `n`-th power of the
/// variable times the value of the coefficients after them.
proof fn lemma_eval_first_piece(h: Seq<int>, n: nat, y: int)
    requires
        n > 0,
        h.len() > 0,
    ensures
        eval_int(h, y) == eval_int(piece(h, n, 0), y) + pow(y, n) * eval_int(
            if h.len() > n {
                h.skip(n as int)
            } else {
                Seq::empty()
            },
            y,
        ),
{
    let first = piece(h, n, 0);
    if h.len() > n {
        assert(first =~= h.take(n as int)) by {
            assert(0 * n == 0);
        }
        assert(h =~= h.take(n as int) + h.skip(n as int));
        lemma_eval_concat(h.take(n as int), h.skip(n as int), y);
    } else {
        let pad = Seq::new((n - h.len()) as nat, |j: int| 0int);
        assert(first =~= h + pad) by {
            assert(0 * n == 0);
        }
        lemma_eval_concat(h, pad, y);
        lemma_eval_zeros(pad, y);
        assert(pow(y, h.len()) * 0 == 0);
        assert(pow(y, n) * 0 == 0);
    }
}

/// Cutting a polynomial into pieces and putting the pieces together again
/// gives the polynomial back: for every `h`, every length `n` of a piece
/// and every point `y`, the pieces of `h`, recombined with the `n`-th power
/// of `y`, take at `y` the value that `h` takes there.
pub proof fn lemma_recombine_split(h: Seq<int>, n: nat, y: int)
    requires
        n > 0,
    ensures
        eval_int(recombined(split(h, n), n, pow(y, n)), y) == eval_int(h, y),
    decreases h.len(),
{
    let yn = pow(y, n);
    let pieces = split(h, n);
    let whole = recombined(pieces, n, yn);
    if h.len() == 0 {
        lemma_piece_count_none(n);
        assert forall|j: int| 0 <= j < whole.len() implies whole[j] == 0 by {
            assert(column(pieces, j).len() == 0);
        }
        lemma_eval_zeros(whole, y);
    } else {
        let rest = if h.len() > n {
            h.skip(n as int)
        } else {
            Seq::<int>::empty()
        };
        let first = piece(h, n, 0);
        let others = split(rest, n);
        let tail = recombined(others, n, yn);
        lemma_recombine_split(rest, n, y);
        lemma_eval_first_piece(h, n, y);
        assert(pieces.len() == others.len() + 1) by {
            lemma_pieces_of_rest(h.len(), n);
        }
        assert forall|i: int| 0 <= i < others.len() implies #[trigger] others[i] =~= pieces[i + 1] by {
            assert forall|j: int| 0 <= j < n implies others[i][j] == pieces[i + 1][j] by {
                assert((i + 1) * n + j == i * n + j + n) by (nonlinear_arith);
                assert(i * n >= 0) by (nonlinear_arith)
                    requires
                        i >= 0,
                        n > 0,
                ;
            }
        }
        assert(whole =~= Seq::new(first.len(), |j: int| first[j] + yn * tail[j])) by {
            assert forall|j: int| 0 <= j < n implies whole[j] == first[j] + yn * tail[j] by {
                let col = column(pieces, j);
                assert(col.skip(1) =~= column(others, j)) by {
                    assert forall|i: int| 0 <= i < others.len() implies col.skip(1)[i] == column(
                        others,
                        j,
                    )[i] by {
                        assert(others[i] == pieces[i + 1]);
                    }
                }
                assert(col[0] == first[j]);
            }
        }
        lemma_eval_linear(first, yn, tail, y);
    }
}

/// `len` coefficients take one piece more than the coefficients behind
/// the first piece.
proof fn lemma_pieces_of_rest(len: nat, n: nat)
    requires
        n > 0,
        len > 0,
    ensures
        piece_count(len, n) == 1 + piece_count(
            if len > n {
                (len - n) as nat
            } else {
                0
            },
            n,
        ),
{
    if len > n {
        let rest = (len - n) as nat;
        let q = piece_count(rest, n);
        let x = rest + n - 1;
        vstd::arithmetic::div_mod::lemma_fundamental_div_mod(x as int, n as int);
        vstd::arithmetic::div_mod::lemma_mod_bound(x as int, n as int);
        let r = x % (n as int);
        assert(len + n - 1 == (q + 1) * n + r) by (nonlinear_arith)
            requires
                x == n * q + r,
                x == rest + n - 1,
                rest == len - n,
        ;
        lemma_fundamental_div_mod_converse(len + n - 1, n as int, (q + 1) as int, r);
    } else {
        lemma_piece_count_none(n);
        assert(0 * n == 0);
        assert((0 + 1) * n == n) by (nonlinear_arith);
        lemma_piece_count(len, n, 0);
    }
}

/// What `Constructed::evaluate` hands to the opening protocol is the
/// quotient: where the pieces are those of `h`, `xn` is the `n`-th power of
/// `x`, and each coefficient of `h_poly` is the reduction of what the
/// pieces' coefficients of that degree make at `xn`, the polynomial
/// `h_poly` takes at `x` the value that `h` takes there.
pub proof fn lemma_round_trip<F: FieldExt>(h: Seq<int>, n: nat, x: F, xn: F, h_poly: Seq<F>)
    requires
        n > 0,
        represents(xn, pow(x.val(), n)),
        h_poly.len() == n,
        forall|j: int|
            0 <= j < n ==> represents(#[trigger] h_poly[j], eval_int(column(split(h, n), j), xn.val())),
    ensures
        congruent(eval_int(vals(h_poly), x.val()), eval_int(h, x.val()), F::modulus()),
{
    let m = F::modulus();
    let xv = x.val();
    let pieces = split(h, n);
    let whole = recombined(pieces, n, pow(xv, n));
    crate::arithmetic::lemma_modulus::<F>();
    reveal(represents);
    crate::arithmetic::lemma_val_reduced(xn);
    assert forall|j: int| 0 <= j < n implies congruent(#[trigger] vals(h_poly)[j], whole[j], m) by {
        let col = column(pieces, j);
        assert(represents(h_poly[j], eval_int(col, xn.val())));
        crate::arithmetic::lemma_val_reduced(h_poly[j]);
        assert forall|i: int| 0 <= i < col.len() implies congruent(#[trigger] col[i], col[i], m) by {}
        lemma_eval_congruent(col, col, xn.val(), pow(xv, n), m);
    }
    lemma_eval_congruent(vals(h_poly), whole, xv, xv, m);
    lemma_recombine_split(h, n, xv);
}

} // verus!
