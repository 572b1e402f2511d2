//! Polynomials as the arguments see them: the evaluation domain, the
//! commitment scheme, and the queries handed to the opening protocol.

use crate::arithmetic::{
    lemma_represents_mul, lemma_represents_self, represents, vals, FieldExt, Scalar,
};
use vstd::arithmetic::power::{lemma_pow0, lemma_pow1, lemma_pow_adds, pow};
use vstd::prelude::*;

verus! {

/// A step along the rows of the domain: 0 is the current row, 1 the next,
/// -1 the one before.
#[derive(Clone, Copy, Debug, PartialEq, Eq)]
pub struct Rotation(pub i32);

impl Rotation {
    /// The current row.
    pub fn cur() -> (r: Rotation)
        ensures
            r == Rotation(0),
    {
        Rotation(0)
    }

    /// The row before.
    pub fn prev() -> (r: Rotation)
        ensures
            r.0 == -1,
    {
        Rotation(-1)
    }

    /// The next row.
    pub fn next() -> (r: Rotation)
        ensures
            r == Rotation(1),
    {
        Rotation(1)
    }

    /// Whether two rotations are the same.
    pub fn same(&self, other: &Self) -> (r: bool)
        ensures
            r == (*self == *other),
    {
        self.0 == other.0
    }
}

/// The scalar that makes a commitment hiding.
#[derive(Clone, Copy, Debug, PartialEq, Eq)]
pub struct Blind<F>(pub F);

/// The evaluation domain of a circuit with `n` rows, and its extension,
/// on which the constraints are evaluated. How it transforms polynomials
/// is its own business: each transformation is known by a name only.
pub trait EvaluationDomain<F: FieldExt>: Sized {
    /// The number of rows of the circuit.
    open spec fn size(&self) -> nat {
        arbitrary()
    }

    /// The number of points of the extended domain.
    open spec fn extended_size(&self) -> nat {
        arbitrary()
    }

    /// The representative of the generator of the domain.
    open spec fn omega_val(&self) -> int {
        arbitrary()
    }

    /// The representative of the inverse of the generator.
    open spec fn omega_inv_val(&self) -> int {
        arbitrary()
    }

    /// The evaluations, over the extended domain, of the quotient of the
    /// polynomial with evaluations `a` by the vanishing polynomial of the
    /// domain.
    open spec fn divided(&self, a: Seq<int>) -> Seq<int> {
        arbitrary()
    }

    /// The coefficients of the polynomial with evaluations `a` over the
    /// extended domain, or nothing where that polynomial is of too high a
    /// degree to be a quotient of constraints by the vanishing polynomial.
    open spec fn coefficients(&self, a: Seq<int>) -> Option<Seq<int>> {
        arbitrary()
    }

    /// The number of rows of the circuit.
    fn n(&self) -> (r: usize)
        ensures
            r == self.size(),
            r > 0,
    ;

    /// The number of points of the extended domain.
    fn extended_len(&self) -> (r: usize)
        ensures
            r == self.extended_size(),
    ;

    /// The generator of the domain.
    fn get_omega(&self) -> (r: F)
        ensures
            r.val() == self.omega_val(),
    ;

    /// The inverse of the generator of the domain.
    fn get_omega_inv(&self) -> (r: F)
        ensures
            r.val() == self.omega_inv_val(),
    ;

    /// Divides a polynomial, given by its evaluations over the extended
    /// domain, by the vanishing polynomial of the domain.
    fn divide_by_vanishing_poly(&self, a: Vec<F>) -> (r: Vec<F>)
        requires
            a@.len() == self.extended_size(),
        ensures
            r@.len() == self.extended_size(),
            vals(r@) == self.divided(vals(a@)),
    ;

    /// Turns evaluations over the extended domain into coefficients.
    /// Returns nothing where the evaluations are not those of a quotient.
    fn extended_to_coeff(&self, a: Vec<F>) -> (r: Option<Vec<F>>)
        requires
            a@.len() == self.extended_size(),
        ensures
            match r {
                Some(c) => self.coefficients(vals(a@)) == Some(vals(c@)),
                None => self.coefficients(vals(a@)) is None,
            },
    ;
}

/// The integer that `value`, moved by `rotation` rows, reduces: `value`
/// times the generator of the domain, or its inverse, once for each row.
pub open spec fn rotated<F: FieldExt, D: EvaluationDomain<F>>(
    domain: D,
    value: F,
    rotation: Rotation,
) -> int {
    if rotation.0 >= 0 {
        value.val() * pow(domain.omega_val(), rotation.0 as nat)
    } else {
        value.val() * pow(domain.omega_inv_val(), (-rotation.0) as nat)
    }
}

/// Moves `value` by `rotation` rows of the domain.
pub fn rotate_omega<F: FieldExt, D: EvaluationDomain<F>>(
    domain: &D,
    value: F,
    rotation: Rotation,
) -> (r: F)
    ensures
        represents(r, rotated(*domain, value, rotation)),
{
    let mut point = value;
    proof {
        lemma_represents_self(value);
    }
    if rotation.0 >= 0 {
        let omega = domain.get_omega();
        let ghost w = omega.val();
        let mut i: i32 = 0;
        proof {
            lemma_pow0(w);
            lemma_represents_self(omega);
        }
        while i < rotation.0
            invariant
                0 <= i <= rotation.0,
                w == omega.val(),
                represents(omega, w),
                represents(point, value.val() * pow(w, i as nat)),
            decreases rotation.0 - i,
        {
            let next = point.mul(&omega);
            proof {
                lemma_represents_mul(point, value.val() * pow(w, i as nat), omega, w, next);
                lemma_pow_adds(w, i as nat, 1);
                lemma_pow1(w);
                assert(value.val() * pow(w, i as nat) * w == value.val() * (pow(w, i as nat) * w))
                    by (nonlinear_arith);
            }
            point = next;
            i = i + 1;
        }
    } else {
        let omega_inv = domain.get_omega_inv();
        let ghost w = omega_inv.val();
        let mut i: i32 = 0;
        proof {
            lemma_pow0(w);
            lemma_represents_self(omega_inv);
        }
        while i > rotation.0
            invariant
                rotation.0 <= i <= 0,
                w == omega_inv.val(),
                represents(omega_inv, w),
                represents(point, value.val() * pow(w, (-i) as nat)),
            decreases i - rotation.0,
        {
            let next = point.mul(&omega_inv);
            proof {
                lemma_represents_mul(point, value.val() * pow(w, (-i) as nat), omega_inv, w, next);
                lemma_pow_adds(w, (-i) as nat, 1);
                lemma_pow1(w);
                assert(value.val() * pow(w, (-i) as nat) * w == value.val() * (pow(w, (-i) as nat)
                    * w)) by (nonlinear_arith);
            }
            point = next;
            i = i - 1;
        }
    }
    point
}

/// The parameters of the commitment scheme. What a commitment is made of
/// is the scheme's own business: it is known by a name only.
pub trait Params<C, F: FieldExt>: Sized {
    /// The number of coefficients of a polynomial that can be committed
    /// to.
    open spec fn size(&self) -> nat {
        arbitrary()
    }

    /// The commitment to the polynomial with coefficients `poly`, hidden
    /// by `blind`.
    open spec fn commitment(&self, poly: Seq<int>, blind: int) -> C {
        arbitrary()
    }

    /// The number of coefficients of a polynomial that can be committed
    /// to.
    fn n(&self) -> (r: u64)
        ensures
            r == self.size(),
    ;

    /// Commits to the polynomial with coefficients `poly`, hidden by
    /// `blind`.
    fn commit(&self, poly: &Vec<F>, blind: Blind<F>) -> (r: C)
        requires
            poly@.len() == self.size(),
        ensures
            r == self.commitment(vals(poly@), blind.0.val()),
    ;
}

/// A polynomial that the prover is to open at a point.
#[derive(Debug)]
pub struct ProverQuery<'a, F> {
    /// The point at which the polynomial is opened.
    pub point: F,
    /// The coefficients of the polynomial.
    pub poly: &'a Vec<F>,
    /// The blind of the commitment to the polynomial.
    pub blind: Blind<F>,
}

/// A commitment that the verifier is to see opened at a point.
#[derive(Clone, Copy, Debug, PartialEq, Eq)]
pub struct VerifierQuery<C, F> {
    /// The commitment.
    pub commitment: C,
    /// The point at which the commitment is opened.
    pub point: F,
    /// The value that the committed polynomial is claimed to take there.
    pub eval: F,
}

} // verus!
