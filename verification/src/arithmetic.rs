//! Scalars and the arithmetic on polynomials in coefficient form.
//!
//! A scalar is modelled by its canonical representative, an integer in
//! `[0, modulus)`. Contracts speak of ordinary integer expressions over
//! those representatives, reduced once at the end.

use vstd::arithmetic::div_mod::{
    lemma_add_mod_noop, lemma_mod_bound, lemma_mul_mod_noop, lemma_small_mod, lemma_sub_mod_noop,
};
use vstd::arithmetic::power::{lemma_pow0, lemma_pow1, lemma_pow_adds, pow};
use vstd::prelude::*;

verus! {

/// What a type of scalars says of itself: its modulus, and a number that
/// stands for each of its elements. The ring that the type makes of this is
/// told by `Scalar`. A type whose arithmetic is not verified need say
/// nothing.
pub trait Modular: Sized + Copy {
    /// The modulus of the ring, where it is at least 2.
    open spec fn order() -> int {
        arbitrary()
    }

    /// A number that stands for this element.
    open spec fn residue(&self) -> int {
        arbitrary()
    }

    /// A number that stands for the constant that tells the columns of a
    /// permutation apart.
    open spec fn delta_residue() -> int {
        arbitrary()
    }
}

/// The ring of integers modulo `modulus()` that a type of scalars makes.
pub trait Scalar: Modular {
    /// The modulus of the ring: at least 2.
    spec fn modulus() -> int;

    /// The canonical representative of this element: at least 0, and less
    /// than the modulus.
    spec fn val(&self) -> int;

    /// The canonical representative of the constant that tells the columns
    /// of a permutation apart: not zero.
    spec fn delta_val() -> int;
}

impl<F: Modular> Scalar for F {
    open spec fn modulus() -> int {
        if F::order() >= 2 {
            F::order()
        } else {
            2
        }
    }

    open spec fn val(&self) -> int {
        self.residue() % Self::modulus()
    }

    open spec fn delta_val() -> int {
        let d = F::delta_residue() % Self::modulus();
        if d == 0 {
            1
        } else {
            d
        }
    }
}

/// The ring is not trivial, and the distinguishing constant is not zero.
pub proof fn lemma_modulus<F: Modular>()
    ensures
        F::modulus() >= 2,
        0 < F::delta_val() < F::modulus(),
{
    lemma_mod_bound(F::delta_residue(), F::modulus());
}

/// Representatives are canonical.
pub proof fn lemma_val<F: Modular>(a: F)
    ensures
        0 <= a.val() < F::modulus(),
{
    lemma_mod_bound(a.residue(), F::modulus());
}

/// A scalar of the proof system, with the arithmetic of its ring.
pub trait FieldExt: Modular {
    /// The scalar zero.
    fn zero() -> (r: Self)
        ensures
            r.val() == 0,
    ;

    /// The scalar one.
    fn one() -> (r: Self)
        ensures
            r.val() == 1,
    ;

    /// The constant that tells the columns of a permutation apart.
    fn delta() -> (r: Self)
        ensures
            r.val() == Self::delta_val(),
    ;

    /// The sum of two scalars.
    fn add(&self, rhs: &Self) -> (r: Self)
        ensures
            r.val() == (self.val() + rhs.val()) % Self::modulus(),
    ;

    /// The difference of two scalars.
    fn sub(&self, rhs: &Self) -> (r: Self)
        ensures
            r.val() == (self.val() - rhs.val()) % Self::modulus(),
    ;

    /// The product of two scalars.
    fn mul(&self, rhs: &Self) -> (r: Self)
        ensures
            r.val() == (self.val() * rhs.val()) % Self::modulus(),
    ;
}

/// The representatives of a sequence of scalars.
pub open spec fn vals<F: FieldExt>(s: Seq<F>) -> Seq<int> {
    Seq::new(s.len(), |i: int| s[i].val())
}

/// `a` and `b` stand for the same scalar modulo `m`.
pub open spec fn congruent(a: int, b: int, m: int) -> bool {
    a % m == b % m
}

/// A representative is congruent to itself reduced.
pub proof fn lemma_val_reduced<F: FieldExt>(a: F)
    ensures
        a.val() % F::modulus() == a.val(),
{
    lemma_modulus::<F>();
    lemma_val(a);
    lemma_small_mod(a.val() as nat, F::modulus() as nat);
}

/// Sums of congruent numbers are congruent.
pub proof fn lemma_add_congruent(a: int, a2: int, b: int, b2: int, m: int)
    requires
        m > 0,
        congruent(a, a2, m),
        congruent(b, b2, m),
    ensures
        congruent(a + b, a2 + b2, m),
{
    lemma_add_mod_noop(a, b, m);
    lemma_add_mod_noop(a2, b2, m);
}

/// Differences of congruent numbers are congruent.
pub proof fn lemma_sub_congruent(a: int, a2: int, b: int, b2: int, m: int)
    requires
        m > 0,
        congruent(a, a2, m),
        congruent(b, b2, m),
    ensures
        congruent(a - b, a2 - b2, m),
{
    lemma_sub_mod_noop(a, b, m);
    lemma_sub_mod_noop(a2, b2, m);
}

/// Products of congruent numbers are congruent.
pub proof fn lemma_mul_congruent(a: int, a2: int, b: int, b2: int, m: int)
    requires
        m > 0,
        congruent(a, a2, m),
        congruent(b, b2, m),
    ensures
        congruent(a * b, a2 * b2, m),
{
    lemma_mul_mod_noop(a, b, m);
    lemma_mul_mod_noop(a2, b2, m);
}

/// The scalar `a` is the reduction of the integer `big`.
#[verifier::opaque]
pub open spec fn represents<F: FieldExt>(a: F, big: int) -> bool {
    a.val() == big % F::modulus()
}

/// Every scalar is the reduction of its own representative.
pub proof fn lemma_represents_self<F: FieldExt>(a: F)
    ensures
        represents(a, a.val()),
{
    reveal(represents);
    lemma_val_reduced(a);
}

/// A sum of scalars is the reduction of the sum of what they reduce.
pub proof fn lemma_represents_add<F: FieldExt>(a: F, big_a: int, b: F, big_b: int, r: F)
    requires
        represents(a, big_a),
        represents(b, big_b),
        r.val() == (a.val() + b.val()) % F::modulus(),
    ensures
        represents(r, big_a + big_b),
{
    reveal(represents);
    lemma_modulus::<F>();
    lemma_add_mod_noop(big_a, big_b, F::modulus());
}

/// A difference of scalars is the reduction of the difference of what they
/// reduce.
pub proof fn lemma_represents_sub<F: FieldExt>(a: F, big_a: int, b: F, big_b: int, r: F)
    requires
        represents(a, big_a),
        represents(b, big_b),
        r.val() == (a.val() - b.val()) % F::modulus(),
    ensures
        represents(r, big_a - big_b),
{
    reveal(represents);
    lemma_modulus::<F>();
    lemma_sub_mod_noop(big_a, big_b, F::modulus());
}

/// A product of scalars is the reduction of the product of what they reduce.
pub proof fn lemma_represents_mul<F: FieldExt>(a: F, big_a: int, b: F, big_b: int, r: F)
    requires
        represents(a, big_a),
        represents(b, big_b),
        r.val() == (a.val() * b.val()) % F::modulus(),
    ensures
        represents(r, big_a * big_b),
{
    reveal(represents);
    lemma_modulus::<F>();
    lemma_mul_mod_noop(big_a, big_b, F::modulus());
}

/// The value at `x` of the polynomial with coefficients `c`, lowest degree
/// first, over the integers.
pub open spec fn eval_int(c: Seq<int>, x: int) -> int
    decreases c.len(),
{
    if c.len() == 0 {
        0
    } else {
        c[0] + x * eval_int(c.skip(1), x)
    }
}

/// Evaluates the polynomial with coefficients `poly`, lowest degree first,
/// at `point`.
pub fn eval_polynomial<F: FieldExt>(poly: &Vec<F>, point: F) -> (r: F)
    ensures
        represents(r, eval_int(vals(poly@), point.val())),
{
    let ghost c = vals(poly@);
    let ghost x = point.val();
    let ghost m = F::modulus();
    proof {
        lemma_modulus::<F>();
    }
    let mut acc = F::zero();
    let mut i: usize = poly.len();
    proof {
        assert(c.skip(i as int).len() == 0);
        lemma_represents_self(acc);
    }
    while i > 0
        invariant
            0 <= i <= poly.len(),
            c == vals(poly@),
            x == point.val(),
            m == F::modulus(),
            m >= 2,
            represents(acc, eval_int(c.skip(i as int), x)),
        decreases i,
    {
        i = i - 1;
        let ghost e = eval_int(c.skip(i as int + 1), x);
        let scaled = acc.mul(&point);
        let next = scaled.add(&poly[i]);
        proof {
            assert(c.skip(i as int).skip(1) =~= c.skip(i as int + 1));
            assert(eval_int(c.skip(i as int), x) == c[i as int] + x * e);
            lemma_represents_self(point);
            lemma_represents_self(poly@[i as int]);
            lemma_represents_mul(acc, e, point, x, scaled);
            lemma_represents_add(scaled, e * x, poly@[i as int], c[i as int], next);
            assert(e * x == x * e) by (nonlinear_arith);
        }
        acc = next;
    }
    assert(c.skip(0) =~= c);
    acc
}

/// A source of random scalars. It is modelled by the scalars that were
/// drawn from it so far: nothing is known of a scalar before it is drawn.
pub trait ScalarSource<F>: Sized {
    /// Every scalar drawn so far, oldest first.
    open spec fn drawn(&self) -> Seq<F> {
        arbitrary()
    }

    /// Draws a scalar.
    fn next_scalar(&mut self) -> (r: F)
        ensures
            final(self).drawn() == old(self).drawn().push(r),
    ;
}

/// The representatives of the coefficients of a sequence of polynomials.
pub open spec fn vals2<F: FieldExt>(s: Seq<Vec<F>>) -> Seq<Seq<int>> {
    Seq::new(s.len(), |i: int| vals(s[i]@))
}

/// A polynomial all of whose coefficients are zero evaluates to zero.
pub proof fn lemma_eval_zeros(c: Seq<int>, x: int)
    requires
        forall|j: int| 0 <= j < c.len() ==> c[j] == 0,
    ensures
        eval_int(c, x) == 0,
    decreases c.len(),
{
    if c.len() > 0 {
        lemma_eval_zeros(c.skip(1), x);
        assert(x * 0 == 0);
    }
}

/// A polynomial whose coefficients are those of `a` followed by those of
/// `b` is `a` plus `b` shifted up by the length of `a`.
pub proof fn lemma_eval_concat(a: Seq<int>, b: Seq<int>, x: int)
    ensures
        eval_int(a + b, x) == eval_int(a, x) + pow(x, a.len()) * eval_int(b, x),
    decreases a.len(),
{
    if a.len() == 0 {
        assert(a + b =~= b);
        lemma_pow0(x);
        assert(1 * eval_int(b, x) == eval_int(b, x));
    } else {
        let rest = a.skip(1);
        assert((a + b).skip(1) =~= rest + b);
        lemma_eval_concat(rest, b, x);
        lemma_pow_adds(x, 1, rest.len());
        lemma_pow1(x);
        let eb = eval_int(b, x);
        let er = eval_int(rest, x);
        let pr = pow(x, rest.len());
        assert(x * (er + pr * eb) == x * er + (x * pr) * eb) by (nonlinear_arith);
    }
}

/// Evaluation is linear in the coefficients.
pub proof fn lemma_eval_linear(a: Seq<int>, c: int, b: Seq<int>, x: int)
    requires
        a.len() == b.len(),
    ensures
        eval_int(Seq::new(a.len(), |j: int| a[j] + c * b[j]), x) == eval_int(a, x) + c * eval_int(
            b,
            x,
        ),
    decreases a.len(),
{
    let sum = Seq::new(a.len(), |j: int| a[j] + c * b[j]);
    if a.len() == 0 {
        assert(c * 0 == 0);
    } else {
        let ra = a.skip(1);
        let rb = b.skip(1);
        assert(sum.skip(1) =~= Seq::new(ra.len(), |j: int| ra[j] + c * rb[j]));
        lemma_eval_linear(ra, c, rb, x);
        let ea = eval_int(ra, x);
        let eb = eval_int(rb, x);
        assert(x * (ea + c * eb) == x * ea + c * (x * eb)) by (nonlinear_arith);
        assert(c * (b[0] + x * eb) == c * b[0] + c * (x * eb)) by (nonlinear_arith);
    }
}

/// Polynomials with congruent coefficients take congruent values at
/// congruent points.
pub proof fn lemma_eval_congruent(a: Seq<int>, b: Seq<int>, x: int, y: int, m: int)
    requires
        m > 0,
        a.len() == b.len(),
        forall|j: int| 0 <= j < a.len() ==> congruent(#[trigger] a[j], b[j], m),
        congruent(x, y, m),
    ensures
        congruent(eval_int(a, x), eval_int(b, y), m),
    decreases a.len(),
{
    if a.len() > 0 {
        let ra = a.skip(1);
        let rb = b.skip(1);
        assert forall|j: int| 0 <= j < ra.len() implies congruent(#[trigger] ra[j], rb[j], m) by {
            assert(congruent(a[j + 1], b[j + 1], m));
        }
        lemma_eval_congruent(ra, rb, x, y, m);
        lemma_mul_congruent(x, y, eval_int(ra, x), eval_int(rb, y), m);
        assert(congruent(a[0], b[0], m));
        lemma_add_congruent(a[0], b[0], x * eval_int(ra, x), y * eval_int(rb, y), m);
    }
}

} // verus!
