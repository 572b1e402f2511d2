//! Small, complete implementations of the interfaces that the arguments
//! consume, for development and testing: a scalar field, a constraint
//! system that records what it is asked, transcripts held in memory, a
//! source of scalars, a commitment scheme, an evaluation domain, and a
//! circuit.

use crate::arithmetic::{
    eval_int, eval_polynomial, lemma_represents_add, lemma_represents_mul,
    lemma_represents_self, represents, vals, FieldExt, Modular, Scalar, ScalarSource,
};
use crate::circuit::{
    extends, lemma_added_concat, lemma_added_none, reply_of, Advice, Any, Assignment, Call, Challenge, Column, Exchange, Fixed,
    Instance, RegionColumn, RegionIndex, Reply, Selector,
};
use crate::floor_planner::{
    cells_known, constants_column, lemma_first_free_fits, queued_constants, Circuit, Layout,
    SingleChipLayouter,
};
use crate::layouter::{shape_columns, shape_rows, RegionOp};
use crate::plonk::Error;
use crate::poly::{Blind, EvaluationDomain, Params};
use crate::transcript::{got, Read, TranscriptRead, TranscriptWrite, Written};
use vstd::arithmetic::div_mod::{lemma_mod_bound, lemma_mod_multiples_vanish, lemma_small_mod};
use vstd::prelude::*;

verus! {

/// The modulus of `Fp`: the prime `2^64 - 2^32 + 1`.
pub const MODULUS: u64 = 0xFFFF_FFFF_0000_0001;

/// The representative of the distinguishing constant of `Fp`: the
/// `2^32`-th power of the generator 7 of its multiplicative group.
pub const DELTA: u64 = 0xAA5B_2509_F86B_B4D4;

/// An element of the field of integers modulo `2^64 - 2^32 + 1`.
#[derive(Clone, Copy, Debug, PartialEq, Eq)]
pub struct Fp {
    v: u64,
}

impl Fp {
    /// The element that `v` reduces to.
    pub fn new(v: u64) -> (r: Fp)
        ensures
            r.val() == v % MODULUS,
            r.canonical(),
    {
        proof {
            lemma_mod_bound(v as int, MODULUS as int);
            lemma_small_mod((v % MODULUS) as nat, MODULUS as nat);
        }
        Fp { v: v % MODULUS }
    }

    /// The representative of the element.
    pub fn value(&self) -> (r: u64)
        ensures
            r == self.val(),
    {
        self.v % MODULUS
    }

    /// The element holds its representative.
    pub closed spec fn canonical(&self) -> bool {
        self.v < MODULUS
    }

    /// The element with representative `v`, for `v` below the modulus.
    pub closed spec fn of(v: int) -> Fp {
        Fp { v: v as u64 }
    }

    /// An element that holds its representative is known by it.
    pub proof fn lemma_canonical(&self)
        requires
            self.canonical(),
        ensures
            *self == Fp::of(self.val()),
    {
        lemma_small_mod(self.v as nat, MODULUS as nat);
    }

    /// The representative of an element is what its number reduces to.
    pub proof fn lemma_value(&self)
        ensures
            Fp::modulus() == MODULUS,
            self.val() == self.residue() % (MODULUS as int),
            Fp::delta_val() == DELTA,
    {
        lemma_small_mod(DELTA as nat, MODULUS as nat);
    }
}

impl Modular for Fp {
    open spec fn order() -> int {
        MODULUS as int
    }

    closed spec fn residue(&self) -> int {
        self.v as int
    }

    open spec fn delta_residue() -> int {
        DELTA as int
    }
}

impl FieldExt for Fp {
    fn zero() -> (r: Self)
        ensures
            r.canonical(),
    {
        proof {
            lemma_small_mod(0, MODULUS as nat);
        }
        Fp { v: 0 }
    }

    fn one() -> (r: Self)
        ensures
            r.canonical(),
    {
        proof {
            lemma_small_mod(1, MODULUS as nat);
        }
        Fp { v: 1 }
    }

    fn delta() -> (r: Self)
        ensures
            r.canonical(),
    {
        proof {
            lemma_small_mod(DELTA as nat, MODULUS as nat);
        }
        Fp { v: DELTA }
    }

    fn add(&self, rhs: &Self) -> (r: Self)
        ensures
            r.canonical(),
    {
        let a = (self.v % MODULUS) as u128;
        let b = (rhs.v % MODULUS) as u128;
        let sum = (a + b) % (MODULUS as u128);
        proof {
            lemma_mod_bound((a + b) as int, MODULUS as int);
            lemma_small_mod(sum as nat, MODULUS as nat);
        }
        Fp { v: sum as u64 }
    }

    fn sub(&self, rhs: &Self) -> (r: Self)
        ensures
            r.canonical(),
    {
        let a = (self.v % MODULUS) as u128;
        let b = (rhs.v % MODULUS) as u128;
        let difference = (a + (MODULUS as u128) - b) % (MODULUS as u128);
        proof {
            lemma_mod_bound((a + MODULUS - b) as int, MODULUS as int);
            lemma_small_mod(difference as nat, MODULUS as nat);
            lemma_mod_multiples_vanish(1, (a - b) as int, MODULUS as int);
            assert(MODULUS * 1 + (a - b) == a + MODULUS - b);
        }
        Fp { v: difference as u64 }
    }

    fn mul(&self, rhs: &Self) -> (r: Self)
        ensures
            r.canonical(),
    {
        let a = (self.v % MODULUS) as u128;
        let b = (rhs.v % MODULUS) as u128;
        proof {
            assert(a * b <= 0xFFFF_FFFF_FFFF_FFFF * 0xFFFF_FFFF_FFFF_FFFF) by (nonlinear_arith)
                requires
                    0 <= a <= 0xFFFF_FFFF_FFFF_FFFF,
                    0 <= b <= 0xFFFF_FFFF_FFFF_FFFF,
            ;
        }
        let product = (a * b) % (MODULUS as u128);
        proof {
            lemma_mod_bound((a * b) as int, MODULUS as int);
            lemma_small_mod(product as nat, MODULUS as nat);
        }
        Fp { v: product as u64 }
    }
}

/// A constraint system that records what it is asked. It has `rows` rows
/// and refuses every request that names a row beyond them; the values of
/// its instance columns are given when it is made, and it knows no
/// challenge.
#[derive(Debug)]
pub struct Recorder<F> {
    k: u32,
    rows: usize,
    instance: Vec<Vec<F>>,
    log: Vec<Exchange<F>>,
}

impl<F: Copy> Recorder<F> {
    /// A constraint system of `rows` rows, which gives `k` as the reason
    /// where it refuses a row, with the instance columns `instance`.
    pub fn new(k: u32, rows: usize, instance: Vec<Vec<F>>) -> (r: Self)
        ensures
            r.exchanges() == Seq::<Exchange<F>>::empty(),
            r.rows_view() == rows,
    {
        Recorder { k, rows, instance, log: Vec::new() }
    }

    /// The number of rows.
    pub closed spec fn rows_view(&self) -> nat {
        self.rows as nat
    }

    /// What a query of `row` of the instance column `column` gives: the
    /// value there, nothing where the column is shorter, and a refusal
    /// where there is no such row or column.
    pub closed spec fn instance_value(&self, column: Column<Instance>, row: usize) -> Result<
        Option<F>,
        Error,
    > {
        if row < self.rows && column.index < self.instance@.len() {
            if row < self.instance@[column.index as int]@.len() {
                Ok(Some(self.instance@[column.index as int]@[row as int]))
            } else {
                Ok(None)
            }
        } else if row < self.rows {
            Err(Error::BoundsFailure)
        } else {
            Err(Error::NotEnoughRowsAvailable { current_k: self.k })
        }
    }

    /// Every request received so far, oldest first, with its answer.
    pub fn log(&self) -> (r: &Vec<Exchange<F>>)
        ensures
            r@ == self.exchanges(),
    {
        &self.log
    }

    /// Records a request that is carried out if `row` is one of the rows.
    fn record(&mut self, call: Call<F>, row: usize) -> (r: Result<(), Error>)
        ensures
            final(self).exchanges() == old(self).exchanges().push(
                Exchange { call, reply: reply_of(r) },
            ),
            r is Ok <==> row < old(self).rows_view(),
            r is Err ==> r->Err_0 == (Error::NotEnoughRowsAvailable { current_k: old(self).k }),
            final(self).rows_view() == old(self).rows_view(),
            final(self).k == old(self).k,
            final(self).instance == old(self).instance,
    {
        if row < self.rows {
            self.log.push(Exchange { call, reply: Reply::Done });
            Ok(())
        } else {
            let e = Error::NotEnoughRowsAvailable { current_k: self.k };
            self.log.push(Exchange { call, reply: Reply::Failed(e) });
            Err(e)
        }
    }
}

impl<F: Copy> Assignment<F> for Recorder<F> {
    closed spec fn exchanges(&self) -> Seq<Exchange<F>> {
        self.log@
    }

    open spec fn challenge_value(&self, challenge: Challenge) -> Option<F> {
        None
    }

    fn enter_region(&mut self, name: &str) {
        self.log.push(Exchange { call: Call::EnterRegion, reply: Reply::Done });
    }

    fn exit_region(&mut self) {
        self.log.push(Exchange { call: Call::ExitRegion, reply: Reply::Done });
    }

    fn enable_selector(&mut self, selector: Selector, row: usize) -> (r: Result<(), Error>)
        ensures
            r is Ok <==> row < old(self).rows_view(),
            final(self).rows_view() == old(self).rows_view(),
    {
        self.record(Call::EnableSelector { selector, row }, row)
    }

    fn annotate_column(&mut self, column: Column<Any>) {
        self.log.push(Exchange { call: Call::AnnotateColumn { column }, reply: Reply::Done });
    }

    fn query_instance(&mut self, column: Column<Instance>, row: usize) -> (r: Result<
        Option<F>,
        Error,
    >)
        ensures
            r == old(self).instance_value(column, row),
            final(self).rows_view() == old(self).rows_view(),
    {
        let call = Call::QueryInstance { column, row };
        if row < self.rows && column.index < self.instance.len() {
            let value = if row < self.instance[column.index].len() {
                Some(self.instance[column.index][row])
            } else {
                None
            };
            self.log.push(Exchange { call, reply: Reply::Value(value) });
            Ok(value)
        } else {
            let e = if row < self.rows {
                Error::BoundsFailure
            } else {
                Error::NotEnoughRowsAvailable { current_k: self.k }
            };
            self.log.push(Exchange { call, reply: Reply::Failed(e) });
            Err(e)
        }
    }

    fn assign_advice(&mut self, column: Column<Advice>, row: usize, to: Option<F>) -> (r: Result<
        (),
        Error,
    >)
        ensures
            r is Ok <==> row < old(self).rows_view(),
            final(self).rows_view() == old(self).rows_view(),
    {
        self.record(Call::AssignAdvice { column, row, value: to }, row)
    }

    fn assign_fixed(&mut self, column: Column<Fixed>, row: usize, to: Option<F>) -> (r: Result<
        (),
        Error,
    >)
        ensures
            r is Ok <==> row < old(self).rows_view(),
            final(self).rows_view() == old(self).rows_view(),
    {
        self.record(Call::AssignFixed { column, row, value: to }, row)
    }

    fn copy(
        &mut self,
        left_column: Column<Any>,
        left_row: usize,
        right_column: Column<Any>,
        right_row: usize,
    ) -> (r: Result<(), Error>)
        ensures
            r is Ok <==> left_row < old(self).rows_view() && right_row < old(self).rows_view(),
            final(self).rows_view() == old(self).rows_view(),
    {
        let row = if left_row < right_row {
            right_row
        } else {
            left_row
        };
        self.record(Call::Copy { left_column, left_row, right_column, right_row }, row)
    }

    fn fill_from_row(&mut self, column: Column<Fixed>, row: usize, to: Option<F>) -> (r: Result<
        (),
        Error,
    >)
        ensures
            r is Ok <==> row < old(self).rows_view(),
            final(self).rows_view() == old(self).rows_view(),
    {
        self.record(Call::FillFromRow { column, row, value: to }, row)
    }

    fn get_challenge(&self, challenge: Challenge) -> (r: Option<F>) {
        None
    }

    fn push_namespace(&mut self, name: &str) {
        self.log.push(Exchange { call: Call::PushNamespace, reply: Reply::Done });
    }

    fn pop_namespace(&mut self, gadget_name: Option<String>) {
        self.log.push(Exchange { call: Call::PopNamespace, reply: Reply::Done });
    }
}

/// A point or a scalar of a proof.
#[derive(Clone, Copy, Debug, PartialEq, Eq)]
pub enum Item<C, F> {
    Point(C),
    Scalar(F),
}

/// A proof held in memory, to be read item by item. A read fails, and
/// reads nothing, where the proof has run out or its next item is of the
/// other kind.
pub struct ProofReader<C, F> {
    items: Vec<Item<C, F>>,
    position: usize,
    log: Ghost<Seq<Read<C, F>>>,
}

impl<C: Copy, F: Copy> ProofReader<C, F> {
    /// A reader at the start of the proof `items`.
    pub fn new(items: Vec<Item<C, F>>) -> (r: Self)
        ensures
            r.reads() == Seq::<Read<C, F>>::empty(),
            r.remaining() == items@,
    {
        let r = ProofReader { items, position: 0, log: Ghost(Seq::empty()) };
        assert(r.items@.skip(0) =~= items@);
        r
    }

    /// The items that were not read yet.
    pub closed spec fn remaining(&self) -> Seq<Item<C, F>> {
        if self.position <= self.items@.len() {
            self.items@.skip(self.position as int)
        } else {
            Seq::empty()
        }
    }

    /// How many items were read.
    pub fn position(&self) -> (r: usize)
        ensures
            r == self.position_view(),
    {
        self.position
    }

    /// How many items were read.
    pub closed spec fn position_view(&self) -> nat {
        self.position as nat
    }
}

impl<C: Copy, F: Copy> TranscriptRead<C, F> for ProofReader<C, F> {
    closed spec fn reads(&self) -> Seq<Read<C, F>> {
        self.log@
    }

    fn read_point(&mut self) -> (r: Result<C, ()>)
        ensures
            r == match old(self).remaining().len() > 0 {
                true => match old(self).remaining()[0] {
                    Item::Point(c) => Ok::<C, ()>(c),
                    Item::Scalar(_) => Err::<C, ()>(()),
                },
                false => Err::<C, ()>(()),
            },
            final(self).remaining() == if r is Ok {
                old(self).remaining().skip(1)
            } else {
                old(self).remaining()
            },
    {
        let r = if self.position < self.items.len() {
            match self.items[self.position] {
                Item::Point(c) => Ok(c),
                Item::Scalar(_) => Err(()),
            }
        } else {
            Err(())
        };
        if r.is_ok() {
            proof {
                assert(self.items@.skip(self.position as int).skip(1) =~= self.items@.skip(
                    self.position as int + 1,
                ));
            }
            self.position = self.position + 1;
        }
        self.log = Ghost(self.log@.push(Read::Point(got(r))));
        r
    }

    fn read_scalar(&mut self) -> (r: Result<F, ()>)
        ensures
            r == match old(self).remaining().len() > 0 {
                true => match old(self).remaining()[0] {
                    Item::Scalar(s) => Ok::<F, ()>(s),
                    Item::Point(_) => Err::<F, ()>(()),
                },
                false => Err::<F, ()>(()),
            },
            final(self).remaining() == if r is Ok {
                old(self).remaining().skip(1)
            } else {
                old(self).remaining()
            },
    {
        let r = if self.position < self.items.len() {
            match self.items[self.position] {
                Item::Scalar(s) => Ok(s),
                Item::Point(_) => Err(()),
            }
        } else {
            Err(())
        };
        if r.is_ok() {
            proof {
                assert(self.items@.skip(self.position as int).skip(1) =~= self.items@.skip(
                    self.position as int + 1,
                ));
            }
            self.position = self.position + 1;
        }
        self.log = Ghost(self.log@.push(Read::Scalar(got(r))));
        r
    }
}

/// A proof that is being written into memory. It accepts items until it
/// holds `capacity` of them, and refuses every item after that.
pub struct ProofWriter<C, F> {
    items: Vec<Item<C, F>>,
    capacity: usize,
    log: Ghost<Seq<Written<C, F>>>,
}

impl<C: Copy, F: Copy> ProofWriter<C, F> {
    /// An empty proof that takes up to `capacity` items.
    pub fn new(capacity: usize) -> (r: Self)
        ensures
            r.writes() == Seq::<Written<C, F>>::empty(),
            r.items_view() == Seq::<Item<C, F>>::empty(),
            r.capacity_view() == capacity,
    {
        ProofWriter { items: Vec::new(), capacity, log: Ghost(Seq::empty()) }
    }

    /// The items that were accepted, oldest first.
    pub closed spec fn items_view(&self) -> Seq<Item<C, F>> {
        self.items@
    }

    /// How many items the proof takes.
    pub closed spec fn capacity_view(&self) -> nat {
        self.capacity as nat
    }

    /// The items that were accepted, oldest first.
    pub fn items(&self) -> (r: &Vec<Item<C, F>>)
        ensures
            r@ == self.items_view(),
    {
        &self.items
    }
}

impl<C: Copy, F: Copy> TranscriptWrite<C, F> for ProofWriter<C, F> {
    closed spec fn writes(&self) -> Seq<Written<C, F>> {
        self.log@
    }

    fn write_point(&mut self, point: C) -> (r: Result<(), ()>)
        ensures
            r is Ok <==> old(self).items_view().len() < old(self).capacity_view(),
            final(self).capacity_view() == old(self).capacity_view(),
            final(self).items_view() == if r is Ok {
                old(self).items_view().push(Item::Point(point))
            } else {
                old(self).items_view()
            },
    {
        let r = if self.items.len() < self.capacity {
            self.items.push(Item::Point(point));
            Ok(())
        } else {
            Err(())
        };
        self.log = Ghost(self.log@.push(Written::Point(point, r is Ok)));
        r
    }

    fn write_scalar(&mut self, scalar: F) -> (r: Result<(), ()>)
        ensures
            r is Ok <==> old(self).items_view().len() < old(self).capacity_view(),
            final(self).capacity_view() == old(self).capacity_view(),
            final(self).items_view() == if r is Ok {
                old(self).items_view().push(Item::Scalar(scalar))
            } else {
                old(self).items_view()
            },
    {
        let r = if self.items.len() < self.capacity {
            self.items.push(Item::Scalar(scalar));
            Ok(())
        } else {
            Err(())
        };
        self.log = Ghost(self.log@.push(Written::Scalar(scalar, r is Ok)));
        r
    }
}

/// A source of scalars that counts: it gives the elements of `Fp` that
/// `start`, `start + 1`, and so on reduce to.
pub struct CountingSource {
    next: u64,
    log: Ghost<Seq<Fp>>,
}

impl CountingSource {
    /// A source whose first scalar is the one that `start` reduces to.
    pub fn new(start: u64) -> (r: Self)
        ensures
            r.drawn() == Seq::<Fp>::empty(),
            r.next_view() == start,
    {
        CountingSource { next: start, log: Ghost(Seq::empty()) }
    }

    /// The number that the next scalar is the reduction of.
    pub closed spec fn next_view(&self) -> u64 {
        self.next
    }
}

impl ScalarSource<Fp> for CountingSource {
    closed spec fn drawn(&self) -> Seq<Fp> {
        self.log@
    }

    fn next_scalar(&mut self) -> (r: Fp)
        ensures
            r.val() == old(self).next_view() % MODULUS,
            final(self).next_view() == if old(self).next_view() == u64::MAX {
                0
            } else {
                (old(self).next_view() + 1) as u64
            },
    {
        let r = Fp::new(self.next);
        self.next = if self.next == u64::MAX {
            0
        } else {
            self.next + 1
        };
        self.log = Ghost(self.log@.push(r));
        r
    }
}

/// A commitment scheme for polynomials of `n` coefficients over `Fp`, with
/// commitments in `Fp`: the commitment to a polynomial is its value at a
/// fixed point, plus a fixed multiple of the blind. It hides nothing and
/// binds nothing.
#[derive(Debug)]
pub struct PointParams {
    n: u64,
    point: Fp,
    weight: Fp,
}

impl PointParams {
    /// The scheme that commits to polynomials of `n` coefficients by their
    /// value at `point`, and adds `weight` times the blind.
    pub fn new(n: u64, point: Fp, weight: Fp) -> (r: Self)
        ensures
            r.size() == n,
            r.point_view() == point,
            r.weight_view() == weight,
    {
        PointParams { n, point, weight }
    }

    /// The point at which polynomials are evaluated.
    pub closed spec fn point_view(&self) -> Fp {
        self.point
    }

    /// The scalar by which blinds are multiplied.
    pub closed spec fn weight_view(&self) -> Fp {
        self.weight
    }
}

impl Params<Fp, Fp> for PointParams {
    closed spec fn size(&self) -> nat {
        self.n as nat
    }

    open spec fn commitment(&self, poly: Seq<int>, blind: int) -> Fp {
        Fp::of(
            (eval_int(poly, self.point_view().val()) + blind * self.weight_view().val())
                % Fp::modulus(),
        )
    }

    fn n(&self) -> (r: u64) {
        self.n
    }

    fn commit(&self, poly: &Vec<Fp>, blind: Blind<Fp>) -> (r: Fp) {
        let value = eval_polynomial(poly, self.point);
        let hidden = blind.0.mul(&self.weight);
        let r = value.add(&hidden);
        proof {
            lemma_represents_self(blind.0);
            lemma_represents_self(self.weight);
            lemma_represents_mul(blind.0, blind.0.val(), self.weight, self.weight.val(), hidden);
            lemma_represents_add(
                value,
                eval_int(vals(poly@), self.point.val()),
                hidden,
                blind.0.val() * self.weight.val(),
                r,
            );
            reveal(represents);
            r.lemma_canonical();
        }
        r
    }
}

/// An evaluation domain for tests of the arguments around it. It leaves
/// polynomials as they are: division by the vanishing polynomial hands the
/// evaluations back, and they are then taken for coefficients. A domain
/// made inexact finds no quotient at all.
#[derive(Debug)]
pub struct PlainDomain<F> {
    n: usize,
    extended_len: usize,
    omega: F,
    omega_inv: F,
    exact: bool,
}

impl<F: FieldExt> PlainDomain<F> {
    /// A domain of `n` rows and `extended_len` extended points, with the
    /// generator `omega` and its inverse `omega_inv`. Where `n` is 0, the
    /// domain has one row.
    pub fn new(n: usize, extended_len: usize, omega: F, omega_inv: F, exact: bool) -> (r: Self)
        ensures
            r.size() == if n > 0 {
                n
            } else {
                1
            },
            r.extended_size() == extended_len,
            r.omega_val() == omega.val(),
            r.omega_inv_val() == omega_inv.val(),
            r.exact_view() == exact,
    {
        PlainDomain { n, extended_len, omega, omega_inv, exact }
    }

    /// Whether the domain finds quotients.
    pub closed spec fn exact_view(&self) -> bool {
        self.exact
    }
}

impl<F: FieldExt> EvaluationDomain<F> for PlainDomain<F> {
    closed spec fn size(&self) -> nat {
        if self.n > 0 {
            self.n as nat
        } else {
            1
        }
    }

    closed spec fn extended_size(&self) -> nat {
        self.extended_len as nat
    }

    closed spec fn omega_val(&self) -> int {
        self.omega.val()
    }

    closed spec fn omega_inv_val(&self) -> int {
        self.omega_inv.val()
    }

    open spec fn divided(&self, a: Seq<int>) -> Seq<int> {
        a
    }

    open spec fn coefficients(&self, a: Seq<int>) -> Option<Seq<int>> {
        if self.exact_view() {
            Some(a)
        } else {
            None
        }
    }

    fn n(&self) -> (r: usize) {
        if self.n > 0 {
            self.n
        } else {
            1
        }
    }

    fn extended_len(&self) -> (r: usize) {
        self.extended_len
    }

    fn get_omega(&self) -> (r: F) {
        self.omega
    }

    fn get_omega_inv(&self) -> (r: F) {
        self.omega_inv
    }

    fn divide_by_vanishing_poly(&self, a: Vec<F>) -> (r: Vec<F>) {
        a
    }

    fn extended_to_coeff(&self, a: Vec<F>) -> (r: Option<Vec<F>>) {
        if self.exact {
            Some(a)
        } else {
            None
        }
    }
}

/// The steps of a region that assigns nothing to each of the first
/// `height` rows of `column`.
pub fn column_steps<F: Copy>(column: Column<Advice>, height: usize) -> (ops: Vec<RegionOp<F>>)
    ensures
        ops@.len() == height,
        forall|i: int|
            0 <= i < height ==> #[trigger] ops@[i] == (RegionOp::<F>::AssignAdvice {
                column,
                offset: i as usize,
                to: None,
            }),
        shape_rows(ops@) == height,
        shape_columns(ops@) == if height > 0 {
            set![RegionColumn::Column(column.any())]
        } else {
            Set::<RegionColumn>::empty()
        },
        forall|index: RegionIndex| #[trigger] queued_constants(ops@, index).len() == 0,
{
    let mut ops: Vec<RegionOp<F>> = Vec::new();
    let mut i: usize = 0;
    while i < height
        invariant
            0 <= i <= height,
            ops@.len() == i,
            forall|j: int|
                0 <= j < i ==> #[trigger] ops@[j] == (RegionOp::<F>::AssignAdvice {
                    column,
                    offset: j as usize,
                    to: None,
                }),
            shape_rows(ops@) == i,
            shape_columns(ops@) == if i > 0 {
                set![RegionColumn::Column(column.any())]
            } else {
                Set::<RegionColumn>::empty()
            },
            forall|index: RegionIndex| #[trigger] queued_constants(ops@, index).len() == 0,
        decreases height - i,
    {
        let ghost before = ops@;
        ops.push(RegionOp::AssignAdvice { column, offset: i, to: None });
        proof {
            assert(ops@.drop_last() =~= before);
            assert(shape_columns(ops@) =~= set![RegionColumn::Column(column.any())]);
            assert forall|index: RegionIndex| #[trigger]
                queued_constants(ops@, index).len() == 0 by {
                assert(queued_constants(before, index).len() == 0);
            }
        }
        i = i + 1;
    }
    ops
}

/// A circuit of regions stacked on one advice column: one region for each
/// of `heights`, of that many rows. It is configured with the column.
#[derive(Debug)]
pub struct StackedRegions {
    pub heights: Vec<usize>,
}

impl<F: Copy> Circuit<F> for StackedRegions {
    type Config = Column<Advice>;

    /// Where the circuit succeeds, it has declared one region for each of
    /// its heights.
    open spec fn synthesized(
        &self,
        config: Column<Advice>,
        before: Layout,
        after: Layout,
        asked: Seq<Exchange<F>>,
        r: Result<(), Error>,
    ) -> bool {
        r is Ok ==> after.starts.len() == before.starts.len() + self.heights@.len()
    }

    /// Declares the regions, from the first height to the last. Fails with
    /// a synthesis error where the rows of the column run out, and with the
    /// refusal of the constraint system where it refuses.
    fn synthesize<CS: Assignment<F>>(
        &self,
        config: Column<Advice>,
        layouter: &mut SingleChipLayouter<F, CS>,
    ) -> (r: Result<(), Error>) {
        let key = RegionColumn::Column(config.into_any());
        let mut k: usize = 0;
        proof {
            lemma_added_none(layouter.constraint_system().exchanges());
        }
        while k < self.heights.len()
            invariant
                0 <= k <= self.heights.len(),
                key == RegionColumn::Column(config.any()),
                layouter.wf(),
                layouter.region_starts().len() == old(layouter).region_starts().len() + k,
                extends(
                    old(layouter).constraint_system().exchanges(),
                    layouter.constraint_system().exchanges(),
                ),
            decreases self.heights.len() - k,
        {
            let height = self.heights[k];
            let start = layouter.first_free_row(&key);
            if height > usize::MAX - start {
                return Err(Error::Synthesis);
            }
            let ops = column_steps::<F>(config, height);
            let ghost mid = layouter.constraint_system().exchanges();
            proof {
                let layout = layouter.layout();
                let cols = shape_columns(ops@);
                layouter.lemma_region_start(cols);
                if height > 0 {
                    assert(cols.contains(key));
                    assert(layout.region_start(cols) == layout.first_free(key));
                } else {
                    assert(layout.region_start(cols) == 0);
                }
                assert forall|i: int| 0 <= i < ops@.len() implies cells_known(
                    #[trigger] ops@[i],
                    layout.starts.push(layout.region_start(cols)),
                ) by {}
                match constants_column(layout) {
                    Some(c) => {
                        lemma_first_free_fits(layout, c);
                    },
                    None => {},
                }
            }
            let placed = layouter.assign_region("region", &ops);
            proof {
                lemma_added_concat(
                    old(layouter).constraint_system().exchanges(),
                    mid,
                    layouter.constraint_system().exchanges(),
                );
            }
            match placed {
                Ok(_) => {},
                Err(e) => {
                    return Err(e);
                },
            }
            k = k + 1;
        }
        Ok(())
    }
}

} // verus!
