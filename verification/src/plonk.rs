//! What the arguments of the proof system share: the errors and the
//! challenges.

use crate::circuit::{Advice, Any, Column, Fixed, Instance, TableColumn};
use crate::poly::Rotation;
use vstd::prelude::*;

verus! {

/// Why a table could not be laid out.
#[derive(Clone, Copy, Debug, PartialEq, Eq)]
pub enum TableError {
    /// A column of the table has a row below its length that no cell set.
    ColumnNotAssigned(TableColumn),
    /// Two columns of one table have different lengths.
    UnevenColumnLengths((TableColumn, usize), (TableColumn, usize)),
    /// The column already belongs to an earlier table.
    UsedColumn(TableColumn),
    /// The first row of the column, which gives its default, was set twice.
    OverwriteDefault(TableColumn),
}

/// Why synthesis, proving or verification stopped.
#[derive(Clone, Copy, Debug, PartialEq, Eq)]
pub enum Error {
    /// The circuit's synthesis failed.
    Synthesis,
    /// The quotient of the constraints by the vanishing polynomial is not a
    /// polynomial: the constraint system is not satisfied.
    ConstraintSystemFailure,
    /// A row or a column lies outside the constraint system.
    BoundsFailure,
    /// A point or a scalar could not be read from, or written to, the
    /// transcript.
    TranscriptError,
    /// The circuit needs more rows than `2^current_k`.
    NotEnoughRowsAvailable { current_k: u32 },
    /// A region asked for constants, and the circuit has no column for them.
    NotEnoughColumnsForConstants,
    /// A cell of a column outside the permutation was constrained equal.
    ColumnNotInPermutation(Column<Any>),
    /// A table could not be laid out.
    TableError(TableError),
}

/// The challenge that scales the permuted labels.
#[derive(Clone, Copy, Debug)]
pub struct ChallengeBeta<F>(pub F);

/// The challenge that shifts every factor of the grand product.
#[derive(Clone, Copy, Debug)]
pub struct ChallengeGamma<F>(pub F);

/// The challenge that folds the constraints into one polynomial.
#[derive(Clone, Copy, Debug)]
pub struct ChallengeY<F>(pub F);

/// The point at which the committed polynomials are opened.
#[derive(Clone, Copy, Debug)]
pub struct ChallengeX<F>(pub F);

/// The queries that the gates of a circuit make of its columns: each is a
/// column and a rotation, and each kind of column has its own list.
#[derive(Debug)]
pub struct ConstraintSystem {
    pub advice_queries: Vec<(Column<Advice>, Rotation)>,
    pub fixed_queries: Vec<(Column<Fixed>, Rotation)>,
    pub instance_queries: Vec<(Column<Instance>, Rotation)>,
}

/// The place of the first query in `queries` of the column of index
/// `index` at `at`, or the length of `queries` if there is none.
pub open spec fn query_position<T>(queries: Seq<(Column<T>, Rotation)>, index: usize, at: Rotation) -> int
    decreases queries.len(),
{
    if queries.len() == 0 {
        0
    } else if queries[0].0.index == index && queries[0].1 == at {
        0
    } else {
        1 + query_position(queries.skip(1), index, at)
    }
}

/// The place of the first query is within the list or just behind it.
pub proof fn lemma_query_position<T>(queries: Seq<(Column<T>, Rotation)>, index: usize, at: Rotation)
    ensures
        0 <= query_position(queries, index, at) <= queries.len(),
    decreases queries.len(),
{
    if queries.len() > 0 {
        lemma_query_position(queries.skip(1), index, at);
    }
}

/// Finds the first query of the column of index `index` at `at`.
fn find_query<T>(queries: &Vec<(Column<T>, Rotation)>, index: usize, at: Rotation) -> (r: usize)
    ensures
        r == query_position(queries@, index, at),
{
    let mut i: usize = 0;
    proof {
        assert(queries@.skip(0) =~= queries@);
    }
    while i < queries.len()
        invariant
            0 <= i <= queries.len(),
            query_position(queries@, index, at) == i + query_position(
                queries@.skip(i as int),
                index,
                at,
            ),
        decreases queries.len() - i,
    {
        proof {
            assert(queries@.skip(i as int)[0] == queries@[i as int]);
            assert(queries@.skip(i as int).skip(1) =~= queries@.skip(i as int + 1));
        }
        if queries[i].0.index == index && queries[i].1.same(&at) {
            return i;
        }
        i = i + 1;
    }
    i
}

impl ConstraintSystem {
    /// The place of the first query of `column` at `at` in the list of its
    /// kind, or the length of that list if there is none.
    pub open spec fn any_query_position(&self, column: Column<Any>, at: Rotation) -> int {
        match column.column_type {
            Any::Advice => query_position(self.advice_queries@, column.index, at),
            Any::Fixed => query_position(self.fixed_queries@, column.index, at),
            Any::Instance => query_position(self.instance_queries@, column.index, at),
        }
    }

    /// How many queries are made of columns of the kind of `column`.
    pub open spec fn query_count(&self, column: Column<Any>) -> int {
        match column.column_type {
            Any::Advice => self.advice_queries@.len() as int,
            Any::Fixed => self.fixed_queries@.len() as int,
            Any::Instance => self.instance_queries@.len() as int,
        }
    }

    /// Whether a gate queries `column` at `at`.
    pub open spec fn queries(&self, column: Column<Any>, at: Rotation) -> bool {
        self.any_query_position(column, at) < self.query_count(column)
    }

    /// The place of the query of `column` at `at` in the list of its kind.
    pub fn get_any_query_index(&self, column: Column<Any>, at: Rotation) -> (r: usize)
        requires
            self.queries(column, at),
        ensures
            r == self.any_query_position(column, at),
    {
        match column.column_type {
            Any::Advice => find_query(&self.advice_queries, column.index, at),
            Any::Fixed => find_query(&self.fixed_queries, column.index, at),
            Any::Instance => find_query(&self.instance_queries, column.index, at),
        }
    }
}

/// What the verifier knows of a circuit.
#[derive(Debug)]
pub struct VerifyingKey<D> {
    pub domain: D,
    pub cs: ConstraintSystem,
}

/// What the prover knows of a circuit beyond the verifying key: the
/// polynomials that mark the rows on which gates do not hold, given by
/// their evaluations over the extended domain.
#[derive(Debug)]
pub struct ProvingKey<F> {
    /// Marks the rows that blinding factors cover.
    pub l_cover: Vec<F>,
    /// Marks the last row that a gate may use.
    pub l_last: Vec<F>,
}

} // verus!
