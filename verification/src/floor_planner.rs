//! The single-pass floor planner: regions are placed in the order in which
//! they are declared, each at the first row at which all of its columns are
//! free.

use crate::circuit::{
    accepted, added, extends, follows, lemma_added_concat, lemma_added_none, lemma_added_one,
    lemma_added_push, lemma_follows_concat, lemma_follows_push, planned, refusal, refused, reply_of, reply_of_query, Advice,
    Any, Assignment, Call, Cell, Challenge, Column, Exchange, Fixed, Instance, RegionColumn,
    RegionIndex, RegionStart, Reply, Selector, TableColumn,
};
use crate::layouter::{
    lemma_target_in_shape, op_target, shape_columns, shape_rows, RegionOp, RegionShape,
};
use crate::plonk::Error;
use crate::table_layouter::{
    cell_call, cell_call_count, cell_fault, compute_table_lengths, fault_index,
    lemma_fault_index_bound, lemma_table_lengths, state_columns, states, table_call,
    table_call_count, table_lengths, table_state, SimpleTableLayouter, TableCell,
};
use std::marker::PhantomData;
use vstd::prelude::*;

verus! {

/// The first row of a column that no region has claimed.
#[derive(Clone, Copy, Debug)]
pub struct ColumnUsage {
    pub column: RegionColumn,
    pub first_free: usize,
}

/// What a region claims: for each of its columns, as many rows as the
/// region is long, counted from the region's start.
pub struct Footprint {
    pub columns: Set<RegionColumn>,
    pub rows: nat,
}

/// No column has two entries.
pub open spec fn distinct_columns(entries: Seq<ColumnUsage>) -> bool {
    forall|i: int, j: int|
        0 <= i < j < entries.len() ==> (#[trigger] entries[i]).column != (
        #[trigger] entries[j]).column
}

/// Whether `column` has an entry.
pub open spec fn has_entry(entries: Seq<ColumnUsage>, column: RegionColumn) -> bool {
    exists|i: int| 0 <= i < entries.len() && (#[trigger] entries[i]).column == column
}

/// The first free row of `column`: what its entry says, and row 0 for a
/// column without one.
pub open spec fn first_free_in(entries: Seq<ColumnUsage>, column: RegionColumn) -> nat {
    if has_entry(entries, column) {
        let i = choose|i: int| 0 <= i < entries.len() && (#[trigger] entries[i]).column == column;
        entries[i].first_free as nat
    } else {
        0
    }
}

/// The largest first free row among the columns in `cols`, and 0 if there
/// is none.
pub open spec fn max_free(entries: Seq<ColumnUsage>, cols: Set<RegionColumn>) -> nat
    decreases entries.len(),
{
    if entries.len() == 0 {
        0
    } else {
        let rest = max_free(entries.drop_last(), cols);
        let last = entries.last();
        if cols.contains(last.column) && last.first_free > rest {
            last.first_free as nat
        } else {
            rest
        }
    }
}

/// `row` is the first row at which every column in `cols` is free, given
/// that no column is ever freed again: no column of `cols` is free later
/// than `row`, and one of them becomes free exactly there, unless all are
/// free from the top.
pub open spec fn is_region_start(
    entries: Seq<ColumnUsage>,
    cols: Set<RegionColumn>,
    row: nat,
) -> bool {
    &&& forall|c: RegionColumn| cols.contains(c) ==> #[trigger] first_free_in(entries, c) <= row
    &&& row == 0 || exists|c: RegionColumn|
        cols.contains(c) && #[trigger] first_free_in(entries, c) == row
}

/// Dropping the last entry changes the first free row of its column only.
proof fn lemma_first_free_drop_last(entries: Seq<ColumnUsage>, column: RegionColumn)
    requires
        entries.len() > 0,
        distinct_columns(entries),
    ensures
        distinct_columns(entries.drop_last()),
        first_free_in(entries, column) == if entries.last().column == column {
            entries.last().first_free as nat
        } else {
            first_free_in(entries.drop_last(), column)
        },
{
    let rest = entries.drop_last();
    assert forall|i: int, j: int| 0 <= i < j < rest.len() implies (#[trigger] rest[i]).column != (
    #[trigger] rest[j]).column by {
        assert(rest[i] == entries[i] && rest[j] == entries[j]);
    }
    if entries.last().column == column {
        assert(entries[entries.len() - 1].column == column);
    } else if has_entry(rest, column) {
        let i = choose|i: int| 0 <= i < rest.len() && (#[trigger] rest[i]).column == column;
        assert(entries[i] == rest[i]);
        let j = choose|j: int|
            0 <= j < entries.len() && (#[trigger] entries[j]).column == column;
        assert(i == j);
    } else if has_entry(entries, column) {
        let j = choose|j: int|
            0 <= j < entries.len() && (#[trigger] entries[j]).column == column;
        assert(rest[j] == entries[j]);
    }
}

/// `max_free` is the region start.
pub proof fn lemma_max_free(entries: Seq<ColumnUsage>, cols: Set<RegionColumn>)
    requires
        distinct_columns(entries),
    ensures
        is_region_start(entries, cols, max_free(entries, cols)),
    decreases entries.len(),
{
    if entries.len() > 0 {
        let rest = entries.drop_last();
        let last = entries.last();
        lemma_first_free_drop_last(entries, last.column);
        lemma_max_free(rest, cols);
        let m = max_free(entries, cols);
        assert forall|c: RegionColumn| cols.contains(c) implies #[trigger] first_free_in(
            entries,
            c,
        ) <= m by {
            lemma_first_free_drop_last(entries, c);
        }
        if m != 0 {
            if cols.contains(last.column) && last.first_free > max_free(rest, cols) {
                assert(first_free_in(entries, last.column) == m);
            } else {
                let c = choose|c: RegionColumn|
                    cols.contains(c) && #[trigger] first_free_in(rest, c) == m;
                lemma_first_free_drop_last(entries, c);
                if last.column == c {
                    assert(first_free_in(entries, c) <= m);
                    assert(last.first_free <= m);
                    assert(false);
                }
                assert(first_free_in(entries, c) == m);
            }
        }
    }
}

/// There is only one region start.
pub proof fn lemma_region_start_unique(
    entries: Seq<ColumnUsage>,
    cols: Set<RegionColumn>,
    a: nat,
    b: nat,
)
    requires
        is_region_start(entries, cols, a),
        is_region_start(entries, cols, b),
    ensures
        a == b,
{
}

/// Looks up the first free row of `column`.
fn lookup(entries: &Vec<ColumnUsage>, column: &RegionColumn) -> (r: usize)
    requires
        distinct_columns(entries@),
    ensures
        r == first_free_in(entries@, *column),
{
    let mut i: usize = 0;
    while i < entries.len()
        invariant
            0 <= i <= entries.len(),
            distinct_columns(entries@),
            forall|j: int| 0 <= j < i ==> (#[trigger] entries@[j]).column != *column,
        decreases entries.len() - i,
    {
        if entries[i].column.same(column) {
            proof {
                let j = choose|j: int|
                    0 <= j < entries@.len() && (#[trigger] entries@[j]).column == *column;
                assert(entries@[i as int].column == *column);
                assert(j == i);
            }
            return entries[i].first_free;
        }
        i = i + 1;
    }
    0
}

/// Sets the first free row of `column`.
fn record(entries: &mut Vec<ColumnUsage>, column: RegionColumn, first_free: usize)
    requires
        distinct_columns(old(entries)@),
    ensures
        distinct_columns(final(entries)@),
        forall|c: RegionColumn|
            #[trigger] first_free_in(final(entries)@, c) == if c == column {
                first_free as nat
            } else {
                first_free_in(old(entries)@, c)
            },
{
    let mut i: usize = 0;
    while i < entries.len()
        invariant
            0 <= i <= entries.len(),
            *entries == *old(entries),
            distinct_columns(entries@),
            forall|j: int| 0 <= j < i ==> (#[trigger] entries@[j]).column != column,
        decreases entries.len() - i,
    {
        if entries[i].column.same(&column) {
            entries.set(i, ColumnUsage { column, first_free });
            proof {
                let before = old(entries)@;
                let after = entries@;
                assert forall|a: int, b: int| 0 <= a < b < after.len() implies (
                #[trigger] after[a]).column != (#[trigger] after[b]).column by {
                    assert(after[a].column == before[a].column);
                    assert(after[b].column == before[b].column);
                }
                assert forall|c: RegionColumn| #[trigger]
                    first_free_in(after, c) == if c == column {
                        first_free as nat
                    } else {
                        first_free_in(before, c)
                    } by {
                    if c == column {
                        assert(after[i as int].column == c);
                        let j = choose|j: int|
                            0 <= j < after.len() && (#[trigger] after[j]).column == c;
                        assert(j == i);
                    } else if has_entry(before, c) {
                        let j = choose|j: int|
                            0 <= j < before.len() && (#[trigger] before[j]).column == c;
                        assert(after[j].column == c);
                        let k = choose|k: int|
                            0 <= k < after.len() && (#[trigger] after[k]).column == c;
                        assert(before[k].column == c);
                        assert(j == k);
                    } else if has_entry(after, c) {
                        let k = choose|k: int|
                            0 <= k < after.len() && (#[trigger] after[k]).column == c;
                        assert(before[k].column == c);
                    }
                }
            }
            return ;
        }
        i = i + 1;
    }
    entries.push(ColumnUsage { column, first_free });
    proof {
        let before = old(entries)@;
        let after = entries@;
        assert(after.drop_last() =~= before);
        assert forall|a: int, b: int| 0 <= a < b < after.len() implies (#[trigger] after[a]).column
            != (#[trigger] after[b]).column by {
            if b < before.len() {
                assert(after[a] == before[a] && after[b] == before[b]);
            } else {
                assert(after[a] == before[a]);
            }
        }
        assert forall|c: RegionColumn| #[trigger]
            first_free_in(after, c) == if c == column {
                first_free as nat
            } else {
                first_free_in(before, c)
            } by {
            lemma_first_free_drop_last(after, c);
        }
    }
}

/// The row of the circuit at which row `offset` of the region
/// `region_index` lies.
pub open spec fn absolute_row(regions: Seq<nat>, region_index: RegionIndex, offset: usize) -> usize {
    (regions[region_index.0 as int] + offset) as usize
}

/// Row `offset` of the region `region_index` is a row of the circuit: the
/// region has been placed, and the row fits a machine word.
pub open spec fn row_known(regions: Seq<nat>, region_index: RegionIndex, offset: usize) -> bool {
    &&& region_index.0 < regions.len()
    &&& regions[region_index.0 as int] + offset <= usize::MAX
}

/// The cell lies in a region that has been placed, at a row that fits a
/// machine word.
pub open spec fn cell_known(regions: Seq<nat>, cell: Cell) -> bool {
    row_known(regions, cell.region_index, cell.row_offset)
}

/// Every row and cell that the step names is known.
pub open spec fn op_known<F>(op: RegionOp<F>, regions: Seq<nat>, region_index: RegionIndex) -> bool {
    match op {
        RegionOp::EnableSelector { offset, .. } => row_known(regions, region_index, offset),
        RegionOp::NameColumn { .. } => true,
        RegionOp::AssignAdvice { offset, .. } => row_known(regions, region_index, offset),
        RegionOp::AssignAdviceFromConstant { offset, .. } => row_known(
            regions,
            region_index,
            offset,
        ),
        RegionOp::AssignAdviceFromInstance { offset, .. } => row_known(
            regions,
            region_index,
            offset,
        ),
        RegionOp::AssignFixed { offset, .. } => row_known(regions, region_index, offset),
        RegionOp::ConstrainConstant { cell, .. } => cell_known(regions, cell),
        RegionOp::ConstrainEqual { left, right } => cell_known(regions, left) && cell_known(
            regions,
            right,
        ),
    }
}

/// How many requests a step makes of the constraint system when none is
/// refused.
pub open spec fn op_call_count<F>(op: RegionOp<F>) -> nat {
    match op {
        RegionOp::ConstrainConstant { .. } => 0,
        RegionOp::AssignAdviceFromInstance { .. } => 3,
        _ => 1,
    }
}

/// The `k`-th request that a step makes of the constraint system, `prev`
/// being the answer to the one before. Relative rows have become rows of
/// the circuit.
pub open spec fn op_call<F>(
    op: RegionOp<F>,
    regions: Seq<nat>,
    region_index: RegionIndex,
    k: int,
    prev: Reply<F>,
) -> Call<F> {
    match op {
        RegionOp::EnableSelector { selector, offset } => Call::EnableSelector {
            selector,
            row: absolute_row(regions, region_index, offset),
        },
        RegionOp::NameColumn { column } => Call::AnnotateColumn { column },
        RegionOp::AssignAdvice { column, offset, to } => Call::AssignAdvice {
            column,
            row: absolute_row(regions, region_index, offset),
            value: to,
        },
        RegionOp::AssignAdviceFromConstant { column, offset, constant } => Call::AssignAdvice {
            column,
            row: absolute_row(regions, region_index, offset),
            value: Some(constant),
        },
        RegionOp::AssignAdviceFromInstance { instance, row, advice, offset } => if k == 0 {
            Call::QueryInstance { column: instance, row }
        } else if k == 1 {
            Call::AssignAdvice {
                column: advice,
                row: absolute_row(regions, region_index, offset),
                value: match prev {
                    Reply::Value(v) => v,
                    _ => None,
                },
            }
        } else {
            Call::Copy {
                left_column: advice.any(),
                left_row: absolute_row(regions, region_index, offset),
                right_column: instance.any(),
                right_row: row,
            }
        },
        RegionOp::AssignFixed { column, offset, to } => Call::AssignFixed {
            column,
            row: absolute_row(regions, region_index, offset),
            value: to,
        },
        RegionOp::ConstrainConstant { .. } => Call::ExitRegion,
        RegionOp::ConstrainEqual { left, right } => Call::Copy {
            left_column: left.column,
            left_row: absolute_row(regions, left.region_index, left.row_offset),
            right_column: right.column,
            right_row: absolute_row(regions, right.region_index, right.row_offset),
        },
    }
}

/// The cell that a step assigns, if it assigns one.
pub open spec fn op_cell<F>(op: RegionOp<F>, region_index: RegionIndex) -> Option<Cell> {
    match op {
        RegionOp::AssignAdvice { column, offset, .. } => Some(
            Cell { region_index, row_offset: offset, column: column.any() },
        ),
        RegionOp::AssignAdviceFromConstant { column, offset, .. } => Some(
            Cell { region_index, row_offset: offset, column: column.any() },
        ),
        RegionOp::AssignAdviceFromInstance { advice, offset, .. } => Some(
            Cell { region_index, row_offset: offset, column: advice.any() },
        ),
        RegionOp::AssignFixed { column, offset, .. } => Some(
            Cell { region_index, row_offset: offset, column: column.any() },
        ),
        _ => None,
    }
}

/// The constant that a step asks for, with the cell that is to equal it.
pub open spec fn op_constant<F>(op: RegionOp<F>, region_index: RegionIndex) -> Option<(F, Cell)> {
    match op {
        RegionOp::AssignAdviceFromConstant { column, offset, constant } => Some(
            (constant, Cell { region_index, row_offset: offset, column: column.any() }),
        ),
        RegionOp::ConstrainConstant { cell, constant } => Some((constant, cell)),
        _ => None,
    }
}

/// How many requests the steps `ops` make of the constraint system when
/// none is refused.
pub open spec fn body_call_count<F>(ops: Seq<RegionOp<F>>) -> nat
    decreases ops.len(),
{
    if ops.len() == 0 {
        0
    } else {
        body_call_count(ops.drop_last()) + op_call_count(ops.last())
    }
}

/// The `k`-th request that the steps `ops` make of the constraint system,
/// `prev` being the answer to the one before.
pub open spec fn body_call<F>(
    ops: Seq<RegionOp<F>>,
    regions: Seq<nat>,
    region_index: RegionIndex,
    k: int,
    prev: Reply<F>,
) -> Call<F>
    decreases ops.len(),
{
    if ops.len() == 0 {
        Call::ExitRegion
    } else if k < body_call_count(ops.drop_last()) {
        body_call(ops.drop_last(), regions, region_index, k, prev)
    } else {
        op_call(ops.last(), regions, region_index, k - body_call_count(ops.drop_last()), prev)
    }
}

/// The cells that the steps `ops` assign, in their order.
pub open spec fn produced_cells<F>(ops: Seq<RegionOp<F>>, region_index: RegionIndex) -> Seq<Cell>
    decreases ops.len(),
{
    if ops.len() == 0 {
        Seq::empty()
    } else {
        match op_cell(ops.last(), region_index) {
            Some(cell) => produced_cells(ops.drop_last(), region_index).push(cell),
            None => produced_cells(ops.drop_last(), region_index),
        }
    }
}

/// The constants that the steps `ops` ask for, first come first, each with
/// the cell that is to equal it.
pub open spec fn queued_constants<F>(ops: Seq<RegionOp<F>>, region_index: RegionIndex) -> Seq<
    (F, Cell),
>
    decreases ops.len(),
{
    if ops.len() == 0 {
        Seq::empty()
    } else {
        match op_constant(ops.last(), region_index) {
            Some(q) => queued_constants(ops.drop_last(), region_index).push(q),
            None => queued_constants(ops.drop_last(), region_index),
        }
    }
}

/// The requests of the first steps come first.
pub proof fn lemma_body_call_count_grows<F>(ops: Seq<RegionOp<F>>, i: int)
    requires
        0 <= i <= ops.len(),
    ensures
        body_call_count(ops.take(i)) <= body_call_count(ops),
    decreases ops.len(),
{
    if i == ops.len() {
        assert(ops.take(i) =~= ops);
    } else {
        assert(ops.drop_last().take(i) =~= ops.take(i));
        lemma_body_call_count_grows(ops.drop_last(), i);
    }
}

/// The requests of the `i`-th step stand in the plan of the whole region
/// behind those of the steps before it.
pub proof fn lemma_body_call_at<F>(
    ops: Seq<RegionOp<F>>,
    regions: Seq<nat>,
    region_index: RegionIndex,
    i: int,
)
    requires
        0 <= i < ops.len(),
    ensures
        body_call_count(ops.take(i + 1)) == body_call_count(ops.take(i)) + op_call_count(ops[i]),
        forall|j: int, prev: Reply<F>|
            0 <= j < op_call_count(ops[i]) ==> #[trigger] body_call(
                ops,
                regions,
                region_index,
                body_call_count(ops.take(i)) + j,
                prev,
            ) == op_call(ops[i], regions, region_index, j, prev),
    decreases ops.len(),
{
    assert(ops.take(i + 1).drop_last() =~= ops.take(i));
    assert(ops.take(i + 1).last() == ops[i]);
    if i == ops.len() - 1 {
        assert(ops.drop_last() =~= ops.take(i));
    } else {
        let rest = ops.drop_last();
        assert(rest.take(i) =~= ops.take(i));
        assert(rest.take(i + 1) =~= ops.take(i + 1));
        lemma_body_call_at(rest, regions, region_index, i);
        lemma_body_call_count_grows(rest, i + 1);
        assert forall|j: int, prev: Reply<F>| 0 <= j < op_call_count(ops[i]) implies #[trigger] body_call(
            ops,
            regions,
            region_index,
            body_call_count(ops.take(i)) + j,
            prev,
        ) == op_call(ops[i], regions, region_index, j, prev) by {
            let k = body_call_count(ops.take(i)) + j;
            assert(k < body_call_count(rest));
            assert(body_call(ops, regions, region_index, k, prev) == body_call(
                rest,
                regions,
                region_index,
                k,
                prev,
            ));
            assert(body_call(rest, regions, region_index, body_call_count(rest.take(i)) + j, prev)
                == op_call(rest[i], regions, region_index, j, prev));
        }
    }
}

/// What one step of a region did: `t` is what it asked of the constraint
/// system, `r` is what it returned, and the queue of constants went from
/// `queue_before` to `queue_after`.
pub open spec fn step_outcome<F>(
    op: RegionOp<F>,
    regions: Seq<nat>,
    region_index: RegionIndex,
    t: Seq<Exchange<F>>,
    r: Result<Option<Cell>, Error>,
    queue_before: Seq<(F, Cell)>,
    queue_after: Seq<(F, Cell)>,
) -> bool {
    &&& follows(t, |k: int, prev: Reply<F>| op_call(op, regions, region_index, k, prev))
    &&& t.len() <= op_call_count(op)
    &&& refused(t) ==> r == Err::<Option<Cell>, Error>(refusal(t))
    &&& !refused(t) ==> {
        &&& t.len() == op_call_count(op)
        &&& r == Ok::<Option<Cell>, Error>(op_cell(op, region_index))
        &&& queue_after == match op_constant(op, region_index) {
            Some(q) => queue_before.push(q),
            None => queue_before,
        }
    }
}

/// What the steps `ops` of a region did: `t` is what they asked of the
/// constraint system, `r` is what came of them, and the queue of constants
/// went from `queue_before` to `queue_after`. The steps stop at the first
/// request that is refused.
pub open spec fn body_outcome<F>(
    ops: Seq<RegionOp<F>>,
    regions: Seq<nat>,
    region_index: RegionIndex,
    t: Seq<Exchange<F>>,
    r: Result<Vec<Cell>, Error>,
    queue_before: Seq<(F, Cell)>,
    queue_after: Seq<(F, Cell)>,
) -> bool {
    &&& follows(t, |k: int, prev: Reply<F>| body_call(ops, regions, region_index, k, prev))
    &&& t.len() <= body_call_count(ops)
    &&& refused(t) ==> r == Err::<Vec<Cell>, Error>(refusal(t))
    &&& !refused(t) ==> {
        &&& t.len() == body_call_count(ops)
        &&& r is Ok
        &&& r->Ok_0@ == produced_cells(ops, region_index)
        &&& queue_after == queue_before + queued_constants(ops, region_index)
    }
}

/// The first request of a region's steps does not depend on an answer.
pub proof fn lemma_body_call_first<F>(
    ops: Seq<RegionOp<F>>,
    regions: Seq<nat>,
    region_index: RegionIndex,
    prev: Reply<F>,
)
    ensures
        body_call(ops, regions, region_index, 0, prev) == body_call(
            ops,
            regions,
            region_index,
            0,
            Reply::Done,
        ),
    decreases ops.len(),
{
    if ops.len() > 0 {
        lemma_body_call_first(ops.drop_last(), regions, region_index, prev);
    }
}

/// A layouter for a circuit on one chip. It owns the constraint system for
/// as long as the circuit is synthesized.
pub struct SingleChipLayouter<F, CS: Assignment<F>> {
    cs: CS,
    constants: Vec<Column<Fixed>>,
    /// The starting row of each region.
    regions: Vec<RegionStart>,
    /// The first empty row of each column.
    columns: Vec<ColumnUsage>,
    /// The columns that tables have taken.
    table_columns: Vec<TableColumn>,
    /// What each region claims.
    footprints: Ghost<Seq<Footprint>>,
    _marker: PhantomData<F>,
}

/// The layout that a layouter has built so far.
pub struct Layout {
    /// The starting row of each region, in the order of declaration.
    pub starts: Seq<nat>,
    /// What each region claims, in the order of declaration.
    pub footprints: Seq<Footprint>,
    /// The first empty row of each column that has one on record.
    pub usage: Seq<ColumnUsage>,
    /// The columns configured for constants.
    pub constants: Seq<Column<Fixed>>,
    /// The columns that tables have taken, in the order they were taken.
    pub table_columns: Seq<TableColumn>,
}

impl Layout {
    /// The first row of `column` that nothing has claimed.
    pub open spec fn first_free(self, column: RegionColumn) -> nat {
        first_free_in(self.usage, column)
    }

    /// The row at which a region on the columns `cols` would start now.
    pub open spec fn region_start(self, cols: Set<RegionColumn>) -> nat {
        max_free(self.usage, cols)
    }

    /// The layout is consistent: every region has its footprint, no claim
    /// reaches beyond the first free row of its column, and of two regions
    /// on one column the one declared later starts below the other's last
    /// row.
    #[verifier::opaque]
    pub open spec fn wf(self) -> bool {
        &&& distinct_columns(self.usage)
        &&& self.starts.len() == self.footprints.len()
        &&& forall|i: int, c: RegionColumn|
            0 <= i < self.footprints.len() && #[trigger] self.footprints[i].columns.contains(c)
                ==> self.starts[i] + self.footprints[i].rows <= self.first_free(c)
        &&& forall|i: int, j: int, c: RegionColumn|
            0 <= i < j < self.footprints.len() && #[trigger] self.footprints[i].columns.contains(c)
                && #[trigger] self.footprints[j].columns.contains(c) ==> self.starts[i]
                + self.footprints[i].rows <= self.starts[j]
    }
}

/// The `k`-th request made to write the queued constants: for each
/// constant, first come first, its assignment to the next row of `column`
/// from `first_row` on, and then the copy constraint that ties that row to
/// the constant's cell.
pub open spec fn flush_call<F>(
    column: Column<Fixed>,
    first_row: nat,
    regions: Seq<nat>,
    queue: Seq<(F, Cell)>,
    k: int,
) -> Call<F> {
    let constant = queue[k / 2].0;
    let cell = queue[k / 2].1;
    let row = (first_row + k / 2) as usize;
    if k % 2 == 0 {
        Call::AssignFixed { column, row, value: Some(constant) }
    } else {
        Call::Copy {
            left_column: column.any(),
            left_row: row,
            right_column: cell.column,
            right_row: absolute_row(regions, cell.region_index, cell.row_offset),
        }
    }
}

/// How many rows of the constants column the requests in `t` have filled:
/// a row counts once its assignment and its copy constraint were both
/// accepted.
pub open spec fn constants_written<F>(t: Seq<Exchange<F>>) -> nat {
    if refused(t) {
        ((t.len() - 1) / 2) as nat
    } else {
        t.len() / 2
    }
}

/// What writing the queued constants did: `t` is what was asked of the
/// constraint system, and `r` is what came of it. Writing stops at the
/// first request that is refused.
pub open spec fn flush_outcome<F>(
    column: Column<Fixed>,
    first_row: nat,
    regions: Seq<nat>,
    queue: Seq<(F, Cell)>,
    t: Seq<Exchange<F>>,
    r: Result<(), Error>,
) -> bool {
    &&& follows(t, |k: int, prev: Reply<F>| flush_call(column, first_row, regions, queue, k))
    &&& t.len() <= 2 * queue.len()
    &&& refused(t) ==> r == Err::<(), Error>(refusal(t))
    &&& !refused(t) ==> t.len() == 2 * queue.len() && r is Ok
}

/// The column in which constants are written, if the circuit has one: the
/// first that was configured.
pub open spec fn constants_column(layout: Layout) -> Option<RegionColumn> {
    if layout.constants.len() > 0 {
        Some(RegionColumn::Column(layout.constants[0].any()))
    } else {
        None
    }
}

/// The first free row of `c` once a region made of the steps `ops` is
/// placed on `layout`, and before its constants are written.
pub open spec fn first_free_placed<F>(
    layout: Layout,
    ops: Seq<RegionOp<F>>,
    c: RegionColumn,
) -> nat {
    if shape_columns(ops).contains(c) {
        layout.region_start(shape_columns(ops)) + shape_rows(ops)
    } else {
        layout.first_free(c)
    }
}

/// `after` is `before` with one region more, made of the steps `ops`: the
/// region starts at the first row at which all its columns were free, its
/// columns are taken down to its last row, and the constants column is
/// taken for `written` rows more.
pub open spec fn region_placed<F>(
    before: Layout,
    after: Layout,
    ops: Seq<RegionOp<F>>,
    written: nat,
) -> bool {
    &&& after.starts == before.starts.push(before.region_start(shape_columns(ops)))
    &&& after.footprints == before.footprints.push(
        Footprint { columns: shape_columns(ops), rows: shape_rows(ops) },
    )
    &&& after.constants == before.constants
    &&& after.table_columns == before.table_columns
    &&& forall|c: RegionColumn| #[trigger]
        after.first_free(c) == first_free_placed(before, ops, c) + if constants_column(before)
            == Some(c) {
            written
        } else {
            0
        }
}

/// Every cell that the step refers to, without assigning it, is known.
pub open spec fn cells_known<F>(op: RegionOp<F>, regions: Seq<nat>) -> bool {
    match op {
        RegionOp::ConstrainConstant { cell, .. } => cell_known(regions, cell),
        RegionOp::ConstrainEqual { left, right } => cell_known(regions, left) && cell_known(
            regions,
            right,
        ),
        _ => true,
    }
}

/// A region made of the steps `ops` can be placed on `layout` within the
/// rows that a machine word can number: the region itself fits, the cells
/// it refers to lie in regions placed by then, and the constants it asks
/// for fit their column.
pub open spec fn can_place<F>(layout: Layout, ops: Seq<RegionOp<F>>) -> bool {
    let region_index = RegionIndex(layout.starts.len() as usize);
    let start = layout.region_start(shape_columns(ops));
    let regions = layout.starts.push(start);
    &&& start + shape_rows(ops) <= usize::MAX
    &&& forall|i: int| 0 <= i < ops.len() ==> cells_known(#[trigger] ops[i], regions)
    &&& match constants_column(layout) {
        Some(c) => first_free_placed(layout, ops, c) + queued_constants(ops, region_index).len()
            <= usize::MAX,
        None => true,
    }
}

/// The `k`-th request made to lay out a region: the region is entered, its
/// steps are taken, the region is left, and the constants that the steps
/// queued are written from `first_constant_row` on.
pub open spec fn region_call<F>(
    ops: Seq<RegionOp<F>>,
    layout: Layout,
    regions: Seq<nat>,
    region_index: RegionIndex,
    k: int,
    prev: Reply<F>,
) -> Call<F> {
    let b = body_call_count(ops);
    if k == 0 {
        Call::EnterRegion
    } else if k <= b {
        body_call(ops, regions, region_index, k - 1, prev)
    } else if k == b + 1 {
        Call::ExitRegion
    } else {
        flush_call(
            layout.constants[0],
            first_free_placed(layout, ops, RegionColumn::Column(layout.constants[0].any())),
            regions,
            queued_constants(ops, region_index),
            k - b - 2,
        )
    }
}

/// How many requests laying out a region makes when none is refused.
pub open spec fn region_call_count<F>(
    ops: Seq<RegionOp<F>>,
    layout: Layout,
    region_index: RegionIndex,
) -> nat {
    body_call_count(ops) + 2 + if layout.constants.len() > 0 {
        2 * queued_constants(ops, region_index).len()
    } else {
        0
    }
}

/// What laying out a region on `before` did: `t` is what was asked of the
/// constraint system, and `r` is what came of it.
pub open spec fn region_outcome<F>(
    ops: Seq<RegionOp<F>>,
    before: Layout,
    after: Layout,
    t: Seq<Exchange<F>>,
    r: Result<Vec<Cell>, Error>,
) -> bool {
    let region_index = RegionIndex(before.starts.len() as usize);
    let queue = queued_constants(ops, region_index);
    let b = body_call_count(ops);
    &&& follows(
        t,
        |k: int, prev: Reply<F>| region_call(ops, before, after.starts, region_index, k, prev),
    )
    &&& 1 <= t.len() <= region_call_count(ops, before, region_index)
    &&& region_placed(
        before,
        after,
        ops,
        if t.len() > b + 2 {
            constants_written(t.skip(b + 2 as int))
        } else {
            0
        },
    )
    &&& refused(t) ==> r == Err::<Vec<Cell>, Error>(refusal(t))
    &&& !refused(t) ==> {
        &&& t.len() == region_call_count(ops, before, region_index)
        &&& if before.constants.len() == 0 && queue.len() > 0 {
            r == Err::<Vec<Cell>, Error>(Error::NotEnoughColumnsForConstants)
        } else {
            r is Ok && r->Ok_0@ == produced_cells(ops, region_index)
        }
    }
}

/// The first free row of a column fits a machine word.
pub proof fn lemma_first_free_fits(layout: Layout, c: RegionColumn)
    ensures
        layout.first_free(c) <= usize::MAX,
{
}

/// A layout stays consistent when columns are taken further down.
pub proof fn lemma_wf_monotone(a: Layout, b: Layout)
    requires
        a.wf(),
        distinct_columns(b.usage),
        b.starts == a.starts,
        b.footprints == a.footprints,
        forall|c: RegionColumn| #[trigger] b.first_free(c) >= a.first_free(c),
    ensures
        b.wf(),
{
    reveal(Layout::wf);
    assert forall|i: int, c: RegionColumn|
        0 <= i < b.footprints.len() && #[trigger] b.footprints[i].columns.contains(
            c,
        ) implies b.starts[i] + b.footprints[i].rows <= b.first_free(c) by {
        assert(a.footprints[i].columns.contains(c));
        assert(b.first_free(c) >= a.first_free(c));
    }
}

/// In a consistent layout no column has two entries.
pub proof fn lemma_wf_distinct(a: Layout)
    requires
        a.wf(),
    ensures
        distinct_columns(a.usage),
{
    reveal(Layout::wf);
}

/// The cells of the queued constants are known where those of the steps
/// are.
pub proof fn lemma_queue_known<F>(
    ops: Seq<RegionOp<F>>,
    regions: Seq<nat>,
    region_index: RegionIndex,
)
    requires
        forall|i: int| 0 <= i < ops.len() ==> op_known(#[trigger] ops[i], regions, region_index),
    ensures
        forall|q: int|
            0 <= q < queued_constants(ops, region_index).len() ==> cell_known(
                regions,
                (#[trigger] queued_constants(ops, region_index)[q]).1,
            ),
    decreases ops.len(),
{
    if ops.len() > 0 {
        let rest = ops.drop_last();
        assert forall|i: int| 0 <= i < rest.len() implies op_known(
            #[trigger] rest[i],
            regions,
            region_index,
        ) by {
            assert(rest[i] == ops[i]);
        }
        lemma_queue_known(rest, regions, region_index);
        let queue = queued_constants(ops, region_index);
        let before = queued_constants(rest, region_index);
        assert(op_known(ops[ops.len() - 1], regions, region_index));
        assert forall|q: int| 0 <= q < queue.len() implies cell_known(
            regions,
            (#[trigger] queue[q]).1,
        ) by {
            if q < before.len() {
                assert(queue[q] == before[q]);
            }
        }
    }
}

/// What laying out a table did: `t` is what was asked of the constraint
/// system, and `r` is what came of it. The columns of the table are taken
/// for good once the table is found complete, whatever comes of filling
/// them.
pub open spec fn table_outcome<F>(
    cells: Seq<TableCell<F>>,
    before: Layout,
    after: Layout,
    t: Seq<Exchange<F>>,
    r: Result<(), Error>,
) -> bool {
    let n = cells.len();
    let used = before.table_columns;
    let f = fault_index(used, cells);
    let state = table_state(cells);
    &&& follows(t, |k: int, prev: Reply<F>| table_call(cells, k))
    &&& 1 <= t.len() <= table_call_count(used, cells)
    &&& after.starts == before.starts
    &&& after.footprints == before.footprints
    &&& after.usage == before.usage
    &&& after.constants == before.constants
    &&& after.table_columns == if f == n && t.len() >= n + 2 && table_lengths(state) is Ok {
        before.table_columns + state_columns(state)
    } else {
        before.table_columns
    }
    &&& refused(t) ==> r == Err::<(), Error>(refusal(t))
    &&& !refused(t) ==> {
        &&& t.len() == table_call_count(used, cells)
        &&& r == if f < n {
            Err::<(), Error>(cell_fault(used, cells, f)->Some_0)
        } else {
            match table_lengths(state) {
                Err(e) => Err(e),
                Ok(_) => Ok(()),
            }
        }
    }
}

/// The `q`-th constant that a region asks for is written to the `q`-th
/// row from the first free row of the constants column, and that row is
/// tied to the constant's cell: constants keep the order in which they
/// were asked for, whatever else the region does.
pub proof fn lemma_constants_in_order<F>(
    column: Column<Fixed>,
    first_row: nat,
    regions: Seq<nat>,
    queue: Seq<(F, Cell)>,
    q: int,
)
    requires
        0 <= q < queue.len(),
    ensures
        flush_call(column, first_row, regions, queue, 2 * q) == (Call::AssignFixed {
            column,
            row: (first_row + q) as usize,
            value: Some(queue[q].0),
        }),
        flush_call(column, first_row, regions, queue, 2 * q + 1) == (Call::<F>::Copy {
            left_column: column.any(),
            left_row: (first_row + q) as usize,
            right_column: queue[q].1.column,
            right_row: absolute_row(regions, queue[q].1.region_index, queue[q].1.row_offset),
        }),
{
    assert((2 * q) / 2 == q && (2 * q) % 2 == 0);
    assert((2 * q + 1) / 2 == q && (2 * q + 1) % 2 == 1);
}

/// Of two regions on one column, the one declared later starts below the
/// last row of the other: regions keep the order in which they were
/// declared.
pub proof fn lemma_declaration_order(layout: Layout, i: int, j: int, c: RegionColumn)
    requires
        layout.wf(),
        0 <= i < j < layout.starts.len(),
        layout.footprints[i].columns.contains(c),
        layout.footprints[j].columns.contains(c),
    ensures
        layout.starts[i] + layout.footprints[i].rows <= layout.starts[j],
{
    reveal(Layout::wf);
}

/// Whether the `i`-th region claims row `row` of column `c`.
pub open spec fn claims(layout: Layout, i: int, c: RegionColumn, row: int) -> bool {
    &&& 0 <= i < layout.starts.len()
    &&& i < layout.footprints.len()
    &&& layout.footprints[i].columns.contains(c)
    &&& layout.starts[i] <= row < layout.starts[i] + layout.footprints[i].rows
}

/// No two regions claim the same row of the same column.
pub proof fn lemma_no_overlap(layout: Layout, i: int, j: int, c: RegionColumn, row: int)
    requires
        layout.wf(),
        claims(layout, i, c, row),
        claims(layout, j, c, row),
    ensures
        i == j,
{
    reveal(Layout::wf);
    if i < j {
        lemma_declaration_order(layout, i, j, c);
    } else if j < i {
        lemma_declaration_order(layout, j, i, c);
    }
}

/// Every row that a region claims lies above the first free row of its
/// column.
pub proof fn lemma_claims_recorded(layout: Layout, i: int, c: RegionColumn, row: int)
    requires
        layout.wf(),
        claims(layout, i, c, row),
    ensures
        row < layout.first_free(c),
{
    reveal(Layout::wf);
}

/// A region starts where the columns it touches were free, and leaves them
/// taken down to its last row.
pub proof fn lemma_placed_on_free_rows<F>(
    before: Layout,
    after: Layout,
    ops: Seq<RegionOp<F>>,
    written: nat,
    c: RegionColumn,
)
    requires
        before.wf(),
        region_placed(before, after, ops, written),
        shape_columns(ops).contains(c),
    ensures
        before.first_free(c) <= after.starts.last(),
        after.starts.last() + shape_rows(ops) <= after.first_free(c),
{
    lemma_wf_distinct(before);
    lemma_max_free(before.usage, shape_columns(ops));
    assert(after.first_free(c) >= first_free_placed(before, ops, c));
}

impl<F: Copy, CS: Assignment<F>> SingleChipLayouter<F, CS> {
    /// The constraint system as it is now.
    pub closed spec fn constraint_system(&self) -> CS {
        self.cs
    }

    /// The layout built so far.
    pub closed spec fn layout(&self) -> Layout {
        Layout {
            starts: Seq::new(self.regions@.len(), |i: int| self.regions@[i].0 as nat),
            footprints: self.footprints@,
            usage: self.columns@,
            constants: self.constants@,
            table_columns: self.table_columns@,
        }
    }

    /// The starting row of each region, in the order of declaration.
    pub open spec fn region_starts(&self) -> Seq<nat> {
        self.layout().starts
    }

    /// The first row of `column` that nothing has claimed.
    pub open spec fn first_free(&self, column: RegionColumn) -> nat {
        self.layout().first_free(column)
    }

    /// The row at which a region on the columns `cols` would start now.
    pub open spec fn region_start(&self, cols: Set<RegionColumn>) -> nat {
        self.layout().region_start(cols)
    }

    /// What each region claims, in the order of declaration.
    pub open spec fn footprints(&self) -> Seq<Footprint> {
        self.layout().footprints
    }

    /// The layout is consistent.
    pub open spec fn wf(&self) -> bool {
        self.layout().wf()
    }

    /// Two layouters hold the same layout: they may differ in what their
    /// constraint systems have been asked.
    pub open spec fn same_layout(&self, other: Self) -> bool {
        self.layout() == other.layout()
    }

    /// Creates a layouter that has placed nothing yet.
    pub fn new(cs: CS, constants: Vec<Column<Fixed>>) -> (r: Result<Self, Error>)
        ensures
            r is Ok,
            r->Ok_0.wf(),
            r->Ok_0.constraint_system() == cs,
            r->Ok_0.layout() == (Layout {
                starts: Seq::empty(),
                footprints: Seq::empty(),
                usage: Seq::empty(),
                constants: constants@,
                table_columns: Seq::empty(),
            }),
    {
        let ret = SingleChipLayouter {
            cs,
            constants,
            regions: Vec::new(),
            columns: Vec::new(),
            table_columns: Vec::new(),
            footprints: Ghost(Seq::empty()),
            _marker: PhantomData,
        };
        proof {
            reveal(Layout::wf);
            assert(ret.layout().starts =~= Seq::<nat>::empty());
        }
        Ok(ret)
    }

    /// The constraint system.
    pub fn cs(&self) -> (r: &CS)
        ensures
            *r == self.constraint_system(),
    {
        &self.cs
    }

    /// Gives the constraint system back.
    pub fn into_cs(self) -> (r: CS)
        ensures
            r == self.constraint_system(),
    {
        self.cs
    }

    /// The starting row of each region, in the order of declaration.
    pub fn regions(&self) -> (r: &Vec<RegionStart>)
        ensures
            r@.len() == self.region_starts().len(),
            forall|i: int| 0 <= i < r@.len() ==> (#[trigger] r@[i]).0 == self.region_starts()[i],
    {
        &self.regions
    }

    /// The first row of `column` that nothing has claimed.
    pub fn first_free_row(&self, column: &RegionColumn) -> (r: usize)
        requires
            self.wf(),
        ensures
            r == self.first_free(*column),
    {
        proof {
            lemma_wf_distinct(self.layout());
        }
        lookup(&self.columns, column)
    }

    /// The row at which a region on `cols` would start is the first at
    /// which all of `cols` are free.
    pub proof fn lemma_region_start(&self, cols: Set<RegionColumn>)
        requires
            self.wf(),
        ensures
            is_region_start(self.layout().usage, cols, self.region_start(cols)),
    {
        lemma_wf_distinct(self.layout());
        lemma_max_free(self.layout().usage, cols);
    }

    /// Places a region of the given shape at the first row at which all of
    /// its columns are free, and takes those columns down to its last row.
    fn place(&mut self, shape: &RegionShape) -> (start: usize)
        requires
            old(self).wf(),
            shape.wf(),
            old(self).layout().region_start(shape.columns_view()) + shape.rows_view() <= usize::MAX,
        ensures
            start == old(self).layout().region_start(shape.columns_view()),
            final(self).constraint_system() == old(self).constraint_system(),
            final(self).wf(),
            final(self).layout().starts == old(self).layout().starts.push(start as nat),
            final(self).layout().footprints == old(self).layout().footprints.push(
                Footprint { columns: shape.columns_view(), rows: shape.rows_view() },
            ),
            final(self).layout().constants == old(self).layout().constants,
            final(self).layout().table_columns == old(self).layout().table_columns,
            forall|c: RegionColumn| #[trigger]
                final(self).layout().first_free(c) == if shape.columns_view().contains(c) {
                    (start + shape.rows_view()) as nat
                } else {
                    old(self).layout().first_free(c)
                },
    {
        let cols = shape.columns();
        let ghost set = shape.columns_view();
        let ghost usage = self.columns@;
        proof {
            lemma_wf_distinct(self.layout());
        }
        // Lay out this region. We implement the simplest approach here: position the
        // region starting at the earliest row for which none of the columns are in use.
        let mut region_start: usize = 0;
        let mut k: usize = 0;
        while k < cols.len()
            invariant
                0 <= k <= cols.len(),
                *self == *old(self),
                usage == self.columns@,
                distinct_columns(usage),
                forall|j: int| 0 <= j < k ==> first_free_in(usage, #[trigger] cols@[j]) <= region_start,
                region_start == 0 || exists|j: int|
                    0 <= j < k && first_free_in(usage, #[trigger] cols@[j]) == region_start,
            decreases cols.len() - k,
        {
            let free = lookup(&self.columns, &cols[k]);
            if free > region_start {
                region_start = free;
            }
            k = k + 1;
        }
        proof {
            assert forall|c: RegionColumn| set.contains(c) implies #[trigger] first_free_in(
                usage,
                c,
            ) <= region_start by {
                let j = choose|j: int| 0 <= j < cols@.len() && cols@[j] == c;
                assert(first_free_in(usage, cols@[j]) <= region_start);
            }
            if region_start != 0 {
                let j = choose|j: int|
                    0 <= j < cols@.len() && first_free_in(usage, #[trigger] cols@[j])
                        == region_start;
                assert(set.contains(cols@[j]));
            }
            assert(is_region_start(usage, set, region_start as nat));
            lemma_max_free(usage, set);
            lemma_region_start_unique(usage, set, region_start as nat, max_free(usage, set));
        }
        self.regions.push(RegionStart(region_start));

        // Update column usage information.
        let end = region_start + shape.row_count();
        let mut k: usize = 0;
        while k < cols.len()
            invariant
                0 <= k <= cols.len(),
                self.cs == old(self).cs,
                self.constants == old(self).constants,
                self.table_columns == old(self).table_columns,
                self.footprints == old(self).footprints,
                self.regions@ == old(self).regions@.push(RegionStart(region_start)),
                usage == old(self).columns@,
                distinct_columns(self.columns@),
                forall|c: RegionColumn| #[trigger]
                    first_free_in(self.columns@, c) == if cols@.take(k as int).contains(c) {
                        end as nat
                    } else {
                        first_free_in(usage, c)
                    },
            decreases cols.len() - k,
        {
            let ghost entries = self.columns@;
            record(&mut self.columns, cols[k], end);
            proof {
                assert forall|c: RegionColumn| #[trigger]
                    first_free_in(self.columns@, c) == if cols@.take(k as int + 1).contains(c) {
                        end as nat
                    } else {
                        first_free_in(usage, c)
                    } by {
                    let done = cols@.take(k as int);
                    let more = cols@.take(k as int + 1);
                    assert(more =~= done.push(cols@[k as int]));
                    if done.contains(c) {
                        let j = choose|j: int| 0 <= j < done.len() && #[trigger] done[j] == c;
                        assert(more[j] == c);
                    }
                    if c == cols@[k as int] {
                        assert(more[k as int] == c);
                    }
                    if more.contains(c) {
                        let j = choose|j: int| 0 <= j < more.len() && #[trigger] more[j] == c;
                        if j < k {
                            assert(done[j] == c);
                        }
                    }
                    assert(first_free_in(self.columns@, c) == if c == cols@[k as int] {
                        end as nat
                    } else {
                        first_free_in(entries, c)
                    });
                }
            }
            k = k + 1;
        }
        proof {
            assert(cols@.take(cols.len() as int) =~= cols@);
        }
        self.footprints = Ghost(
            self.footprints@.push(Footprint { columns: set, rows: shape.rows_view() }),
        );
        proof {
            reveal(Layout::wf);
            let a = old(self).layout();
            let b = self.layout();
            assert(b.starts =~= a.starts.push(region_start as nat));
            assert forall|c: RegionColumn| #[trigger]
                b.first_free(c) == if set.contains(c) {
                    (region_start + shape.rows_view()) as nat
                } else {
                    a.first_free(c)
                } by {
                assert(cols@.contains(c) == set.contains(c));
            }
            assert forall|i: int, c: RegionColumn|
                0 <= i < b.footprints.len() && #[trigger] b.footprints[i].columns.contains(
                    c,
                ) implies b.starts[i] + b.footprints[i].rows <= b.first_free(c) by {
                if i < a.footprints.len() {
                    assert(a.footprints[i].columns.contains(c));
                    assert(a.starts[i] + a.footprints[i].rows <= a.first_free(c));
                    assert(b.first_free(c) >= a.first_free(c));
                }
            }
            assert forall|i: int, j: int, c: RegionColumn|
                0 <= i < j < b.footprints.len() && #[trigger] b.footprints[i].columns.contains(c)
                    && #[trigger] b.footprints[j].columns.contains(c) implies b.starts[i]
                    + b.footprints[i].rows <= b.starts[j] by {
                assert(a.footprints[i].columns.contains(c));
                if j < a.footprints.len() {
                    assert(a.footprints[j].columns.contains(c));
                } else {
                    assert(a.starts[i] + a.footprints[i].rows <= a.first_free(c));
                    assert(a.first_free(c) <= region_start);
                }
            }
        }
        region_start
    }

    /// Writes the queued constants, first come first, into successive rows
    /// of the first constants column, from its first free row on, and ties
    /// each to its cell by a copy constraint. Stops at the first request
    /// that the constraint system refuses.
    fn flush_constants(&mut self, queue: &Vec<(F, Cell)>) -> (r: Result<(), Error>)
        requires
            old(self).wf(),
            old(self).layout().constants.len() > 0,
            forall|q: int|
                0 <= q < queue@.len() ==> cell_known(
                    old(self).region_starts(),
                    (#[trigger] queue@[q]).1,
                ),
            old(self).layout().first_free(RegionColumn::Column(old(self).layout().constants[0].any()))
                + queue@.len() <= usize::MAX,
        ensures
            final(self).wf(),
            extends(
                old(self).constraint_system().exchanges(),
                final(self).constraint_system().exchanges(),
            ),
            flush_outcome(
                old(self).layout().constants[0],
                old(self).layout().first_free(RegionColumn::Column(old(self).layout().constants[0].any())),
                old(self).region_starts(),
                queue@,
                added(
                    old(self).constraint_system().exchanges(),
                    final(self).constraint_system().exchanges(),
                ),
                r,
            ),
            final(self).layout().starts == old(self).layout().starts,
            final(self).layout().footprints == old(self).layout().footprints,
            final(self).layout().constants == old(self).layout().constants,
            final(self).layout().table_columns == old(self).layout().table_columns,
            forall|c: RegionColumn| #[trigger]
                final(self).layout().first_free(c) == old(self).layout().first_free(c) + if c == RegionColumn::Column(
                    old(self).layout().constants[0].any(),
                ) {
                    constants_written(
                        added(
                            old(self).constraint_system().exchanges(),
                            final(self).constraint_system().exchanges(),
                        ),
                    )
                } else {
                    0
                },
    {
        // For the simple floor planner, we assign constants in order in
        // the first `constants` column.
        let constants_column = self.constants[0];
        let key = RegionColumn::Column(constants_column.into_any());
        proof {
            lemma_wf_distinct(self.layout());
        }
        let first_row = lookup(&self.columns, &key);
        let mut next_constant_row = first_row;
        let ghost before = self.cs.exchanges();
        let ghost regions = self.region_starts();
        let ghost start = old(self).layout();
        let ghost plan = |k: int, prev: Reply<F>|
            flush_call(constants_column, first_row as nat, regions, queue@, k);
        proof {
            lemma_added_none(before);
        }
        let mut i: usize = 0;
        while i < queue.len()
            invariant
                0 <= i <= queue.len(),
                start == old(self).layout(),
                start.wf(),
                start.constants.len() > 0,
                constants_column == start.constants[0],
                key == RegionColumn::Column(constants_column.any()),
                first_row == start.first_free(key),
                first_row + queue@.len() <= usize::MAX,
                next_constant_row == first_row + i,
                before == old(self).constraint_system().exchanges(),
                regions == start.starts,
                plan == (|k: int, prev: Reply<F>|
                    flush_call(constants_column, first_row as nat, regions, queue@, k)),
                forall|q: int|
                    0 <= q < queue@.len() ==> cell_known(regions, (#[trigger] queue@[q]).1),
                self.wf(),
                self.layout().starts == start.starts,
                self.layout().footprints == start.footprints,
                self.layout().constants == start.constants,
                self.layout().table_columns == start.table_columns,
                forall|c: RegionColumn| #[trigger]
                    self.layout().first_free(c) == start.first_free(c) + if c == key {
                        i as nat
                    } else {
                        0
                    },
                extends(before, self.constraint_system().exchanges()),
                follows(added(before, self.constraint_system().exchanges()), plan),
                !refused(added(before, self.constraint_system().exchanges())),
                added(before, self.constraint_system().exchanges()).len() == 2 * i,
            decreases queue.len() - i,
        {
            let constant = queue[i].0;
            let advice = queue[i].1;
            let ghost mid = self.cs.exchanges();
            let assigned = self.cs.assign_fixed(
                constants_column,
                next_constant_row,
                Some(constant),
            );
            let ghost after_assign = self.cs.exchanges();
            proof {
                lemma_added_push(before, mid, after_assign.last());
                assert(after_assign == mid.push(after_assign.last()));
                lemma_follows_push(added(before, mid), after_assign.last(), plan);
                assert((2 * i) / 2 == i && (2 * i) % 2 == 0);
                assert(added(before, after_assign).len() == 2 * i + 1);
                assert(added(before, after_assign).last() == after_assign.last());
            }
            match assigned {
                Ok(_) => {},
                Err(e) => {
                    return Err(e);
                },
            }
            assert(cell_known(regions, queue@[i as int].1));
            let row = self.regions[advice.region_index.0].0 + advice.row_offset;
            let copied = self.cs.copy(
                constants_column.into_any(),
                next_constant_row,
                advice.column,
                row,
            );
            proof {
                let now = self.cs.exchanges();
                lemma_added_push(before, after_assign, now.last());
                assert(now == after_assign.push(now.last()));
                lemma_follows_push(added(before, after_assign), now.last(), plan);
                assert((2 * i + 1) / 2 == i && (2 * i + 1) % 2 == 1);
                assert(added(before, now).len() == 2 * i + 2);
                assert(added(before, now).last() == now.last());
                assert((2 * i + 2) / 2 == i + 1);
            }
            match copied {
                Ok(_) => {},
                Err(e) => {
                    return Err(e);
                },
            }
            next_constant_row = next_constant_row + 1;
            let ghost layout_mid = self.layout();
            proof {
                lemma_wf_distinct(layout_mid);
                assert(layout_mid.first_free(key) == first_row + i);
            }
            record(&mut self.columns, key, next_constant_row);
            proof {
                let layout_now = self.layout();
                assert(layout_now.usage == self.columns@);
                assert forall|c: RegionColumn| #[trigger]
                    layout_now.first_free(c) == layout_mid.first_free(c) + if c == key {
                        1nat
                    } else {
                        0
                    } by {
                    assert(first_free_in(self.columns@, c) == if c == key {
                        next_constant_row as nat
                    } else {
                        first_free_in(layout_mid.usage, c)
                    });
                }
                lemma_wf_monotone(layout_mid, layout_now);
            }
            i = i + 1;
        }
        Ok(())
    }

    /// Lays out a region made of the steps `ops`. The region is measured,
    /// placed at the first row at which all the columns it touches are
    /// free, and assigned there; then the constants that its steps asked
    /// for are written. Returns the cells that the steps assigned.
    pub fn assign_region(&mut self, name: &str, ops: &Vec<RegionOp<F>>) -> (r: Result<
        Vec<Cell>,
        Error,
    >)
        requires
            old(self).wf(),
            can_place(old(self).layout(), ops@),
        ensures
            final(self).wf(),
            extends(
                old(self).constraint_system().exchanges(),
                final(self).constraint_system().exchanges(),
            ),
            region_outcome(
                ops@,
                old(self).layout(),
                final(self).layout(),
                added(
                    old(self).constraint_system().exchanges(),
                    final(self).constraint_system().exchanges(),
                ),
                r,
            ),
    {
        let region_index = self.regions.len();
        let ghost index = RegionIndex(region_index);
        let ghost before = self.cs.exchanges();
        let ghost layout = self.layout();
        proof {
            assert forall|i: int| 0 <= i < ops@.len() implies match #[trigger] op_target(ops@[i]) {
                Some((_, offset)) => offset < usize::MAX,
                None => true,
            } by {
                lemma_target_in_shape(ops@, i);
            }
        }

        // Get shape of the region.
        let shape = RegionShape::probe(RegionIndex(region_index), ops);

        // Lay out this region.
        let region_start = self.place(&shape);
        let ghost placed = self.layout();
        let ghost regions = placed.starts;
        let ghost plan = |k: int, prev: Reply<F>| region_call(ops@, layout, regions, index, k, prev);
        proof {
            assert forall|i: int| 0 <= i < ops@.len() implies op_known(
                #[trigger] ops@[i],
                regions,
                index,
            ) by {
                lemma_target_in_shape(ops@, i);
                assert(cells_known(ops@[i], regions));
            }
            lemma_queue_known(ops@, regions, index);
        }

        // Assign region cells.
        self.cs.enter_region(name);
        let ghost entered = self.cs.exchanges();
        proof {
            lemma_added_one(before, entered.last());
            assert(entered == before.push(entered.last()));
            assert(planned(added(before, entered), plan, 0));
        }
        let mut region = SingleChipLayouterRegion::new(RegionIndex(region_index));
        let ran = region.run(self, ops);
        let ghost after_body = self.cs.exchanges();
        proof {
            let first = added(before, entered);
            let second = added(entered, after_body);
            let tail = |k: int, prev: Reply<F>| body_call(ops@, regions, index, k, prev);
            lemma_added_concat(before, entered, after_body);
            assert forall|j: int, prev: Reply<F>| 0 <= j < second.len() implies plan(
                first.len() + j,
                prev,
            ) == #[trigger] tail(j, prev) by {}
            assert forall|prev: Reply<F>| #[trigger] tail(0, prev) == tail(0, Reply::Done) by {
                lemma_body_call_first(ops@, regions, index, prev);
            }
            lemma_follows_concat(first, second, plan, tail);
            assert(region_placed(layout, self.layout(), ops@, 0));
        }
        let result = match ran {
            Ok(cells) => cells,
            Err(e) => {
                return Err(e);
            },
        };
        proof {
            assert(Seq::<(F, Cell)>::empty() + queued_constants(ops@, index) =~= queued_constants(
                ops@,
                index,
            ));
        }
        let constants_to_assign = region.constants;
        self.cs.exit_region();
        let ghost exited = self.cs.exchanges();
        proof {
            lemma_added_push(before, after_body, exited.last());
            assert(exited == after_body.push(exited.last()));
            lemma_follows_push(added(before, after_body), exited.last(), plan);
        }

        // Assign constants. For the simple floor planner, we assign constants in order in
        // the first `constants` column.
        if self.constants.len() == 0 {
            if constants_to_assign.len() > 0 {
                return Err(Error::NotEnoughColumnsForConstants);
            }
        } else {
            let flushed = self.flush_constants(&constants_to_assign);
            proof {
                let now = self.cs.exchanges();
                let first = added(before, exited);
                let second = added(exited, now);
                let key = RegionColumn::Column(layout.constants[0].any());
                let tail = |k: int, prev: Reply<F>|
                    flush_call(
                        layout.constants[0],
                        first_free_placed(layout, ops@, key),
                        regions,
                        queued_constants(ops@, index),
                        k,
                    );
                lemma_added_concat(before, exited, now);
                assert forall|j: int, prev: Reply<F>| 0 <= j < second.len() implies plan(
                    first.len() + j,
                    prev,
                ) == #[trigger] tail(j, prev) by {}
                assert forall|prev: Reply<F>| #[trigger] tail(0, prev) == tail(0, Reply::Done) by {}
                lemma_follows_concat(first, second, plan, tail);
                assert((first + second).skip(first.len() as int) =~= second);
            }
            match flushed {
                Ok(_) => {},
                Err(e) => {
                    return Err(e);
                },
            }
        }
        Ok(result)
    }

    /// Lays out a lookup table made of the steps `cells`. The steps are
    /// taken; then the table must be complete: all its columns of one
    /// length, and every row below that length set. Its columns are taken
    /// for good, and each is filled with its default from the first row
    /// that the table does not use.
    pub fn assign_table(&mut self, name: &str, cells: &Vec<TableCell<F>>) -> (r: Result<(), Error>)
        requires
            old(self).wf(),
            forall|i: int| 0 <= i < cells@.len() ==> (#[trigger] cells@[i]).offset < usize::MAX,
        ensures
            final(self).wf(),
            extends(
                old(self).constraint_system().exchanges(),
                final(self).constraint_system().exchanges(),
            ),
            table_outcome(
                cells@,
                old(self).layout(),
                final(self).layout(),
                added(
                    old(self).constraint_system().exchanges(),
                    final(self).constraint_system().exchanges(),
                ),
                r,
            ),
    {
        let ghost before = self.cs.exchanges();
        let ghost layout = self.layout();
        let ghost used = layout.table_columns;
        let ghost plan = |k: int, prev: Reply<F>| table_call(cells@, k);
        let ghost n = cells@.len() as int;
        let ghost state = table_state(cells@);
        proof {
            lemma_fault_index_bound(used, cells@);
        }

        // Assign table cells.
        self.cs.enter_region(name);
        let ghost entered = self.cs.exchanges();
        proof {
            lemma_added_one(before, entered.last());
            assert(entered == before.push(entered.last()));
            assert(planned(added(before, entered), plan, 0));
        }
        let mut table = SimpleTableLayouter::new();
        let ran = table.run(&mut self.cs, &self.table_columns, cells);
        let ghost after_body = self.cs.exchanges();
        proof {
            let first = added(before, entered);
            let second = added(entered, after_body);
            let tail = |k: int, prev: Reply<F>| cell_call(cells@[k]);
            lemma_added_concat(before, entered, after_body);
            assert forall|j: int, prev: Reply<F>| 0 <= j < second.len() implies plan(
                first.len() + j,
                prev,
            ) == #[trigger] tail(j, prev) by {}
            assert forall|prev: Reply<F>| #[trigger] tail(0, prev) == tail(0, Reply::Done) by {}
            lemma_follows_concat(first, second, plan, tail);
        }
        match ran {
            Ok(_) => {},
            Err(e) => {
                return Err(e);
            },
        }
        let default_and_assigned = table.into_entries();
        self.cs.exit_region();
        let ghost exited = self.cs.exchanges();
        proof {
            lemma_added_push(before, after_body, exited.last());
            assert(exited == after_body.push(exited.last()));
            lemma_follows_push(added(before, after_body), exited.last(), plan);
        }

        // Check that all table columns have the same length `first_unused`,
        // and all cells up to that length are assigned.
        let first_unused = match compute_table_lengths(&default_and_assigned) {
            Ok(first_unused) => first_unused,
            Err(e) => {
                return Err(e);
            },
        };

        // Record these columns so that we can prevent them from being used again.
        let mut j: usize = 0;
        while j < default_and_assigned.len()
            invariant
                0 <= j <= default_and_assigned.len(),
                states(default_and_assigned@) == state,
                self.constraint_system().exchanges() == exited,
                self.layout().starts == layout.starts,
                self.layout().footprints == layout.footprints,
                self.layout().usage == layout.usage,
                self.layout().constants == layout.constants,
                self.layout().table_columns == layout.table_columns + state_columns(state).take(
                    j as int,
                ),
            decreases default_and_assigned.len() - j,
        {
            let column = default_and_assigned[j].column();
            self.table_columns.push(column);
            proof {
                assert(state[j as int] == default_and_assigned@[j as int].state());
                assert(state_columns(state).take(j as int + 1) =~= state_columns(state).take(
                    j as int,
                ).push(column));
                assert(self.layout().table_columns =~= layout.table_columns + state_columns(
                    state,
                ).take(j as int + 1));
            }
            j = j + 1;
        }
        proof {
            assert(state_columns(state).take(state.len() as int) =~= state_columns(state));
            lemma_wf_distinct(layout);
            lemma_wf_monotone(layout, self.layout());
        }
        let ghost taken = self.layout();

        let mut j: usize = 0;
        while j < default_and_assigned.len()
            invariant
                0 <= j <= default_and_assigned.len(),
                states(default_and_assigned@) == state,
                state == table_state(cells@),
                n == cells@.len(),
                table_lengths(state) == Ok::<usize, Error>(first_unused),
                plan == (|k: int, prev: Reply<F>| table_call(cells@, k)),
                self.layout() == taken,
                taken.wf(),
                before == old(self).constraint_system().exchanges(),
                layout == old(self).layout(),
                used == layout.table_columns,
                fault_index(used, cells@) == n,
                taken.starts == layout.starts,
                taken.footprints == layout.footprints,
                taken.usage == layout.usage,
                taken.constants == layout.constants,
                taken.table_columns == layout.table_columns + state_columns(state),
                extends(before, self.constraint_system().exchanges()),
                follows(added(before, self.constraint_system().exchanges()), plan),
                !refused(added(before, self.constraint_system().exchanges())),
                added(before, self.constraint_system().exchanges()).len() == n + 2 + j,
            decreases default_and_assigned.len() - j,
        {
            let ghost mid = self.cs.exchanges();
            proof {
                assert(state[j as int] == default_and_assigned@[j as int].state());
                lemma_table_lengths(state, j as int);
            }
            let column = default_and_assigned[j].column();
            // default_val must be Some because we must have assigned
            // at least one cell in each column, and in that case we checked
            // that all cells up to first_unused were assigned.
            let default_val = default_and_assigned[j].default_value().unwrap();
            let filled = self.cs.fill_from_row(column.inner, first_unused, default_val);
            proof {
                let now = self.cs.exchanges();
                lemma_added_push(before, mid, now.last());
                assert(now == mid.push(now.last()));
                lemma_follows_push(added(before, mid), now.last(), plan);
                assert(added(before, now).last() == now.last());
            }
            match filled {
                Ok(_) => {},
                Err(e) => {
                    return Err(e);
                },
            }
            j = j + 1;
        }
        Ok(())
    }

    /// Constrains `cell` to equal row `row` of the instance column
    /// `instance`.
    pub fn constrain_instance(&mut self, cell: Cell, instance: Column<Instance>, row: usize) -> (r:
        Result<(), Error>)
        requires
            cell_known(old(self).region_starts(), cell),
        ensures
            final(self).same_layout(*old(self)),
            final(self).constraint_system().exchanges() == old(
                self,
            ).constraint_system().exchanges().push(
                Exchange {
                    call: Call::Copy {
                        left_column: cell.column,
                        left_row: absolute_row(
                            old(self).region_starts(),
                            cell.region_index,
                            cell.row_offset,
                        ),
                        right_column: instance.any(),
                        right_row: row,
                    },
                    reply: reply_of(r),
                },
            ),
    {
        let left_row = self.regions[cell.region_index.0].0 + cell.row_offset;
        self.cs.copy(cell.column, left_row, instance.into_any(), row)
    }

    /// The value of `challenge`, as the constraint system knows it.
    pub fn get_challenge(&self, challenge: Challenge) -> (r: Option<F>)
        ensures
            r == self.constraint_system().challenge_value(challenge),
    {
        self.cs.get_challenge(challenge)
    }

    /// Opens a namespace for diagnostics. The layout is not touched.
    pub fn push_namespace(&mut self, name: &str)
        ensures
            final(self).same_layout(*old(self)),
            final(self).constraint_system().exchanges() == old(
                self,
            ).constraint_system().exchanges().push(
                Exchange { call: Call::PushNamespace, reply: Reply::Done },
            ),
    {
        self.cs.push_namespace(name)
    }

    /// Closes the namespace opened last. The layout is not touched.
    pub fn pop_namespace(&mut self, gadget_name: Option<String>)
        ensures
            final(self).same_layout(*old(self)),
            final(self).constraint_system().exchanges() == old(
                self,
            ).constraint_system().exchanges().push(
                Exchange { call: Call::PopNamespace, reply: Reply::Done },
            ),
    {
        self.cs.pop_namespace(gadget_name)
    }
}

/// The capability that assigns a region: it takes the requests of the
/// region's routine, turns their relative rows into rows of the circuit,
/// and hands them to the constraint system. Constants are queued until the
/// region is complete.
#[derive(Debug)]
pub struct SingleChipLayouterRegion<F> {
    region_index: RegionIndex,
    /// The constants to be assigned, and the cells to which they are copied.
    constants: Vec<(F, Cell)>,
}

impl<F: Copy> SingleChipLayouterRegion<F> {
    /// The index of the region that is assigned.
    pub closed spec fn index_view(&self) -> RegionIndex {
        self.region_index
    }

    /// The constants queued so far, first come first, each with the cell
    /// that is to equal it.
    pub closed spec fn queue_view(&self) -> Seq<(F, Cell)> {
        self.constants@
    }

    /// A capability for the region `region_index`, with nothing queued.
    pub fn new(region_index: RegionIndex) -> (r: Self)
        ensures
            r.index_view() == region_index,
            r.queue_view() == Seq::<(F, Cell)>::empty(),
    {
        SingleChipLayouterRegion { region_index, constants: Vec::new() }
    }

    /// Turns `selector` on at row `offset` of the region.
    pub fn enable_selector<CS: Assignment<F>>(
        &mut self,
        layouter: &mut SingleChipLayouter<F, CS>,
        selector: Selector,
        offset: usize,
    ) -> (r: Result<(), Error>)
        requires
            row_known(old(layouter).region_starts(), old(self).index_view(), offset),
        ensures
            *final(self) == *old(self),
            final(layouter).same_layout(*old(layouter)),
            final(layouter).constraint_system().exchanges() == old(
                layouter,
            ).constraint_system().exchanges().push(
                Exchange {
                    call: Call::EnableSelector {
                        selector,
                        row: absolute_row(
                            old(layouter).region_starts(),
                            old(self).index_view(),
                            offset,
                        ),
                    },
                    reply: reply_of(r),
                },
            ),
    {
        let row = layouter.regions[self.region_index.0].0 + offset;
        layouter.cs.enable_selector(selector, row)
    }

    /// Gives `column` a name for diagnostics.
    pub fn name_column<CS: Assignment<F>>(
        &mut self,
        layouter: &mut SingleChipLayouter<F, CS>,
        column: Column<Any>,
    )
        ensures
            *final(self) == *old(self),
            final(layouter).same_layout(*old(layouter)),
            final(layouter).constraint_system().exchanges() == old(
                layouter,
            ).constraint_system().exchanges().push(
                Exchange { call: Call::AnnotateColumn { column }, reply: Reply::Done },
            ),
    {
        layouter.cs.annotate_column(column);
    }

    /// Assigns `to` to the advice cell at row `offset` of the region, and
    /// names the cell.
    pub fn assign_advice<CS: Assignment<F>>(
        &mut self,
        layouter: &mut SingleChipLayouter<F, CS>,
        column: Column<Advice>,
        offset: usize,
        to: Option<F>,
    ) -> (r: Result<Cell, Error>)
        requires
            row_known(old(layouter).region_starts(), old(self).index_view(), offset),
        ensures
            *final(self) == *old(self),
            final(layouter).same_layout(*old(layouter)),
            final(layouter).constraint_system().exchanges() == old(
                layouter,
            ).constraint_system().exchanges().push(
                Exchange {
                    call: Call::AssignAdvice {
                        column,
                        row: absolute_row(
                            old(layouter).region_starts(),
                            old(self).index_view(),
                            offset,
                        ),
                        value: to,
                    },
                    reply: reply_of(r),
                },
            ),
            r is Ok ==> r->Ok_0 == (Cell {
                region_index: old(self).index_view(),
                row_offset: offset,
                column: column.any(),
            }),
    {
        let row = layouter.regions[self.region_index.0].0 + offset;
        match layouter.cs.assign_advice(column, row, to) {
            Ok(_) => Ok(
                Cell {
                    region_index: self.region_index,
                    row_offset: offset,
                    column: column.into_any(),
                },
            ),
            Err(e) => Err(e),
        }
    }

    /// Assigns `constant` to the advice cell at row `offset` of the region,
    /// and queues the constraint that the cell equals it.
    pub fn assign_advice_from_constant<CS: Assignment<F>>(
        &mut self,
        layouter: &mut SingleChipLayouter<F, CS>,
        column: Column<Advice>,
        offset: usize,
        constant: F,
    ) -> (r: Result<Cell, Error>)
        requires
            row_known(old(layouter).region_starts(), old(self).index_view(), offset),
        ensures
            final(self).index_view() == old(self).index_view(),
            final(layouter).same_layout(*old(layouter)),
            final(layouter).constraint_system().exchanges() == old(
                layouter,
            ).constraint_system().exchanges().push(
                Exchange {
                    call: Call::AssignAdvice {
                        column,
                        row: absolute_row(
                            old(layouter).region_starts(),
                            old(self).index_view(),
                            offset,
                        ),
                        value: Some(constant),
                    },
                    reply: reply_of(r),
                },
            ),
            match r {
                Ok(cell) => cell == (Cell {
                    region_index: old(self).index_view(),
                    row_offset: offset,
                    column: column.any(),
                }) && final(self).queue_view() == old(self).queue_view().push((constant, cell)),
                Err(_) => final(self).queue_view() == old(self).queue_view(),
            },
    {
        let advice = match self.assign_advice(layouter, column, offset, Some(constant)) {
            Ok(cell) => cell,
            Err(e) => {
                return Err(e);
            },
        };
        let _ = self.constrain_constant(advice, constant);
        Ok(advice)
    }

    /// Assigns the value at `row` of `instance` to the advice cell at row
    /// `offset` of the region, and constrains the two cells equal. Stops at
    /// the first request that the constraint system refuses.
    pub fn assign_advice_from_instance<CS: Assignment<F>>(
        &mut self,
        layouter: &mut SingleChipLayouter<F, CS>,
        instance: Column<Instance>,
        row: usize,
        advice: Column<Advice>,
        offset: usize,
    ) -> (r: Result<(Cell, Option<F>), Error>)
        requires
            row_known(old(layouter).region_starts(), old(self).index_view(), offset),
        ensures
            *final(self) == *old(self),
            final(layouter).same_layout(*old(layouter)),
            extends(
                old(layouter).constraint_system().exchanges(),
                final(layouter).constraint_system().exchanges(),
            ),
            ({
                let t = added(
                    old(layouter).constraint_system().exchanges(),
                    final(layouter).constraint_system().exchanges(),
                );
                let op = RegionOp::<F>::AssignAdviceFromInstance { instance, row, advice, offset };
                &&& 1 <= t.len() <= 3
                &&& follows(
                    t,
                    |k: int, prev: Reply<F>|
                        op_call(
                            op,
                            old(layouter).region_starts(),
                            old(self).index_view(),
                            k,
                            prev,
                        ),
                )
                &&& refused(t) ==> r == Err::<(Cell, Option<F>), Error>(refusal(t))
                &&& !refused(t) ==> t.len() == 3 && r == Ok::<(Cell, Option<F>), Error>(
                    (
                        Cell {
                            region_index: old(self).index_view(),
                            row_offset: offset,
                            column: advice.any(),
                        },
                        t[0].reply->Value_0,
                    ),
                )
            }),
    {
        let ghost before = layouter.cs.exchanges();
        let ghost regions = layouter.region_starts();
        let ghost op = RegionOp::<F>::AssignAdviceFromInstance { instance, row, advice, offset };
        let ghost plan = |k: int, prev: Reply<F>| op_call(op, regions, self.region_index, k, prev);
        proof {
            lemma_added_none(before);
        }
        let value = match layouter.cs.query_instance(instance, row) {
            Ok(value) => value,
            Err(e) => {
                proof {
                    lemma_added_push(before, before, layouter.cs.exchanges().last());
                    assert(layouter.cs.exchanges() == before.push(layouter.cs.exchanges().last()));
                    let t = added(before, layouter.cs.exchanges());
                    assert(t.len() == 1);
                    assert(planned(t, plan, 0));
                }
                return Err(e);
            },
        };
        let ghost after_query = layouter.cs.exchanges();
        proof {
            lemma_added_push(before, before, after_query.last());
            assert(after_query == before.push(after_query.last()));
        }
        let cell = match self.assign_advice(layouter, advice, offset, value) {
            Ok(cell) => cell,
            Err(e) => {
                proof {
                    let now = layouter.cs.exchanges();
                    lemma_added_push(before, after_query, now.last());
                    assert(now == after_query.push(now.last()));
                    let t = added(before, now);
                    assert(t.len() == 2);
                    assert(t[0] == after_query.last());
                    assert(t[1] == now.last());
                    assert(planned(t, plan, 0));
                    assert(planned(t, plan, 1));
                    assert(accepted(t, 0));
                }
                return Err(e);
            },
        };
        let ghost after_assign = layouter.cs.exchanges();
        proof {
            lemma_added_push(before, after_query, after_assign.last());
            assert(after_assign == after_query.push(after_assign.last()));
        }
        let row_here = layouter.regions[cell.region_index.0].0 + cell.row_offset;
        let copied = layouter.cs.copy(cell.column, row_here, instance.into_any(), row);
        proof {
            let now = layouter.cs.exchanges();
            lemma_added_push(before, after_assign, now.last());
            assert(now == after_assign.push(now.last()));
            let t = added(before, now);
            assert(t.len() == 3);
            assert(t[0] == after_query.last());
            assert(t[1] == after_assign.last());
            assert(t[2] == now.last());
            assert(planned(t, plan, 0));
            assert(planned(t, plan, 1));
            assert(planned(t, plan, 2));
            assert(accepted(t, 0));
            assert(accepted(t, 1));
        }
        match copied {
            Ok(_) => Ok((cell, value)),
            Err(e) => Err(e),
        }
    }

    /// Asks for the value at `row` of `instance`.
    pub fn instance_value<CS: Assignment<F>>(
        &mut self,
        layouter: &mut SingleChipLayouter<F, CS>,
        instance: Column<Instance>,
        row: usize,
    ) -> (r: Result<Option<F>, Error>)
        ensures
            *final(self) == *old(self),
            final(layouter).same_layout(*old(layouter)),
            final(layouter).constraint_system().exchanges() == old(
                layouter,
            ).constraint_system().exchanges().push(
                Exchange {
                    call: Call::QueryInstance { column: instance, row },
                    reply: reply_of_query(r),
                },
            ),
    {
        layouter.cs.query_instance(instance, row)
    }

    /// Assigns `to` to the fixed cell at row `offset` of the region, and
    /// names the cell.
    pub fn assign_fixed<CS: Assignment<F>>(
        &mut self,
        layouter: &mut SingleChipLayouter<F, CS>,
        column: Column<Fixed>,
        offset: usize,
        to: Option<F>,
    ) -> (r: Result<Cell, Error>)
        requires
            row_known(old(layouter).region_starts(), old(self).index_view(), offset),
        ensures
            *final(self) == *old(self),
            final(layouter).same_layout(*old(layouter)),
            final(layouter).constraint_system().exchanges() == old(
                layouter,
            ).constraint_system().exchanges().push(
                Exchange {
                    call: Call::AssignFixed {
                        column,
                        row: absolute_row(
                            old(layouter).region_starts(),
                            old(self).index_view(),
                            offset,
                        ),
                        value: to,
                    },
                    reply: reply_of(r),
                },
            ),
            r is Ok ==> r->Ok_0 == (Cell {
                region_index: old(self).index_view(),
                row_offset: offset,
                column: column.any(),
            }),
    {
        let row = layouter.regions[self.region_index.0].0 + offset;
        match layouter.cs.assign_fixed(column, row, to) {
            Ok(_) => Ok(
                Cell {
                    region_index: self.region_index,
                    row_offset: offset,
                    column: column.into_any(),
                },
            ),
            Err(e) => Err(e),
        }
    }

    /// Queues the constraint that `cell` equals `constant`.
    pub fn constrain_constant(&mut self, cell: Cell, constant: F) -> (r: Result<(), Error>)
        ensures
            r is Ok,
            final(self).index_view() == old(self).index_view(),
            final(self).queue_view() == old(self).queue_view().push((constant, cell)),
    {
        self.constants.push((constant, cell));
        Ok(())
    }

    /// Constrains two cells equal.
    pub fn constrain_equal<CS: Assignment<F>>(
        &mut self,
        layouter: &mut SingleChipLayouter<F, CS>,
        left: Cell,
        right: Cell,
    ) -> (r: Result<(), Error>)
        requires
            cell_known(old(layouter).region_starts(), left),
            cell_known(old(layouter).region_starts(), right),
        ensures
            *final(self) == *old(self),
            final(layouter).same_layout(*old(layouter)),
            final(layouter).constraint_system().exchanges() == old(
                layouter,
            ).constraint_system().exchanges().push(
                Exchange {
                    call: Call::Copy {
                        left_column: left.column,
                        left_row: absolute_row(
                            old(layouter).region_starts(),
                            left.region_index,
                            left.row_offset,
                        ),
                        right_column: right.column,
                        right_row: absolute_row(
                            old(layouter).region_starts(),
                            right.region_index,
                            right.row_offset,
                        ),
                    },
                    reply: reply_of(r),
                },
            ),
    {
        let left_row = layouter.regions[left.region_index.0].0 + left.row_offset;
        let right_row = layouter.regions[right.region_index.0].0 + right.row_offset;
        layouter.cs.copy(left.column, left_row, right.column, right_row)
    }

    /// Takes one step of the region's routine.
    pub fn apply<CS: Assignment<F>>(
        &mut self,
        layouter: &mut SingleChipLayouter<F, CS>,
        op: &RegionOp<F>,
    ) -> (r: Result<Option<Cell>, Error>)
        requires
            op_known(*op, old(layouter).region_starts(), old(self).index_view()),
        ensures
            final(self).index_view() == old(self).index_view(),
            final(layouter).same_layout(*old(layouter)),
            extends(
                old(layouter).constraint_system().exchanges(),
                final(layouter).constraint_system().exchanges(),
            ),
            step_outcome(
                *op,
                old(layouter).region_starts(),
                old(self).index_view(),
                added(
                    old(layouter).constraint_system().exchanges(),
                    final(layouter).constraint_system().exchanges(),
                ),
                r,
                old(self).queue_view(),
                final(self).queue_view(),
            ),
    {
        let ghost before = layouter.cs.exchanges();
        let ghost regions = layouter.region_starts();
        let ghost plan = |k: int, prev: Reply<F>| op_call(*op, regions, self.region_index, k, prev);
        match op {
            RegionOp::EnableSelector { selector, offset } => {
                let r = self.enable_selector(layouter, *selector, *offset);
                proof {
                    let x = layouter.cs.exchanges().last();
                    lemma_added_one(before, x);
                    assert(planned(added(before, layouter.cs.exchanges()), plan, 0));
                }
                match r {
                    Ok(_) => Ok(None),
                    Err(e) => Err(e),
                }
            },
            RegionOp::NameColumn { column } => {
                self.name_column(layouter, *column);
                proof {
                    let x = layouter.cs.exchanges().last();
                    lemma_added_one(before, x);
                    assert(planned(added(before, layouter.cs.exchanges()), plan, 0));
                }
                Ok(None)
            },
            RegionOp::AssignAdvice { column, offset, to } => {
                let r = self.assign_advice(layouter, *column, *offset, *to);
                proof {
                    let x = layouter.cs.exchanges().last();
                    lemma_added_one(before, x);
                    assert(planned(added(before, layouter.cs.exchanges()), plan, 0));
                }
                match r {
                    Ok(cell) => Ok(Some(cell)),
                    Err(e) => Err(e),
                }
            },
            RegionOp::AssignAdviceFromConstant { column, offset, constant } => {
                let r = self.assign_advice_from_constant(layouter, *column, *offset, *constant);
                proof {
                    let x = layouter.cs.exchanges().last();
                    lemma_added_one(before, x);
                    assert(planned(added(before, layouter.cs.exchanges()), plan, 0));
                }
                match r {
                    Ok(cell) => Ok(Some(cell)),
                    Err(e) => Err(e),
                }
            },
            RegionOp::AssignAdviceFromInstance { instance, row, advice, offset } => {
                let r = self.assign_advice_from_instance(
                    layouter,
                    *instance,
                    *row,
                    *advice,
                    *offset,
                );
                match r {
                    Ok((cell, _)) => Ok(Some(cell)),
                    Err(e) => Err(e),
                }
            },
            RegionOp::AssignFixed { column, offset, to } => {
                let r = self.assign_fixed(layouter, *column, *offset, *to);
                proof {
                    let x = layouter.cs.exchanges().last();
                    lemma_added_one(before, x);
                    assert(planned(added(before, layouter.cs.exchanges()), plan, 0));
                }
                match r {
                    Ok(cell) => Ok(Some(cell)),
                    Err(e) => Err(e),
                }
            },
            RegionOp::ConstrainConstant { cell, constant } => {
                let _ = self.constrain_constant(*cell, *constant);
                proof {
                    lemma_added_none(before);
                }
                Ok(None)
            },
            RegionOp::ConstrainEqual { left, right } => {
                let r = self.constrain_equal(layouter, *left, *right);
                proof {
                    let x = layouter.cs.exchanges().last();
                    lemma_added_one(before, x);
                    assert(planned(added(before, layouter.cs.exchanges()), plan, 0));
                }
                match r {
                    Ok(_) => Ok(None),
                    Err(e) => Err(e),
                }
            },
        }
    }

    /// Takes the steps of the region's routine in their order, and stops at
    /// the first request that the constraint system refuses. Returns the
    /// cells that the steps assigned.
    pub fn run<CS: Assignment<F>>(
        &mut self,
        layouter: &mut SingleChipLayouter<F, CS>,
        ops: &Vec<RegionOp<F>>,
    ) -> (r: Result<Vec<Cell>, Error>)
        requires
            forall|i: int|
                0 <= i < ops@.len() ==> op_known(
                    #[trigger] ops@[i],
                    old(layouter).region_starts(),
                    old(self).index_view(),
                ),
        ensures
            final(self).index_view() == old(self).index_view(),
            final(layouter).same_layout(*old(layouter)),
            extends(
                old(layouter).constraint_system().exchanges(),
                final(layouter).constraint_system().exchanges(),
            ),
            body_outcome(
                ops@,
                old(layouter).region_starts(),
                old(self).index_view(),
                added(
                    old(layouter).constraint_system().exchanges(),
                    final(layouter).constraint_system().exchanges(),
                ),
                r,
                old(self).queue_view(),
                final(self).queue_view(),
            ),
    {
        let ghost before = layouter.cs.exchanges();
        let ghost regions = layouter.region_starts();
        let ghost index = self.region_index;
        let ghost plan = |k: int, prev: Reply<F>| body_call(ops@, regions, index, k, prev);
        let mut cells: Vec<Cell> = Vec::new();
        let mut i: usize = 0;
        proof {
            lemma_added_none(before);
            assert(ops@.take(0) =~= Seq::<RegionOp<F>>::empty());
            assert(old(self).queue_view() + queued_constants(ops@.take(0), index) =~= old(
                self,
            ).queue_view());
        }
        while i < ops.len()
            invariant
                0 <= i <= ops.len(),
                self.index_view() == index,
                index == old(self).index_view(),
                regions == old(layouter).region_starts(),
                before == old(layouter).constraint_system().exchanges(),
                plan == (|k: int, prev: Reply<F>| body_call(ops@, regions, index, k, prev)),
                layouter.same_layout(*old(layouter)),
                forall|i: int| 0 <= i < ops@.len() ==> op_known(#[trigger] ops@[i], regions, index),
                extends(before, layouter.constraint_system().exchanges()),
                follows(added(before, layouter.constraint_system().exchanges()), plan),
                !refused(added(before, layouter.constraint_system().exchanges())),
                added(before, layouter.constraint_system().exchanges()).len() == body_call_count(
                    ops@.take(i as int),
                ),
                cells@ == produced_cells(ops@.take(i as int), index),
                self.queue_view() == old(self).queue_view() + queued_constants(
                    ops@.take(i as int),
                    index,
                ),
            decreases ops.len() - i,
        {
            let ghost mid = layouter.cs.exchanges();
            let ghost queue_mid = self.queue_view();
            let ghost op = ops@[i as int];
            let step = self.apply(layouter, &ops[i]);
            proof {
                let now = layouter.cs.exchanges();
                let first = added(before, mid);
                let second = added(mid, now);
                let tail = |k: int, prev: Reply<F>| op_call(op, regions, index, k, prev);
                lemma_added_concat(before, mid, now);
                lemma_body_call_at(ops@, regions, index, i as int);
                lemma_body_call_count_grows(ops@, i as int + 1);
                assert(ops@.take(i as int + 1).drop_last() =~= ops@.take(i as int));
                assert(ops@.take(i as int + 1).last() == op);
                assert forall|j: int, prev: Reply<F>| 0 <= j < second.len() implies plan(
                    first.len() + j,
                    prev,
                ) == #[trigger] tail(j, prev) by {
                    assert(body_call(
                        ops@,
                        regions,
                        index,
                        body_call_count(ops@.take(i as int)) + j,
                        prev,
                    ) == op_call(op, regions, index, j, prev));
                }
                assert forall|prev: Reply<F>| #[trigger] tail(0, prev) == tail(0, Reply::Done) by {}
                lemma_follows_concat(first, second, plan, tail);
                if !refused(second) {
                    assert(self.queue_view() =~= old(self).queue_view() + queued_constants(
                        ops@.take(i as int + 1),
                        index,
                    ));
                }
            }
            match step {
                Ok(Some(cell)) => {
                    cells.push(cell);
                },
                Ok(None) => {},
                Err(e) => {
                    return Err(e);
                },
            }
            i = i + 1;
        }
        proof {
            assert(ops@.take(ops.len() as int) =~= ops@);
        }
        Ok(cells)
    }
}

/// A circuit: the routine that declares its regions and tables to a
/// layouter, in the order in which they are to be laid out.
pub trait Circuit<F: Copy> {
    /// What the circuit was configured with.
    type Config;

    /// What the circuit says of its own synthesis: how the layout it found,
    /// the layout it left, what it asked of the constraint system and the
    /// result it returned go together. A circuit that says nothing leaves
    /// this as it is.
    open spec fn synthesized(
        &self,
        config: Self::Config,
        before: Layout,
        after: Layout,
        asked: Seq<Exchange<F>>,
        r: Result<(), Error>,
    ) -> bool {
        true
    }

    /// Declares the regions and tables of the circuit to `layouter`.
    fn synthesize<CS: Assignment<F>>(
        &self,
        config: Self::Config,
        layouter: &mut SingleChipLayouter<F, CS>,
    ) -> (r: Result<(), Error>)
        requires
            old(layouter).wf(),
        ensures
            final(layouter).wf(),
            extends(
                old(layouter).constraint_system().exchanges(),
                final(layouter).constraint_system().exchanges(),
            ),
            self.synthesized(
                config,
                old(layouter).layout(),
                final(layouter).layout(),
                added(
                    old(layouter).constraint_system().exchanges(),
                    final(layouter).constraint_system().exchanges(),
                ),
                r,
            ),
    ;
}

/// A floor planner that performs minimal optimizations: it lays the
/// regions out in a single pass, in the order of their declaration, so
/// that the layout mirrors the logic of the circuit.
#[derive(Debug)]
pub struct SimpleFloorPlanner;

impl SimpleFloorPlanner {
    /// Synthesizes `circuit` on the constraint system `cs`, with `constants`
    /// as the columns for constants: the circuit is handed a layouter that
    /// has placed nothing yet. Returns what the circuit returned, and the
    /// constraint system as the circuit's layouter left it.
    pub fn synthesize<F: Copy, CS: Assignment<F>, C: Circuit<F>>(
        cs: CS,
        circuit: &C,
        config: C::Config,
        constants: Vec<Column<Fixed>>,
    ) -> (r: (Result<(), Error>, CS))
        ensures
            extends(cs.exchanges(), r.1.exchanges()),
            exists|after: Layout|
                after.wf() && #[trigger] circuit.synthesized(
                    config,
                    Layout {
                        starts: Seq::empty(),
                        footprints: Seq::empty(),
                        usage: Seq::empty(),
                        constants: constants@,
                        table_columns: Seq::empty(),
                    },
                    after,
                    added(cs.exchanges(), r.1.exchanges()),
                    r.0,
                ),
    {
        let ghost fresh = Layout {
            starts: Seq::empty(),
            footprints: Seq::empty(),
            usage: Seq::empty(),
            constants: constants@,
            table_columns: Seq::empty(),
        };
        let mut layouter = SingleChipLayouter::new(cs, constants).unwrap();
        let result = circuit.synthesize(config, &mut layouter);
        let ghost after = layouter.layout();
        let system = layouter.into_cs();
        let r = (result, system);
        proof {
            assert(after.wf() && circuit.synthesized(
                config,
                fresh,
                after,
                added(cs.exchanges(), r.1.exchanges()),
                r.0,
            ));
        }
        r
    }
}

} // verus!
