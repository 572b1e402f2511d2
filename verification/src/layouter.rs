//! What a region is made of, and the capability that measures a region
//! without assigning anything.

use crate::circuit::{
    Advice, Any, Cell, Column, Fixed, Instance, RegionColumn, RegionIndex, Selector,
};
use crate::plonk::Error;
use vstd::prelude::*;

verus! {

/// One step of the routine that builds a region. The routine is handed over
/// as the list of its steps, so that measuring the region and assigning it
/// run the very same steps.
#[derive(Clone, Copy, Debug, PartialEq, Eq)]
pub enum RegionOp<F> {
    /// Turn `selector` on at row `offset` of the region.
    EnableSelector { selector: Selector, offset: usize },
    /// Give `column` a name for diagnostics.
    NameColumn { column: Column<Any> },
    /// Assign `to` to the advice cell at `offset`.
    AssignAdvice { column: Column<Advice>, offset: usize, to: Option<F> },
    /// Assign `constant` to the advice cell at `offset`, and constrain the
    /// cell to equal it.
    AssignAdviceFromConstant { column: Column<Advice>, offset: usize, constant: F },
    /// Assign the value at `row` of `instance` to the advice cell at
    /// `offset`, and constrain the two cells equal.
    AssignAdviceFromInstance {
        instance: Column<Instance>,
        row: usize,
        advice: Column<Advice>,
        offset: usize,
    },
    /// Assign `to` to the fixed cell at `offset`.
    AssignFixed { column: Column<Fixed>, offset: usize, to: Option<F> },
    /// Constrain `cell` to equal `constant`.
    ConstrainConstant { cell: Cell, constant: F },
    /// Constrain two cells equal.
    ConstrainEqual { left: Cell, right: Cell },
}

/// The column and the row of the region that `op` writes, if it writes one.
pub open spec fn op_target<F>(op: RegionOp<F>) -> Option<(RegionColumn, nat)> {
    match op {
        RegionOp::EnableSelector { selector, offset } => Some(
            (RegionColumn::Selector(selector), offset as nat),
        ),
        RegionOp::AssignAdvice { column, offset, .. } => Some(
            (RegionColumn::Column(column.any()), offset as nat),
        ),
        RegionOp::AssignAdviceFromConstant { column, offset, .. } => Some(
            (RegionColumn::Column(column.any()), offset as nat),
        ),
        RegionOp::AssignAdviceFromInstance { advice, offset, .. } => Some(
            (RegionColumn::Column(advice.any()), offset as nat),
        ),
        RegionOp::AssignFixed { column, offset, .. } => Some(
            (RegionColumn::Column(column.any()), offset as nat),
        ),
        _ => None,
    }
}

/// The columns that the steps `ops` write.
pub open spec fn shape_columns<F>(ops: Seq<RegionOp<F>>) -> Set<RegionColumn>
    decreases ops.len(),
{
    if ops.len() == 0 {
        Set::empty()
    } else {
        match op_target(ops.last()) {
            Some((column, _)) => shape_columns(ops.drop_last()).insert(column),
            None => shape_columns(ops.drop_last()),
        }
    }
}

/// The number of rows that the steps `ops` need: one more than the largest
/// row they write, or none.
pub open spec fn shape_rows<F>(ops: Seq<RegionOp<F>>) -> nat
    decreases ops.len(),
{
    if ops.len() == 0 {
        0
    } else {
        let before = shape_rows(ops.drop_last());
        match op_target(ops.last()) {
            Some((_, offset)) => if before > offset {
                before
            } else {
                offset + 1
            },
            None => before,
        }
    }
}

/// Every row that a step writes lies in the first `usize::MAX` rows, so that
/// the number of rows of the region fits a machine word.
pub open spec fn ops_in_bounds<F>(ops: Seq<RegionOp<F>>) -> bool {
    forall|i: int|
        0 <= i < ops.len() ==> match #[trigger] op_target(ops[i]) {
            Some((_, offset)) => offset < usize::MAX,
            None => true,
        }
}

/// What a step writes lies inside the shape of the steps it belongs to.
pub proof fn lemma_target_in_shape<F>(ops: Seq<RegionOp<F>>, i: int)
    requires
        0 <= i < ops.len(),
    ensures
        match op_target(ops[i]) {
            Some((column, offset)) => shape_columns(ops).contains(column) && offset < shape_rows(
                ops,
            ),
            None => true,
        },
    decreases ops.len(),
{
    if i < ops.len() - 1 {
        lemma_target_in_shape(ops.drop_last(), i);
    }
}

/// The capability that measures a region: it takes the same requests as
/// the capability that assigns, and only notes which columns they touch
/// and how many rows they need.
#[derive(Debug)]
pub struct RegionShape {
    region_index: RegionIndex,
    columns: Vec<RegionColumn>,
    row_count: usize,
}

impl RegionShape {
    /// The columns noted so far.
    pub closed spec fn columns_view(&self) -> Set<RegionColumn> {
        self.columns@.to_set()
    }

    /// The number of rows noted so far.
    pub closed spec fn rows_view(&self) -> nat {
        self.row_count as nat
    }

    /// The index of the region that is measured.
    pub closed spec fn index_view(&self) -> RegionIndex {
        self.region_index
    }

    /// No column is listed twice.
    pub closed spec fn wf(&self) -> bool {
        self.columns@.no_duplicates()
    }

    /// An empty shape for the region `region_index`.
    pub fn new(region_index: RegionIndex) -> (r: Self)
        ensures
            r.wf(),
            r.index_view() == region_index,
            r.columns_view() == Set::<RegionColumn>::empty(),
            r.rows_view() == 0,
    {
        let r = RegionShape { region_index, columns: Vec::new(), row_count: 0 };
        assert(r.columns@.to_set() =~= Set::<RegionColumn>::empty());
        r
    }

    /// The index of the region that is measured.
    pub fn region_index(&self) -> (r: RegionIndex)
        ensures
            r == self.index_view(),
    {
        self.region_index
    }

    /// The columns noted so far, each once, in the order they were first
    /// touched.
    pub fn columns(&self) -> (r: &Vec<RegionColumn>)
        requires
            self.wf(),
        ensures
            r@.no_duplicates(),
            r@.to_set() == self.columns_view(),
    {
        &self.columns
    }

    /// The number of rows noted so far.
    pub fn row_count(&self) -> (r: usize)
        ensures
            r == self.rows_view(),
    {
        self.row_count
    }

    /// Notes that row `offset` of `column` is written.
    fn touch(&mut self, column: RegionColumn, offset: usize)
        requires
            old(self).wf(),
            offset < usize::MAX,
        ensures
            final(self).wf(),
            final(self).index_view() == old(self).index_view(),
            final(self).columns_view() == old(self).columns_view().insert(column),
            final(self).rows_view() == if old(self).rows_view() > offset {
                old(self).rows_view()
            } else {
                (offset + 1) as nat
            },
    {
        let mut found = false;
        let mut i: usize = 0;
        while i < self.columns.len()
            invariant
                0 <= i <= self.columns.len(),
                *self == *old(self),
                found == exists|j: int| 0 <= j < i && self.columns@[j] == column,
            decreases self.columns.len() - i,
        {
            if self.columns[i].same(&column) {
                found = true;
            }
            i = i + 1;
        }
        if !found {
            self.columns.push(column);
            proof {
                old(self).columns@.lemma_push_to_set_commute(column);
            }
            assert(self.columns@.no_duplicates());
        } else {
            assert(old(self).columns@.to_set().contains(column));
            assert(self.columns@.to_set() =~= old(self).columns@.to_set().insert(column));
        }
        if self.row_count <= offset {
            self.row_count = offset + 1;
        }
    }

    /// Notes that `selector` is turned on at `offset`.
    pub fn enable_selector(&mut self, selector: Selector, offset: usize) -> (r: Result<(), Error>)
        requires
            old(self).wf(),
            offset < usize::MAX,
        ensures
            r is Ok,
            final(self).wf(),
            final(self).index_view() == old(self).index_view(),
            final(self).columns_view() == old(self).columns_view().insert(
                RegionColumn::Selector(selector),
            ),
            final(self).rows_view() == if old(self).rows_view() > offset {
                old(self).rows_view()
            } else {
                (offset + 1) as nat
            },
    {
        self.touch(RegionColumn::Selector(selector), offset);
        Ok(())
    }

    /// Notes that the advice cell at `offset` is assigned, and names the
    /// cell.
    pub fn assign_advice(&mut self, column: Column<Advice>, offset: usize) -> (r: Result<
        Cell,
        Error,
    >)
        requires
            old(self).wf(),
            offset < usize::MAX,
        ensures
            r == Ok::<Cell, Error>(
                Cell {
                    region_index: old(self).index_view(),
                    row_offset: offset,
                    column: column.any(),
                },
            ),
            final(self).wf(),
            final(self).index_view() == old(self).index_view(),
            final(self).columns_view() == old(self).columns_view().insert(
                RegionColumn::Column(column.any()),
            ),
            final(self).rows_view() == if old(self).rows_view() > offset {
                old(self).rows_view()
            } else {
                (offset + 1) as nat
            },
    {
        self.touch(RegionColumn::Column(column.into_any()), offset);
        Ok(Cell { region_index: self.region_index, row_offset: offset, column: column.into_any() })
    }

    /// Notes that the fixed cell at `offset` is assigned, and names the
    /// cell.
    pub fn assign_fixed(&mut self, column: Column<Fixed>, offset: usize) -> (r: Result<Cell, Error>)
        requires
            old(self).wf(),
            offset < usize::MAX,
        ensures
            r == Ok::<Cell, Error>(
                Cell {
                    region_index: old(self).index_view(),
                    row_offset: offset,
                    column: column.any(),
                },
            ),
            final(self).wf(),
            final(self).index_view() == old(self).index_view(),
            final(self).columns_view() == old(self).columns_view().insert(
                RegionColumn::Column(column.any()),
            ),
            final(self).rows_view() == if old(self).rows_view() > offset {
                old(self).rows_view()
            } else {
                (offset + 1) as nat
            },
    {
        self.touch(RegionColumn::Column(column.into_any()), offset);
        Ok(Cell { region_index: self.region_index, row_offset: offset, column: column.into_any() })
    }

    /// Takes one step of a region's routine.
    pub fn apply<F>(&mut self, op: &RegionOp<F>)
        requires
            old(self).wf(),
            match op_target(*op) {
                Some((_, offset)) => offset < usize::MAX,
                None => true,
            },
        ensures
            final(self).wf(),
            final(self).index_view() == old(self).index_view(),
            final(self).columns_view() == match op_target(*op) {
                Some((column, _)) => old(self).columns_view().insert(column),
                None => old(self).columns_view(),
            },
            final(self).rows_view() == match op_target(*op) {
                Some((_, offset)) => if old(self).rows_view() > offset {
                    old(self).rows_view()
                } else {
                    offset + 1
                },
                None => old(self).rows_view(),
            },
    {
        match op {
            RegionOp::EnableSelector { selector, offset } => {
                let _ = self.enable_selector(*selector, *offset);
            },
            RegionOp::AssignAdvice { column, offset, .. } => {
                let _ = self.assign_advice(*column, *offset);
            },
            RegionOp::AssignAdviceFromConstant { column, offset, .. } => {
                let _ = self.assign_advice(*column, *offset);
            },
            RegionOp::AssignAdviceFromInstance { advice, offset, .. } => {
                let _ = self.assign_advice(*advice, *offset);
            },
            RegionOp::AssignFixed { column, offset, .. } => {
                let _ = self.assign_fixed(*column, *offset);
            },
            RegionOp::NameColumn { .. } => {},
            RegionOp::ConstrainConstant { .. } => {},
            RegionOp::ConstrainEqual { .. } => {},
        }
    }

    /// Measures a whole region: the shape of the steps `ops`.
    pub fn probe<F>(region_index: RegionIndex, ops: &Vec<RegionOp<F>>) -> (r: Self)
        requires
            ops_in_bounds(ops@),
        ensures
            r.wf(),
            r.index_view() == region_index,
            r.columns_view() == shape_columns(ops@),
            r.rows_view() == shape_rows(ops@),
    {
        let mut shape = RegionShape::new(region_index);
        let mut i: usize = 0;
        while i < ops.len()
            invariant
                0 <= i <= ops.len(),
                ops_in_bounds(ops@),
                shape.wf(),
                shape.index_view() == region_index,
                shape.columns_view() == shape_columns(ops@.take(i as int)),
                shape.rows_view() == shape_rows(ops@.take(i as int)),
            decreases ops.len() - i,
        {
            proof {
                assert(ops@.take(i as int + 1).drop_last() =~= ops@.take(i as int));
                assert(ops@.take(i as int + 1).last() == ops@[i as int]);
            }
            shape.apply(&ops[i]);
            i = i + 1;
        }
        assert(ops@.take(ops.len() as int) =~= ops@);
        shape
    }
}

} // verus!
