//! The capability that builds a lookup table: it notes, for each column of
//! the table, the default value and the rows that were set.

use crate::circuit::{
    added, extends, follows, lemma_added_none, lemma_added_push, lemma_follows_push, refusal,
    refused, Assignment, Call, Exchange, Reply, TableColumn,
};
use crate::plonk::{Error, TableError};
use vstd::prelude::*;

verus! {

/// One step of the routine that builds a table: assign `to` to row `offset`
/// of `column`. The value given to row 0 is the column's default.
#[derive(Clone, Copy, Debug, PartialEq, Eq)]
pub struct TableCell<F> {
    pub column: TableColumn,
    pub offset: usize,
    pub to: Option<F>,
}

/// What is known of one column of a table that is being built.
pub struct ColumnState<F> {
    pub column: TableColumn,
    /// The default value, once row 0 was set.
    pub default: Option<Option<F>>,
    /// For each row up to the last that was set, whether it was set.
    pub assigned: Seq<bool>,
}

/// One column of a table that is being built.
#[derive(Debug)]
pub struct TableEntry<F> {
    column: TableColumn,
    default: Option<Option<F>>,
    assigned: Vec<bool>,
}

impl<F> TableEntry<F> {
    /// What the entry says of its column.
    pub closed spec fn state(&self) -> ColumnState<F> {
        ColumnState { column: self.column, default: self.default, assigned: self.assigned@ }
    }

    /// The column.
    pub fn column(&self) -> (r: TableColumn)
        ensures
            r == self.state().column,
    {
        self.column
    }

    /// The default value of the column, once its row 0 was set.
    pub fn default_value(&self) -> (r: Option<Option<F>>)
        where
            F: Copy,
        ensures
            r == self.state().default,
    {
        self.default
    }
}

/// What the entries say of their columns.
pub open spec fn states<F>(entries: Seq<TableEntry<F>>) -> Seq<ColumnState<F>> {
    Seq::new(entries.len(), |i: int| entries[i].state())
}

/// No column has two entries.
pub open spec fn distinct_states<F>(state: Seq<ColumnState<F>>) -> bool {
    forall|i: int, j: int|
        0 <= i < j < state.len() ==> (#[trigger] state[i]).column != (#[trigger] state[j]).column
}

/// Whether `column` has an entry.
pub open spec fn has_column<F>(state: Seq<ColumnState<F>>, column: TableColumn) -> bool {
    exists|i: int| 0 <= i < state.len() && (#[trigger] state[i]).column == column
}

/// The place of the entry of `column`, or the place behind the last entry
/// if it has none.
pub open spec fn position<F>(state: Seq<ColumnState<F>>, column: TableColumn) -> int {
    if has_column(state, column) {
        choose|i: int| 0 <= i < state.len() && (#[trigger] state[i]).column == column
    } else {
        state.len() as int
    }
}

/// The rows that were set, once row `offset` is set too.
pub open spec fn mark(assigned: Seq<bool>, offset: nat) -> Seq<bool> {
    Seq::new(
        if assigned.len() > offset {
            assigned.len()
        } else {
            offset + 1
        },
        |j: int| j == offset || (j < assigned.len() && assigned[j]),
    )
}

/// The step sets row 0 of a column whose row 0 was set before.
pub open spec fn overwrites<F>(state: Seq<ColumnState<F>>, cell: TableCell<F>) -> bool {
    &&& cell.offset == 0
    &&& has_column(state, cell.column)
    &&& state[position(state, cell.column)].default is Some
}

/// What is known of the columns once the step `cell` is taken.
pub open spec fn state_step<F>(state: Seq<ColumnState<F>>, cell: TableCell<F>) -> Seq<
    ColumnState<F>,
> {
    let i = position(state, cell.column);
    let found = if i < state.len() {
        state[i]
    } else {
        ColumnState { column: cell.column, default: None, assigned: Seq::empty() }
    };
    let entry = ColumnState {
        column: cell.column,
        default: if found.default is None && cell.offset == 0 {
            Some(cell.to)
        } else {
            found.default
        },
        assigned: mark(found.assigned, cell.offset as nat),
    };
    if i < state.len() {
        state.update(i, entry)
    } else {
        state.push(entry)
    }
}

/// What is known of the columns once the steps `cells` are taken: one
/// entry for each column, in the order in which the columns were first
/// named.
pub open spec fn table_state<F>(cells: Seq<TableCell<F>>) -> Seq<ColumnState<F>>
    decreases cells.len(),
{
    if cells.len() == 0 {
        Seq::empty()
    } else {
        state_step(table_state(cells.drop_last()), cells.last())
    }
}

/// Why the `i`-th step cannot be taken, if it cannot: its column belongs
/// to an earlier table, or it sets a default a second time.
pub open spec fn cell_fault<F>(used: Seq<TableColumn>, cells: Seq<TableCell<F>>, i: int) -> Option<
    Error,
> {
    if used.contains(cells[i].column) {
        Some(Error::TableError(TableError::UsedColumn(cells[i].column)))
    } else if overwrites(table_state(cells.take(i)), cells[i]) {
        Some(Error::TableError(TableError::OverwriteDefault(cells[i].column)))
    } else {
        None
    }
}

/// The place of the first step that cannot be taken, or the number of
/// steps if all can.
pub open spec fn fault_index<F>(used: Seq<TableColumn>, cells: Seq<TableCell<F>>) -> int
    decreases cells.len(),
{
    if cells.len() == 0 {
        0
    } else {
        let before = fault_index(used, cells.drop_last());
        if before < cells.len() - 1 {
            before
        } else if cell_fault(used, cells, cells.len() - 1) is Some {
            cells.len() - 1
        } else {
            cells.len() as int
        }
    }
}

/// How many assignments the steps `cells` ask of the constraint system
/// when none is refused: one for each step before the first that cannot be
/// taken, and one more if that step is found out only after its
/// assignment.
pub open spec fn cell_call_count<F>(used: Seq<TableColumn>, cells: Seq<TableCell<F>>) -> int {
    let f = fault_index(used, cells);
    if f < cells.len() && !used.contains(cells[f].column) {
        f + 1
    } else {
        f
    }
}

/// The assignment that a step asks of the constraint system.
pub open spec fn cell_call<F>(cell: TableCell<F>) -> Call<F> {
    Call::AssignFixed { column: cell.column.inner, row: cell.offset, value: cell.to }
}

/// Every row below the column's length was set, and so was its default.
pub open spec fn complete<F>(entry: ColumnState<F>) -> bool {
    &&& entry.default is Some
    &&& entry.assigned.len() > 0
    &&& forall|j: int| 0 <= j < entry.assigned.len() ==> entry.assigned[j]
}

/// The first column that is not complete, if there is one.
pub open spec fn first_incomplete<F>(state: Seq<ColumnState<F>>) -> Option<TableColumn>
    decreases state.len(),
{
    if state.len() == 0 {
        None
    } else {
        match first_incomplete(state.drop_last()) {
            Some(c) => Some(c),
            None => if complete(state.last()) {
                None
            } else {
                Some(state.last().column)
            },
        }
    }
}

/// Two columns with their lengths, the column of lower index first.
pub open spec fn uneven(
    a: TableColumn,
    a_len: usize,
    b: TableColumn,
    b_len: usize,
) -> Error {
    if a.inner.index < b.inner.index || (a.inner.index == b.inner.index && a_len <= b_len) {
        Error::TableError(TableError::UnevenColumnLengths((a, a_len), (b, b_len)))
    } else {
        Error::TableError(TableError::UnevenColumnLengths((b, b_len), (a, a_len)))
    }
}

/// The first column whose length differs from that of the column before
/// it, reported together with that column, if there is one.
pub open spec fn first_uneven<F>(state: Seq<ColumnState<F>>) -> Option<Error>
    decreases state.len(),
{
    if state.len() < 2 {
        None
    } else {
        match first_uneven(state.drop_last()) {
            Some(e) => Some(e),
            None => {
                let last = state.last();
                let prev = state[state.len() - 2];
                if last.assigned.len() == prev.assigned.len() {
                    None
                } else {
                    Some(
                        uneven(
                            last.column,
                            last.assigned.len() as usize,
                            prev.column,
                            prev.assigned.len() as usize,
                        ),
                    )
                }
            },
        }
    }
}

/// The common length of the columns of a table: the first row that no
/// column uses. A column that is not complete is an error, and so are two
/// columns of different lengths. An empty table has length 0.
pub open spec fn table_lengths<F>(state: Seq<ColumnState<F>>) -> Result<usize, Error> {
    match first_incomplete(state) {
        Some(c) => Err(Error::TableError(TableError::ColumnNotAssigned(c))),
        None => match first_uneven(state) {
            Some(e) => Err(e),
            None => Ok(
                if state.len() == 0 {
                    0
                } else {
                    state[0].assigned.len() as usize
                },
            ),
        },
    }
}

/// Where the columns have a common length, every column is complete and
/// has that length.
pub proof fn lemma_table_lengths<F>(state: Seq<ColumnState<F>>, i: int)
    requires
        table_lengths(state) is Ok,
        0 <= i < state.len(),
    ensures
        complete(state[i]),
        state[i].assigned.len() == state[0].assigned.len(),
    decreases state.len(),
{
    if i < state.len() - 1 {
        lemma_table_lengths(state.drop_last(), i);
    } else if state.len() >= 2 {
        lemma_table_lengths(state.drop_last(), i - 1);
    }
}

/// Checks that all the columns of a table have the same length, and that
/// every row of each, up to that length, was set. Returns that length.
pub fn compute_table_lengths<F>(default_and_assigned: &Vec<TableEntry<F>>) -> (r: Result<
    usize,
    Error,
>)
    ensures
        r == table_lengths(states(default_and_assigned@)),
{
    let ghost state = states(default_and_assigned@);
    let mut i: usize = 0;
    while i < default_and_assigned.len()
        invariant
            0 <= i <= default_and_assigned.len(),
            state == states(default_and_assigned@),
            first_incomplete(state.take(i as int)) is None,
        decreases default_and_assigned.len() - i,
    {
        let entry = &default_and_assigned[i];
        proof {
            assert(state.take(i as int + 1).drop_last() =~= state.take(i as int));
            assert(state.take(i as int + 1).last() == entry.state());
        }
        let mut all = !entry.default.is_none() && entry.assigned.len() > 0;
        let mut j: usize = 0;
        while j < entry.assigned.len()
            invariant
                0 <= j <= entry.assigned.len(),
                all == (entry.default is Some && entry.assigned.len() > 0 && forall|k: int|
                    0 <= k < j ==> entry.assigned@[k]),
            decreases entry.assigned.len() - j,
        {
            if !entry.assigned[j] {
                all = false;
            }
            j = j + 1;
        }
        if !all {
            proof {
                lemma_first_incomplete_prefix(state, i as int + 1);
            }
            return Err(Error::TableError(TableError::ColumnNotAssigned(entry.column)));
        }
        i = i + 1;
    }
    proof {
        assert(state.take(default_and_assigned.len() as int) =~= state);
    }
    let mut length: usize = 0;
    let mut i: usize = 0;
    while i < default_and_assigned.len()
        invariant
            0 <= i <= default_and_assigned.len(),
            state == states(default_and_assigned@),
            first_incomplete(state) is None,
            first_uneven(state.take(i as int)) is None,
            i == 0 ==> length == 0,
            i > 0 ==> length == state[i - 1].assigned.len(),
            i > 0 ==> length == state[0].assigned.len(),
        decreases default_and_assigned.len() - i,
    {
        let entry = &default_and_assigned[i];
        proof {
            assert(state.take(i as int + 1).drop_last() =~= state.take(i as int));
            assert(state.take(i as int + 1).last() == entry.state());
            assert(state[i as int] == default_and_assigned@[i as int].state());
            if i > 0 {
                assert(state.take(i as int + 1)[i as int - 1] == state[i as int - 1]);
                assert(state[i as int - 1] == default_and_assigned@[i as int - 1].state());
                assert(state.take(i as int + 1).len() >= 2);
            }
        }
        if i == 0 || length == entry.assigned.len() {
            length = entry.assigned.len();
        } else {
            let previous = &default_and_assigned[i - 1];
            proof {
                lemma_first_uneven_prefix(state, i as int + 1);
            }
            let here = entry.column;
            let there = previous.column;
            if here.inner.index < there.inner.index || (here.inner.index == there.inner.index
                && entry.assigned.len() <= length) {
                return Err(
                    Error::TableError(
                        TableError::UnevenColumnLengths(
                            (here, entry.assigned.len()),
                            (there, length),
                        ),
                    ),
                );
            } else {
                return Err(
                    Error::TableError(
                        TableError::UnevenColumnLengths(
                            (there, length),
                            (here, entry.assigned.len()),
                        ),
                    ),
                );
            }
        }
        i = i + 1;
    }
    proof {
        assert(state.take(default_and_assigned.len() as int) =~= state);
    }
    Ok(length)
}

/// A column that is not complete among the first `i` is the first of all
/// that are not.
proof fn lemma_first_incomplete_prefix<F>(state: Seq<ColumnState<F>>, i: int)
    requires
        0 <= i <= state.len(),
        first_incomplete(state.take(i)) is Some,
    ensures
        first_incomplete(state) == first_incomplete(state.take(i)),
    decreases state.len() - i,
{
    if i < state.len() {
        assert(state.take(i + 1).drop_last() =~= state.take(i));
        lemma_first_incomplete_prefix(state, i + 1);
    } else {
        assert(state.take(i) =~= state);
    }
}

/// Two columns of different lengths among the first `i` are the first of
/// all such.
proof fn lemma_first_uneven_prefix<F>(state: Seq<ColumnState<F>>, i: int)
    requires
        0 <= i <= state.len(),
        first_uneven(state.take(i)) is Some,
    ensures
        first_uneven(state) == first_uneven(state.take(i)),
    decreases state.len() - i,
{
    if i < state.len() {
        assert(state.take(i + 1).drop_last() =~= state.take(i));
        lemma_first_uneven_prefix(state, i + 1);
    } else {
        assert(state.take(i) =~= state);
    }
}

/// Taking a step leaves every column with one entry.
pub proof fn lemma_state_step_distinct<F>(state: Seq<ColumnState<F>>, cell: TableCell<F>)
    requires
        distinct_states(state),
    ensures
        distinct_states(state_step(state, cell)),
{
    let after = state_step(state, cell);
    let i = position(state, cell.column);
    assert forall|a: int, b: int| 0 <= a < b < after.len() implies (#[trigger] after[a]).column != (
    #[trigger] after[b]).column by {
        if i < state.len() {
            assert(state[i].column == cell.column);
            assert(after[a].column == state[a].column);
            assert(after[b].column == state[b].column);
        } else {
            assert(after[a] == state[a]);
            if b < state.len() {
                assert(after[b] == state[b]);
            }
        }
    }
}

/// The steps of a table leave every column with one entry.
pub proof fn lemma_table_state_distinct<F>(cells: Seq<TableCell<F>>)
    ensures
        distinct_states(table_state(cells)),
    decreases cells.len(),
{
    if cells.len() > 0 {
        lemma_table_state_distinct(cells.drop_last());
        lemma_state_step_distinct(table_state(cells.drop_last()), cells.last());
    }
}

/// What the steps of a table, taken from a table in which nothing was
/// set, did: `t` is what they asked of the constraint system, `r` is
/// what came of them, and `state` is what is known of the columns
/// afterwards. The steps stop at the first that cannot be taken, and at the
/// first request that is refused.
pub open spec fn cells_outcome<F>(
    used: Seq<TableColumn>,
    cells: Seq<TableCell<F>>,
    t: Seq<Exchange<F>>,
    r: Result<(), Error>,
    state: Seq<ColumnState<F>>,
) -> bool {
    let f = fault_index(used, cells);
    &&& follows(t, |k: int, prev: Reply<F>| cell_call(cells[k]))
    &&& t.len() <= cell_call_count(used, cells)
    &&& refused(t) ==> r == Err::<(), Error>(refusal(t))
    &&& !refused(t) ==> {
        &&& t.len() == cell_call_count(used, cells)
        &&& if f < cells.len() {
            r == Err::<(), Error>(cell_fault(used, cells, f)->Some_0)
        } else {
            r is Ok && state == table_state(cells)
        }
    }
}

/// The capability that builds a table.
#[derive(Debug)]
pub struct SimpleTableLayouter<F> {
    default_and_assigned: Vec<TableEntry<F>>,
}

impl<F: Copy> SimpleTableLayouter<F> {
    /// What is known of the columns of the table, in the order in which
    /// they were first named.
    pub closed spec fn state(&self) -> Seq<ColumnState<F>> {
        states(self.default_and_assigned@)
    }

    /// A table in which nothing was set.
    pub fn new() -> (r: Self)
        ensures
            r.state() == Seq::<ColumnState<F>>::empty(),
    {
        let r = SimpleTableLayouter { default_and_assigned: Vec::new() };
        assert(r.state() =~= Seq::<ColumnState<F>>::empty());
        r
    }

    /// Gives the entries of the table away.
    pub fn into_entries(self) -> (r: Vec<TableEntry<F>>)
        ensures
            states(r@) == self.state(),
    {
        self.default_and_assigned
    }

    /// Assigns `to` to row `offset` of `column`, and notes that the row was
    /// set. The value of row 0 becomes the column's default. Refuses a
    /// column of an earlier table before anything is assigned, and a
    /// second default once the assignment was made.
    pub fn assign_cell<CS: Assignment<F>>(
        &mut self,
        cs: &mut CS,
        used_columns: &Vec<TableColumn>,
        column: TableColumn,
        offset: usize,
        to: Option<F>,
    ) -> (r: Result<(), Error>)
        requires
            distinct_states(old(self).state()),
            offset < usize::MAX,
        ensures
            used_columns@.contains(column) ==> {
                &&& r == Err::<(), Error>(Error::TableError(TableError::UsedColumn(column)))
                &&& final(cs).exchanges() == old(cs).exchanges()
                &&& final(self).state() == old(self).state()
            },
            !used_columns@.contains(column) ==> {
                let x = final(cs).exchanges().last();
                let cell = TableCell { column, offset, to };
                &&& final(cs).exchanges() == old(cs).exchanges().push(x)
                &&& x.call == cell_call(cell)
                &&& x.reply is Failed ==> r == Err::<(), Error>(x.reply->Failed_0)
                &&& !(x.reply is Failed) ==> if overwrites(old(self).state(), cell) {
                    r == Err::<(), Error>(Error::TableError(TableError::OverwriteDefault(column)))
                } else {
                    r is Ok && final(self).state() == state_step(old(self).state(), cell)
                }
            },
    {
        let ghost before = self.state();
        let ghost cell = TableCell { column, offset, to };
        let mut k: usize = 0;
        while k < used_columns.len()
            invariant
                0 <= k <= used_columns.len(),
                forall|j: int| 0 <= j < k ==> used_columns@[j] != column,
            decreases used_columns.len() - k,
        {
            if used_columns[k].same(&column) {
                return Err(Error::TableError(TableError::UsedColumn(column)));
            }
            k = k + 1;
        }
        let mut i: usize = 0;
        let mut found = false;
        while i < self.default_and_assigned.len() && !found
            invariant
                0 <= i <= self.default_and_assigned.len(),
                *self == *old(self),
                forall|j: int| 0 <= j < i ==> (#[trigger] before[j]).column != column,
                found ==> i < before.len() && before[i as int].column == column,
                before == self.state(),
            decreases self.default_and_assigned.len() - i + if found { 0int } else { 1int },
        {
            assert(before[i as int] == self.default_and_assigned@[i as int].state());
            if self.default_and_assigned[i].column.same(&column) {
                found = true;
            } else {
                i = i + 1;
            }
        }
        proof {
            if i < before.len() {
                assert(before[i as int].column == column);
                let p = choose|p: int| 0 <= p < before.len() && (#[trigger] before[p]).column == column;
                assert(p == i);
            }
            assert(position(before, column) == i);
        }
        let mut entry = if i < self.default_and_assigned.len() {
            self.default_and_assigned.remove(i)
        } else {
            TableEntry { column, default: None, assigned: Vec::new() }
        };
        let ghost found = entry.state();
        let assigned = cs.assign_fixed(column.inner, offset, to);
        match assigned {
            Ok(_) => {},
            Err(e) => {
                return Err(e);
            },
        }
        if offset == 0 {
            if entry.default.is_none() {
                // Use the value at offset 0 as the default value for this table column.
                entry.default = Some(to);
            } else {
                // Since there is already an existing default value for this table column,
                // the caller should not be attempting to assign another value at offset 0.
                return Err(Error::TableError(TableError::OverwriteDefault(column)));
            }
        }
        while entry.assigned.len() <= offset
            invariant
                offset < usize::MAX,
                entry.column == column,
                entry.default == if found.default is None && offset == 0 {
                    Some(to)
                } else {
                    found.default
                },
                found.assigned.len() <= entry.assigned.len(),
                entry.assigned.len() <= offset + 1 || entry.assigned.len() == found.assigned.len(),
                forall|j: int| 0 <= j < found.assigned.len() ==> entry.assigned@[j] == found.assigned[j],
                forall|j: int| found.assigned.len() <= j < entry.assigned.len() ==> !entry.assigned@[j],
            decreases offset + 1 - entry.assigned.len(),
        {
            entry.assigned.push(false);
        }
        entry.assigned.set(offset, true);
        proof {
            assert(entry.state().assigned =~= mark(found.assigned, offset as nat));
        }
        self.default_and_assigned.insert(i, entry);
        proof {
            assert(self.state() =~= state_step(before, cell));
        }
        Ok(())
    }

    /// Takes the steps of the table's routine in their order, and stops at
    /// the first that cannot be taken and at the first request that the
    /// constraint system refuses.
    pub fn run<CS: Assignment<F>>(
        &mut self,
        cs: &mut CS,
        used_columns: &Vec<TableColumn>,
        cells: &Vec<TableCell<F>>,
    ) -> (r: Result<(), Error>)
        requires
            old(self).state() == Seq::<ColumnState<F>>::empty(),
            forall|i: int| 0 <= i < cells@.len() ==> (#[trigger] cells@[i]).offset < usize::MAX,
        ensures
            extends(old(cs).exchanges(), final(cs).exchanges()),
            cells_outcome(
                used_columns@,
                cells@,
                added(old(cs).exchanges(), final(cs).exchanges()),
                r,
                final(self).state(),
            ),
    {
        let ghost before = cs.exchanges();
        let ghost plan = |k: int, prev: Reply<F>| cell_call(cells@[k]);
        let ghost used = used_columns@;
        proof {
            lemma_added_none(before);
            assert(cells@.take(0) =~= Seq::<TableCell<F>>::empty());
        }
        let mut i: usize = 0;
        while i < cells.len()
            invariant
                0 <= i <= cells.len(),
                used == used_columns@,
                before == old(cs).exchanges(),
                plan == (|k: int, prev: Reply<F>| cell_call(cells@[k])),
                forall|i: int| 0 <= i < cells@.len() ==> (#[trigger] cells@[i]).offset < usize::MAX,
                extends(before, cs.exchanges()),
                follows(added(before, cs.exchanges()), plan),
                !refused(added(before, cs.exchanges())),
                added(before, cs.exchanges()).len() == i,
                fault_index(used, cells@.take(i as int)) == i,
                self.state() == table_state(cells@.take(i as int)),
            decreases cells.len() - i,
        {
            let cell = cells[i];
            let ghost mid = cs.exchanges();
            proof {
                lemma_table_state_distinct(cells@.take(i as int));
                assert(cells@.take(i as int + 1).drop_last() =~= cells@.take(i as int));
                assert(cells@.take(i as int + 1).last() == cell);
                assert(cells@.take(i as int + 1).take(i as int) =~= cells@.take(i as int));
                assert(cells@.take(i as int + 1)[i as int] == cell);
                assert(cell == (TableCell { column: cell.column, offset: cell.offset, to: cell.to }));
            }
            let step = self.assign_cell(cs, used_columns, cell.column, cell.offset, cell.to);
            proof {
                let now = cs.exchanges();
                lemma_fault_index_prefix(used, cells@, i as int + 1);
                assert(cells@.take(i as int) =~= cells@.take(i as int + 1).take(i as int));
                if used.contains(cell.column) {
                    assert(fault_index(used, cells@.take(i as int + 1)) == i);
                } else {
                    lemma_added_push(before, mid, now.last());
                    lemma_follows_push(added(before, mid), now.last(), plan);
                    assert(added(before, now).last() == now.last());
                }
                if step is Err {
                    lemma_cell_fault_prefix(used, cells@, i as int);
                }
            }
            match step {
                Ok(_) => {},
                Err(e) => {
                    return Err(e);
                },
            }
            i = i + 1;
        }
        proof {
            assert(cells@.take(cells.len() as int) =~= cells@);
        }
        Ok(())
    }
}

/// Where one of the first `i` steps cannot be taken, the first of them is
/// the first of all.
pub proof fn lemma_fault_index_prefix<F>(
    used: Seq<TableColumn>,
    cells: Seq<TableCell<F>>,
    i: int,
)
    requires
        0 <= i <= cells.len(),
    ensures
        fault_index(used, cells.take(i)) < i ==> fault_index(used, cells) == fault_index(
            used,
            cells.take(i),
        ),
        fault_index(used, cells.take(i)) <= i,
        fault_index(used, cells.take(i)) == i ==> fault_index(used, cells) >= i,
    decreases cells.len() - i,
{
    lemma_fault_index_bound(used, cells.take(i));
    if i < cells.len() {
        assert(cells.take(i + 1).drop_last() =~= cells.take(i));
        lemma_fault_index_prefix(used, cells, i + 1);
    } else {
        assert(cells.take(i) =~= cells);
    }
}

/// The first step that cannot be taken is one of the steps.
pub proof fn lemma_fault_index_bound<F>(used: Seq<TableColumn>, cells: Seq<TableCell<F>>)
    ensures
        0 <= fault_index(used, cells) <= cells.len(),
    decreases cells.len(),
{
    if cells.len() > 0 {
        lemma_fault_index_bound(used, cells.drop_last());
    }
}

/// Whether the `i`-th step can be taken depends on the steps before it
/// only.
pub proof fn lemma_cell_fault_prefix<F>(used: Seq<TableColumn>, cells: Seq<TableCell<F>>, i: int)
    requires
        0 <= i < cells.len(),
    ensures
        cell_fault(used, cells, i) == cell_fault(used, cells.take(i + 1), i),
{
    assert(cells.take(i + 1).take(i) =~= cells.take(i));
    assert(cells.take(i + 1)[i] == cells[i]);
}

/// The columns of a table, in the order in which they were first named.
pub open spec fn state_columns<F>(state: Seq<ColumnState<F>>) -> Seq<TableColumn> {
    Seq::new(state.len(), |i: int| state[i].column)
}

/// The `k`-th request made to lay out a table: the region is entered, the
/// steps are taken, the region is left, and each column of the table, in
/// the order in which the columns were first named, is filled with its
/// default from the first row that the table does not use.
pub open spec fn table_call<F>(cells: Seq<TableCell<F>>, k: int) -> Call<F> {
    let n = cells.len();
    let state = table_state(cells);
    if k == 0 {
        Call::EnterRegion
    } else if k <= n {
        cell_call(cells[k - 1])
    } else if k == n + 1 {
        Call::ExitRegion
    } else {
        Call::FillFromRow {
            column: state[k - n - 2].column.inner,
            row: table_lengths(state)->Ok_0,
            value: state[k - n - 2].default->Some_0,
        }
    }
}

/// How many requests laying out a table makes when none is refused.
pub open spec fn table_call_count<F>(used: Seq<TableColumn>, cells: Seq<TableCell<F>>) -> int {
    let state = table_state(cells);
    if fault_index(used, cells) < cells.len() {
        1 + cell_call_count(used, cells)
    } else if table_lengths(state) is Err {
        (cells.len() + 2) as int
    } else {
        (cells.len() + 2 + state.len()) as int
    }
}

/// A table is complete where it was laid out: all its columns have the
/// length from which they were filled, every row below that length was set
/// by one of the steps, and no step set a row beyond.
pub proof fn lemma_table_complete<F>(cells: Seq<TableCell<F>>, p: int, row: int)
    requires
        forall|i: int| 0 <= i < cells.len() ==> (#[trigger] cells[i]).offset < usize::MAX,
        table_lengths(table_state(cells)) is Ok,
        0 <= p < table_state(cells).len(),
        0 <= row < table_lengths(table_state(cells))->Ok_0,
    ensures
        table_state(cells)[p].assigned.len() == table_lengths(table_state(cells))->Ok_0,
        table_state(cells)[p].default is Some,
        exists|i: int|
            0 <= i < cells.len() && (#[trigger] cells[i]).column == table_state(cells)[p].column
                && cells[i].offset == row,
        forall|i: int|
            0 <= i < cells.len() && (#[trigger] cells[i]).column == table_state(cells)[p].column
                ==> cells[i].offset < table_lengths(table_state(cells))->Ok_0,
{
    let state = table_state(cells);
    lemma_table_lengths(state, p);
    lemma_table_lengths(state, 0);
    lemma_length_fits(cells, 0);
    lemma_assigned_by_cell(cells, p, row);
    assert forall|i: int|
        0 <= i < cells.len() && (#[trigger] cells[i]).column == state[p].column implies cells[i].offset
        < table_lengths(state)->Ok_0 by {
        lemma_cell_within_length(cells, i, p);
    }
}

/// The length of a column fits a machine word where the rows that the
/// steps set do.
pub proof fn lemma_length_fits<F>(cells: Seq<TableCell<F>>, p: int)
    requires
        forall|i: int| 0 <= i < cells.len() ==> (#[trigger] cells[i]).offset < usize::MAX,
        0 <= p < table_state(cells).len(),
    ensures
        table_state(cells)[p].assigned.len() <= usize::MAX,
    decreases cells.len(),
{
    if cells.len() > 0 {
        let rest = cells.drop_last();
        let before = table_state(rest);
        assert forall|i: int| 0 <= i < rest.len() implies (#[trigger] rest[i]).offset
            < usize::MAX by {
            assert(rest[i] == cells[i]);
        }
        assert(cells[cells.len() - 1].offset < usize::MAX);
        if p < before.len() {
            lemma_length_fits(rest, p);
        }
    }
}

/// A row that is marked as set was set by one of the steps.
pub proof fn lemma_assigned_by_cell<F>(cells: Seq<TableCell<F>>, p: int, row: int)
    requires
        0 <= p < table_state(cells).len(),
        0 <= row < table_state(cells)[p].assigned.len(),
        table_state(cells)[p].assigned[row],
    ensures
        exists|i: int|
            0 <= i < cells.len() && (#[trigger] cells[i]).column == table_state(cells)[p].column
                && cells[i].offset == row,
    decreases cells.len(),
{
    if cells.len() > 0 {
        let rest = cells.drop_last();
        let before = table_state(rest);
        let cell = cells.last();
        let q = position(before, cell.column);
        lemma_table_state_distinct(rest);
        if p == q && row == cell.offset {
            assert(cells[cells.len() - 1].column == table_state(cells)[p].column);
        } else {
            if p == q {
                assert(q < before.len());
                assert(before[p].assigned[row]);
            } else {
                assert(table_state(cells)[p] == before[p]);
            }
            lemma_assigned_by_cell(rest, p, row);
            let i = choose|i: int|
                0 <= i < rest.len() && (#[trigger] rest[i]).column == before[p].column
                    && rest[i].offset == row;
            assert(cells[i] == rest[i]);
        }
    }
}

/// Every row that a step sets lies within the length of its column.
pub proof fn lemma_cell_within_length<F>(cells: Seq<TableCell<F>>, i: int, p: int)
    requires
        0 <= i < cells.len(),
        0 <= p < table_state(cells).len(),
        cells[i].column == table_state(cells)[p].column,
    ensures
        cells[i].offset < table_state(cells)[p].assigned.len(),
    decreases cells.len(),
{
    let rest = cells.drop_last();
    let before = table_state(rest);
    let cell = cells.last();
    let q = position(before, cell.column);
    lemma_table_state_distinct(rest);
    lemma_table_state_distinct(cells);
    if i == cells.len() - 1 {
        if q < before.len() {
            assert(before[q].column == cell.column);
        }
        assert(table_state(cells)[q].column == cell.column);
        assert(p == q);
    } else {
        assert(rest[i] == cells[i]);
        if p < before.len() {
            assert(before[p].column == table_state(cells)[p].column);
            lemma_cell_within_length(rest, i, p);
        } else {
            assert(p == q);
            lemma_column_has_state(rest, i);
            assert(has_column(before, cell.column));
            assert(false);
        }
    }
}

/// The column of every step has an entry.
pub proof fn lemma_column_has_state<F>(cells: Seq<TableCell<F>>, i: int)
    requires
        0 <= i < cells.len(),
    ensures
        has_column(table_state(cells), cells[i].column),
    decreases cells.len(),
{
    let rest = cells.drop_last();
    let before = table_state(rest);
    let cell = cells.last();
    let q = position(before, cell.column);
    let after = table_state(cells);
    if i == cells.len() - 1 {
        if q < before.len() {
            assert(before[q].column == cell.column);
        }
        assert(after[q].column == cell.column);
    } else {
        lemma_column_has_state(rest, i);
        let j = choose|j: int| 0 <= j < before.len() && (#[trigger] before[j]).column == rest[i].column;
        if q < before.len() {
            assert(before[q].column == cell.column);
        }
        assert(after[j].column == before[j].column);
    }
}

} // verus!
