//! Columns, cells, and the constraint system as the floor planner sees it.

use crate::plonk::Error;
use vstd::prelude::*;

verus! {

/// Marks a column of witness values.
#[derive(Clone, Copy, Debug, PartialEq, Eq)]
pub struct Advice;

/// Marks a column fixed by the circuit.
#[derive(Clone, Copy, Debug, PartialEq, Eq)]
pub struct Fixed;

/// Marks a column of public inputs.
#[derive(Clone, Copy, Debug, PartialEq, Eq)]
pub struct Instance;

/// The kind of a column whose kind is only known at run time.
#[derive(Clone, Copy, Debug, PartialEq, Eq)]
pub enum Any {
    Advice,
    Fixed,
    Instance,
}

/// A column of the circuit: its kind, and its index among the columns of
/// that kind.
#[derive(Clone, Copy, Debug, PartialEq, Eq)]
pub struct Column<C> {
    pub index: usize,
    pub column_type: C,
}

impl Column<Advice> {
    /// The column of index `index`.
    pub fn new(index: usize) -> (r: Self)
        ensures
            r == (Column { index, column_type: Advice }),
    {
        Column { index, column_type: Advice }
    }

    /// The same column, its kind moved from the type into the value.
    pub open spec fn any(self) -> Column<Any> {
        Column { index: self.index, column_type: Any::Advice }
    }

    /// The same column, its kind moved from the type into the value.
    pub fn into_any(self) -> (r: Column<Any>)
        ensures
            r == self.any(),
    {
        Column { index: self.index, column_type: Any::Advice }
    }
}

impl Column<Fixed> {
    /// The column of index `index`.
    pub fn new(index: usize) -> (r: Self)
        ensures
            r == (Column { index, column_type: Fixed }),
    {
        Column { index, column_type: Fixed }
    }

    /// The same column, its kind moved from the type into the value.
    pub open spec fn any(self) -> Column<Any> {
        Column { index: self.index, column_type: Any::Fixed }
    }

    /// The same column, its kind moved from the type into the value.
    pub fn into_any(self) -> (r: Column<Any>)
        ensures
            r == self.any(),
    {
        Column { index: self.index, column_type: Any::Fixed }
    }
}

impl Column<Instance> {
    /// The column of index `index`.
    pub fn new(index: usize) -> (r: Self)
        ensures
            r == (Column { index, column_type: Instance }),
    {
        Column { index, column_type: Instance }
    }

    /// The same column, its kind moved from the type into the value.
    pub open spec fn any(self) -> Column<Any> {
        Column { index: self.index, column_type: Any::Instance }
    }

    /// The same column, its kind moved from the type into the value.
    pub fn into_any(self) -> (r: Column<Any>)
        ensures
            r == self.any(),
    {
        Column { index: self.index, column_type: Any::Instance }
    }
}

impl Column<Any> {
    /// The column of index `index` among the columns of kind `column_type`.
    pub fn new(index: usize, column_type: Any) -> (r: Self)
        ensures
            r == (Column { index, column_type }),
    {
        Column { index, column_type }
    }

    /// Whether two columns are the same column.
    pub fn same(&self, other: &Self) -> (r: bool)
        ensures
            r == (*self == *other),
    {
        let same_type = match (self.column_type, other.column_type) {
            (Any::Advice, Any::Advice) => true,
            (Any::Fixed, Any::Fixed) => true,
            (Any::Instance, Any::Instance) => true,
            _ => false,
        };
        same_type && self.index == other.index
    }
}

/// A switch that turns a gate on, row by row.
#[derive(Clone, Copy, Debug, PartialEq, Eq)]
pub struct Selector(pub usize);

/// A fixed column that holds one column of a lookup table.
#[derive(Clone, Copy, Debug, PartialEq, Eq)]
pub struct TableColumn {
    pub inner: Column<Fixed>,
}

impl TableColumn {
    /// Whether two table columns are the same column.
    pub fn same(&self, other: &Self) -> (r: bool)
        ensures
            r == (*self == *other),
    {
        assert(self.inner.column_type == other.inner.column_type);
        self.inner.index == other.inner.index
    }
}

/// What a region can occupy rows of: a column, or a selector.
#[derive(Clone, Copy, Debug, PartialEq, Eq)]
pub enum RegionColumn {
    Column(Column<Any>),
    Selector(Selector),
}

impl RegionColumn {
    /// Whether two region columns are the same.
    pub fn same(&self, other: &Self) -> (r: bool)
        ensures
            r == (*self == *other),
    {
        match (self, other) {
            (RegionColumn::Column(a), RegionColumn::Column(b)) => a.same(b),
            (RegionColumn::Selector(a), RegionColumn::Selector(b)) => a.0 == b.0,
            _ => false,
        }
    }
}

/// The place of a region in the order in which the regions were declared.
#[derive(Clone, Copy, Debug, PartialEq, Eq)]
pub struct RegionIndex(pub usize);

/// The row of the circuit at which a region begins.
#[derive(Clone, Copy, Debug, PartialEq, Eq)]
pub struct RegionStart(pub usize);

/// A cell of a region: the region, the row counted from the region's start,
/// and the column.
#[derive(Clone, Copy, Debug, PartialEq, Eq)]
pub struct Cell {
    pub region_index: RegionIndex,
    pub row_offset: usize,
    pub column: Column<Any>,
}

/// A challenge squeezed from the transcript during synthesis.
#[derive(Clone, Copy, Debug, PartialEq, Eq)]
pub struct Challenge {
    pub index: usize,
    pub phase: u8,
}

/// One request made of the constraint system.
#[derive(Clone, Copy, Debug, PartialEq, Eq)]
pub enum Call<F> {
    EnterRegion,
    ExitRegion,
    EnableSelector { selector: Selector, row: usize },
    AnnotateColumn { column: Column<Any> },
    QueryInstance { column: Column<Instance>, row: usize },
    AssignAdvice { column: Column<Advice>, row: usize, value: Option<F> },
    AssignFixed { column: Column<Fixed>, row: usize, value: Option<F> },
    Copy { left_column: Column<Any>, left_row: usize, right_column: Column<Any>, right_row: usize },
    FillFromRow { column: Column<Fixed>, row: usize, value: Option<F> },
    PushNamespace,
    PopNamespace,
}

/// What the constraint system answered to a request.
#[derive(Clone, Copy, Debug, PartialEq, Eq)]
pub enum Reply<F> {
    /// The request was carried out.
    Done,
    /// The request was a query, and this is its result.
    Value(Option<F>),
    /// The request was refused.
    Failed(Error),
}

/// A request together with its answer.
#[derive(Clone, Copy, Debug, PartialEq, Eq)]
pub struct Exchange<F> {
    pub call: Call<F>,
    pub reply: Reply<F>,
}

/// The answer that stands for the result of a request: carried out, or
/// refused with an error.
pub open spec fn reply_of<F, T>(r: Result<T, Error>) -> Reply<F> {
    match r {
        Ok(_) => Reply::Done,
        Err(e) => Reply::Failed(e),
    }
}

/// The answer that stands for the result of a query.
pub open spec fn reply_of_query<F>(r: Result<Option<F>, Error>) -> Reply<F> {
    match r {
        Ok(v) => Reply::Value(v),
        Err(e) => Reply::Failed(e),
    }
}

/// The answer to the request before the `k`-th of `t`.
pub open spec fn previous_reply<F>(t: Seq<Exchange<F>>, k: int) -> Reply<F> {
    if 0 < k <= t.len() {
        t[k - 1].reply
    } else {
        Reply::Done
    }
}

/// The `k`-th request in `t` is the one that `plan` has in that place.
/// `plan` gives each request from its place and from the answer to the
/// request before it.
pub open spec fn planned<F>(
    t: Seq<Exchange<F>>,
    plan: spec_fn(int, Reply<F>) -> Call<F>,
    k: int,
) -> bool {
    t[k].call == plan(k, previous_reply(t, k))
}

/// The `k`-th request in `t` was not refused.
pub open spec fn accepted<F>(t: Seq<Exchange<F>>, k: int) -> bool {
    !(t[k].reply is Failed)
}

/// The requests in `t` are those that `plan` lists, in its order and from
/// its first, as far as `t` goes; and none but the last of them was
/// refused.
pub open spec fn follows<F>(t: Seq<Exchange<F>>, plan: spec_fn(int, Reply<F>) -> Call<F>) -> bool {
    &&& forall|k: int| 0 <= k < t.len() ==> #[trigger] planned(t, plan, k)
    &&& forall|k: int| 0 <= k < t.len() - 1 ==> #[trigger] accepted(t, k)
}

/// The last request in `t` was refused.
pub open spec fn refused<F>(t: Seq<Exchange<F>>) -> bool {
    t.len() > 0 && t.last().reply is Failed
}

/// The error with which the last request in `t` was refused.
pub open spec fn refusal<F>(t: Seq<Exchange<F>>) -> Error {
    t.last().reply->Failed_0
}

/// What was added to `before` to give `after`.
pub open spec fn added<F>(before: Seq<Exchange<F>>, after: Seq<Exchange<F>>) -> Seq<Exchange<F>> {
    after.skip(before.len() as int)
}

/// `after` is `before` with requests added at its end.
pub open spec fn extends<F>(before: Seq<Exchange<F>>, after: Seq<Exchange<F>>) -> bool {
    before.len() <= after.len() && after.take(before.len() as int) == before
}

/// Adding one request to a record that extends `before` extends `before`
/// by one request more.
pub proof fn lemma_added_push<F>(
    before: Seq<Exchange<F>>,
    mid: Seq<Exchange<F>>,
    x: Exchange<F>,
)
    requires
        extends(before, mid),
    ensures
        extends(before, mid.push(x)),
        added(before, mid.push(x)) == added(before, mid).push(x),
{
    assert(mid.push(x).take(before.len() as int) =~= mid.take(before.len() as int));
    assert(added(before, mid.push(x)) =~= added(before, mid).push(x));
}

/// Nothing was added to a record by doing nothing.
pub proof fn lemma_added_none<F>(before: Seq<Exchange<F>>)
    ensures
        extends(before, before),
        added(before, before) == Seq::<Exchange<F>>::empty(),
{
    assert(before.take(before.len() as int) =~= before);
    assert(added(before, before) =~= Seq::<Exchange<F>>::empty());
}

/// The record `first + second` follows `plan`, where `first` follows
/// `plan` to its `first.len()`-th request without a refusal, and `second`
/// follows `tail`, which is `plan` from there on.
pub proof fn lemma_follows_concat<F>(
    first: Seq<Exchange<F>>,
    second: Seq<Exchange<F>>,
    plan: spec_fn(int, Reply<F>) -> Call<F>,
    tail: spec_fn(int, Reply<F>) -> Call<F>,
)
    requires
        follows(first, plan),
        !refused(first),
        follows(second, tail),
        forall|j: int, prev: Reply<F>|
            0 <= j < second.len() ==> plan(first.len() + j, prev) == #[trigger] tail(j, prev),
        second.len() > 0 ==> forall|prev: Reply<F>| #[trigger] tail(0, prev) == tail(0, Reply::Done),
    ensures
        follows(first + second, plan),
        refused(first + second) == refused(second),
        refused(second) ==> refusal(first + second) == refusal(second),
{
    let t = first + second;
    assert forall|k: int| 0 <= k < t.len() implies #[trigger] planned(t, plan, k) by {
        if k < first.len() {
            assert(planned(first, plan, k));
            assert(t[k] == first[k]);
            if k > 0 {
                assert(t[k - 1] == first[k - 1]);
            }
        } else {
            let j = k - first.len();
            let prev = previous_reply(t, k);
            assert(planned(second, tail, j));
            assert(t[k] == second[j]);
            assert(plan(first.len() + j, prev) == tail(j, prev));
            if j > 0 {
                assert(t[k - 1] == second[j - 1]);
                assert(prev == previous_reply(second, j));
            } else {
                assert(tail(0, prev) == tail(0, Reply::Done));
                assert(previous_reply(second, 0) == Reply::<F>::Done);
            }
        }
    }
    assert forall|k: int| 0 <= k < t.len() - 1 implies #[trigger] accepted(t, k) by {
        if k < first.len() {
            assert(t[k] == first[k]);
            if k < first.len() - 1 {
                assert(accepted(first, k));
            }
        } else {
            assert(t[k] == second[k - first.len()]);
            assert(accepted(second, k - first.len()));
        }
    }
    if second.len() > 0 {
        assert(t.last() == second.last());
    }
}

/// What was added to `before` to give `after` is what was added to give
/// `mid`, and then what was added to `mid`.
pub proof fn lemma_added_concat<F>(
    before: Seq<Exchange<F>>,
    mid: Seq<Exchange<F>>,
    after: Seq<Exchange<F>>,
)
    requires
        extends(before, mid),
        extends(mid, after),
    ensures
        extends(before, after),
        added(before, after) == added(before, mid) + added(mid, after),
{
    assert(after.take(before.len() as int) =~= mid.take(before.len() as int)) by {
        assert(after.take(mid.len() as int) == mid);
        assert forall|i: int| 0 <= i < before.len() implies after[i] == mid[i] by {
            assert(after.take(mid.len() as int)[i] == after[i]);
        }
    }
    assert(added(before, after) =~= added(before, mid) + added(mid, after)) by {
        assert forall|i: int| 0 <= i < after.len() - before.len() implies added(before, after)[i]
            == (added(before, mid) + added(mid, after))[i] by {
            if i + before.len() < mid.len() {
                assert(after.take(mid.len() as int)[i + before.len()] == after[i + before.len()]);
            }
        }
    }
}

/// A record that grew by one request.
pub proof fn lemma_added_one<F>(before: Seq<Exchange<F>>, x: Exchange<F>)
    ensures
        extends(before, before.push(x)),
        added(before, before.push(x)) == seq![x],
{
    lemma_added_none(before);
    lemma_added_push(before, before, x);
    assert(added(before, before.push(x)) =~= seq![x]);
}

/// A record that follows a plan still follows it with the plan's next
/// request added.
pub proof fn lemma_follows_push<F>(
    t: Seq<Exchange<F>>,
    x: Exchange<F>,
    plan: spec_fn(int, Reply<F>) -> Call<F>,
)
    requires
        follows(t, plan),
        !refused(t),
        x.call == plan(t.len() as int, previous_reply(t, t.len() as int)),
    ensures
        follows(t.push(x), plan),
{
    let u = t.push(x);
    assert forall|k: int| 0 <= k < u.len() implies #[trigger] planned(u, plan, k) by {
        if k < t.len() {
            assert(planned(t, plan, k));
            assert(u[k] == t[k]);
            if k > 0 {
                assert(u[k - 1] == t[k - 1]);
            }
        } else if k > 0 {
            assert(u[k - 1] == t[k - 1]);
        }
    }
    assert forall|k: int| 0 <= k < u.len() - 1 implies #[trigger] accepted(u, k) by {
        assert(u[k] == t[k]);
        if k < t.len() - 1 {
            assert(accepted(t, k));
        }
    }
}

/// The constraint system that a floor planner drives. It is modelled by the
/// requests it has received so far, each with the answer it gave: which
/// requests it refuses is its own business.
pub trait Assignment<F>: Sized {
    /// Every request received so far, oldest first, with its answer. A
    /// constraint system that is not verified need not say.
    open spec fn exchanges(&self) -> Seq<Exchange<F>> {
        arbitrary()
    }

    /// The value of a challenge, if it is known yet.
    open spec fn challenge_value(&self, challenge: Challenge) -> Option<F> {
        arbitrary()
    }

    /// Begins the region `name`: what is assigned from here on belongs to
    /// it.
    fn enter_region(&mut self, name: &str)
        ensures
            final(self).exchanges() == old(self).exchanges().push(
                Exchange { call: Call::EnterRegion, reply: Reply::Done },
            ),
    ;

    /// Ends the region that was begun last.
    fn exit_region(&mut self)
        ensures
            final(self).exchanges() == old(self).exchanges().push(
                Exchange { call: Call::ExitRegion, reply: Reply::Done },
            ),
    ;

    /// Turns `selector` on at `row`.
    fn enable_selector(&mut self, selector: Selector, row: usize) -> (r: Result<(), Error>)
        ensures
            final(self).exchanges() == old(self).exchanges().push(
                Exchange { call: Call::EnableSelector { selector, row }, reply: reply_of(r) },
            ),
    ;

    /// Gives `column` a name for diagnostics.
    fn annotate_column(&mut self, column: Column<Any>)
        ensures
            final(self).exchanges() == old(self).exchanges().push(
                Exchange { call: Call::AnnotateColumn { column }, reply: Reply::Done },
            ),
    ;

    /// Asks for the value at `row` of the instance column `column`.
    fn query_instance(&mut self, column: Column<Instance>, row: usize) -> (r: Result<
        Option<F>,
        Error,
    >)
        ensures
            final(self).exchanges() == old(self).exchanges().push(
                Exchange { call: Call::QueryInstance { column, row }, reply: reply_of_query(r) },
            ),
    ;

    /// Assigns `to` to `row` of the advice column `column`.
    fn assign_advice(&mut self, column: Column<Advice>, row: usize, to: Option<F>) -> (r: Result<
        (),
        Error,
    >)
        ensures
            final(self).exchanges() == old(self).exchanges().push(
                Exchange {
                    call: Call::AssignAdvice { column, row, value: to },
                    reply: reply_of(r),
                },
            ),
    ;

    /// Assigns `to` to `row` of the fixed column `column`.
    fn assign_fixed(&mut self, column: Column<Fixed>, row: usize, to: Option<F>) -> (r: Result<
        (),
        Error,
    >)
        ensures
            final(self).exchanges() == old(self).exchanges().push(
                Exchange { call: Call::AssignFixed { column, row, value: to }, reply: reply_of(r) },
            ),
    ;

    /// Constrains the cell at `left_row` of `left_column` to equal the cell
    /// at `right_row` of `right_column`.
    fn copy(
        &mut self,
        left_column: Column<Any>,
        left_row: usize,
        right_column: Column<Any>,
        right_row: usize,
    ) -> (r: Result<(), Error>)
        ensures
            final(self).exchanges() == old(self).exchanges().push(
                Exchange {
                    call: Call::Copy { left_column, left_row, right_column, right_row },
                    reply: reply_of(r),
                },
            ),
    ;

    /// Fills the fixed column `column` from `row` on with `to`.
    fn fill_from_row(&mut self, column: Column<Fixed>, row: usize, to: Option<F>) -> (r: Result<
        (),
        Error,
    >)
        ensures
            final(self).exchanges() == old(self).exchanges().push(
                Exchange { call: Call::FillFromRow { column, row, value: to }, reply: reply_of(r) },
            ),
    ;

    /// The value of `challenge`, if it is known yet.
    fn get_challenge(&self, challenge: Challenge) -> (r: Option<F>)
        ensures
            r == self.challenge_value(challenge),
    ;

    /// Opens the namespace `name` for diagnostics.
    fn push_namespace(&mut self, name: &str)
        ensures
            final(self).exchanges() == old(self).exchanges().push(
                Exchange { call: Call::PushNamespace, reply: Reply::Done },
            ),
    ;

    /// Closes the namespace that was opened last.
    fn pop_namespace(&mut self, gadget_name: Option<String>)
        ensures
            final(self).exchanges() == old(self).exchanges().push(
                Exchange { call: Call::PopNamespace, reply: Reply::Done },
            ),
    ;
}

} // verus!
