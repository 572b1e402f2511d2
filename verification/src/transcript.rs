//! The transcript as the arguments see it: an ordered channel of points
//! and scalars. A transcript is modelled by what was read from it, or
//! written to it, so far: the order on the wire is the order of that
//! record.

use vstd::prelude::*;

verus! {

/// One attempt to read from a transcript: what was asked for, and the
/// value that came, if one came.
#[derive(Clone, Copy, Debug, PartialEq, Eq)]
pub enum Read<C, F> {
    Point(Option<C>),
    Scalar(Option<F>),
}

/// One attempt to write to a transcript: what was handed over, and whether
/// it was accepted.
#[derive(Clone, Copy, Debug, PartialEq, Eq)]
pub enum Written<C, F> {
    Point(C, bool),
    Scalar(F, bool),
}

/// What a result of reading holds, as an option.
pub open spec fn got<T>(r: Result<T, ()>) -> Option<T> {
    match r {
        Ok(v) => Some(v),
        Err(_) => None,
    }
}

/// `after` is `before` with attempts added at its end.
pub open spec fn continues<T>(before: Seq<T>, after: Seq<T>) -> bool {
    before.len() <= after.len() && after.take(before.len() as int) == before
}

/// What was added to `before` to give `after`.
pub open spec fn grown<T>(before: Seq<T>, after: Seq<T>) -> Seq<T> {
    after.skip(before.len() as int)
}

/// A record continues itself, with nothing added.
pub proof fn lemma_grown_none<T>(before: Seq<T>)
    ensures
        continues(before, before),
        grown(before, before) == Seq::<T>::empty(),
{
    assert(before.take(before.len() as int) =~= before);
    assert(grown(before, before) =~= Seq::<T>::empty());
}

/// Adding one attempt to a record that continues `before` continues
/// `before` by one attempt more.
pub proof fn lemma_grown_push<T>(before: Seq<T>, mid: Seq<T>, x: T)
    requires
        continues(before, mid),
    ensures
        continues(before, mid.push(x)),
        grown(before, mid.push(x)) == grown(before, mid).push(x),
{
    assert(mid.push(x).take(before.len() as int) =~= mid.take(before.len() as int));
    assert(grown(before, mid.push(x)) =~= grown(before, mid).push(x));
}

/// The transcript of a proof that is being verified.
pub trait TranscriptRead<C, F>: Sized {
    /// Every attempt to read so far, oldest first.
    open spec fn reads(&self) -> Seq<Read<C, F>> {
        arbitrary()
    }

    /// Reads a point.
    fn read_point(&mut self) -> (r: Result<C, ()>)
        ensures
            final(self).reads() == old(self).reads().push(Read::Point(got(r))),
    ;

    /// Reads a scalar.
    fn read_scalar(&mut self) -> (r: Result<F, ()>)
        ensures
            final(self).reads() == old(self).reads().push(Read::Scalar(got(r))),
    ;
}

/// The transcript of a proof that is being created.
pub trait TranscriptWrite<C, F>: Sized {
    /// Every attempt to write so far, oldest first.
    open spec fn writes(&self) -> Seq<Written<C, F>> {
        arbitrary()
    }

    /// Writes a point.
    fn write_point(&mut self, point: C) -> (r: Result<(), ()>)
        ensures
            final(self).writes() == old(self).writes().push(Written::Point(point, r is Ok)),
    ;

    /// Writes a scalar.
    fn write_scalar(&mut self, scalar: F) -> (r: Result<(), ()>)
        ensures
            final(self).writes() == old(self).writes().push(Written::Scalar(scalar, r is Ok)),
    ;
}

} // verus!
