//! The interface of a window policy: what decides when buffered records
//! leave, and which.

use crate::buffer::{stored, Contents, WindowBuffer};
use crate::records::{all_records, ascending_by_time, kept_from, records_below};
use crate::watermark::{some_at_or_below, Watermark};
use vstd::prelude::*;
use vstd::std_specs::iter::IteratorSpec;

verus! {

/// A closed window: its boundary, and the records that leave with it.
pub type EmitResult<B> = Option<(u64, Vec<(u64, <B as WindowBuffer>::Datum)>)>;

/// The boundary after data was seen: an unset boundary is armed with the
/// step from the data's time, a set one stays.
pub open spec fn armed(boundary: Option<u64>, step: Option<u64>) -> Option<u64> {
    if boundary is Some {
        boundary
    } else {
        step
    }
}

/// Whether the window at `boundary` closes under a frontier with these
/// elements: there is a boundary, and nothing at or below it can still
/// arrive.
pub open spec fn closes(boundary: Option<u64>, frontier: Seq<u64>) -> bool {
    boundary matches Some(b) && !some_at_or_below(frontier, b)
}

/// Everything that comes out of an iterator that ends, in its order.
pub fn gather<I: Iterator>(iter: I) -> (data: Vec<I::Item>)
    requires
        iter.obeys_prophetic_iter_laws(),
        iter.decrease() is Some,
    ensures
        data@ == iter.remaining(),
{
    let ghost all = iter.remaining();
    let mut iter = iter;
    let mut data: Vec<I::Item> = Vec::new();
    loop
        invariant
            iter.obeys_prophetic_iter_laws(),
            iter.decrease() is Some,
            data@ + iter.remaining() == all,
        ensures
            data@ == all,
        decreases iter.decrease()->0,
    {
        let ghost rest = iter.remaining();
        match iter.next() {
            Some(datum) => {
                data.push(datum);
                assert(data@ + iter.remaining() =~= all);
            },
            None => {
                assert(data@ + rest =~= data@);
                break ;
            },
        }
    }
    data
}

/// A window policy over a buffer of type `B`.
///
/// A policy owns the buffer and a boundary, the time at which the next
/// window closes. The boundary is unset until the policy is armed.
pub trait Window<B: WindowBuffer> {
    /// What the policy's buffer holds.
    spec fn buffered(&self) -> Contents<B::Datum>;

    /// The boundary at which the next window closes, once there is one.
    spec fn boundary(&self) -> Option<u64>;

    /// The policy's step: the boundary that follows `time`, if there is one.
    /// The first data arms the boundary with the step from its time, and a
    /// closed boundary is replaced by the step from itself.
    spec fn advance(&self, time: u64) -> Option<u64>;

    /// The present boundary.
    fn emit_boundary(&self) -> (boundary: Option<u64>)
        ensures
            boundary == self.boundary(),
    ;

    /// One step of the policy from `time`.
    fn step_from(&self, time: &u64) -> (next: Option<u64>)
        ensures
            next == self.advance(*time),
    ;

    /// The buffer, for storing into it.
    fn buffer(&mut self) -> (buffer: &mut B)
        ensures
            buffer.contents() == old(self).buffered(),
            final(self).buffered() == final(buffer).contents(),
            final(self).boundary() == old(self).boundary(),
            forall|t: u64| final(self).advance(t) == old(self).advance(t),
    ;

    /// Called with each batch of new data before it is stored: arms the
    /// boundary if it is unset, and leaves the buffer alone.
    fn on_new_data(&mut self, time: &u64, data: &Vec<B::Datum>)
        requires
            armed(old(self).boundary(), old(self).advance(*time)) is Some,
        ensures
            final(self).buffered() == old(self).buffered(),
            final(self).boundary() == armed(old(self).boundary(), old(self).advance(*time)),
            forall|t: u64| final(self).advance(t) == old(self).advance(t),
    ;

    /// Provides one record with its time.
    fn give(&mut self, time: u64, datum: B::Datum)
        requires
            armed(old(self).boundary(), old(self).advance(time)) is Some,
        ensures
            final(self).buffered() == stored(old(self).buffered(), time, seq![datum]),
            final(self).boundary() == armed(old(self).boundary(), old(self).advance(time)),
            forall|t: u64| final(self).advance(t) == old(self).advance(t),
    {
        let mut data: Vec<B::Datum> = Vec::new();
        data.push(datum);
        assert(data@ =~= seq![datum]);
        self.give_vec(time, data)
    }

    /// Provides the records of one time as they come out of an iterator
    /// that ends.
    fn give_iterator<I: Iterator<Item = B::Datum>>(&mut self, time: u64, iter: I)
        requires
            armed(old(self).boundary(), old(self).advance(time)) is Some,
            iter.obeys_prophetic_iter_laws(),
            iter.decrease() is Some,
        ensures
            final(self).buffered() == stored(old(self).buffered(), time, iter.remaining()),
            final(self).boundary() == armed(old(self).boundary(), old(self).advance(time)),
            forall|t: u64| final(self).advance(t) == old(self).advance(t),
    {
        let data = gather(iter);
        self.give_vec(time, data)
    }

    /// Provides the records of one time: the policy is told of them, then
    /// they are stored.
    fn give_vec(&mut self, time: u64, data: Vec<B::Datum>)
        requires
            armed(old(self).boundary(), old(self).advance(time)) is Some,
        ensures
            final(self).buffered() == stored(old(self).buffered(), time, data@),
            final(self).boundary() == armed(old(self).boundary(), old(self).advance(time)),
            forall|t: u64| final(self).advance(t) == old(self).advance(t),
    {
        self.on_new_data(&time, &data);
        self.buffer().store(time, data);
    }

    /// Closes the window at the present boundary once the frontier has
    /// passed it: every record buffered strictly below the boundary leaves,
    /// ascending by time, and the boundary moves on by one step.
    fn try_emit(&mut self, watermark: Watermark) -> (emitted: EmitResult<B>)
        requires
            closes(old(self).boundary(), watermark@) ==> old(self).advance(
                old(self).boundary()->0,
            ) is Some,
        ensures
            emitted is Some <==> closes(old(self).boundary(), watermark@),
            forall|t: u64| final(self).advance(t) == old(self).advance(t),
            match emitted {
                Some((boundary, batch)) => {
                    &&& old(self).boundary() == Some(boundary)
                    &&& batch@ == records_below(old(self).buffered(), boundary as int)
                    &&& ascending_by_time(batch@)
                    &&& final(self).buffered() == kept_from(old(self).buffered(), boundary as int)
                    &&& final(self).boundary() == old(self).advance(boundary)
                    &&& final(self).boundary()->0 >= boundary
                },
                None => {
                    &&& final(self).buffered() == old(self).buffered()
                    &&& final(self).boundary() == old(self).boundary()
                },
            },
    ;

    /// Takes out everything that is still buffered, once the input has
    /// ended: all records ascending by time, under the present boundary.
    /// Nothing comes out of an unarmed policy, or of an empty buffer.
    fn drain(&mut self) -> (emitted: EmitResult<B>)
        ensures
            final(self).boundary() == old(self).boundary(),
            forall|t: u64| final(self).advance(t) == old(self).advance(t),
            emitted is Some <==> old(self).boundary() is Some && all_records(
                old(self).buffered(),
            ).len() > 0,
            emitted matches Some((boundary, batch)) ==> old(self).boundary() == Some(boundary)
                && batch@ == all_records(old(self).buffered()) && ascending_by_time(batch@),
            final(self).buffered() == if old(self).boundary() is Some {
                Map::<u64, Seq<B::Datum>>::empty()
            } else {
                old(self).buffered()
            },
    ;
}

} // verus!
