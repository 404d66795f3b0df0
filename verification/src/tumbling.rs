//! Tumbling windows: fixed-size windows that follow one another without
//! overlap.

use crate::buffer::{stored, Contents, WindowBuffer};
use crate::records::{all_records, ascending_by_time, kept_from, records_below, take_below};
use crate::watermark::Watermark;
use crate::window::{armed, closes, gather, EmitResult, Window};
use std::collections::HashMap;
use vstd::prelude::*;
use vstd::std_specs::iter::IteratorSpec;

verus! {

/// The boundary that lies `size` after `time`; none where that is beyond the
/// greatest time.
pub open spec fn step(size: u64, time: u64) -> Option<u64> {
    if size + time <= u64::MAX {
        Some((size + time) as u64)
    } else {
        None
    }
}

/// The greatest time seen once data at `time` has arrived.
pub open spec fn newer(newest: Option<u64>, time: u64) -> Option<u64> {
    match newest {
        Some(seen) if seen >= time => newest,
        _ => Some(time),
    }
}

/// Whether the data seen so far shows that the window at `boundary` is
/// complete: a time beyond the boundary has been seen.
pub open spec fn closes_by_data(boundary: Option<u64>, newest: Option<u64>) -> bool {
    boundary matches Some(b) && newest matches Some(seen) && seen > b
}

/// `PathSummary::results_in` on `u64`, where a summary is added to a time:
/// the sum, or nothing where the sum overflows.
#[verifier::external_body]
fn results_in(size: &u64, time: &u64) -> (next: Option<u64>)
    ensures
        next == step(*size, *time),
{
    timely::progress::PathSummary::results_in(size, time)
}

/// What a tumbling policy is at one moment.
pub struct TumblingState<D> {
    /// The size of each window.
    pub size: u64,
    /// The boundary at which the next window closes, once armed.
    pub boundary: Option<u64>,
    /// The greatest time of any data given so far.
    pub newest: Option<u64>,
    /// What is buffered.
    pub buffered: Contents<D>,
}

impl<D> TumblingState<D> {
    /// The state at the start: nothing buffered, nothing seen, and the
    /// boundary one size after the initial time, if there is one.
    pub open spec fn initial(size: u64, init_time: Option<u64>) -> Self {
        TumblingState {
            size,
            boundary: match init_time {
                Some(t) => step(size, t),
                None => None,
            },
            newest: None,
            buffered: Map::empty(),
        }
    }

    /// Whether data at `time` can be taken: there is a boundary, or one lies
    /// a size after `time`.
    pub open spec fn takes(self, time: u64) -> bool {
        armed(self.boundary, step(self.size, time)) is Some
    }

    /// The state once `data` was given at `time`.
    pub open spec fn given(self, time: u64, data: Seq<D>) -> Self {
        TumblingState {
            size: self.size,
            boundary: armed(self.boundary, step(self.size, time)),
            newest: newer(self.newest, time),
            buffered: stored(self.buffered, time, data),
        }
    }

    /// The records of the window at the present boundary.
    pub open spec fn window(self) -> Seq<(u64, D)> {
        records_below(self.buffered, self.boundary->0 as int)
    }

    /// The state once the window at the present boundary has closed.
    pub open spec fn closed(self) -> Self {
        TumblingState {
            size: self.size,
            boundary: step(self.size, self.boundary->0),
            newest: self.newest,
            buffered: kept_from(self.buffered, self.boundary->0 as int),
        }
    }

    /// What `try_emit` returns under a frontier with these elements.
    pub open spec fn emits(self, frontier: Seq<u64>) -> Option<(u64, Seq<(u64, D)>)> {
        if closes(self.boundary, frontier) {
            Some((self.boundary->0, self.window()))
        } else {
            None
        }
    }

    /// The state after `try_emit` under a frontier with these elements.
    pub open spec fn after_emit(self, frontier: Seq<u64>) -> Self {
        if closes(self.boundary, frontier) {
            self.closed()
        } else {
            self
        }
    }

    /// What `try_emit_by_data` returns.
    pub open spec fn emits_by_data(self) -> Option<(u64, Seq<(u64, D)>)> {
        if closes_by_data(self.boundary, self.newest) {
            Some((self.boundary->0, self.window()))
        } else {
            None
        }
    }

    /// The state after `try_emit_by_data`.
    pub open spec fn after_emit_by_data(self) -> Self {
        if closes_by_data(self.boundary, self.newest) {
            self.closed()
        } else {
            self
        }
    }

    /// What `drain` returns.
    pub open spec fn drains(self) -> Option<(u64, Seq<(u64, D)>)> {
        if self.boundary is Some && all_records(self.buffered).len() > 0 {
            Some((self.boundary->0, all_records(self.buffered)))
        } else {
            None
        }
    }

    /// The state after `drain`.
    pub open spec fn drained(self) -> Self {
        if self.boundary is Some {
            TumblingState {
                size: self.size,
                boundary: self.boundary,
                newest: self.newest,
                buffered: Map::empty(),
            }
        } else {
            self
        }
    }
}

/// A closed window as a plain value: its boundary and its records.
pub open spec fn emit_view<D>(emitted: Option<(u64, Vec<(u64, D)>)>) -> Option<
    (u64, Seq<(u64, D)>),
> {
    match emitted {
        Some((boundary, batch)) => Some((boundary, batch@)),
        None => None,
    }
}

/// A policy of windows of one fixed size. The first boundary lies one size
/// after the initial time, or after the time of the first data; each closed
/// boundary is followed by the one a size later.
pub struct TumblingWindow<B: WindowBuffer> {
    size: u64,
    emit_time: Option<u64>,
    buffer: B,
    max_time: Option<u64>,
}

impl<D> TumblingWindow<HashMap<u64, Vec<D>>> {
    /// A policy with an empty buffer. With an initial time the boundary is
    /// armed at once.
    pub fn new(size: u64, init_time: Option<u64>) -> (window: Self)
        requires
            init_time matches Some(t) ==> step(size, t) is Some,
        ensures
            window@ == TumblingState::<D>::initial(size, init_time),
    {
        let buffer: HashMap<u64, Vec<D>> = HashMap::new();
        assert(buffer.contents() =~= Map::<u64, Seq<D>>::empty());
        Self::new_with_buffer(size, init_time, buffer)
    }
}

impl<B: WindowBuffer> TumblingWindow<B> {
    /// The policy as a plain value.
    pub closed spec fn view(&self) -> TumblingState<B::Datum> {
        TumblingState {
            size: self.size,
            boundary: self.emit_time,
            newest: self.max_time,
            buffered: self.buffer.contents(),
        }
    }

    /// A policy over the given buffer, with what it holds. With an initial
    /// time the boundary is armed at once.
    pub fn new_with_buffer(size: u64, init_time: Option<u64>, buffer: B) -> (window: Self)
        requires
            init_time matches Some(t) ==> step(size, t) is Some,
        ensures
            window@ == (TumblingState {
                buffered: buffer.contents(),
                ..TumblingState::<B::Datum>::initial(size, init_time)
            }),
    {
        let emit_time = match init_time {
            Some(t) => Some(results_in(&size, &t).unwrap()),
            None => None,
        };
        TumblingWindow { size, emit_time, buffer, max_time: None }
    }

    /// Closes the window at the present boundary as `try_emit` does, but
    /// judges by the data alone: the window closes once a time beyond the
    /// boundary has been given. For hosts that track no frontier.
    pub fn try_emit_by_data(&mut self) -> (emitted: EmitResult<B>)
        requires
            closes_by_data(old(self)@.boundary, old(self)@.newest) ==> step(
                old(self)@.size,
                old(self)@.boundary->0,
            ) is Some,
        ensures
            emit_view(emitted) == old(self)@.emits_by_data(),
            emitted matches Some((_, batch)) ==> ascending_by_time(batch@),
            final(self)@ == old(self)@.after_emit_by_data(),
    {
        let emit_time = match self.emit_time {
            Some(t) => t,
            None => { return None; },
        };
        let seen = match self.max_time {
            Some(t) => t,
            None => { return None; },
        };
        if seen <= emit_time {
            return None;
        }
        Some(self.close(emit_time))
    }

    /// Takes the window at `emit_time` out of the buffer and moves the
    /// boundary on.
    fn close(&mut self, emit_time: u64) -> (emitted: (u64, Vec<(u64, B::Datum)>))
        requires
            old(self)@.boundary == Some(emit_time),
            step(old(self)@.size, emit_time) is Some,
        ensures
            emitted.0 == emit_time,
            emitted.1@ == old(self)@.window(),
            ascending_by_time(emitted.1@),
            final(self)@ == old(self)@.closed(),
    {
        let data = take_below(&mut self.buffer, Some(emit_time));
        self.emit_time = Some(results_in(&self.size, &emit_time).unwrap());
        (emit_time, data)
    }
}

impl<B: WindowBuffer> Window<B> for TumblingWindow<B> {
    open spec fn buffered(&self) -> Contents<B::Datum> {
        self@.buffered
    }

    open spec fn boundary(&self) -> Option<u64> {
        self@.boundary
    }

    open spec fn advance(&self, time: u64) -> Option<u64> {
        step(self@.size, time)
    }

    fn emit_boundary(&self) -> (boundary: Option<u64>) {
        self.emit_time
    }

    fn step_from(&self, time: &u64) -> (next: Option<u64>) {
        results_in(&self.size, time)
    }

    fn buffer(&mut self) -> (buffer: &mut B)
        ensures
            final(self)@ == (TumblingState { buffered: final(buffer).contents(), ..old(self)@ }),
    {
        &mut self.buffer
    }

    fn on_new_data(&mut self, time: &u64, data: &Vec<B::Datum>)
        ensures
            final(self)@ == (TumblingState {
                buffered: old(self)@.buffered,
                ..old(self)@.given(*time, data@)
            }),
    {
        if self.emit_time.is_none() {
            self.emit_time = Some(results_in(&self.size, time).unwrap());
        }
        match self.max_time {
            Some(seen) if seen >= *time => {},
            _ => {
                self.max_time = Some(*time);
            },
        }
    }

    fn give(&mut self, time: u64, datum: B::Datum)
        ensures
            final(self)@ == old(self)@.given(time, seq![datum]),
    {
        let mut data: Vec<B::Datum> = Vec::new();
        data.push(datum);
        assert(data@ =~= seq![datum]);
        self.give_vec(time, data)
    }

    fn give_iterator<I: Iterator<Item = B::Datum>>(&mut self, time: u64, iter: I)
        ensures
            final(self)@ == old(self)@.given(time, iter.remaining()),
    {
        let data = gather(iter);
        self.give_vec(time, data)
    }

    fn give_vec(&mut self, time: u64, data: Vec<B::Datum>)
        ensures
            final(self)@ == old(self)@.given(time, data@),
    {
        self.on_new_data(&time, &data);
        self.buffer().store(time, data);
    }

    fn try_emit(&mut self, watermark: Watermark) -> (emitted: EmitResult<B>)
        ensures
            emit_view(emitted) == old(self)@.emits(watermark@),
            final(self)@ == old(self)@.after_emit(watermark@),
    {
        let emit_time = match self.emit_time {
            Some(t) => t,
            None => { return None; },
        };
        if watermark.less_equal(&emit_time) {
            return None;
        }
        Some(self.close(emit_time))
    }

    fn drain(&mut self) -> (emitted: EmitResult<B>)
        ensures
            emit_view(emitted) == old(self)@.drains(),
            final(self)@ == old(self)@.drained(),
    {
        let emit_time = match self.emit_time {
            Some(t) => t,
            None => { return None; },
        };
        let reserved = take_below(&mut self.buffer, None);
        assert(self.buffer.contents() =~= Map::<u64, Seq<B::Datum>>::empty());
        if reserved.len() == 0 {
            return None;
        }
        Some((emit_time, reserved))
    }
}

} // verus!
