//! The operator that feeds one input stream to a window policy and hands the
//! closed windows downstream, one scheduling step at a time.

use crate::buffer::{
    entries_nonempty, lemma_stored_entries_nonempty, stored, Contents, WindowBuffer,
};
use crate::records::{
    all_records, ascending, end_of_time, kept_from, lemma_records_skip, ready_times,
    records_below,
};
use crate::watermark::{some_at_or_below, Watermark};
use crate::window::{armed, closes, Window};
use std::collections::HashMap;
use vstd::prelude::*;

verus! {

/// A closed window as it travels downstream: the records with their times.
pub type Batch<D> = Vec<(u64, D)>;

/// The pending batches: for each output time the records that wait for it.
pub type Stash<D> = HashMap<u64, Batch<D>>;

/// The batches with their output times, each batch as a sequence.
pub open spec fn batch_views<D>(batches: Seq<(u64, Batch<D>)>) -> Seq<(u64, Seq<(u64, D)>)> {
    Seq::new(batches.len(), |i: int| (batches[i].0, batches[i].1@))
}

/// The stashed batches with an output time strictly below `bound` that the
/// frontier has passed, ascending by output time.
pub open spec fn passed_batches<D>(
    stash: Contents<(u64, D)>,
    frontier: Seq<u64>,
    bound: int,
) -> Seq<(u64, Seq<(u64, D)>)>
    decreases bound,
{
    if bound <= 0 {
        Seq::empty()
    } else {
        let last = (bound - 1) as u64;
        let before = passed_batches(stash, frontier, bound - 1);
        if stash.contains_key(last) && !some_at_or_below(frontier, last) {
            before.push((last, stash[last]))
        } else {
            before
        }
    }
}

/// What stays stashed: the batches whose output time the frontier has not
/// passed, or that lie at or beyond `bound`.
pub open spec fn still_waiting<D>(
    stash: Contents<(u64, D)>,
    frontier: Seq<u64>,
    bound: int,
) -> Contents<(u64, D)> {
    Map::new(
        |t: u64| stash.contains_key(t) && (some_at_or_below(frontier, t) || t >= bound),
        |t: u64| stash[t],
    )
}

/// Output times that hold nothing add nothing to the passed batches.
proof fn lemma_passed_skip<D>(stash: Contents<(u64, D)>, frontier: Seq<u64>, lo: int, hi: int)
    requires
        0 <= lo <= hi <= end_of_time(),
        forall|t: u64| lo <= t < hi ==> !stash.contains_key(t),
    ensures
        passed_batches(stash, frontier, hi) == passed_batches(stash, frontier, lo),
    decreases hi - lo,
{
    if lo < hi {
        lemma_passed_skip(stash, frontier, lo, hi - 1);
        assert(!stash.contains_key((hi - 1) as u64));
    }
}

/// The passed batches come in strictly ascending order of their output
/// times, and each is a stashed batch whose time the frontier has passed.
pub proof fn lemma_passed_batches_ascend<D>(
    stash: Contents<(u64, D)>,
    frontier: Seq<u64>,
    bound: int,
)
    requires
        0 <= bound <= end_of_time(),
    ensures
        forall|i: int, j: int|
            0 <= i < j < passed_batches(stash, frontier, bound).len() ==> passed_batches(
                stash,
                frontier,
                bound,
            )[i].0 < passed_batches(stash, frontier, bound)[j].0,
        forall|i: int|
            0 <= i < passed_batches(stash, frontier, bound).len() ==> {
                let sent = #[trigger] passed_batches(stash, frontier, bound)[i];
                &&& sent.0 < bound
                &&& stash.contains_key(sent.0)
                &&& sent.1 == stash[sent.0]
                &&& !some_at_or_below(frontier, sent.0)
            },
    decreases bound,
{
    if bound > 0 {
        lemma_passed_batches_ascend(stash, frontier, bound - 1);
        let before = passed_batches(stash, frontier, bound - 1);
        let all = passed_batches(stash, frontier, bound);
        assert forall|i: int| 0 <= i < all.len() implies {
            let sent = #[trigger] all[i];
            &&& sent.0 < bound
            &&& stash.contains_key(sent.0)
            &&& sent.1 == stash[sent.0]
            &&& !some_at_or_below(frontier, sent.0)
        } by {
            if i < before.len() {
                assert(all[i] == before[i]);
            }
        }
        assert forall|i: int, j: int| 0 <= i < j < all.len() implies all[i].0 < all[j].0 by {
            assert(all[i] == before[i]);
            if j < before.len() {
                assert(all[j] == before[j]);
            }
        }
    }
}

/// Takes every batch whose output time the frontier has passed out of the
/// stash, ascending by output time.
pub fn flush<D>(stash: &mut Stash<D>, watermark: &Watermark) -> (send: Vec<(u64, Batch<D>)>)
    ensures
        batch_views(send@) == passed_batches(
            old(stash).contents(),
            watermark@,
            end_of_time(),
        ),
        final(stash).contents() == still_waiting(
            old(stash).contents(),
            watermark@,
            end_of_time(),
        ),
{
    let ghost orig = stash.contents();
    let ghost frontier = watermark@;
    let times = ready_times(stash, None);
    let mut send: Vec<(u64, Batch<D>)> = Vec::new();
    let ghost mut done: int = 0;
    assert(stash.contents() =~= still_waiting(orig, frontier, 0));
    assert(batch_views(send@) =~= passed_batches(orig, frontier, 0));
    for i in 0..times.len()
        invariant
            frontier == watermark@,
            ascending(times@),
            times@.no_duplicates(),
            forall|t: u64| times@.contains(t) <==> orig.contains_key(t),
            0 <= done <= end_of_time(),
            forall|k: int| 0 <= k < i ==> times@[k] < done,
            forall|k: int| i <= k < times@.len() ==> times@[k] >= done,
            batch_views(send@) == passed_batches(orig, frontier, done),
            stash.contents() == still_waiting(orig, frontier, done),
    {
        let time = times[i];
        proof {
            assert(times@.contains(time));
            assert forall|t: u64| done <= t < time implies !orig.contains_key(t) by {
                if orig.contains_key(t) {
                    assert(times@.contains(t));
                }
            }
            lemma_passed_skip(orig, frontier, done, time as int);
            assert(still_waiting(orig, frontier, done) =~= still_waiting(
                orig,
                frontier,
                time as int,
            ));
        }
        if !watermark.less_equal(&time) {
            let ghost sent = send@;
            match WindowBuffer::remove(stash, &time) {
                Some(batch) => {
                    send.push((time, batch));
                    assert(batch_views(send@) =~= batch_views(sent).push((time, batch@)));
                },
                None => {},
            }
        }
        proof {
            assert(orig.contains_key(time));
            assert(passed_batches(orig, frontier, time + 1) == if !some_at_or_below(
                frontier,
                time,
            ) {
                passed_batches(orig, frontier, time as int).push((time, orig[time]))
            } else {
                passed_batches(orig, frontier, time as int)
            });
            assert(stash.contents() =~= still_waiting(orig, frontier, time + 1));
            assert forall|k: int| i + 1 <= k < times@.len() implies times@[k] >= time + 1 by {
                assert(times@[k] != times@[i as int]);
            }
            done = time + 1;
        }
    }
    proof {
        assert forall|t: u64| done <= t < end_of_time() implies !orig.contains_key(t) by {
            if orig.contains_key(t) {
                assert(times@.contains(t));
            }
        }
        lemma_passed_skip(orig, frontier, done, end_of_time());
        assert(still_waiting(orig, frontier, done) =~= still_waiting(
            orig,
            frontier,
            end_of_time(),
        ));
    }
    send
}

/// The batches of one step's input, each as a time and a sequence of data.
pub open spec fn input_views<D>(input: Seq<(u64, Vec<D>)>) -> Seq<(u64, Seq<D>)> {
    Seq::new(input.len(), |i: int| (input[i].0, input[i].1@))
}

/// What is buffered once the batches were stored, one after the other.
pub open spec fn ingested<D>(buffered: Contents<D>, input: Seq<(u64, Seq<D>)>) -> Contents<D>
    decreases input.len(),
{
    if input.len() == 0 {
        buffered
    } else {
        stored(ingested(buffered, input.drop_last()), input.last().0, input.last().1)
    }
}

/// What the operator is to do with its capability and its output after one
/// step. The capability is the permission to send at its time or later.
pub struct Tick<D> {
    /// A time for which a capability is to be kept and a notification
    /// requested: a batch has begun to wait for it.
    pub hold: Option<u64>,
    /// The time to which the retained capability moves forward.
    pub downgrade: Option<u64>,
    /// Whether the retained capability is given up for good.
    pub release: bool,
    /// The batches to send now, each at its output time, ascending.
    pub send: Vec<(u64, Batch<D>)>,
}

/// The state of one windowing operator: the policy, the time of the
/// capability it retains, and the batches that wait to be sent.
pub struct WindowDriver<B: WindowBuffer, W: Window<B>> {
    window: W,
    drain_when_finished: bool,
    held: Option<u64>,
    stash: Stash<B::Datum>,
}

impl<B: WindowBuffer, W: Window<B>> WindowDriver<B, W> {
    /// The policy.
    pub closed spec fn window(&self) -> W {
        self.window
    }

    /// Whether what is left in the buffer is sent when the input ends.
    pub closed spec fn drains(&self) -> bool {
        self.drain_when_finished
    }

    /// The time of the retained capability; none once it was released.
    pub closed spec fn held(&self) -> Option<u64> {
        self.held
    }

    /// The batches that wait to be sent, by output time.
    pub closed spec fn stash(&self) -> Contents<(u64, B::Datum)> {
        self.stash.contents()
    }

    /// Whether the retained capability allows what the step asks for: a
    /// capability can be kept for a time, and can move forward to a time,
    /// only from a capability that is there and not beyond that time.
    pub open spec fn permits(&self, out: &Tick<B::Datum>) -> bool {
        &&& out.hold matches Some(t) ==> (self.held() matches Some(c) && c <= t)
        &&& out.downgrade matches Some(t) ==> (self.held() matches Some(c) && c <= t)
    }

    /// The capability is never ahead of the boundary, so that the window
    /// that closes next can be sent, and it stays at the least time while
    /// there is no boundary; once the capability is released, a draining
    /// operator has nothing left to drain; and no stashed batch is empty.
    pub open spec fn wf(&self) -> bool {
        &&& entries_nonempty(self.stash())
        &&& self.held() matches Some(c) ==> match self.window().boundary() {
            Some(b) => c <= b,
            None => c == 0,
        }
        &&& self.held() is None && self.drains() && self.window().boundary() is Some
            ==> all_records(self.window().buffered()).len() == 0
    }

    /// An operator at its start: it retains the capability for the least
    /// time, and nothing waits to be sent.
    pub fn new(window: W, drain_when_finished: bool) -> (driver: Self)
        ensures
            driver.wf(),
            driver.window() == window,
            driver.drains() == drain_when_finished,
            driver.held() == Some(0u64),
            driver.stash() == Map::<u64, Seq<(u64, B::Datum)>>::empty(),
    {
        let stash: Stash<B::Datum> = HashMap::new();
        assert(stash.contents() =~= Map::<u64, Seq<(u64, B::Datum)>>::empty());
        WindowDriver { window, drain_when_finished, held: Some(0), stash }
    }

    /// Puts a closed window into the stash under its output time. An empty
    /// window leaves no trace. Returns the time if a batch has begun to wait
    /// for it.
    fn stash_batch(&mut self, time: u64, batch: Batch<B::Datum>) -> (hold: Option<u64>)
        ensures
            final(self).stash() == stored(old(self).stash(), time, batch@),
            hold == if batch@.len() > 0 && !old(self).stash().contains_key(time) {
                Some(time)
            } else {
                None
            },
            final(self).window() == old(self).window(),
            final(self).drains() == old(self).drains(),
            final(self).held() == old(self).held(),
            entries_nonempty(old(self).stash()) ==> entries_nonempty(final(self).stash()),
    {
        broadcast use vstd::std_specs::hash::group_hash_axioms;

        let first = batch.len() > 0 && !self.stash.contains_key(&time);
        proof {
            if entries_nonempty(self.stash.contents()) {
                lemma_stored_entries_nonempty(self.stash.contents(), time, batch@);
            }
        }
        self.stash.store(time, batch);
        if first {
            Some(time)
        } else {
            None
        }
    }

    /// Hands the batches of one step's input to the policy, in order.
    fn ingest(&mut self, input: Vec<(u64, Vec<B::Datum>)>)
        requires
            input@.len() > 0 ==> armed(
                old(self).window().boundary(),
                old(self).window().advance(input@[0].0),
            ) is Some,
        ensures
            final(self).window().buffered() == ingested(
                old(self).window().buffered(),
                input_views(input@),
            ),
            final(self).window().boundary() == if input@.len() > 0 {
                armed(old(self).window().boundary(), old(self).window().advance(input@[0].0))
            } else {
                old(self).window().boundary()
            },
            forall|t: u64| final(self).window().advance(t) == old(self).window().advance(t),
            final(self).drains() == old(self).drains(),
            final(self).held() == old(self).held(),
            final(self).stash() == old(self).stash(),
    {
        let ghost start = self.window;
        assert(input_views(input@.take(0)) =~= Seq::<(u64, Seq<B::Datum>)>::empty());
        for item in iter: input
            invariant
                iter.seq() == input@,
                input@.len() > 0 ==> armed(start.boundary(), start.advance(input@[0].0)) is Some,
                self.window.buffered() == ingested(
                    start.buffered(),
                    input_views(input@.take(iter.index())),
                ),
                self.window.boundary() == if iter.index() > 0 {
                    armed(start.boundary(), start.advance(input@[0].0))
                } else {
                    start.boundary()
                },
                forall|t: u64| self.window.advance(t) == start.advance(t),
                self.drain_when_finished == old(self).drain_when_finished,
                self.held == old(self).held,
                self.stash == old(self).stash,
        {
            let ghost seen = input_views(input@.take(iter.index()));
            let (time, data) = item;
            self.window.give_vec(time, data);
            proof {
                let more = input_views(input@.take(iter.index() + 1));
                assert(more.drop_last() =~= seen);
                assert(more.last() == (time, data@));
            }
        }
        assert(input@.take(input@.len() as int) =~= input@);
    }

    /// What one step does where the input has ended: what is left is
    /// drained if the operator drains, the capability is released, and every
    /// stashed batch whose time the frontier has passed is sent.
    pub open spec fn finishes_to(&self, frontier: Seq<u64>, next: &Self, out: &Tick<B::Datum>) -> bool {
        let boundary = self.window().boundary();
        let left = all_records(self.window().buffered());
        let drained = self.drains() && boundary is Some && left.len() > 0;
        let stashed = if drained {
            stored(self.stash(), boundary->0, left)
        } else {
            self.stash()
        };
        &&& next.window().boundary() == boundary
        &&& next.window().buffered() == if self.drains() && boundary is Some {
            Map::<u64, Seq<B::Datum>>::empty()
        } else {
            self.window().buffered()
        }
        &&& next.held() is None
        &&& out.release
        &&& out.downgrade is None
        &&& out.hold == if drained && !self.stash().contains_key(boundary->0) {
            boundary
        } else {
            None
        }
        &&& batch_views(out.send@) == passed_batches(stashed, frontier, end_of_time())
        &&& next.stash() == still_waiting(stashed, frontier, end_of_time())
    }

    /// What one step does while the input goes on: the input is handed to
    /// the policy; if the frontier has passed the boundary, the window
    /// closes, the capability moves forward to the boundary, and the window's
    /// records, if there are any, are stashed under the boundary; and every
    /// stashed batch whose time the frontier has passed is sent.
    pub open spec fn proceeds_to(
        &self,
        input: Seq<(u64, Vec<B::Datum>)>,
        frontier: Seq<u64>,
        next: &Self,
        out: &Tick<B::Datum>,
    ) -> bool {
        let boundary = arrived(self.window(), input);
        let buffered = ingested(self.window().buffered(), input_views(input));
        let closed = closes(boundary, frontier);
        let batch = records_below(buffered, boundary->0 as int);
        let stashed = if closed {
            stored(self.stash(), boundary->0, batch)
        } else {
            self.stash()
        };
        &&& next.window().boundary() == if closed {
            self.window().advance(boundary->0)
        } else {
            boundary
        }
        &&& next.window().buffered() == if closed {
            kept_from(buffered, boundary->0 as int)
        } else {
            buffered
        }
        &&& next.held() == if closed {
            boundary
        } else {
            self.held()
        }
        &&& !out.release
        &&& out.downgrade == if closed {
            boundary
        } else {
            None
        }
        &&& out.hold == if closed && batch.len() > 0 && !self.stash().contains_key(boundary->0) {
            boundary
        } else {
            None
        }
        &&& batch_views(out.send@) == passed_batches(stashed, frontier, end_of_time())
        &&& next.stash() == still_waiting(stashed, frontier, end_of_time())
    }

    /// Why a step cannot be made, if it cannot. While the input goes on the
    /// capability must still be there, the first data must arm a boundary,
    /// and a boundary that closes must have one that follows it.
    pub open spec fn fault(&self, input: Seq<(u64, Vec<B::Datum>)>, frontier: Seq<u64>) -> Option<
        Fault,
    > {
        let boundary = arrived(self.window(), input);
        if frontier.len() == 0 {
            None
        } else if self.held() is None {
            Some(Fault::Released)
        } else if boundary is None && input.len() > 0 {
            Some(Fault::Unarmed)
        } else if closes(boundary, frontier) && self.window().advance(boundary->0) is None {
            Some(Fault::Stalled)
        } else {
            None
        }
    }

    /// One scheduling step.
    ///
    /// Where the frontier is empty the input has ended: what is left is
    /// drained if the operator drains, and the capability is released.
    /// Otherwise the input is handed to the policy, and a window that the
    /// frontier allows to close is stashed under its boundary, to which the
    /// capability moves forward. Either way every stashed batch whose time
    /// the frontier has passed is sent.
    pub fn tick(&mut self, input: Vec<(u64, Vec<B::Datum>)>, watermark: Watermark) -> (out: Tick<
        B::Datum,
    >)
        requires
            old(self).wf(),
            old(self).fault(input@, watermark@) is None,
        ensures
            final(self).wf(),
            final(self).drains() == old(self).drains(),
            forall|t: u64| final(self).window().advance(t) == old(self).window().advance(t),
            watermark@.len() == 0 ==> old(self).finishes_to(watermark@, final(self), &out),
            watermark@.len() > 0 ==> old(self).proceeds_to(input@, watermark@, final(self), &out),
            old(self).permits(&out),
            old(self).stash() == Map::<u64, Seq<(u64, B::Datum)>>::empty() ==> final(self).stash()
                == Map::<u64, Seq<(u64, B::Datum)>>::empty(),
    {
        let mut hold: Option<u64> = None;
        let mut downgrade: Option<u64> = None;
        let mut release = false;
        if watermark.is_empty() {
            if self.drain_when_finished {
                match self.window.drain() {
                    Some((emit_time, emit_data)) => {
                        hold = self.stash_batch(emit_time, emit_data);
                    },
                    None => {},
                }
            }
            self.held = None;
            release = true;
            proof {
                let nothing = Map::<u64, Seq<B::Datum>>::empty();
                lemma_records_skip(nothing, 0, end_of_time());
            }
        } else {
            self.ingest(input);
            match self.window.try_emit(watermark) {
                Some((emit_time, emit_data)) => {
                    hold = self.stash_batch(emit_time, emit_data);
                    self.held = Some(emit_time);
                    downgrade = Some(emit_time);
                },
                None => {},
            }
        }
        let ghost stashed = self.stash.contents();
        let send = flush(&mut self.stash, &watermark);
        proof {
            assert(entries_nonempty(stashed));
            assert(forall|t: u64| #[trigger]
                self.stash.contents().contains_key(t) ==> self.stash.contents()[t] == stashed[t]);
            if old(self).stash() == Map::<u64, Seq<(u64, B::Datum)>>::empty() {
                assert(still_waiting(stashed, watermark@, end_of_time()) =~= Map::<
                    u64,
                    Seq<(u64, B::Datum)>,
                >::empty());
            }
        }
        Tick { hold, downgrade, release, send }
    }

    /// One scheduling step, where it can be made: the step is made exactly
    /// when nothing stands against it, and otherwise the operator is left as
    /// it was and the fault is returned.
    pub fn try_tick(&mut self, input: Vec<(u64, Vec<B::Datum>)>, watermark: Watermark) -> (out:
        Result<Tick<B::Datum>, Fault>)
        requires
            old(self).wf(),
        ensures
            final(self).wf(),
            final(self).drains() == old(self).drains(),
            forall|t: u64| final(self).window().advance(t) == old(self).window().advance(t),
            old(self).stash() == Map::<u64, Seq<(u64, B::Datum)>>::empty() ==> final(self).stash()
                == Map::<u64, Seq<(u64, B::Datum)>>::empty(),
            match out {
                Ok(tick) => {
                    &&& old(self).fault(input@, watermark@) is None
                    &&& old(self).permits(&tick)
                    &&& watermark@.len() == 0 ==> old(self).finishes_to(
                        watermark@,
                        final(self),
                        &tick,
                    )
                    &&& watermark@.len() > 0 ==> old(self).proceeds_to(
                        input@,
                        watermark@,
                        final(self),
                        &tick,
                    )
                },
                Err(fault) => {
                    &&& old(self).fault(input@, watermark@) == Some(fault)
                    &&& final(self).window() == old(self).window()
                    &&& final(self).held() == old(self).held()
                    &&& final(self).stash() == old(self).stash()
                },
            },
    {
        if !watermark.is_empty() {
            if self.held.is_none() {
                return Err(Fault::Released);
            }
            let boundary = match self.window.emit_boundary() {
                Some(b) => Some(b),
                None => if input.len() > 0 {
                    self.window.step_from(&input[0].0)
                } else {
                    None
                },
            };
            match boundary {
                Some(b) => {
                    if !watermark.less_equal(&b) && self.window.step_from(&b).is_none() {
                        return Err(Fault::Stalled);
                    }
                },
                None => {
                    if input.len() > 0 {
                        return Err(Fault::Unarmed);
                    }
                },
            }
        }
        Ok(self.tick(input, watermark))
    }
}

/// What stands against a step of the operator.
#[derive(Clone, Copy, Debug, PartialEq, Eq, Structural)]
pub enum Fault {
    /// The capability was released when the input ended, and yet the input
    /// goes on.
    Released,
    /// No boundary follows the time of the first data.
    Unarmed,
    /// No boundary follows the one that is about to close.
    Stalled,
}

/// The policy's boundary once the batches of one step's input have arrived.
pub open spec fn arrived<B: WindowBuffer, W: Window<B>>(
    window: W,
    input: Seq<(u64, Vec<B::Datum>)>,
) -> Option<u64> {
    if input.len() > 0 {
        armed(window.boundary(), window.advance(input[0].0))
    } else {
        window.boundary()
    }
}

} // verus!
