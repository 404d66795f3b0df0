//! What holds of a tumbling policy over one call, and over any run of calls.

use crate::buffer::{
    entries_nonempty, entry_at, lemma_stored_entries_nonempty, stored, Contents,
};
use crate::records::{
    all_records, ascending_by_time, end_of_time, kept_from, lemma_records_agree,
    lemma_records_ascending, lemma_records_hold, lemma_records_skip, lemma_records_split,
    lemma_records_times, records_below, tagged,
};
use crate::tumbling::{step, TumblingState};
use crate::watermark::some_at_or_below;
use crate::window::closes;
use vstd::multiset::Multiset;
use vstd::prelude::*;
use vstd::seq_lib::lemma_multiset_commutative;

verus! {

/// A second `try_emit` under the same frontier, with nothing given in
/// between, returns nothing and changes nothing, as long as the frontier has
/// not passed the boundary that follows the one that closed.
pub proof fn lemma_try_emit_again_gives_nothing<D>(state: TumblingState<D>, frontier: Seq<u64>)
    requires
        closes(state.boundary, frontier) ==> (step(state.size, state.boundary->0) matches Some(
            next,
        ) && some_at_or_below(frontier, next)),
    ensures
        state.after_emit(frontier).emits(frontier) is None,
        state.after_emit(frontier).after_emit(frontier) == state.after_emit(frontier),
{
}

/// A `try_emit` that returned nothing can be repeated at will: under the
/// same frontier it returns nothing again.
pub proof fn lemma_try_emit_nothing_stays_nothing<D>(state: TumblingState<D>, frontier: Seq<u64>)
    requires
        state.emits(frontier) is None,
    ensures
        state.after_emit(frontier) == state,
        state.after_emit(frontier).emits(frontier) is None,
{
}

/// The records of a closed window, and those that a drain returns, are
/// ascending by time.
pub proof fn lemma_batches_ascend<D>(state: TumblingState<D>)
    ensures
        state.boundary is Some ==> ascending_by_time(state.window()),
        ascending_by_time(all_records(state.buffered)),
{
    if state.boundary is Some {
        lemma_records_ascending(state.buffered, state.boundary->0 as int);
    }
    lemma_records_ascending(state.buffered, end_of_time());
}

/// With a size above zero, the boundary that follows a closed one lies
/// strictly beyond it.
pub proof fn lemma_boundary_rises<D>(state: TumblingState<D>)
    requires
        state.size > 0,
        state.boundary is Some,
        step(state.size, state.boundary->0) is Some,
    ensures
        state.closed().boundary->0 > state.boundary->0,
{
}

/// The records split between a closed window and what stays buffered: those
/// of the window first, then the rest, with nothing lost and nothing twice.
pub proof fn lemma_close_keeps_every_record<D>(state: TumblingState<D>)
    requires
        state.boundary is Some,
    ensures
        all_records(state.buffered) == state.window() + all_records(state.closed().buffered),
{
    lemma_records_split(state.buffered, state.boundary->0 as int, end_of_time());
}

/// A window that closes at a boundary beyond every buffered time leaves
/// nothing behind.
pub proof fn lemma_close_beyond_all_empties<D>(state: TumblingState<D>)
    requires
        state.boundary is Some,
        forall|t: u64| state.buffered.contains_key(t) ==> t < state.boundary->0,
    ensures
        state.closed().buffered == Map::<u64, Seq<D>>::empty(),
        state.window() == all_records(state.buffered),
{
    assert(state.closed().buffered =~= Map::<u64, Seq<D>>::empty());
    lemma_records_skip(state.buffered, state.boundary->0 as int, end_of_time());
}

/// Giving data adds exactly its records to what is buffered.
pub proof fn lemma_give_adds_the_records<D>(state: TumblingState<D>, time: u64, data: Seq<D>)
    ensures
        all_records(state.given(time, data).buffered).to_multiset() == all_records(
            state.buffered,
        ).to_multiset().add(tagged(time, data).to_multiset()),
{
    let before = state.buffered;
    let later = stored(before, time, data);
    if data.len() == 0 {
        assert(tagged(time, data) =~= Seq::<(u64, D)>::empty());
        assert(all_records(before) + tagged(time, data) =~= all_records(before));
        lemma_multiset_commutative(all_records(before), tagged(time, data));
    } else {
        let below = records_below(before, time as int);
        let held = tagged(time, entry_at(before, time));
        let added = tagged(time, data);
        let rest = records_below(kept_from(before, time + 1), end_of_time());
        lemma_records_split(before, time + 1, end_of_time());
        lemma_records_split(later, time + 1, end_of_time());
        lemma_records_agree(before, later, time as int);
        assert(kept_from(later, time + 1) =~= kept_from(before, time + 1));
        assert(tagged(time, entry_at(later, time)) =~= held + added);
        assert(all_records(before) == (below + held) + rest);
        assert(all_records(later) == (below + (held + added)) + rest);
        lemma_multiset_commutative(below + held, rest);
        lemma_multiset_commutative(below, held);
        lemma_multiset_commutative(below + (held + added), rest);
        lemma_multiset_commutative(below, held + added);
        lemma_multiset_commutative(held, added);
        assert(all_records(later).to_multiset() =~= all_records(before).to_multiset().add(
            added.to_multiset(),
        ));
    }
}

/// An empty sequence of records holds no record.
proof fn lemma_no_records<D>()
    ensures
        Seq::<(u64, D)>::empty().to_multiset() == Multiset::<(u64, D)>::empty(),
{
    broadcast use vstd::multiset::group_multiset_axioms;

    let nothing = Seq::<(u64, D)>::empty();
    vstd::seq_lib::to_multiset_len(nothing);
    assert(nothing.to_multiset() =~= Multiset::<(u64, D)>::empty());
}

/// Two balances in a row make one: if `a` and `b` make up `c` and `d`, and
/// `d` and `more` make up `out` and `rest`, then `a`, `b` and `more` make up
/// `c`, `out` and `rest`.
proof fn lemma_balances_chain<A>(
    a: Multiset<A>,
    b: Multiset<A>,
    c: Multiset<A>,
    d: Multiset<A>,
    more: Multiset<A>,
    out: Multiset<A>,
    rest: Multiset<A>,
)
    requires
        a.add(b) == c.add(d),
        d.add(more) == out.add(rest),
    ensures
        a.add(b.add(more)) == c.add(out).add(rest),
{
    broadcast use vstd::multiset::group_multiset_axioms;

    assert(a.add(b.add(more)) =~= a.add(b).add(more));
    assert(c.add(d).add(more) =~= c.add(d.add(more)));
    assert(c.add(out.add(rest)) =~= c.add(out).add(rest));
}

/// One call on a policy.
pub enum Call<D> {
    /// `give_vec` with a time and the data of that time.
    Give { time: u64, data: Seq<D> },
    /// `try_emit` under a frontier with these elements.
    TryEmit { frontier: Seq<u64> },
    /// `drain`.
    Drain,
}

/// Whether the call can be made in this state: data must find a boundary,
/// and a boundary that closes must have one that follows it.
pub open spec fn allowed<D>(state: TumblingState<D>, call: Call<D>) -> bool {
    match call {
        Call::Give { time, data } => state.takes(time),
        Call::TryEmit { frontier } => closes(state.boundary, frontier) ==> step(
            state.size,
            state.boundary->0,
        ) is Some,
        Call::Drain => true,
    }
}

/// The state after the call.
pub open spec fn after<D>(state: TumblingState<D>, call: Call<D>) -> TumblingState<D> {
    match call {
        Call::Give { time, data } => state.given(time, data),
        Call::TryEmit { frontier } => state.after_emit(frontier),
        Call::Drain => state.drained(),
    }
}

/// What the call returns.
pub open spec fn returned<D>(state: TumblingState<D>, call: Call<D>) -> Option<
    (u64, Seq<(u64, D)>),
> {
    match call {
        Call::Give { time, data } => None,
        Call::TryEmit { frontier } => state.emits(frontier),
        Call::Drain => state.drains(),
    }
}

/// The records that the call returns.
pub open spec fn handed_out<D>(state: TumblingState<D>, call: Call<D>) -> Seq<(u64, D)> {
    match returned(state, call) {
        Some((boundary, batch)) => batch,
        None => Seq::empty(),
    }
}

/// The records that the call hands to the policy.
pub open spec fn taken<D>(call: Call<D>) -> Seq<(u64, D)> {
    match call {
        Call::Give { time, data } => tagged(time, data),
        _ => Seq::empty(),
    }
}

/// The state after the calls were made, one after the other.
pub open spec fn run<D>(state: TumblingState<D>, calls: Seq<Call<D>>) -> TumblingState<D>
    decreases calls.len(),
{
    if calls.len() == 0 {
        state
    } else {
        after(run(state, calls.drop_last()), calls.last())
    }
}

/// Whether the calls can be made, one after the other.
pub open spec fn runs<D>(state: TumblingState<D>, calls: Seq<Call<D>>) -> bool
    decreases calls.len(),
{
    calls.len() == 0 || (runs(state, calls.drop_last()) && allowed(
        run(state, calls.drop_last()),
        calls.last(),
    ))
}

/// All records that the calls hand to the policy, in the order of the calls.
pub open spec fn given_in<D>(calls: Seq<Call<D>>) -> Seq<(u64, D)>
    decreases calls.len(),
{
    if calls.len() == 0 {
        Seq::empty()
    } else {
        given_in(calls.drop_last()) + taken(calls.last())
    }
}

/// All records that the calls return, in the order of the calls.
pub open spec fn emitted_in<D>(state: TumblingState<D>, calls: Seq<Call<D>>) -> Seq<(u64, D)>
    decreases calls.len(),
{
    if calls.len() == 0 {
        Seq::empty()
    } else {
        emitted_in(state, calls.drop_last()) + handed_out(
            run(state, calls.drop_last()),
            calls.last(),
        )
    }
}

/// The boundaries that the `try_emit` calls among the calls return, in the
/// order of the calls.
pub open spec fn closed_in<D>(state: TumblingState<D>, calls: Seq<Call<D>>) -> Seq<u64>
    decreases calls.len(),
{
    if calls.len() == 0 {
        Seq::empty()
    } else {
        let before = closed_in(state, calls.drop_last());
        match calls.last() {
            Call::TryEmit { frontier } => match run(state, calls.drop_last()).emits(frontier) {
                Some((boundary, batch)) => before.push(boundary),
                None => before,
            },
            _ => before,
        }
    }
}

/// No call leaves a buffered time without data.
pub proof fn lemma_call_keeps_entries_nonempty<D>(state: TumblingState<D>, call: Call<D>)
    requires
        entries_nonempty(state.buffered),
    ensures
        entries_nonempty(after(state, call).buffered),
{
    match call {
        Call::Give { time, data } => {
            lemma_stored_entries_nonempty(state.buffered, time, data);
        },
        Call::TryEmit { frontier } => {
            let kept = state.closed().buffered;
            assert forall|t: u64| kept.contains_key(t) implies (#[trigger] kept[t]).len() > 0 by {
                assert(state.buffered[t].len() > 0);
            }
        },
        Call::Drain => {},
    }
}

/// One call loses no record and doubles none: what was buffered and what
/// the call hands in is, record for record, what the call returns and what
/// is buffered after it.
pub proof fn lemma_call_keeps_every_record<D>(state: TumblingState<D>, call: Call<D>)
    ensures
        all_records(state.buffered).to_multiset().add(taken(call).to_multiset()) == handed_out(
            state,
            call,
        ).to_multiset().add(all_records(after(state, call).buffered).to_multiset()),
{
    broadcast use vstd::multiset::group_multiset_axioms;

    lemma_no_records::<D>();
    lemma_records_skip(Map::<u64, Seq<D>>::empty(), 0, end_of_time());
    let held = all_records(state.buffered).to_multiset();
    let left = all_records(after(state, call).buffered).to_multiset();
    let none = Multiset::<(u64, D)>::empty();
    match call {
        Call::Give { time, data } => {
            lemma_give_adds_the_records(state, time, data);
            assert(held.add(taken(call).to_multiset()) =~= none.add(left));
        },
        Call::TryEmit { frontier } => {
            if closes(state.boundary, frontier) {
                lemma_close_keeps_every_record(state);
                lemma_multiset_commutative(state.window(), all_records(state.closed().buffered));
            }
            assert(held.add(none) =~= handed_out(state, call).to_multiset().add(left));
        },
        Call::Drain => {
            if state.boundary is Some && all_records(state.buffered).len() == 0 {
                assert(all_records(state.buffered) =~= Seq::<(u64, D)>::empty());
            }
            assert(held.add(none) =~= handed_out(state, call).to_multiset().add(left));
        },
    }
}

/// Over any run of calls nothing is lost and nothing comes twice: what was
/// buffered at the start and what was given is, record for record, what was
/// returned and what is still buffered.
pub proof fn lemma_run_keeps_every_record<D>(state: TumblingState<D>, calls: Seq<Call<D>>)
    ensures
        all_records(state.buffered).to_multiset().add(given_in(calls).to_multiset())
            == emitted_in(state, calls).to_multiset().add(
            all_records(run(state, calls).buffered).to_multiset(),
        ),
    decreases calls.len(),
{
    broadcast use vstd::multiset::group_multiset_axioms;

    lemma_no_records::<D>();
    let start = all_records(state.buffered).to_multiset();
    if calls.len() == 0 {
        let none = Multiset::<(u64, D)>::empty();
        assert(start.add(none) =~= none.add(start));
    } else {
        let earlier = calls.drop_last();
        let call = calls.last();
        let mid = run(state, earlier);
        lemma_run_keeps_every_record(state, earlier);
        lemma_call_keeps_every_record(mid, call);
        lemma_multiset_commutative(given_in(earlier), taken(call));
        lemma_multiset_commutative(emitted_in(state, earlier), handed_out(mid, call));
        lemma_balances_chain(
            start,
            given_in(earlier).to_multiset(),
            emitted_in(state, earlier).to_multiset(),
            all_records(mid.buffered).to_multiset(),
            taken(call).to_multiset(),
            handed_out(mid, call).to_multiset(),
            all_records(after(mid, call).buffered).to_multiset(),
        );
    }
}

/// Completeness: a policy that starts empty and ends empty has returned
/// exactly the records that it was given, each as often as it was given.
pub proof fn lemma_all_given_is_emitted<D>(state: TumblingState<D>, calls: Seq<Call<D>>)
    requires
        state.buffered == Map::<u64, Seq<D>>::empty(),
        run(state, calls).buffered == Map::<u64, Seq<D>>::empty(),
    ensures
        emitted_in(state, calls).to_multiset() == given_in(calls).to_multiset(),
{
    broadcast use vstd::multiset::group_multiset_axioms;

    lemma_run_keeps_every_record(state, calls);
    lemma_records_skip(Map::<u64, Seq<D>>::empty(), 0, end_of_time());
    lemma_no_records::<D>();
    let nothing = Seq::<(u64, D)>::empty().to_multiset();
    assert(nothing.add(given_in(calls).to_multiset()) =~= given_in(calls).to_multiset());
    assert(emitted_in(state, calls).to_multiset().add(nothing) =~= emitted_in(
        state,
        calls,
    ).to_multiset());
}

/// A policy is empty after a drain once it has a boundary, and a policy has
/// a boundary once data was given to it.
pub proof fn lemma_drain_empties<D>(state: TumblingState<D>)
    requires
        state.boundary is Some,
    ensures
        state.drained().buffered == Map::<u64, Seq<D>>::empty(),
{
}

/// With a size above zero the boundaries that `try_emit` returns over a run
/// rise strictly, and all of them lie below the boundary at which the run
/// ends.
pub proof fn lemma_boundaries_rise_over_a_run<D>(state: TumblingState<D>, calls: Seq<Call<D>>)
    requires
        state.size > 0,
        runs(state, calls),
    ensures
        run(state, calls).size == state.size,
        state.boundary is Some ==> run(state, calls).boundary is Some,
        forall|i: int, j: int|
            0 <= i < j < closed_in(state, calls).len() ==> closed_in(state, calls)[i] < closed_in(
                state,
                calls,
            )[j],
        closed_in(state, calls).len() > 0 ==> run(state, calls).boundary is Some,
        forall|i: int|
            0 <= i < closed_in(state, calls).len() ==> closed_in(state, calls)[i] < run(
                state,
                calls,
            ).boundary->0,
    decreases calls.len(),
{
    if calls.len() > 0 {
        let earlier = calls.drop_last();
        let mid = run(state, earlier);
        let before = closed_in(state, earlier);
        let closed = closed_in(state, calls);
        let end = run(state, calls);
        lemma_boundaries_rise_over_a_run(state, earlier);
        match calls.last() {
            Call::TryEmit { frontier } => {
                if closes(mid.boundary, frontier) {
                    lemma_boundary_rises(mid);
                    assert(closed == before.push(mid.boundary->0));
                    assert(end.boundary->0 > mid.boundary->0);
                } else {
                    assert(closed == before);
                    assert(end == mid);
                }
            },
            Call::Give { time, data } => {
                assert(closed == before);
                assert(mid.boundary is Some ==> end.boundary == mid.boundary);
            },
            Call::Drain => {
                assert(closed == before);
                assert(end.boundary == mid.boundary);
            },
        }
        assert forall|i: int| 0 <= i < closed.len() implies closed[i] < end.boundary->0 by {
            if i < before.len() {
                assert(closed[i] == before[i]);
            }
        }
        assert forall|i: int, j: int| 0 <= i < j < closed.len() implies closed[i] < closed[j] by {
            if j < before.len() {
                assert(closed[i] == before[i] && closed[j] == before[j]);
            } else {
                assert(closed[i] == before[i]);
            }
        }
    }
}

/// The boundary of the window with the given number, counted from one,
/// where the windows start at `start`.
pub open spec fn nth_boundary(start: u64, size: u64, number: int) -> int {
    start + number * size
}

/// The number of the window that a time falls into, counted from one, where
/// the windows start at `start`: the first whose boundary lies beyond the
/// time.
pub open spec fn window_index(start: u64, size: u64, time: u64) -> int {
    (time - start) / (size as int) + 1
}

/// The state after the policy has closed its window so many times.
pub open spec fn closed_times<D>(state: TumblingState<D>, times: nat) -> TumblingState<D>
    decreases times,
{
    if times == 0 {
        state
    } else {
        closed_times(state, (times - 1) as nat).closed()
    }
}

/// The first boundary lies one size after the initial time; without an
/// initial time, one size after the time of the first data.
pub proof fn lemma_first_boundary<D>(size: u64, time: u64, data: Seq<D>)
    requires
        step(size, time) is Some,
    ensures
        TumblingState::<D>::initial(size, Some(time)).boundary == Some(
            nth_boundary(time, size, 1) as u64,
        ),
        TumblingState::<D>::initial(size, None).given(time, data).boundary == Some(
            nth_boundary(time, size, 1) as u64,
        ),
{
    assert(1 * size == size) by (nonlinear_arith);
}

/// The boundaries lie one size apart: a policy whose windows start at
/// `start` stands, after it has closed so many windows, at the boundary of
/// the next one.
pub proof fn lemma_boundaries_lie_one_size_apart<D>(
    state: TumblingState<D>,
    start: u64,
    times: nat,
)
    requires
        state.boundary == Some(nth_boundary(start, state.size, 1) as u64),
        nth_boundary(start, state.size, times as int + 1) <= u64::MAX,
    ensures
        closed_times(state, times).size == state.size,
        closed_times(state, times).boundary == Some(
            nth_boundary(start, state.size, times as int + 1) as u64,
        ),
    decreases times,
{
    let size = state.size;
    assert(1 * size == size) by (nonlinear_arith);
    if times > 0 {
        assert((times + 1) * size == times * size + size) by (nonlinear_arith);
        lemma_boundaries_lie_one_size_apart(state, start, (times - 1) as nat);
    }
}

/// A time at or after the start falls between the boundary before its
/// window and the boundary of its window. Where the size does not divide
/// its distance from the start, the number of its window is that distance
/// over the size, rounded up; where it does, the time lies on a boundary
/// and falls into the window after it.
pub proof fn lemma_window_index(start: u64, size: u64, time: u64)
    requires
        size > 0,
        time >= start,
    ensures
        nth_boundary(start, size, window_index(start, size, time) - 1) <= time < nth_boundary(
            start,
            size,
            window_index(start, size, time),
        ),
        (time - start) % (size as int) != 0 ==> window_index(start, size, time) == (time - start
            + size - 1) / (size as int),
        (time - start) % (size as int) == 0 ==> window_index(start, size, time) == (time - start
            + size - 1) / (size as int) + 1,
{
    let distance = time - start;
    let width = size as int;
    let whole = distance / width;
    let part = distance % width;
    vstd::arithmetic::div_mod::lemma_fundamental_div_mod(distance, width);
    vstd::arithmetic::div_mod::lemma_mod_bound(distance, width);
    assert(width * whole == whole * width) by (nonlinear_arith);
    assert((whole + 1) * width == whole * width + width) by (nonlinear_arith);
    if part != 0 {
        vstd::arithmetic::div_mod::lemma_fundamental_div_mod_converse(
            distance + width - 1,
            width,
            whole + 1,
            part - 1,
        );
    } else {
        vstd::arithmetic::div_mod::lemma_fundamental_div_mod_converse(
            distance + width - 1,
            width,
            whole,
            width - 1,
        );
    }
}

/// A buffered record is among the records of the window that its time
/// falls into, and among those of no earlier window.
pub proof fn lemma_record_leaves_with_its_window<D>(
    contents: Contents<D>,
    start: u64,
    size: u64,
    time: u64,
    i: int,
)
    requires
        size > 0,
        time >= start,
        contents.contains_key(time),
        0 <= i < contents[time].len(),
        nth_boundary(start, size, window_index(start, size, time)) <= end_of_time(),
    ensures
        records_below(
            contents,
            nth_boundary(start, size, window_index(start, size, time)),
        ).contains((time, contents[time][i])),
        forall|earlier: int|
            1 <= earlier < window_index(start, size, time) ==> !records_below(
                contents,
                #[trigger] nth_boundary(start, size, earlier),
            ).contains((time, contents[time][i])),
{
    let number = window_index(start, size, time);
    lemma_window_index(start, size, time);
    lemma_records_hold(contents, nth_boundary(start, size, number), time, i);
    assert forall|earlier: int| 1 <= earlier < number implies !records_below(
        contents,
        #[trigger] nth_boundary(start, size, earlier),
    ).contains((time, contents[time][i])) by {
        let bound = nth_boundary(start, size, earlier);
        assert(earlier * size <= (number - 1) * size) by (nonlinear_arith)
            requires
                earlier <= number - 1,
                size > 0,
        ;
        assert(0 <= earlier * size) by (nonlinear_arith)
            requires
                earlier >= 1,
                size > 0,
        ;
        lemma_records_times(contents, bound);
    }
}

} // verus!
