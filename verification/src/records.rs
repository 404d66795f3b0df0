//! The sequences of records that leave a buffer, stated over its contents.

use crate::buffer::{entry_at, Contents, WindowBuffer};
use vstd::prelude::*;

verus! {

/// One more than the greatest time: the bound below which every time lies.
pub open spec fn end_of_time() -> int {
    u64::MAX + 1
}

/// The data of one time, each datum paired with that time.
pub open spec fn tagged<D>(time: u64, data: Seq<D>) -> Seq<(u64, D)> {
    Seq::new(data.len(), |i: int| (time, data[i]))
}

/// The records of all buffered times strictly below `bound`: ascending by
/// time, and within one time in the order in which they were stored.
pub open spec fn records_below<D>(contents: Contents<D>, bound: int) -> Seq<(u64, D)>
    decreases bound,
{
    if bound <= 0 {
        Seq::empty()
    } else {
        let last = (bound - 1) as u64;
        records_below(contents, bound - 1) + tagged(last, entry_at(contents, last))
    }
}

/// Every buffered record, ascending by time.
pub open spec fn all_records<D>(contents: Contents<D>) -> Seq<(u64, D)> {
    records_below(contents, end_of_time())
}

/// What stays buffered once everything below `bound` was taken out.
pub open spec fn kept_from<D>(contents: Contents<D>, bound: int) -> Contents<D> {
    Map::new(|t: u64| contents.contains_key(t) && t >= bound, |t: u64| contents[t])
}

/// The times of the records never go down along the sequence.
pub open spec fn ascending_by_time<D>(records: Seq<(u64, D)>) -> bool {
    forall|i: int, j: int| 0 <= i <= j < records.len() ==> records[i].0 <= records[j].0
}

/// No time in `lo..hi` is buffered.
pub open spec fn none_within<D>(contents: Contents<D>, lo: int, hi: int) -> bool {
    forall|t: u64| lo <= t < hi ==> !contents.contains_key(t)
}

/// Times that hold nothing add nothing to the records.
pub proof fn lemma_records_skip<D>(contents: Contents<D>, lo: int, hi: int)
    requires
        0 <= lo <= hi <= end_of_time(),
        none_within(contents, lo, hi),
    ensures
        records_below(contents, hi) == records_below(contents, lo),
    decreases hi - lo,
{
    if lo < hi {
        lemma_records_skip(contents, lo, hi - 1);
        let last = (hi - 1) as u64;
        assert(!contents.contains_key(last));
        assert(tagged(last, entry_at(contents, last)) =~= Seq::<(u64, D)>::empty());
        assert(records_below(contents, hi) =~= records_below(contents, hi - 1));
    }
}

/// Every record below `bound` carries a time below `bound`.
pub proof fn lemma_records_times<D>(contents: Contents<D>, bound: int)
    requires
        0 <= bound <= end_of_time(),
    ensures
        forall|i: int|
            0 <= i < records_below(contents, bound).len() ==> (#[trigger] records_below(
                contents,
                bound,
            )[i]).0 < bound,
    decreases bound,
{
    if bound > 0 {
        lemma_records_times(contents, bound - 1);
        let before = records_below(contents, bound - 1);
        let last = (bound - 1) as u64;
        let added = tagged(last, entry_at(contents, last));
        assert(records_below(contents, bound) == before + added);
        assert forall|i: int| 0 <= i < (before + added).len() implies (#[trigger] (before
            + added)[i]).0 < bound by {
            if i < before.len() {
                assert((before + added)[i] == before[i]);
            } else {
                assert((before + added)[i] == added[i - before.len()]);
            }
        }
    }
}

/// The records below a bound are ascending by time.
pub proof fn lemma_records_ascending<D>(contents: Contents<D>, bound: int)
    requires
        0 <= bound <= end_of_time(),
    ensures
        ascending_by_time(records_below(contents, bound)),
    decreases bound,
{
    if bound > 0 {
        lemma_records_ascending(contents, bound - 1);
        lemma_records_times(contents, bound - 1);
    }
}

/// The records split at any bound: those below it, then those that are kept.
pub proof fn lemma_records_split<D>(contents: Contents<D>, bound: int, upto: int)
    requires
        0 <= bound <= upto <= end_of_time(),
    ensures
        records_below(contents, upto) == records_below(contents, bound) + records_below(
            kept_from(contents, bound),
            upto,
        ),
        records_below(kept_from(contents, bound), bound) == Seq::<(u64, D)>::empty(),
    decreases upto - bound,
{
    let kept = kept_from(contents, bound);
    assert(none_within(kept, 0, bound));
    lemma_records_skip(kept, 0, bound);
    if bound < upto {
        lemma_records_split(contents, bound, upto - 1);
        let last = (upto - 1) as u64;
        assert(entry_at(kept, last) == entry_at(contents, last));
        assert(records_below(contents, upto) =~= records_below(contents, bound) + records_below(
            kept,
            upto,
        ));
    } else {
        assert(records_below(contents, upto) =~= records_below(contents, bound) + records_below(
            kept,
            upto,
        ));
    }
}

/// The records below a bound depend only on what is buffered below it.
pub proof fn lemma_records_agree<D>(a: Contents<D>, b: Contents<D>, bound: int)
    requires
        0 <= bound <= end_of_time(),
        forall|t: u64| t < bound ==> entry_at(a, t) == entry_at(b, t),
    ensures
        records_below(a, bound) == records_below(b, bound),
    decreases bound,
{
    if bound > 0 {
        lemma_records_agree(a, b, bound - 1);
    }
}

/// Every datum buffered under a time below the bound is among the records
/// below the bound, with its time.
pub proof fn lemma_records_hold<D>(contents: Contents<D>, bound: int, time: u64, i: int)
    requires
        0 <= bound <= end_of_time(),
        time < bound,
        contents.contains_key(time),
        0 <= i < contents[time].len(),
    ensures
        records_below(contents, bound).contains((time, contents[time][i])),
    decreases bound,
{
    let before = records_below(contents, bound - 1);
    let last = (bound - 1) as u64;
    let added = tagged(last, entry_at(contents, last));
    if time == last {
        assert((before + added)[before.len() + i] == added[i]);
    } else {
        lemma_records_hold(contents, bound - 1, time, i);
        let k = choose|k: int| 0 <= k < before.len() && before[k] == (time, contents[time][i]);
        assert((before + added)[k] == before[k]);
    }
}

/// The times never go down along the sequence.
pub open spec fn ascending(times: Seq<u64>) -> bool {
    forall|i: int, j: int| 0 <= i <= j < times.len() ==> times[i] <= times[j]
}

/// The bound that an optional time stands for: without one, every time lies
/// below it.
pub open spec fn limit(bound: Option<u64>) -> int {
    match bound {
        Some(b) => b as int,
        None => end_of_time(),
    }
}

/// `slice::sort` on a vector of times: afterwards the vector holds the same
/// times as before, each as often as before, in ascending order.
#[verifier::external_body]
fn sort_times(times: &mut Vec<u64>)
    ensures
        ascending(final(times)@),
        final(times)@.to_multiset() == old(times)@.to_multiset(),
{
    times.sort();
}

/// Appends the data of one time to the records, each datum paired with the
/// time.
fn append_tagged<D>(records: &mut Vec<(u64, D)>, time: u64, data: Vec<D>)
    ensures
        final(records)@ == old(records)@ + tagged(time, data@),
{
    let ghost before = records@;
    for datum in iter: data
        invariant
            iter.seq() == data@,
            records@ == before + tagged(time, data@.take(iter.index())),
    {
        records.push((time, datum));
        assert(records@ =~= before + tagged(time, data@.take(iter.index() + 1)));
    }
    assert(data@.take(data@.len() as int) =~= data@);
}

/// Whether `time` stands among the first `upto` times of the sequence.
pub open spec fn among_first(times: Seq<u64>, upto: int, time: u64) -> bool {
    exists|j: int| 0 <= j < upto && j < times.len() && times[j] == time
}

/// The buffered times strictly below the bound, ascending.
pub(crate) fn ready_times<B: WindowBuffer>(buffer: &B, bound: Option<u64>) -> (ready: Vec<u64>)
    ensures
        ascending(ready@),
        ready@.no_duplicates(),
        forall|t: u64|
            ready@.contains(t) <==> buffer.contents().contains_key(t) && t < limit(bound),
{
    let all = buffer.timestamps();
    let mut ready: Vec<u64> = Vec::new();
    for i in 0..all.len()
        invariant
            all@.no_duplicates(),
            forall|k: int| 0 <= k < ready@.len() ==> among_first(all@, i as int, #[trigger] ready@[k]),
            forall|k: int| 0 <= k < ready@.len() ==> (#[trigger] ready@[k]) < limit(bound),
            forall|j: int|
                0 <= j < i && all@[j] < limit(bound) ==> ready@.contains(#[trigger] all@[j]),
            ready@.no_duplicates(),
    {
        let time = all[i];
        let below = match bound {
            Some(b) => time < b,
            None => true,
        };
        if below {
            let ghost before = ready@;
            ready.push(time);
            proof {
                assert forall|j: int| 0 <= j < i + 1 && all@[j] < limit(bound) implies ready@.contains(
                    #[trigger] all@[j],
                ) by {
                    if j < i {
                        assert(before.contains(all@[j]));
                        let k = choose|k: int| 0 <= k < before.len() && before[k] == all@[j];
                        assert(ready@[k] == all@[j]);
                    } else {
                        assert(ready@[before.len() as int] == all@[j]);
                    }
                }
            }
        }
    }
    let ghost unsorted = ready@;
    sort_times(&mut ready);
    proof {
        broadcast use vstd::seq_lib::group_to_multiset_ensures;

        unsorted.lemma_multiset_has_no_duplicates();
        ready@.lemma_multiset_has_no_duplicates_conv();
        assert forall|t: u64|
            ready@.contains(t) <==> buffer.contents().contains_key(t) && t < limit(bound) by {
            vstd::seq_lib::to_multiset_contains(ready@, t);
            vstd::seq_lib::to_multiset_contains(unsorted, t);
            assert(ready@.contains(t) <==> unsorted.contains(t));
            if unsorted.contains(t) {
                let k = choose|k: int| 0 <= k < unsorted.len() && unsorted[k] == t;
                assert(among_first(all@, all@.len() as int, unsorted[k]));
                assert(all@.contains(t));
            }
            if buffer.contents().contains_key(t) && t < limit(bound) {
                assert(all@.contains(t));
            }
        }
    }
    ready
}

/// Takes every record with a time strictly below the bound out of the
/// buffer: ascending by time, and within one time in the order of arrival.
/// Without a bound, every record is taken.
pub fn take_below<B: WindowBuffer>(buffer: &mut B, bound: Option<u64>) -> (records: Vec<
    (u64, B::Datum),
>)
    ensures
        records@ == records_below(old(buffer).contents(), limit(bound)),
        ascending_by_time(records@),
        final(buffer).contents() == kept_from(old(buffer).contents(), limit(bound)),
{
    let ghost orig = buffer.contents();
    let ready = ready_times(buffer, bound);
    let mut records: Vec<(u64, B::Datum)> = Vec::new();
    let ghost mut done: int = 0;
    assert(buffer.contents() =~= kept_from(orig, 0));
    for i in 0..ready.len()
        invariant
            ascending(ready@),
            ready@.no_duplicates(),
            forall|t: u64| ready@.contains(t) <==> orig.contains_key(t) && t < limit(bound),
            0 <= done <= limit(bound),
            forall|k: int| 0 <= k < i ==> ready@[k] < done,
            forall|k: int| i <= k < ready@.len() ==> ready@[k] >= done,
            records@ == records_below(orig, done),
            buffer.contents() == kept_from(orig, done),
    {
        let time = ready[i];
        proof {
            assert(ready@.contains(time));
            assert forall|t: u64| done <= t < time implies !orig.contains_key(t) by {
                if orig.contains_key(t) {
                    assert(ready@.contains(t));
                }
            }
            lemma_records_skip(orig, done, time as int);
            assert(kept_from(orig, done) =~= kept_from(orig, time as int));
        }
        match buffer.remove(&time) {
            Some(data) => {
                append_tagged(&mut records, time, data);
            },
            None => {},
        }
        proof {
            assert(buffer.contents() =~= kept_from(orig, time + 1));
            assert forall|k: int| i + 1 <= k < ready@.len() implies ready@[k] >= time + 1 by {
                assert(ready@[k] != ready@[i as int]);
            }
            done = time + 1;
        }
    }
    proof {
        assert forall|t: u64| done <= t < limit(bound) implies !orig.contains_key(t) by {
            if orig.contains_key(t) {
                assert(ready@.contains(t));
            }
        }
        lemma_records_skip(orig, done, limit(bound));
        lemma_records_ascending(orig, limit(bound));
        assert(kept_from(orig, done) =~= kept_from(orig, limit(bound)));
    }
    records
}

} // verus!
