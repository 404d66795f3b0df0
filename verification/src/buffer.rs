//! The store of records that have arrived and were not handed out yet.

use std::collections::HashMap;
use vstd::prelude::*;
use vstd::std_specs::iter::IteratorSpec;

verus! {

/// What a buffer holds: for each buffered time the data stored under it, in
/// the order in which it was stored.
pub type Contents<D> = Map<u64, Seq<D>>;

/// The data held under `time`; nothing where the time is not buffered.
pub open spec fn entry_at<D>(contents: Contents<D>, time: u64) -> Seq<D> {
    if contents.contains_key(time) {
        contents[time]
    } else {
        Seq::empty()
    }
}

/// No buffered time is left without data.
pub open spec fn entries_nonempty<D>(contents: Contents<D>) -> bool {
    forall|t: u64| contents.contains_key(t) ==> (#[trigger] contents[t]).len() > 0
}

/// The contents after `data` was stored under `time`: appended to what the
/// time held before. Storing nothing creates no entry.
pub open spec fn stored<D>(contents: Contents<D>, time: u64, data: Seq<D>) -> Contents<D> {
    if data.len() == 0 {
        contents
    } else {
        contents.insert(time, entry_at(contents, time) + data)
    }
}

/// Storing keeps every entry non-empty.
pub proof fn lemma_stored_entries_nonempty<D>(contents: Contents<D>, time: u64, data: Seq<D>)
    requires
        entries_nonempty(contents),
    ensures
        entries_nonempty(stored(contents, time, data)),
{
    let after = stored(contents, time, data);
    assert forall|t: u64| after.contains_key(t) implies (#[trigger] after[t]).len() > 0 by {
        if t != time {
            assert(contents[t].len() > 0);
        }
    }
}

/// A store of records keyed by their time.
pub trait WindowBuffer {
    type Datum;

    /// What the buffer holds.
    spec fn contents(&self) -> Contents<Self::Datum>;

    /// The buffered times, each once, in no particular order.
    fn timestamps(&self) -> (times: Vec<u64>)
        ensures
            times@.no_duplicates(),
            forall|t: u64| times@.contains(t) <==> self.contents().contains_key(t),
    ;

    /// Appends `data` to what is held under `time`.
    fn store(&mut self, time: u64, data: Vec<Self::Datum>)
        ensures
            final(self).contents() == stored(old(self).contents(), time, data@),
    ;

    /// Takes out everything held under `time`, if the time is buffered.
    fn remove(&mut self, time: &u64) -> (data: Option<Vec<Self::Datum>>)
        ensures
            final(self).contents() == old(self).contents().remove(*time),
            match data {
                Some(d) => old(self).contents().contains_key(*time) && d@ == old(
                    self,
                ).contents()[*time],
                None => !old(self).contents().contains_key(*time),
            },
    ;
}

impl<D> WindowBuffer for HashMap<u64, Vec<D>> {
    type Datum = D;

    open spec fn contents(&self) -> Contents<D> {
        Map::new(|t: u64| self@.contains_key(t), |t: u64| self@[t]@)
    }

    fn timestamps(&self) -> (times: Vec<u64>) {
        broadcast use vstd::std_specs::hash::group_hash_axioms;

        let mut times: Vec<u64> = Vec::new();
        for key in iter: self.keys()
            invariant
                iter.seq() == self.keys().remaining(),
                times@.len() == iter.index(),
                forall|i: int| 0 <= i < times@.len() ==> times@[i] == *iter.seq()[i],
        {
            times.push(*key);
        }
        proof {
            let keys = self.keys().remaining().unref();
            assert(times@ =~= keys);
            assert(keys.to_set() == self@.dom());
            assert forall|t: u64| times@.contains(t) <==> self.contents().contains_key(t) by {
                assert(keys.to_set().contains(t) <==> keys.contains(t));
            }
        }
        times
    }

    fn store(&mut self, time: u64, data: Vec<D>) {
        broadcast use vstd::std_specs::hash::group_hash_axioms;

        if data.len() > 0 {
            let mut added = data;
            let mut held: Vec<D> = match self.remove(&time) {
                Some(held) => held,
                None => Vec::new(),
            };
            held.append(&mut added);
            self.insert(time, held);
            assert(self.contents() =~= stored(old(self).contents(), time, data@));
        }
    }

    fn remove(&mut self, time: &u64) -> (data: Option<Vec<D>>) {
        broadcast use vstd::std_specs::hash::group_hash_axioms;

        let data = HashMap::remove(self, time);
        assert(self.contents() =~= old(self).contents().remove(*time));
        data
    }
}

} // verus!
