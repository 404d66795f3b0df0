//! A read-only view of the progress frontier of one input.

use timely::progress::frontier::AntichainRef;
use vstd::prelude::*;

verus! {

#[verifier::external_type_specification]
#[verifier::external_body]
#[verifier::reject_recursive_types(T)]
pub struct ExAntichainRef<'a, T: 'a>(AntichainRef<'a, T>);

/// The elements of a frontier, in the order in which the frontier holds them.
pub uninterp spec fn frontier_elements(frontier: AntichainRef<u64>) -> Seq<u64>;

/// Whether some element of the sequence is strictly below `time`.
pub open spec fn some_below(elements: Seq<u64>, time: u64) -> bool {
    exists|i: int| 0 <= i < elements.len() && #[trigger] elements[i] < time
}

/// Whether some element of the sequence is at or below `time`.
pub open spec fn some_at_or_below(elements: Seq<u64>, time: u64) -> bool {
    exists|i: int| 0 <= i < elements.len() && #[trigger] elements[i] <= time
}

/// `AntichainRef::less_than` on `u64` times: true exactly when an element of
/// the frontier is strictly less than `time`.
#[verifier::external_body]
fn frontier_less_than(frontier: &AntichainRef<u64>, time: &u64) -> (r: bool)
    ensures
        r == some_below(frontier_elements(*frontier), *time),
{
    frontier.less_than(time)
}

/// `AntichainRef::less_equal` on `u64` times: true exactly when an element of
/// the frontier is less than or equal to `time`.
#[verifier::external_body]
fn frontier_less_equal(frontier: &AntichainRef<u64>, time: &u64) -> (r: bool)
    ensures
        r == some_at_or_below(frontier_elements(*frontier), *time),
{
    frontier.less_equal(time)
}

/// The length of the slice that an `AntichainRef` dereferences to: the
/// number of elements of the frontier.
#[verifier::external_body]
fn frontier_len(frontier: &AntichainRef<u64>) -> (r: usize)
    ensures
        r == frontier_elements(*frontier).len(),
{
    frontier.len()
}

/// The progress frontier of one input, as seen during one scheduling step.
#[derive(Clone, Copy)]
pub struct Watermark<'w> {
    inner: AntichainRef<'w, u64>,
}

impl<'w> Watermark<'w> {
    /// The least times that the input may still produce.
    pub closed spec fn view(&self) -> Seq<u64> {
        frontier_elements(self.inner)
    }

    pub fn new(frontier: AntichainRef<'w, u64>) -> (r: Self)
        ensures
            r@ == frontier_elements(frontier),
    {
        Watermark { inner: frontier }
    }

    /// Whether data strictly before `time` may still arrive.
    pub fn less_than(&self, time: &u64) -> (r: bool)
        ensures
            r == some_below(self@, *time),
    {
        frontier_less_than(&self.inner, time)
    }

    /// Whether data at or before `time` may still arrive.
    pub fn less_equal(&self, time: &u64) -> (r: bool)
        ensures
            r == some_at_or_below(self@, *time),
    {
        frontier_less_equal(&self.inner, time)
    }

    /// Whether the input is finished: nothing can arrive any more.
    pub fn is_empty(&self) -> (r: bool)
        ensures
            r == (self@.len() == 0),
    {
        frontier_len(&self.inner) == 0
    }
}

} // verus!
