use vstd::prelude::*;

verus! {

/// Hands out strictly increasing operation stamps, singly or as contiguous
/// half-open ranges.
#[derive(Clone, Copy, Debug)]
pub struct Stamper {
    counter: u64,
}

impl Stamper {
    /// The next stamp that will be handed out.
    pub closed spec fn next_spec(&self) -> nat {
        self.counter as nat
    }

    /// Creates a stamper whose first stamp is `first_opstamp`.
    pub fn new(first_opstamp: u64) -> (r: Stamper)
        ensures
            r.next_spec() == first_opstamp,
    {
        Stamper { counter: first_opstamp }
    }

    /// Returns the current counter and increments it by one.
    pub fn stamp(&mut self) -> (r: u64)
        requires
            old(self).next_spec() < u64::MAX,
        ensures
            r == old(self).next_spec(),
            final(self).next_spec() == old(self).next_spec() + 1,
    {
        let r = self.counter;
        self.counter = self.counter + 1;
        r
    }

    /// Returns the half-open range `[start, start + n)` of the next `n` stamps
    /// and advances the counter by `n`.
    pub fn stamps(&mut self, n: u64) -> (r: std::ops::Range<u64>)
        requires
            old(self).next_spec() + n <= u64::MAX,
        ensures
            r.start == old(self).next_spec(),
            r.end == old(self).next_spec() + n,
            final(self).next_spec() == r.end,
    {
        let start = self.counter;
        self.counter = self.counter + n;
        start..self.counter
    }

    /// The next stamp that will be handed out.
    pub fn peek(&self) -> (r: u64)
        ensures
            r == self.next_spec(),
    {
        self.counter
    }
}

/// The stamps handed out while a stamper went through `states`, in order:
/// each step from one state to the next hands out the stamps from the first
/// state's next stamp up to, and without, the second's.
pub open spec fn drawn(states: Seq<Stamper>) -> Seq<nat>
    decreases states.len(),
{
    if states.len() < 2 {
        Seq::empty()
    } else {
        let prev = states.drop_last();
        let from = prev.last().next_spec();
        drawn(prev) + Seq::new(
            (states.last().next_spec() - from) as nat,
            |j: int| (from + j) as nat,
        )
    }
}

proof fn lemma_drawn_values(states: Seq<Stamper>)
    requires
        states.len() >= 1,
        forall|i: int| 0 <= i < states.len() - 1 ==> (#[trigger] states[i]).next_spec() <= states[i + 1].next_spec(),
    ensures
        drawn(states).len() == states.last().next_spec() - states[0].next_spec(),
        forall|k: int| 0 <= k < drawn(states).len() ==> #[trigger] drawn(states)[k] == states[0].next_spec() + k,
    decreases states.len(),
{
    if states.len() >= 2 {
        let prev = states.drop_last();
        assert forall|i: int| 0 <= i < prev.len() - 1 implies (#[trigger] prev[i]).next_spec() <= prev[i + 1].next_spec() by {
            assert(prev[i] == states[i]);
            assert(prev[i + 1] == states[i + 1]);
        }
        lemma_drawn_values(prev);
        assert(prev[0] == states[0]);
        assert(prev.last() == states[states.len() - 2]);
        let from = prev.last().next_spec();
        let tail = Seq::new((states.last().next_spec() - from) as nat, |j: int| (from + j) as nat);
        assert(drawn(states) == drawn(prev) + tail);
        assert forall|k: int| 0 <= k < drawn(states).len() implies #[trigger] drawn(states)[k] == states[0].next_spec() + k by {
            if k < drawn(prev).len() {
                assert(drawn(states)[k] == drawn(prev)[k]);
            } else {
                assert(drawn(states)[k] == tail[k - drawn(prev).len()]);
            }
        }
    } else {
        assert(states.last() == states[0]);
    }
}

/// However calls of `stamp` and `stamps` follow each other, the stamps they
/// hand out are all the values from the first next stamp up to the last
/// one, each exactly once and in increasing order: no stamp repeats and
/// none is skipped.
pub proof fn lemma_stamps_contiguous(states: Seq<Stamper>)
    requires
        states.len() >= 1,
        forall|i: int| 0 <= i < states.len() - 1 ==> (#[trigger] states[i]).next_spec() <= states[i + 1].next_spec(),
    ensures
        drawn(states) == Seq::new(
            (states.last().next_spec() - states[0].next_spec()) as nat,
            |i: int| (states[0].next_spec() + i) as nat,
        ),
        drawn(states).no_duplicates(),
{
    lemma_drawn_values(states);
    let first = states[0].next_spec();
    let d = drawn(states);
    assert(d =~= Seq::new((states.last().next_spec() - first) as nat, |i: int| (first + i) as nat));
    assert forall|i: int, j: int| 0 <= i < d.len() && 0 <= j < d.len() && i != j implies d[i] != d[j] by {
        assert(d[i] == first + i);
        assert(d[j] == first + j);
    }
}

} // verus!
