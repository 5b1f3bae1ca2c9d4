//! Queue entries for the shortest-distance search and the order in which
//! they leave the queue: the cheapest entry first, and among equally cheap
//! entries the one at the highest position.
use std::cmp::Ordering;
use vstd::prelude::*;

verus! {

/// A queue entry: `position` can be reached with total cost `cost`.
#[derive(Clone, Copy, PartialEq, Eq, Debug)]
pub struct State {
    pub cost: usize,
    pub position: usize,
}

/// `a` leaves the queue before `b`.
pub open spec fn outranks(a: State, b: State) -> bool {
    a.cost < b.cost || (a.cost == b.cost && a.position > b.position)
}

impl State {
    /// Queue order: a lower cost ranks higher; at equal cost the higher
    /// position ranks higher.
    pub fn cmp(&self, other: &Self) -> (o: Ordering)
        ensures
            (o == Ordering::Greater) == outranks(*self, *other),
            (o == Ordering::Less) == outranks(*other, *self),
            (o == Ordering::Equal) == (self.cost == other.cost && self.position == other.position),
    {
        if other.cost < self.cost {
            Ordering::Less
        } else if self.cost < other.cost {
            Ordering::Greater
        } else if self.position < other.position {
            Ordering::Less
        } else if other.position < self.position {
            Ordering::Greater
        } else {
            Ordering::Equal
        }
    }

    /// The queue order, always defined.
    pub fn partial_cmp(&self, other: &Self) -> (o: Option<Ordering>)
        ensures
            o matches Some(c) && (c == Ordering::Greater) == outranks(*self, *other) && (c == Ordering::Less)
                == outranks(*other, *self),
    {
        Some(self.cmp(other))
    }
}

/// Removes and returns the entry that ranks highest in the queue order.
pub fn pop_best(queue: &mut Vec<State>) -> (best: State)
    requires
        old(queue).len() > 0,
    ensures
        exists|i: int|
            0 <= i < old(queue)@.len() && old(queue)@[i] == best && final(queue)@ == old(queue)@.remove(i) && forall|
                k: int,
            | 0 <= k < i ==> outranks(best, #[trigger] old(queue)@[k]),
        forall|k: int| 0 <= k < old(queue)@.len() ==> !outranks(#[trigger] old(queue)@[k], best),
{
    let mut bi: usize = 0;
    let mut k: usize = 1;
    let ghost mut b: int = 0;
    while k < queue.len()
        invariant
            1 <= k <= queue.len(),
            bi < k,
            b == bi,
            forall|t: int| 0 <= t < k ==> !outranks(#[trigger] queue@[t], queue@[b]),
            forall|t: int| 0 <= t < b ==> outranks(queue@[b], #[trigger] queue@[t]),
        decreases queue.len() - k,
    {
        let c = queue[k].cmp(&queue[bi]);
        match c {
            Ordering::Greater => {
                bi = k;
                proof {
                    b = k + 0;
                }
            },
            _ => {},
        }
        k = k + 1;
    }
    let best = queue.remove(bi);
    best
}

} // verus!
