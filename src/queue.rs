use vstd::prelude::*;
use crate::state::GameState;

verus! {

/// A max-priority collection of states, each under an integer key. The
/// entry with the largest key leaves first; among equal keys, the one that
/// entered first.
pub struct StateQueue {
    /// Keys and states in the order they entered.
    pub entries: Vec<(i128, GameState)>,
}

impl StateQueue {
    pub fn new() -> (q: StateQueue)
        ensures
            q.entries@.len() == 0,
    {
        StateQueue { entries: Vec::new() }
    }

    pub fn len(&self) -> (r: usize)
        ensures
            r == self.entries@.len(),
    {
        self.entries.len()
    }

    pub fn is_empty(&self) -> (r: bool)
        ensures
            r == (self.entries@.len() == 0),
    {
        self.entries.len() == 0
    }

    pub fn push(&mut self, key: i128, state: GameState)
        ensures
            final(self).entries@ == old(self).entries@.push((key, state)),
    {
        self.entries.push((key, state));
    }

    /// Removes and returns the first entry whose key is largest.
    pub fn pop_best(&mut self) -> (r: (i128, GameState))
        requires
            old(self).entries@.len() > 0,
        ensures
            exists|i: int|
                0 <= i < old(self).entries@.len() && r == old(self).entries@[i] && final(self).entries@
                    == old(self).entries@.remove(i) && (forall|j: int|
                    0 <= j < old(self).entries@.len() ==> (#[trigger] old(self).entries@[j]).0 <= r.0)
                    && (forall|j: int| 0 <= j < i ==> (#[trigger] old(self).entries@[j]).0 < r.0),
    {
        let mut best: usize = 0;
        let mut i: usize = 1;
        while i < self.entries.len()
            invariant
                1 <= i <= self.entries@.len(),
                best < i,
                forall|j: int| 0 <= j < i ==> (#[trigger] self.entries@[j]).0 <= self.entries@[best as int].0,
                forall|j: int| 0 <= j < best ==> (#[trigger] self.entries@[j]).0 < self.entries@[best as int].0,
            decreases self.entries@.len() - i,
        {
            if self.entries[i].0 > self.entries[best].0 {
                best = i;
            }
            i += 1;
        }
        self.entries.remove(best)
    }
}

} // verus!
