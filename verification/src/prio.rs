//! The frontier queue for the priority-driven searches (Dijkstra, Prim,
//! A*): entries carry a priority key, a vertex position and the position
//! the entry came from.  `pop_min` hands out an entry with the least key;
//! among equal keys the earliest-pushed one leaves first, which makes the
//! searches deterministic.

use vstd::prelude::*;

verus! {

/// One frontier entry: priority key, subject vertex, and originating
/// vertex (used by Prim; the searches that do not need it store the
/// subject again).
pub struct QueueEntry {
    pub key: i128,
    pub node: usize,
    pub origin: usize,
}

/// Min-priority queue over `QueueEntry`, viewed as the sequence of entries
/// in push order.
pub struct MinQueue {
    items: Vec<QueueEntry>,
}

impl View for MinQueue {
    type V = Seq<QueueEntry>;

    closed spec fn view(&self) -> Seq<QueueEntry> {
        self.items@
    }
}

impl MinQueue {
    /// Creates an empty queue.
    pub fn new() -> (q: MinQueue)
        ensures
            q@ == Seq::<QueueEntry>::empty(),
    {
        MinQueue { items: Vec::new() }
    }

    /// Number of entries.
    pub fn len(&self) -> (n: usize)
        ensures
            n == self@.len(),
    {
        self.items.len()
    }

    /// Adds an entry.
    pub fn push(&mut self, key: i128, node: usize, origin: usize)
        ensures
            final(self)@ == old(self)@.push(QueueEntry { key, node, origin }),
    {
        self.items.push(QueueEntry { key, node, origin });
    }

    /// Removes and returns the first entry with the least key, or nothing
    /// when the queue is empty.
    pub fn pop_min(&mut self) -> (r: Option<QueueEntry>)
        ensures
            match r {
                Some(e) => {
                    &&& old(self)@.len() > 0
                    &&& exists|i: int|
                        0 <= i < old(self)@.len() && old(self)@[i] == e && final(self)@ == old(
                            self,
                        )@.remove(i)
                    &&& forall|t: int| 0 <= t < old(self)@.len() ==> e.key <= (#[trigger] old(self)@[t]).key
                },
                None => old(self)@.len() == 0 && final(self)@ == old(self)@,
            },
    {
        let n = self.items.len();
        if n == 0 {
            return None;
        }
        let mut best: usize = 0;
        let mut i: usize = 1;
        while i < n
            invariant
                n == self@.len(),
                best < i <= n,
                forall|t: int|
                    0 <= t < i ==> self@[best as int].key <= (#[trigger] self@[t]).key,
            decreases n - i,
        {
            if self.items[i].key < self.items[best].key {
                best = i;
            }
            i = i + 1;
        }
        let e = self.items.remove(best);
        proof {
            assert(old(self)@[best as int] == e);
            assert(self@ == old(self)@.remove(best as int));
        }
        Some(e)
    }
}

} // verus!
