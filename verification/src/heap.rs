//! A priority queue over 64-bit integers with a selectable mode: as a
//! min-heap the smallest value has priority, as a max-heap the largest.
//! The contents are kept in ascending order, so peeking and popping the
//! prioritized element touch one end of the store.

use vstd::prelude::*;

verus! {

broadcast use vstd::seq_lib::group_to_multiset_ensures;

/// The sequence is in ascending order.
pub open spec fn sorted_asc(s: Seq<i64>) -> bool {
    forall|a: int, b: int| 0 <= a < b < s.len() ==> s[a] <= s[b]
}

/// Priority queue over `i64` values; `@` views the contents in ascending
/// order.
pub struct HeapData {
    data: Vec<i64>,
    is_min_heap: bool,
}

impl View for HeapData {
    type V = Seq<i64>;

    closed spec fn view(&self) -> Seq<i64> {
        self.data@
    }
}

impl HeapData {
    /// Whether the queue prioritizes the smallest value.
    pub closed spec fn is_min(self) -> bool {
        self.is_min_heap
    }

    /// The invariant: the contents are kept sorted.
    pub open spec fn wf(self) -> bool {
        sorted_asc(self@)
    }

    /// Creates an empty queue; `is_min_heap` selects the mode.
    pub fn new(is_min_heap: bool) -> (r: HeapData)
        ensures
            r.wf(),
            r@ == Seq::<i64>::empty(),
            r.is_min() == is_min_heap,
    {
        HeapData { data: Vec::new(), is_min_heap }
    }

    /// The contents in ascending order.
    pub fn get(&self) -> (r: Vec<i64>)
        ensures
            r@ == self@,
    {
        self.data.clone()
    }

    /// Position of the first occurrence of `item` in ascending order.
    pub fn get_index(&self, item: &i64) -> (r: Option<usize>)
        ensures
            match r {
                Some(i) => i < self@.len() && self@[i as int] == item && forall|t: int|
                    0 <= t < i ==> self@[t] != item,
                None => forall|t: int| 0 <= t < self@.len() ==> self@[t] != item,
            },
    {
        let n = self.data.len();
        let mut i: usize = 0;
        while i < n
            invariant
                n == self@.len(),
                i <= n,
                forall|t: int| 0 <= t < i ==> self@[t] != item,
            decreases n - i,
        {
            if self.data[i] == *item {
                return Some(i);
            }
            i = i + 1;
        }
        None
    }

    /// The value at `index` in ascending order, if any.
    pub fn get_value(&self, index: usize) -> (r: Option<i64>)
        ensures
            match r {
                Some(v) => index < self@.len() && v == self@[index as int],
                None => index >= self@.len(),
            },
    {
        if index < self.data.len() {
            Some(self.data[index])
        } else {
            None
        }
    }

    /// Replaces the contents with the given values.
    pub fn heapify(&mut self, array: Vec<i64>) -> (r: bool)
        requires
            old(self).wf(),
        ensures
            r,
            final(self).wf(),
            final(self)@.to_multiset() == array@.to_multiset(),
            final(self).is_min() == old(self).is_min(),
    {
        self.data.clear();
        let n = array.len();
        let mut k: usize = 0;
        while k < n
            invariant
                n == array@.len(),
                k <= n,
                sorted_asc(self.data@),
                self.data@.to_multiset() == array@.subrange(0, k as int).to_multiset(),
                self.is_min_heap == old(self).is_min_heap,
            decreases n - k,
        {
            proof {
                assert(array@.subrange(0, k as int + 1).drop_last() =~= array@.subrange(
                    0,
                    k as int,
                ));
                assert(array@.subrange(0, k as int + 1) =~= array@.subrange(
                    0,
                    k as int,
                ).push(array@[k as int]));
            }
            let v = array[k];
            insert_sorted(&mut self.data, v);
            k = k + 1;
        }
        proof {
            assert(array@.subrange(0, n as int) =~= array@);
        }
        true
    }

    /// Adds a value to the queue.
    pub fn push(&mut self, value: i64) -> (r: bool)
        requires
            old(self).wf(),
        ensures
            r,
            final(self).wf(),
            final(self)@.to_multiset() == old(self)@.to_multiset().insert(value),
            final(self)@.len() == old(self)@.len() + 1,
            final(self).is_min() == old(self).is_min(),
    {
        insert_sorted(&mut self.data, value);
        true
    }

    /// Discards the prioritized element: the smallest value in min mode,
    /// the largest in max mode.  An empty queue stays empty.
    pub fn pop(&mut self) -> (r: bool)
        requires
            old(self).wf(),
        ensures
            r,
            final(self).wf(),
            final(self).is_min() == old(self).is_min(),
            old(self)@.len() == 0 ==> final(self)@ == old(self)@,
            old(self)@.len() > 0 && old(self).is_min() ==> final(self)@ == old(self)@.drop_first(),
            old(self)@.len() > 0 && !old(self).is_min() ==> final(self)@ == old(self)@.drop_last(),
    {
        if self.data.len() == 0 {
            return true;
        }
        if self.is_min_heap {
            self.data.remove(0);
            proof {
                assert(self@ =~= old(self)@.drop_first());
                assert forall|a: int, b: int| 0 <= a < b < self@.len() implies self@[a]
                    <= self@[b] by {
                    assert(old(self)@[a + 1] <= old(self)@[b + 1]);
                }
            }
        } else {
            self.data.pop();
            proof {
                assert(self@ =~= old(self)@.drop_last());
                assert forall|a: int, b: int| 0 <= a < b < self@.len() implies self@[a]
                    <= self@[b] by {
                    assert(old(self)@[a] <= old(self)@[b]);
                }
            }
        }
        true
    }

    /// The prioritized element, without removing it.
    pub fn peek(&self) -> (r: Option<i64>)
        requires
            self.wf(),
        ensures
            self@.len() == 0 <==> r is None,
            self@.len() > 0 && self.is_min() ==> r == Some(self@.first()),
            self@.len() > 0 && !self.is_min() ==> r == Some(self@.last()),
            match r {
                Some(v) => forall|t: int|
                    0 <= t < self@.len() ==> if self.is_min() {
                        v <= #[trigger] self@[t]
                    } else {
                        v >= #[trigger] self@[t]
                    },
                None => true,
            },
    {
        if self.data.len() == 0 {
            None
        } else if self.is_min_heap {
            Some(self.data[0])
        } else {
            Some(self.data[self.data.len() - 1])
        }
    }

    /// Whether the queue holds no values.
    pub fn is_empty(&self) -> (r: bool)
        ensures
            r == (self@.len() == 0),
    {
        self.data.len() == 0
    }

    /// Number of values held.
    pub fn size(&self) -> (n: usize)
        ensures
            n == self@.len(),
    {
        self.data.len()
    }

    /// Removes every value.
    pub fn clear(&mut self) -> (r: bool)
        ensures
            r,
            final(self).wf(),
            final(self)@ == Seq::<i64>::empty(),
            final(self).is_min() == old(self).is_min(),
    {
        self.data.clear();
        true
    }
}

/// Inserts a value into a sorted vector, after any equal values.
fn insert_sorted(data: &mut Vec<i64>, value: i64)
    requires
        sorted_asc(old(data)@),
    ensures
        sorted_asc(final(data)@),
        final(data)@.to_multiset() == old(data)@.to_multiset().insert(value),
        final(data)@.len() == old(data)@.len() + 1,
{
    let n = data.len();
    let mut i: usize = 0;
    while i < n && data[i] <= value
        invariant
            n == data@.len(),
            data@ == old(data)@,
            i <= n,
            forall|t: int| 0 <= t < i ==> data@[t] <= value,
        decreases n - i,
    {
        i = i + 1;
    }
    data.insert(i, value);
    proof {
        let s = old(data)@;
        let s2 = data@;
        assert(s2 == s.insert(i as int, value));
        assert forall|a: int, b: int| 0 <= a < b < s2.len() implies s2[a] <= s2[b] by {
            if b < i {
                assert(s2[a] == s[a] && s2[b] == s[b]);
            } else if a > i {
                assert(s2[a] == s[a - 1] && s2[b] == s[b - 1]);
            } else if a < i && b == i {
                assert(s2[a] == s[a]);
            } else if a == i && b > i {
                assert(s2[b] == s[b - 1]);
                if i < s.len() {
                    assert(s[i as int] > value);
                    assert(s[i as int] <= s[b - 1]);
                }
            } else if a < i && b > i {
                assert(s2[a] == s[a] && s2[b] == s[b - 1]);
                if i < s.len() {
                    assert(s[i as int] <= s[b - 1] || i as int == b - 1);
                }
                assert(s[a] <= value);
                assert(s[a] <= s[b - 1] || a == b - 1);
            }
        }
        assert(s2.remove(i as int) =~= s);
        assert(s2.remove(i as int).to_multiset() =~= s2.to_multiset().remove(s2[i as int]));
        assert(s2[i as int] == value);
        assert(s2.to_multiset().contains(value)) by {
            assert(s2.contains(value)) by {
                assert(s2[i as int] == value);
            }
        }
        assert(s2.to_multiset() =~= s.to_multiset().insert(value)) by {
            assert(s.to_multiset() =~= s2.to_multiset().remove(value));
        }
    }
}

} // verus!
