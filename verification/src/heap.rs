//! A min-priority queue over arbitrary payloads keyed by a numeric
//! priority. Several entries may share one logical node; `pop` returns an
//! entry of minimal priority.

use vstd::prelude::*;

verus! {

pub struct MinHeap<T> {
    entries: Vec<(T, u64)>,
}

impl<T> View for MinHeap<T> {
    type V = Seq<(T, u64)>;

    closed spec fn view(&self) -> Seq<(T, u64)> {
        self.entries@
    }
}

impl<T> MinHeap<T> {
    pub fn new() -> (h: Self)
        ensures
            h@ == Seq::<(T, u64)>::empty(),
    {
        MinHeap { entries: Vec::new() }
    }

    pub fn len(&self) -> (n: usize)
        ensures
            n == self@.len(),
    {
        self.entries.len()
    }

    pub fn push(&mut self, value: T, priority: u64)
        ensures
            final(self)@ == old(self)@.push((value, priority)),
    {
        self.entries.push((value, priority));
    }

    /// Remove and return an entry whose priority is minimal. Among entries
    /// of equal priority the choice is unspecified.
    pub fn pop(&mut self) -> (r: Option<T>)
        ensures
            match r {
                None => old(self)@.len() == 0 && final(self)@ == old(self)@,
                Some(v) => exists|i: int|
                    {
                        &&& 0 <= i < old(self)@.len()
                        &&& v == (#[trigger] old(self)@[i]).0
                        &&& final(self)@ == old(self)@.remove(i)
                        &&& forall|j: int|
                            0 <= j < old(self)@.len() ==> old(self)@[i].1
                                <= (#[trigger] old(self)@[j]).1
                    },
            },
    {
        if self.entries.len() == 0 {
            return None;
        }
        let mut best: usize = 0;
        let mut i: usize = 1;
        while i < self.entries.len()
            invariant
                self.entries@ == old(self).entries@,
                best < i <= self.entries.len(),
                forall|j: int|
                    0 <= j < i ==> self.entries@[best as int].1 <= (#[trigger] self.entries@[j]).1,
            decreases self.entries.len() - i,
        {
            if self.entries[i].1 < self.entries[best].1 {
                best = i;
            }
            i = i + 1;
        }
        let ghost pre = self.entries@;
        let entry = self.entries.remove(best);
        proof {
            assert(entry == pre[best as int]);
            assert(self.entries@ == pre.remove(best as int));
            assert(entry.0 == (old(self)@[best as int]).0);
            assert(self@ == old(self)@.remove(best as int));
            assert(forall|j: int|
                0 <= j < old(self)@.len() ==> old(self)@[best as int].1 <= (#[trigger] old(
                    self,
                )@[j]).1);
        }
        Some(entry.0)
    }
}

} // verus!
