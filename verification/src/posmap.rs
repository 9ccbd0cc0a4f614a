//! A map from positions to values, backed by a vector of entries with
//! distinct keys. The search keeps its best-known costs and its parent
//! links in such maps.

use vstd::prelude::*;
use crate::geometry::Pos;

verus! {

/// The map described by a sequence of entries; a later entry for the same
/// key overrides an earlier one.
pub open spec fn as_map<V>(s: Seq<(Pos, V)>) -> Map<Pos, V>
    decreases s.len(),
{
    if s.len() == 0 {
        Map::empty()
    } else {
        as_map(s.drop_last()).insert(s.last().0, s.last().1)
    }
}

pub struct PosMap<V> {
    entries: Vec<(Pos, V)>,
}

impl<V> View for PosMap<V> {
    type V = Map<Pos, V>;

    closed spec fn view(&self) -> Map<Pos, V> {
        as_map(self.entries@)
    }
}

proof fn lemma_as_map_update<V>(s: Seq<(Pos, V)>, i: int, kv: (Pos, V))
    requires
        0 <= i < s.len(),
        s[i].0 == kv.0,
        forall|a: int, b: int| 0 <= a < b < s.len() ==> (#[trigger] s[a]).0 != (#[trigger] s[b]).0,
    ensures
        as_map(s.update(i, kv)) == as_map(s).insert(kv.0, kv.1),
    decreases s.len(),
{
    let t = s.update(i, kv);
    if i == s.len() - 1 {
        assert(t.drop_last() =~= s.drop_last());
        assert(as_map(t) =~= as_map(s).insert(kv.0, kv.1));
    } else {
        lemma_as_map_update(s.drop_last(), i, kv);
        assert(t.drop_last() =~= s.drop_last().update(i, kv));
        assert(t.last() == s.last());
        assert(s[i].0 != s.last().0);
        assert(as_map(t) =~= as_map(s).insert(kv.0, kv.1));
    }
}

impl<V: Copy> PosMap<V> {
    /// Entries carry distinct keys, so one scan settles a lookup.
    pub closed spec fn wf(&self) -> bool {
        forall|a: int, b: int|
            0 <= a < b < self.entries@.len() ==> (#[trigger] self.entries@[a]).0 != (
            #[trigger] self.entries@[b]).0
    }

    pub fn new() -> (m: Self)
        ensures
            m@ == Map::<Pos, V>::empty(),
            m.wf(),
    {
        PosMap { entries: Vec::new() }
    }

    pub fn get(&self, key: Pos) -> (r: Option<V>)
        ensures
            match r {
                Some(v) => self@.contains_key(key) && self@[key] == v,
                None => !self@.contains_key(key),
            },
    {
        let mut i: usize = self.entries.len();
        proof {
            assert(self.entries@.take(i as int) =~= self.entries@);
        }
        while i > 0
            invariant
                i <= self.entries@.len(),
                as_map(self.entries@).contains_key(key) == as_map(
                    self.entries@.take(i as int),
                ).contains_key(key),
                as_map(self.entries@).contains_key(key) ==> as_map(self.entries@)[key] == as_map(
                    self.entries@.take(i as int),
                )[key],
            decreases i,
        {
            i = i - 1;
            proof {
                assert(self.entries@.take(i + 1).drop_last() =~= self.entries@.take(i as int));
                assert(self.entries@.take(i + 1).last() == self.entries@[i as int]);
            }
            if self.entries[i].0 == key {
                return Some(self.entries[i].1);
            }
        }
        proof {
            assert(self.entries@.take(0) =~= Seq::<(Pos, V)>::empty());
        }
        None
    }

    pub fn insert(&mut self, key: Pos, value: V)
        requires
            old(self).wf(),
        ensures
            final(self).wf(),
            final(self)@ == old(self)@.insert(key, value),
    {
        let mut i: usize = 0;
        while i < self.entries.len()
            invariant
                i <= self.entries@.len(),
                forall|j: int| 0 <= j < i ==> (#[trigger] self.entries@[j]).0 != key,
                self.wf(),
                self.entries@ == old(self).entries@,
            decreases self.entries@.len() - i,
        {
            if self.entries[i].0 == key {
                let ghost pre = self.entries@;
                proof {
                    lemma_as_map_update(pre, i as int, (key, value));
                }
                self.entries.set(i, (key, value));
                proof {
                    assert(self.entries@ == pre.update(i as int, (key, value)));
                    assert forall|a: int, b: int|
                        0 <= a < b < self.entries@.len() implies (#[trigger] self.entries@[a]).0
                        != (#[trigger] self.entries@[b]).0 by {
                        assert(pre[a].0 != pre[b].0);
                    }
                }
                return ;
            }
            i = i + 1;
        }
        let ghost pre = self.entries@;
        self.entries.push((key, value));
        proof {
            assert(self.entries@.drop_last() =~= pre);
            assert(self.entries@.last() == (key, value));
            assert(self@ == as_map(pre).insert(key, value));
            assert forall|a: int, b: int|
                0 <= a < b < self.entries@.len() implies (#[trigger] self.entries@[a]).0 != (
            #[trigger] self.entries@[b]).0 by {
                if b < pre.len() {
                    assert(pre[a].0 != pre[b].0);
                } else {
                    assert(pre[a].0 != key);
                }
            }
        }
    }
}

} // verus!
