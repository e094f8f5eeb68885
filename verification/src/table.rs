use vstd::prelude::*;

verus! {

/// A `(region_id, value)` association held as a flat vector with pairwise
/// distinct region ids, read in contracts as a `Map<u64, u64>`. It stands in
/// for a hash map keyed by region id; the planner also reads the raw entry
/// sequence so that its result can be stated as a function of the stored
/// entries.
pub struct RegionTable {
    pub entries: Vec<(u64, u64)>,
}

/// The map that an entry sequence denotes: later entries override earlier
/// ones (with distinct region ids nothing is ever overridden).
pub open spec fn as_map(s: Seq<(u64, u64)>) -> Map<u64, u64>
    decreases s.len(),
{
    if s.len() == 0 {
        Map::empty()
    } else {
        as_map(s.drop_last()).insert(s.last().0, s.last().1)
    }
}

/// No region id occurs twice in the sequence.
pub open spec fn distinct_regions(s: Seq<(u64, u64)>) -> bool {
    forall|i: int, j: int| 0 <= i < j < s.len() ==> s[i].0 != s[j].0
}

/// Each stored entry is visible in the denoted map.
pub proof fn lemma_as_map_index(s: Seq<(u64, u64)>, i: int)
    requires
        distinct_regions(s),
        0 <= i < s.len(),
    ensures
        as_map(s).contains_key(s[i].0),
        as_map(s)[s[i].0] == s[i].1,
    decreases s.len(),
{
    if i < s.len() - 1 {
        lemma_as_map_index(s.drop_last(), i);
        assert(s.drop_last()[i] == s[i]);
        assert(s[i].0 != s.last().0);
    }
}

/// A region id that no entry carries is absent from the denoted map.
pub proof fn lemma_as_map_absent(s: Seq<(u64, u64)>, k: u64)
    requires
        forall|i: int| 0 <= i < s.len() ==> s[i].0 != k,
    ensures
        !as_map(s).contains_key(k),
    decreases s.len(),
{
    if s.len() > 0 {
        lemma_as_map_absent(s.drop_last(), k);
    }
}

/// Overwriting the value at position `i` overwrites the map at its key.
pub proof fn lemma_as_map_update(s: Seq<(u64, u64)>, i: int, v: u64)
    requires
        distinct_regions(s),
        0 <= i < s.len(),
    ensures
        as_map(s.update(i, (s[i].0, v))) == as_map(s).insert(s[i].0, v),
    decreases s.len(),
{
    let k = s[i].0;
    let t = s.update(i, (k, v));
    if i == s.len() - 1 {
        assert(t.drop_last() =~= s.drop_last());
        assert(as_map(t) =~= as_map(s).insert(k, v));
    } else {
        lemma_as_map_update(s.drop_last(), i, v);
        assert(t.drop_last() =~= s.drop_last().update(i, (k, v)));
        assert(t.last() == s.last());
        assert(s.drop_last()[i] == s[i]);
        assert(k != s.last().0);
        assert(as_map(t) =~= as_map(s).insert(k, v));
    }
}

/// Removing the entry at position `i` removes its key from the map.
pub proof fn lemma_as_map_remove(s: Seq<(u64, u64)>, i: int)
    requires
        distinct_regions(s),
        0 <= i < s.len(),
    ensures
        as_map(s.remove(i)) == as_map(s).remove(s[i].0),
    decreases s.len(),
{
    let k = s[i].0;
    if i == s.len() - 1 {
        assert(s.remove(i) =~= s.drop_last());
        lemma_as_map_absent(s.drop_last(), k);
        assert(as_map(s.remove(i)) =~= as_map(s).remove(k));
    } else {
        lemma_as_map_remove(s.drop_last(), i);
        assert(s.remove(i).drop_last() =~= s.drop_last().remove(i));
        assert(s.remove(i).last() == s.last());
        assert(s.drop_last()[i] == s[i]);
        assert(k != s.last().0);
        assert(as_map(s.remove(i)) =~= as_map(s).remove(k));
    }
}

impl View for RegionTable {
    type V = Map<u64, u64>;

    open spec fn view(&self) -> Map<u64, u64> {
        as_map(self.entries@)
    }
}

impl RegionTable {
    /// The raw entries, for contracts that depend on the stored sequence.
    pub open spec fn entry_seq(&self) -> Seq<(u64, u64)> {
        self.entries@
    }

    pub open spec fn wf(&self) -> bool {
        distinct_regions(self.entries@)
    }

    /// An empty table.
    pub fn new() -> (t: RegionTable)
        ensures
            t.wf(),
            t@ == Map::<u64, u64>::empty(),
            t.entry_seq() == Seq::<(u64, u64)>::empty(),
    {
        let t = RegionTable { entries: Vec::new() };
        proof {
            assert(t@ =~= Map::<u64, u64>::empty());
        }
        t
    }

    /// Looks a region up.
    pub fn get(&self, key: u64) -> (r: Option<u64>)
        requires
            self.wf(),
        ensures
            r == if self@.contains_key(key) {
                Some(self@[key])
            } else {
                None::<u64>
            },
    {
        let n = self.entries.len();
        for i in 0..n
            invariant
                n == self.entries@.len(),
                self.wf(),
                forall|k: int| 0 <= k < i ==> self.entries@[k].0 != key,
        {
            if self.entries[i].0 == key {
                proof {
                    lemma_as_map_index(self.entries@, i as int);
                }
                return Some(self.entries[i].1);
            }
        }
        proof {
            lemma_as_map_absent(self.entries@, key);
        }
        None
    }

    /// Writes `value` for `key`, overwriting any earlier value.
    pub fn insert(&mut self, key: u64, value: u64)
        requires
            old(self).wf(),
        ensures
            final(self).wf(),
            final(self)@ == old(self)@.insert(key, value),
    {
        let n = self.entries.len();
        for i in 0..n
            invariant
                n == self.entries@.len(),
                self.wf(),
                self.entries@ == old(self).entries@,
                forall|k: int| 0 <= k < i ==> self.entries@[k].0 != key,
        {
            if self.entries[i].0 == key {
                proof {
                    lemma_as_map_update(self.entries@, i as int, value);
                }
                self.entries[i] = (key, value);
                proof {
                    assert(self.wf());
                }
                return;
            }
        }
        proof {
            lemma_as_map_absent(self.entries@, key);
            assert(as_map(self.entries@.push((key, value))).contains_key(key));
        }
        self.entries.push((key, value));
        proof {
            assert(self.entries@.drop_last() =~= old(self).entries@);
            assert(self@ =~= old(self)@.insert(key, value));
            assert forall|i: int, j: int|
                0 <= i < j < self.entries@.len() implies self.entries@[i].0
                != self.entries@[j].0 by {
                if j == self.entries@.len() - 1 {
                    assert(self.entries@[i] == old(self).entries@[i]);
                }
            }
        }
    }

    /// Drops `key` from the table; a key that is absent stays absent.
    pub fn remove(&mut self, key: u64)
        requires
            old(self).wf(),
        ensures
            final(self).wf(),
            final(self)@ == old(self)@.remove(key),
    {
        let n = self.entries.len();
        for i in 0..n
            invariant
                n == self.entries@.len(),
                self.wf(),
                self.entries@ == old(self).entries@,
                forall|k: int| 0 <= k < i ==> self.entries@[k].0 != key,
        {
            if self.entries[i].0 == key {
                proof {
                    lemma_as_map_remove(self.entries@, i as int);
                }
                let ghost pre = self.entries@;
                self.entries.remove(i);
                proof {
                    assert forall|a: int, b: int|
                        0 <= a < b < self.entries@.len() implies self.entries@[a].0
                        != self.entries@[b].0 by {
                        assert(self.entries@[a] == if a < i {
                            pre[a]
                        } else {
                            pre[a + 1]
                        });
                        assert(self.entries@[b] == if b < i {
                            pre[b]
                        } else {
                            pre[b + 1]
                        });
                    }
                }
                return;
            }
        }
        proof {
            lemma_as_map_absent(self.entries@, key);
            assert(self@ =~= old(self)@.remove(key));
        }
    }
}

} // verus!
