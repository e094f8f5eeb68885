use vstd::prelude::*;
use vstd::math::min;
use crate::config::Config;
use crate::order::{access_order, sort_accesses, sort_candidates};
use crate::plan::{
    cold_candidates, pick_one_walk, ranked, sized_candidates, spec_fetch_by_access_time,
    spec_fetch_by_size, spec_last_resort, spec_pick_batch, spec_pick_one, spec_plan, take_until,
};
use crate::table::RegionTable;

verus! {

/// An inbound message from the write path: a write-side access to a
/// region, or a newly reported memtable size for it.
#[derive(Clone, Copy, Debug, PartialEq, Eq, Structural)]
pub enum Msg {
    RecordAccess { region_id: u64, time: u64 },
    RecordSize { region_id: u64, size: usize },
}

/// The flush controller. It tracks, per region, the most recently reported
/// write-buffer size in bytes and the most recent write-side access
/// instant in milliseconds, and plans which regions to flush from those
/// two tables, the configuration, and the memory oracle's readings.
pub struct WriteBufferManager {
    /// Region id to the most recently reported memtable byte count.
    pub write_buffers: RegionTable,
    /// Region id to the instant of its most recent write-side activity.
    pub last_access: RegionTable,
    /// The limits this controller runs under.
    pub cfg: Config,
}

impl WriteBufferManager {
    pub open spec fn wf(&self) -> bool {
        &&& self.write_buffers.wf()
        &&& self.last_access.wf()
        &&& self.cfg.wf()
    }

    /// The access entries in planning order: oldest first, ties by region
    /// id ascending.
    pub open spec fn sorted_accesses(&self) -> Seq<(u64, u64)> {
        self.last_access.entry_seq().sort_by(access_order())
    }

    /// A controller that knows no region yet.
    pub fn new(cfg: Config) -> (m: WriteBufferManager)
        requires
            cfg.wf(),
        ensures
            m.wf(),
            m.cfg == cfg,
            m.write_buffers@ == Map::<u64, u64>::empty(),
            m.last_access@ == Map::<u64, u64>::empty(),
            m.write_buffers.entry_seq() == Seq::<(u64, u64)>::empty(),
            m.last_access.entry_seq() == Seq::<(u64, u64)>::empty(),
    {
        WriteBufferManager { write_buffers: RegionTable::new(), last_access: RegionTable::new(), cfg }
    }

    /// Records the memtable size most recently reported for a region,
    /// overwriting any earlier report. A size of zero is valid and means
    /// the tablet is currently empty.
    pub fn record_size(&mut self, region_id: u64, size: usize)
        requires
            old(self).wf(),
        ensures
            final(self).wf(),
            final(self).cfg == old(self).cfg,
            final(self).write_buffers@ == old(self).write_buffers@.insert(region_id, size as u64),
            final(self).last_access == old(self).last_access,
    {
        self.write_buffers.insert(region_id, size as u64);
    }

    /// Records the instant of a region's most recent write-side activity,
    /// overwriting any earlier record unconditionally.
    pub fn record_access(&mut self, region_id: u64, time: u64)
        requires
            old(self).wf(),
        ensures
            final(self).wf(),
            final(self).cfg == old(self).cfg,
            final(self).last_access@ == old(self).last_access@.insert(region_id, time),
            final(self).write_buffers == old(self).write_buffers,
    {
        self.last_access.insert(region_id, time);
    }

    /// Applies one inbound message.
    pub fn run(&mut self, task: Msg)
        requires
            old(self).wf(),
        ensures
            final(self).wf(),
            final(self).cfg == old(self).cfg,
            match task {
                Msg::RecordAccess { region_id, time } => final(self).last_access@ == old(
                    self,
                ).last_access@.insert(region_id, time) && final(self).write_buffers == old(
                    self,
                ).write_buffers,
                Msg::RecordSize { region_id, size } => final(self).write_buffers@ == old(
                    self,
                ).write_buffers@.insert(region_id, size as u64) && final(self).last_access == old(
                    self,
                ).last_access,
            },
    {
        match task {
            Msg::RecordAccess { region_id, time } => self.record_access(region_id, time),
            Msg::RecordSize { region_id, size } => self.record_size(region_id, size),
        }
    }

    /// Commits the outcome of a flush that was planned at instant `time`
    /// and left the region at `size` bytes. If the region was accessed
    /// after planning, its access entry and recorded size are kept
    /// untouched, so it stays eligible for a later decision; otherwise the
    /// access entry is cleared and the recorded size is overwritten with
    /// the post-flush reading.
    pub fn mark_flush(&mut self, id: u64, time: u64, size: usize)
        requires
            old(self).wf(),
        ensures
            final(self).wf(),
            final(self).cfg == old(self).cfg,
            old(self).last_access@.contains_key(id) && old(self).last_access@[id] > time
                ==> final(self).last_access == old(self).last_access && final(self).write_buffers
                == old(self).write_buffers,
            !(old(self).last_access@.contains_key(id) && old(self).last_access@[id] > time)
                ==> final(self).last_access@ == old(self).last_access@.remove(id)
                && final(self).write_buffers@ == old(self).write_buffers@.insert(id, size as u64),
    {
        match self.last_access.get(id) {
            Some(la) => {
                if la > time {
                    return;
                }
                self.last_access.remove(id);
            }
            None => {
                proof {
                    assert(self.last_access@.remove(id) =~= self.last_access@);
                }
            }
        }
        self.write_buffers.insert(id, size as u64);
    }

    /// How often the planner should be consulted, in milliseconds.
    pub fn get_interval(&self) -> (r: u64)
        ensures
            r == self.cfg.check_interval,
    {
        self.cfg.check_interval
    }

    /// The cold stage of the batch regime: walks `accesses` (sorted oldest
    /// first) while entries are cold and keeps the largest candidates at
    /// or above the flush threshold, at most `max_flush_batch` of them,
    /// largest first.
    pub fn fetch_by_access_time(&self, accesses: &Vec<(u64, u64)>, now: u64) -> (r: Vec<u64>)
        requires
            self.wf(),
        ensures
            r@ == spec_fetch_by_access_time(accesses@, self.write_buffers@, self.cfg, now),
    {
        let ghost s = accesses@;
        let ghost buf = self.write_buffers@;
        let ghost cfg = self.cfg;
        let n = accesses.len();
        let mut cands: Vec<(u128, u64, u64)> = Vec::new();
        let mut i: usize = 0;
        proof {
            assert(s.skip(0) =~= s);
        }
        while i < n
            invariant
                self.wf(),
                n == s.len(),
                s == accesses@,
                buf == self.write_buffers@,
                cfg == self.cfg,
                i <= n,
                cands@ + cold_candidates(s.skip(i as int), buf, cfg, now) == cold_candidates(
                    s,
                    buf,
                    cfg,
                    now,
                ),
            ensures
                s == accesses@,
                buf == self.write_buffers@,
                cfg == self.cfg,
                cands@ == cold_candidates(s, buf, cfg, now),
            decreases n - i,
        {
            let id = accesses[i].0;
            let t = accesses[i].1;
            proof {
                assert(s.skip(i as int)[0] == s[i as int]);
                assert(s.skip(i as int).drop_first() =~= s.skip(i as int + 1));
            }
            let age: u64 = if now >= t {
                now - t
            } else {
                0
            };
            if age < self.cfg.evict_life_time {
                proof {
                    assert(cold_candidates(s.skip(i as int), buf, cfg, now)
                        =~= Seq::<(u128, u64, u64)>::empty());
                    assert(cands@ + Seq::<(u128, u64, u64)>::empty() =~= cands@);
                }
                break;
            }
            let ghost pre = cands@;
            match self.write_buffers.get(id) {
                Some(size) => {
                    if size >= self.cfg.flush_threshold {
                        cands.push((size as u128, size, id));
                        proof {
                            assert(cands@ =~= pre + seq![(size as u128, size, id)]);
                            assert(cands@ + cold_candidates(s.skip(i as int + 1), buf, cfg, now)
                                =~= pre + cold_candidates(s.skip(i as int), buf, cfg, now));
                        }
                    }
                }
                None => {}
            }
            i += 1;
        }
        let sorted_c = sort_candidates(&cands);
        let m = sorted_c.len();
        let k = if self.cfg.max_flush_batch < m {
            self.cfg.max_flush_batch
        } else {
            m
        };
        let mut r: Vec<u64> = Vec::new();
        let mut j: usize = 0;
        while j < k
            invariant
                k <= m,
                m == sorted_c@.len(),
                k == min(cfg.max_flush_batch as int, m as int),
                sorted_c@ == cold_candidates(s, buf, cfg, now).sort_by(crate::order::cand_order()),
                r@.len() == j,
                j <= k,
                forall|p: int| 0 <= p < j ==> r@[p] == sorted_c@[p].2,
            decreases k - j,
        {
            r.push(sorted_c[j].2);
            j += 1;
        }
        proof {
            assert(r@ =~= spec_fetch_by_access_time(s, buf, cfg, now));
        }
        r
    }

    /// The by-size fallback of the batch regime: ranks every region whose
    /// recorded size reaches the threshold and accumulates the best until
    /// the choose limit is covered or the batch is full.
    pub fn fetch_by_size(&self, accesses: &Vec<(u64, u64)>, mutable_mem: u64) -> (r: Vec<u64>)
        requires
            self.wf(),
        ensures
            r@ == spec_fetch_by_size(accesses@, self.write_buffers@, self.cfg, mutable_mem),
    {
        let ghost s = accesses@;
        let ghost buf = self.write_buffers@;
        let ghost cfg = self.cfg;
        let n = accesses.len();
        let mut cands: Vec<(u64, u64)> = Vec::new();
        let mut i: usize = 0;
        proof {
            assert(s.skip(0) =~= s);
        }
        while i < n
            invariant
                self.wf(),
                n == s.len(),
                s == accesses@,
                buf == self.write_buffers@,
                cfg == self.cfg,
                i <= n,
                cands@ + sized_candidates(s.skip(i as int), buf, cfg) == sized_candidates(
                    s,
                    buf,
                    cfg,
                ),
            decreases n - i,
        {
            let id = accesses[i].0;
            proof {
                assert(s.skip(i as int)[0] == s[i as int]);
                assert(s.skip(i as int).drop_first() =~= s.skip(i as int + 1));
            }
            let ghost pre = cands@;
            match self.write_buffers.get(id) {
                Some(size) => {
                    if size >= self.cfg.flush_threshold {
                        cands.push((size, id));
                        proof {
                            assert(cands@ =~= pre + seq![(size, id)]);
                            assert(cands@ + sized_candidates(s.skip(i as int + 1), buf, cfg)
                                =~= pre + sized_candidates(s.skip(i as int), buf, cfg));
                        }
                    }
                }
                None => {}
            }
            i += 1;
        }
        proof {
            assert(s.skip(n as int) =~= Seq::<(u64, u64)>::empty());
            assert(cands@ + Seq::<(u64, u64)>::empty() =~= cands@);
        }
        let m = cands.len();
        let mut rankedv: Vec<(u128, u64, u64)> = Vec::new();
        let mut p: usize = 0;
        while p < m
            invariant
                m == cands@.len(),
                rankedv@.len() == p,
                p <= m,
                forall|q: int| 0 <= q < p ==> rankedv@[q] == ranked(cands@)[q],
            decreases m - p,
        {
            let size = cands[p].0;
            let id = cands[p].1;
            let rank: u128 = size as u128 + 1024u128 * ((m - p) as u128);
            rankedv.push((rank, size, id));
            proof {
                assert(rankedv@[p as int] == ranked(cands@)[p as int]);
            }
            p += 1;
        }
        proof {
            assert(rankedv@ =~= ranked(cands@));
        }
        let sorted_c = sort_candidates(&rankedv);
        let lim0: u64 = if mutable_mem > self.cfg.total_limit {
            mutable_mem / 2
        } else {
            self.cfg.soft_limit / 2
        };
        let ghost k0 = cfg.max_flush_batch as int;
        let mut r: Vec<u64> = Vec::new();
        let mut limit: u64 = lim0;
        let mut left: usize = self.cfg.max_flush_batch;
        let mut w: usize = 0;
        proof {
            assert(sorted_c@.skip(0) =~= sorted_c@);
        }
        loop
            invariant_except_break
                sorted_c@ == ranked(sized_candidates(s, buf, cfg)).sort_by(
                    crate::order::cand_order(),
                ),
                w <= sorted_c@.len(),
                r@ + take_until(sorted_c@.skip(w as int), limit as int, left as int) == take_until(
                    sorted_c@,
                    lim0 as int,
                    k0,
                ),
            ensures
                r@ == take_until(sorted_c@, lim0 as int, k0),
            decreases sorted_c@.len() - w,
        {
            if w == sorted_c.len() || left == 0 {
                proof {
                    assert(take_until(sorted_c@.skip(w as int), limit as int, left as int)
                        =~= Seq::<u64>::empty());
                    assert(r@ + Seq::<u64>::empty() =~= r@);
                }
                break;
            }
            let size = sorted_c[w].1;
            let id = sorted_c[w].2;
            proof {
                assert(sorted_c@.skip(w as int)[0] == sorted_c@[w as int]);
                assert(sorted_c@.skip(w as int).drop_first() =~= sorted_c@.skip(w as int + 1));
            }
            let ghost pre = r@;
            r.push(id);
            proof {
                assert(r@ =~= pre + seq![id]);
            }
            if size >= limit {
                proof {
                    assert(take_until(sorted_c@.skip(w as int), limit as int, left as int)
                        == seq![id] + Seq::<u64>::empty());
                    assert(pre + (seq![id] + Seq::<u64>::empty()) =~= r@);
                }
                break;
            }
            proof {
                assert(r@ + take_until(sorted_c@.skip(w as int + 1), (limit - size) as int, (
                left - 1) as int) =~= pre + take_until(sorted_c@.skip(w as int), limit as int,
                    left as int,
                ));
            }
            limit = limit - size;
            left = left - 1;
            w += 1;
        }
        proof {
            assert(r@ == spec_fetch_by_size(s, buf, cfg, mutable_mem));
        }
        r
    }

    /// The single-flush regime: the cold candidate of largest recorded
    /// size at or above the threshold, or, when no cold region qualifies,
    /// the single coldest region regardless of size, or nothing when no
    /// region is known.
    pub fn pick_one(&self, now: u64) -> (r: Option<u64>)
        requires
            self.wf(),
        ensures
            r == spec_pick_one(self.sorted_accesses(), self.write_buffers@, self.cfg, now),
    {
        let accesses = sort_accesses(&self.last_access.entries);
        let ghost s = accesses@;
        let ghost buf = self.write_buffers@;
        let ghost cfg = self.cfg;
        let n = accesses.len();
        let mut best: Option<(u64, u64)> = None;
        let mut i: usize = 0;
        proof {
            assert(s.skip(0) =~= s);
        }
        while i < n
            invariant
                self.wf(),
                n == s.len(),
                s == accesses@,
                buf == self.write_buffers@,
                cfg == self.cfg,
                i <= n,
                pick_one_walk(s.skip(i as int), buf, cfg, now, best) == pick_one_walk(
                    s,
                    buf,
                    cfg,
                    now,
                    None::<(u64, u64)>,
                ),
            ensures
                s == accesses@,
                pick_one_walk(s, buf, cfg, now, None::<(u64, u64)>) == best,
            decreases n - i,
        {
            let id = accesses[i].0;
            let t = accesses[i].1;
            proof {
                assert(s.skip(i as int)[0] == s[i as int]);
                assert(s.skip(i as int).drop_first() =~= s.skip(i as int + 1));
            }
            let age: u64 = if now >= t {
                now - t
            } else {
                0
            };
            if age < self.cfg.evict_life_time {
                break;
            }
            match self.write_buffers.get(id) {
                Some(size) => {
                    if size >= self.cfg.flush_threshold {
                        let better: bool = match best {
                            Some(b) => size > b.1,
                            None => true,
                        };
                        if better {
                            best = Some((id, size));
                        }
                    }
                }
                None => {}
            }
            i += 1;
        }
        match best {
            Some(b) => Some(b.0),
            None => {
                if accesses.len() > 0 {
                    Some(accesses[0].0)
                } else {
                    None
                }
            }
        }
    }

    /// The batch regime: the cold stage, then the by-size fallback, then
    /// the last resort of the oldest half of the known regions.
    pub fn pick_batch(&self, mutable_mem: u64, now: u64) -> (r: Vec<u64>)
        requires
            self.wf(),
        ensures
            r@ == spec_pick_batch(
                self.sorted_accesses(),
                self.write_buffers@,
                self.cfg,
                now,
                mutable_mem,
            ),
    {
        let accesses = sort_accesses(&self.last_access.entries);
        let mut c = self.fetch_by_access_time(&accesses, now);
        if c.len() == 0 {
            c = self.fetch_by_size(&accesses, mutable_mem);
        }
        if c.len() > 0 {
            return c;
        }
        let half = accesses.len() / 2;
        let count = if half < self.cfg.max_flush_batch {
            half
        } else {
            self.cfg.max_flush_batch
        };
        let mut r: Vec<u64> = Vec::new();
        let mut j: usize = 0;
        while j < count
            invariant
                count <= accesses@.len(),
                r@.len() == j,
                j <= count,
                forall|p: int| 0 <= p < j ==> r@[p] == accesses@[p].0,
            decreases count - j,
        {
            r.push(accesses[j].0);
            j += 1;
        }
        proof {
            assert(r@ =~= spec_last_resort(accesses@, self.cfg.max_flush_batch as int));
        }
        r
    }

    /// The planner. Given the oracle's readings and the clock, returns the
    /// ordered list of regions to flush this tick: nothing under the soft
    /// limit, nothing when memory is held by immutable memtables already
    /// on their way out, one victim when mutable memory is low but the
    /// hard limit is hit, a batch otherwise.
    pub fn pick_to_flush(&self, mem_usage: u64, mutable_mem_usage: u64, now: u64) -> (r: Vec<u64>)
        requires
            self.wf(),
        ensures
            r@ == spec_plan(
                self.cfg,
                self.write_buffers@,
                self.last_access.entry_seq(),
                mem_usage,
                mutable_mem_usage,
                now,
            ),
    {
        if mem_usage < self.cfg.soft_limit {
            let r: Vec<u64> = Vec::new();
            proof {
                assert(r@ =~= Seq::<u64>::empty());
            }
            return r;
        }
        if mutable_mem_usage < self.cfg.soft_limit && mem_usage < self.cfg.total_limit {
            let r: Vec<u64> = Vec::new();
            proof {
                assert(r@ =~= Seq::<u64>::empty());
            }
            return r;
        }
        if mutable_mem_usage < self.cfg.soft_limit {
            match self.pick_one(now) {
                Some(id) => {
                    let mut r: Vec<u64> = Vec::new();
                    r.push(id);
                    proof {
                        assert(r@ =~= seq![id]);
                    }
                    r
                }
                None => {
                    let r: Vec<u64> = Vec::new();
                    proof {
                        assert(r@ =~= Seq::<u64>::empty());
                    }
                    r
                }
            }
        } else {
            self.pick_batch(mutable_mem_usage, now)
        }
    }
}

} // verus!
