use vstd::prelude::*;
use vstd::math::min;
use crate::config::Config;
use crate::order::{access_order, cand_order};

verus! {

/// How long an access from instant `t` has been idle at instant `now`,
/// saturating at zero when the clock reading is older than the access.
pub open spec fn idle_age(now: u64, t: u64) -> int {
    if now >= t { now - t } else { 0 }
}

/// A tablet is cold when its last access is at least the configured
/// eviction life time ago.
pub open spec fn is_cold(cfg: Config, now: u64, t: u64) -> bool {
    idle_age(now, t) >= cfg.evict_life_time
}

/// Walks the cold prefix of the access entries (sorted oldest first) and
/// collects a `(size, size, region_id)` flush candidate for every cold
/// region whose recorded buffer size reaches the flush threshold. The walk
/// stops at the first entry that is not cold: later entries are younger
/// still.
pub open spec fn cold_candidates(
    s: Seq<(u64, u64)>,
    buf: Map<u64, u64>,
    cfg: Config,
    now: u64,
) -> Seq<(u128, u64, u64)>
    decreases s.len(),
{
    if s.len() == 0 {
        Seq::empty()
    } else if !is_cold(cfg, now, s[0].1) {
        Seq::empty()
    } else {
        let rest = cold_candidates(s.drop_first(), buf, cfg, now);
        if buf.contains_key(s[0].0) && buf[s[0].0] >= cfg.flush_threshold {
            seq![(buf[s[0].0] as u128, buf[s[0].0], s[0].0)] + rest
        } else {
            rest
        }
    }
}

/// The largest cold candidates, at most `max_flush_batch` of them, in
/// descending size order with ties broken by region id ascending.
pub open spec fn spec_fetch_by_access_time(
    s: Seq<(u64, u64)>,
    buf: Map<u64, u64>,
    cfg: Config,
    now: u64,
) -> Seq<u64> {
    let sorted = cold_candidates(s, buf, cfg, now).sort_by(cand_order());
    sorted.take(min(cfg.max_flush_batch as int, sorted.len() as int)).map_values(
        |c: (u128, u64, u64)| c.2,
    )
}

/// Every region with a recorded size that reaches the flush threshold, as
/// `(size, region_id)` pairs in access order, oldest first.
pub open spec fn sized_candidates(
    s: Seq<(u64, u64)>,
    buf: Map<u64, u64>,
    cfg: Config,
) -> Seq<(u64, u64)>
    decreases s.len(),
{
    if s.len() == 0 {
        Seq::empty()
    } else {
        let rest = sized_candidates(s.drop_first(), buf, cfg);
        if buf.contains_key(s[0].0) && buf[s[0].0] >= cfg.flush_threshold {
            seq![(buf[s[0].0], s[0].0)] + rest
        } else {
            rest
        }
    }
}

/// Ranks by-size candidates: a candidate's rank blends its size with its
/// access-order position, 1024 bytes of weight per position, so that both a
/// larger size and an older access raise the rank.
pub open spec fn ranked(cands: Seq<(u64, u64)>) -> Seq<(u128, u64, u64)> {
    cands.map(
        |i: int, c: (u64, u64)| (((c.0 + 1024 * (cands.len() - i)) as u128), c.0, c.1),
    )
}

/// How many bytes the by-size stage tries to reclaim.
pub open spec fn choose_limit(cfg: Config, mutable_mem: u64) -> u64 {
    if mutable_mem > cfg.total_limit {
        mutable_mem / 2
    } else {
        cfg.soft_limit / 2
    }
}

/// Pops ranked candidates best first and accumulates them until the taken
/// sizes reach `limit` or `k` regions have been taken, whichever is first.
pub open spec fn take_until(cands: Seq<(u128, u64, u64)>, limit: int, k: int) -> Seq<u64>
    decreases cands.len(),
{
    if cands.len() == 0 || k <= 0 {
        Seq::empty()
    } else {
        let c = cands[0];
        seq![c.2] + if c.1 >= limit {
            Seq::empty()
        } else {
            take_until(cands.drop_first(), limit - c.1, k - 1)
        }
    }
}

/// The by-size fallback: rank every sized candidate, then accumulate the
/// best until the choose limit is covered or the batch is full.
pub open spec fn spec_fetch_by_size(
    s: Seq<(u64, u64)>,
    buf: Map<u64, u64>,
    cfg: Config,
    mutable_mem: u64,
) -> Seq<u64> {
    let sorted = ranked(sized_candidates(s, buf, cfg)).sort_by(cand_order());
    take_until(sorted, choose_limit(cfg, mutable_mem) as int, cfg.max_flush_batch as int)
}

/// The last resort: the oldest half of the known regions, ignoring size,
/// capped at `k`.
pub open spec fn spec_last_resort(s: Seq<(u64, u64)>, k: int) -> Seq<u64> {
    s.take(min(s.len() as int / 2, k)).map_values(|e: (u64, u64)| e.0)
}

/// The batch regime: prefer the cold candidates, then the by-size fallback,
/// then the last resort, so that the controller is never a no-op under
/// severe pressure.
pub open spec fn spec_pick_batch(
    s: Seq<(u64, u64)>,
    buf: Map<u64, u64>,
    cfg: Config,
    now: u64,
    mutable_mem: u64,
) -> Seq<u64> {
    let a = spec_fetch_by_access_time(s, buf, cfg, now);
    if a.len() > 0 {
        a
    } else {
        let b = spec_fetch_by_size(s, buf, cfg, mutable_mem);
        if b.len() > 0 {
            b
        } else {
            spec_last_resort(s, cfg.max_flush_batch as int)
        }
    }
}

/// Walks the cold prefix oldest first, keeping the cold candidate of
/// largest recorded size at or above the flush threshold; an earlier
/// candidate wins a size tie.
pub open spec fn pick_one_walk(
    s: Seq<(u64, u64)>,
    buf: Map<u64, u64>,
    cfg: Config,
    now: u64,
    best: Option<(u64, u64)>,
) -> Option<(u64, u64)>
    decreases s.len(),
{
    if s.len() == 0 || !is_cold(cfg, now, s[0].1) {
        best
    } else {
        let id = s[0].0;
        let better = match best {
            Option::None => true,
            Option::Some(b) => buf[id] > b.1,
        };
        let next = if buf.contains_key(id) && buf[id] >= cfg.flush_threshold && better {
            Some((id, buf[id]))
        } else {
            best
        };
        pick_one_walk(s.drop_first(), buf, cfg, now, next)
    }
}

/// The single-flush regime: the largest cold candidate above the
/// threshold, or, when there is none, the single coldest region regardless
/// of size, for forward progress.
pub open spec fn spec_pick_one(
    s: Seq<(u64, u64)>,
    buf: Map<u64, u64>,
    cfg: Config,
    now: u64,
) -> Option<u64> {
    match pick_one_walk(s, buf, cfg, now, None) {
        Option::Some(b) => Some(b.0),
        Option::None => if s.len() > 0 {
            Some(s[0].0)
        } else {
            None
        },
    }
}

/// The whole planner as a function of the controller state (the buffer
/// map and the access entries), the oracle readings, and the clock. The
/// decision ladder:
/// no pressure, then pressure held by immutable memtables alone, then the
/// single-flush regime, then the batch regime.
pub open spec fn spec_plan(
    cfg: Config,
    buf: Map<u64, u64>,
    access_entries: Seq<(u64, u64)>,
    mem_usage: u64,
    mutable_mem: u64,
    now: u64,
) -> Seq<u64> {
    if mem_usage < cfg.soft_limit {
        Seq::empty()
    } else if mutable_mem < cfg.soft_limit && mem_usage < cfg.total_limit {
        Seq::empty()
    } else {
        let s = access_entries.sort_by(access_order());
        if mutable_mem < cfg.soft_limit {
            match spec_pick_one(s, buf, cfg, now) {
                Option::Some(id) => seq![id],
                Option::None => Seq::empty(),
            }
        } else {
            spec_pick_batch(s, buf, cfg, now, mutable_mem)
        }
    }
}

} // verus!
