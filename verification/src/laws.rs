use vstd::prelude::*;
use vstd::math::min;
use vstd::seq_lib::lemma_sorted_unique;
use crate::config::Config;
use crate::order::{access_order, cand_order, lemma_access_order_total, lemma_cand_order_total};
use crate::plan::{
    cold_candidates, is_cold, pick_one_walk, ranked, sized_candidates, spec_fetch_by_access_time,
    spec_fetch_by_size, spec_last_resort, spec_pick_batch, spec_pick_one, spec_plan, take_until,
};

verus! {

/// Some entry of `s` carries region `id`.
pub open spec fn has_region(s: Seq<(u64, u64)>, id: u64) -> bool {
    exists|j: int| 0 <= j < s.len() && s[j].0 == id
}

/// Did the planner fall back to forward progress regardless of size: the
/// single coldest region when no cold region qualifies, or the oldest
/// half of the known regions when both batch stages come back empty?
pub open spec fn last_resort_fired(
    cfg: Config,
    buf: Map<u64, u64>,
    entries: Seq<(u64, u64)>,
    mem_usage: u64,
    mutable_mem: u64,
    now: u64,
) -> bool {
    let s = entries.sort_by(access_order());
    if mem_usage < cfg.soft_limit {
        false
    } else if mutable_mem < cfg.soft_limit && mem_usage < cfg.total_limit {
        false
    } else if mutable_mem < cfg.soft_limit {
        pick_one_walk(s, buf, cfg, now, None::<(u64, u64)>) == None::<(u64, u64)> && s.len() > 0
    } else {
        spec_fetch_by_access_time(s, buf, cfg, now).len() == 0 && spec_fetch_by_size(
            s,
            buf,
            cfg,
            mutable_mem,
        ).len() == 0
    }
}

proof fn lemma_take_until_len(c: Seq<(u128, u64, u64)>, l: int, k: int)
    ensures
        take_until(c, l, k).len() <= (if k >= 0 {
            k
        } else {
            0
        }),
    decreases c.len(),
{
    if c.len() == 0 || k <= 0 {
    } else if c[0].1 >= l {
    } else {
        lemma_take_until_len(c.drop_first(), l - c[0].1, k - 1);
    }
}

/// Every cold candidate stands for a tracked region: its id is carried by
/// an access entry, its size is the recorded one and reaches the
/// threshold.
proof fn lemma_cold_candidates_elems(s: Seq<(u64, u64)>, buf: Map<u64, u64>, cfg: Config, now: u64)
    ensures
        forall|x: (u128, u64, u64)| #[trigger] cold_candidates(s, buf, cfg, now).contains(x)
            ==> buf.contains_key(x.2) && buf[x.2] >= cfg.flush_threshold && has_region(s, x.2),
    decreases s.len(),
{
    if s.len() == 0 || !is_cold(cfg, now, s[0].1) {
    } else {
        lemma_cold_candidates_elems(s.drop_first(), buf, cfg, now);
        let c = cold_candidates(s, buf, cfg, now);
        let rest = cold_candidates(s.drop_first(), buf, cfg, now);
        assert forall|x: (u128, u64, u64)| #[trigger] c.contains(x) implies buf.contains_key(x.2)
            && buf[x.2] >= cfg.flush_threshold && has_region(s, x.2) by {
            let i = choose|i: int| 0 <= i < c.len() && c[i] == x;
            if buf.contains_key(s[0].0) && buf[s[0].0] >= cfg.flush_threshold {
                if i == 0 {
                    assert(s[0].0 == x.2);
                } else {
                    assert(rest[i - 1] == x);
                    assert(rest.contains(x));
                    let j = choose|j: int|
                        0 <= j < s.drop_first().len() && s.drop_first()[j].0 == x.2;
                    assert(s[j + 1].0 == x.2);
                }
            } else {
                assert(rest[i] == x);
                assert(rest.contains(x));
                let j = choose|j: int| 0 <= j < s.drop_first().len() && s.drop_first()[j].0 == x.2;
                assert(s[j + 1].0 == x.2);
            }
        }
    }
}

/// Every by-size candidate stands for a tracked region whose recorded
/// size reaches the threshold.
proof fn lemma_sized_candidates_elems(s: Seq<(u64, u64)>, buf: Map<u64, u64>, cfg: Config)
    ensures
        forall|x: (u64, u64)| #[trigger] sized_candidates(s, buf, cfg).contains(x)
            ==> buf.contains_key(x.1) && buf[x.1] >= cfg.flush_threshold && has_region(s, x.1),
    decreases s.len(),
{
    if s.len() == 0 {
    } else {
        lemma_sized_candidates_elems(s.drop_first(), buf, cfg);
        let c = sized_candidates(s, buf, cfg);
        let rest = sized_candidates(s.drop_first(), buf, cfg);
        assert forall|x: (u64, u64)| #[trigger] c.contains(x) implies buf.contains_key(x.1)
            && buf[x.1] >= cfg.flush_threshold && has_region(s, x.1) by {
            let i = choose|i: int| 0 <= i < c.len() && c[i] == x;
            if buf.contains_key(s[0].0) && buf[s[0].0] >= cfg.flush_threshold {
                if i == 0 {
                    assert(s[0].0 == x.1);
                } else {
                    assert(rest[i - 1] == x);
                    assert(rest.contains(x));
                    let j = choose|j: int|
                        0 <= j < s.drop_first().len() && s.drop_first()[j].0 == x.1;
                    assert(s[j + 1].0 == x.1);
                }
            } else {
                assert(rest[i] == x);
                assert(rest.contains(x));
                let j = choose|j: int| 0 <= j < s.drop_first().len() && s.drop_first()[j].0 == x.1;
                assert(s[j + 1].0 == x.1);
            }
        }
    }
}

/// Ranking keeps the size and id of each candidate.
proof fn lemma_ranked_elems(c: Seq<(u64, u64)>)
    ensures
        forall|x: (u128, u64, u64)| #[trigger] ranked(c).contains(x) ==> c.contains((x.1, x.2)),
{
    assert forall|x: (u128, u64, u64)| #[trigger] ranked(c).contains(x) implies c.contains(
        (x.1, x.2),
    ) by {
        let i = choose|i: int| 0 <= i < ranked(c).len() && ranked(c)[i] == x;
        assert(c[i] == (x.1, x.2));
        assert(c.contains(c[i]));
    }
}

/// Sorting candidates adds no element.
proof fn lemma_sort_cand_elems(c: Seq<(u128, u64, u64)>)
    ensures
        forall|x: (u128, u64, u64)| #[trigger] c.sort_by(cand_order()).contains(x) ==> c.contains(
            x,
        ),
{
    lemma_cand_order_total();
    c.lemma_sort_by_ensures(cand_order());
}

/// Sorting access entries adds no entry.
proof fn lemma_sort_access_elems(s: Seq<(u64, u64)>)
    ensures
        forall|e: (u64, u64)| #[trigger] s.sort_by(access_order()).contains(e) ==> s.contains(e),
{
    lemma_access_order_total();
    s.lemma_sort_by_ensures(access_order());
}

/// Every id the accumulation stage takes comes from one of its
/// candidates.
proof fn lemma_take_until_elems(c: Seq<(u128, u64, u64)>, l: int, k: int)
    ensures
        forall|id: u64| #[trigger] take_until(c, l, k).contains(id) ==> exists|x: (u128, u64, u64)|
            #[trigger] c.contains(x) && x.2 == id,
    decreases c.len(),
{
    if c.len() == 0 || k <= 0 {
    } else {
        lemma_take_until_elems(c.drop_first(), l - c[0].1, k - 1);
        let r = take_until(c, l, k);
        assert forall|id: u64| #[trigger] r.contains(id) implies exists|x: (u128, u64, u64)|
            #[trigger] c.contains(x) && x.2 == id by {
            let i = choose|i: int| 0 <= i < r.len() && r[i] == id;
            if i == 0 {
                assert(c.contains(c[0]) && c[0].2 == id);
            } else {
                let rest = take_until(c.drop_first(), l - c[0].1, k - 1);
                assert(rest[i - 1] == id);
                assert(rest.contains(id));
                let x = choose|x: (u128, u64, u64)| #[trigger] c.drop_first().contains(x) && x.2
                    == id;
                let j = choose|j: int| 0 <= j < c.drop_first().len() && c.drop_first()[j] == x;
                assert(c[j + 1] == x);
                assert(c.contains(x));
            }
        }
    }
}

/// What the walk of the single-flush regime returns: either the
/// accumulator it started from, or a cold tracked candidate at or above
/// the threshold.
proof fn lemma_pick_one_walk_elems(
    s: Seq<(u64, u64)>,
    buf: Map<u64, u64>,
    cfg: Config,
    now: u64,
    best: Option<(u64, u64)>,
)
    ensures
        match pick_one_walk(s, buf, cfg, now, best) {
            Option::Some(b) => best == Some(b) || (has_region(s, b.0) && buf.contains_key(b.0)
                && b.1 == buf[b.0] && b.1 >= cfg.flush_threshold),
            Option::None => best == None::<(u64, u64)>,
        },
    decreases s.len(),
{
    if s.len() == 0 || !is_cold(cfg, now, s[0].1) {
    } else {
        let id = s[0].0;
        let better = match best {
            Option::None => true,
            Option::Some(b) => buf[id] > b.1,
        };
        let next = if buf.contains_key(id) && buf[id] >= cfg.flush_threshold && better {
            Some((id, buf[id]))
        } else {
            best
        };
        lemma_pick_one_walk_elems(s.drop_first(), buf, cfg, now, next);
        match pick_one_walk(s, buf, cfg, now, best) {
            Option::Some(b) => {
                if next == Some(b) && !(best == Some(b)) {
                    assert(b == (id, buf[id]));
                    assert(s[0].0 == b.0);
                    assert(has_region(s, b.0));
                } else if !(next == Some(b)) {
                    let j = choose|j: int|
                        0 <= j < s.drop_first().len() && s.drop_first()[j].0 == b.0;
                    assert(s[j + 1].0 == b.0);
                }
            }
            Option::None => {}
        }
    }
}

/// An id carried by the sorted access entries is carried by the entries
/// themselves.
proof fn lemma_has_region_unsort(entries: Seq<(u64, u64)>, id: u64)
    requires
        has_region(entries.sort_by(access_order()), id),
    ensures
        has_region(entries, id),
{
    let s = entries.sort_by(access_order());
    let j = choose|j: int| 0 <= j < s.len() && s[j].0 == id;
    assert(s.contains(s[j]));
    lemma_sort_access_elems(entries);
    let e = s[j];
    assert(entries.contains(e));
    let i = choose|i: int| 0 <= i < entries.len() && entries[i] == e;
    assert(entries[i].0 == id);
}

/// Everything the planner returns in the batch stages and the single-pick
/// candidate branch stands for a region with a recorded size at or above
/// the flush threshold; otherwise the last-resort fallback fired. The ids
/// always come from the access entries.
proof fn lemma_plan_elems(
    cfg: Config,
    buf: Map<u64, u64>,
    entries: Seq<(u64, u64)>,
    mem_usage: u64,
    mutable_mem: u64,
    now: u64,
)
    ensures
        forall|id: u64| #[trigger] spec_plan(cfg, buf, entries, mem_usage, mutable_mem, now)
            .contains(id) ==> has_region(entries, id) && ((buf.contains_key(id) && buf[id]
            >= cfg.flush_threshold) || last_resort_fired(
            cfg,
            buf,
            entries,
            mem_usage,
            mutable_mem,
            now,
        )),
{
    let plan = spec_plan(cfg, buf, entries, mem_usage, mutable_mem, now);
    let s = entries.sort_by(access_order());
    let lr = last_resort_fired(cfg, buf, entries, mem_usage, mutable_mem, now);
    if mem_usage < cfg.soft_limit {
    } else if mutable_mem < cfg.soft_limit && mem_usage < cfg.total_limit {
    } else if mutable_mem < cfg.soft_limit {
        lemma_pick_one_walk_elems(s, buf, cfg, now, None::<(u64, u64)>);
        assert forall|id: u64| #[trigger] plan.contains(id) implies has_region(entries, id) && ((
        buf.contains_key(id) && buf[id] >= cfg.flush_threshold) || lr) by {
            match pick_one_walk(s, buf, cfg, now, None::<(u64, u64)>) {
                Option::Some(b) => {
                    assert(plan == seq![b.0]);
                    assert(id == b.0);
                    lemma_has_region_unsort(entries, id);
                }
                Option::None => {
                    assert(s.len() > 0);
                    assert(plan == seq![s[0].0]);
                    assert(id == s[0].0);
                    assert(has_region(s, id));
                    lemma_has_region_unsort(entries, id);
                }
            }
        }
    } else {
        let a = spec_fetch_by_access_time(s, buf, cfg, now);
        let b = spec_fetch_by_size(s, buf, cfg, mutable_mem);
        if a.len() > 0 {
            let cands = cold_candidates(s, buf, cfg, now);
            let sorted = cands.sort_by(cand_order());
            lemma_cold_candidates_elems(s, buf, cfg, now);
            lemma_sort_cand_elems(cands);
            assert forall|id: u64| #[trigger] plan.contains(id) implies has_region(entries, id)
                && ((buf.contains_key(id) && buf[id] >= cfg.flush_threshold) || lr) by {
                let i = choose|i: int| 0 <= i < plan.len() && plan[i] == id;
                let m = min(cfg.max_flush_batch as int, sorted.len() as int);
                assert(plan[i] == sorted.take(m)[i].2);
                assert(sorted.take(m)[i] == sorted[i]);
                assert(sorted.contains(sorted[i]));
                assert(cands.contains(sorted[i]));
                assert(has_region(s, id));
                lemma_has_region_unsort(entries, id);
            }
        } else if b.len() > 0 {
            let cands = sized_candidates(s, buf, cfg);
            let rankedc = ranked(cands);
            let sorted = rankedc.sort_by(cand_order());
            lemma_sized_candidates_elems(s, buf, cfg);
            lemma_ranked_elems(cands);
            lemma_sort_cand_elems(rankedc);
            lemma_take_until_elems(
                sorted,
                crate::plan::choose_limit(cfg, mutable_mem) as int,
                cfg.max_flush_batch as int,
            );
            assert forall|id: u64| #[trigger] plan.contains(id) implies has_region(entries, id)
                && ((buf.contains_key(id) && buf[id] >= cfg.flush_threshold) || lr) by {
                let x = choose|x: (u128, u64, u64)| #[trigger] sorted.contains(x) && x.2 == id;
                assert(rankedc.contains(x));
                assert(cands.contains((x.1, x.2)));
                assert(has_region(s, id));
                lemma_has_region_unsort(entries, id);
            }
        } else {
            assert forall|id: u64| #[trigger] plan.contains(id) implies has_region(entries, id)
                && ((buf.contains_key(id) && buf[id] >= cfg.flush_threshold) || lr) by {
                let m = min(s.len() as int / 2, cfg.max_flush_batch as int);
                let i = choose|i: int| 0 <= i < plan.len() && plan[i] == id;
                assert(plan[i] == s.take(m)[i].0);
                assert(s.take(m)[i] == s[i]);
                assert(has_region(s, id));
                lemma_has_region_unsort(entries, id);
            }
        }
    }
}

/// The planner never returns more regions than one batch may hold.
pub proof fn lemma_plan_bounded(
    cfg: Config,
    buf: Map<u64, u64>,
    entries: Seq<(u64, u64)>,
    mem_usage: u64,
    mutable_mem: u64,
    now: u64,
)
    requires
        cfg.wf(),
    ensures
        spec_plan(cfg, buf, entries, mem_usage, mutable_mem, now).len() <= cfg.max_flush_batch,
{
    let s = entries.sort_by(access_order());
    let k = cfg.max_flush_batch as int;
    if mem_usage < cfg.soft_limit {
    } else if mutable_mem < cfg.soft_limit && mem_usage < cfg.total_limit {
    } else if mutable_mem < cfg.soft_limit {
    } else {
        let sorted_a = cold_candidates(s, buf, cfg, now).sort_by(cand_order());
        assert(spec_fetch_by_access_time(s, buf, cfg, now).len() == min(
            k,
            sorted_a.len() as int,
        ));
        lemma_take_until_len(
            ranked(sized_candidates(s, buf, cfg)).sort_by(cand_order()),
            crate::plan::choose_limit(cfg, mutable_mem) as int,
            k,
        );
    }
}

/// Under the soft limit, or when memory is held by immutable memtables
/// alone while the hard limit is not hit, the planner is silent.
pub proof fn lemma_plan_no_pressure(
    cfg: Config,
    buf: Map<u64, u64>,
    entries: Seq<(u64, u64)>,
    mem_usage: u64,
    mutable_mem: u64,
    now: u64,
)
    requires
        mem_usage < cfg.soft_limit || (mutable_mem < cfg.soft_limit && mem_usage
            < cfg.total_limit),
    ensures
        spec_plan(cfg, buf, entries, mem_usage, mutable_mem, now) == Seq::<u64>::empty(),
{
}

/// Every region the planner returns is known to the access table at
/// planning time.
pub proof fn lemma_plan_from_tracked(
    cfg: Config,
    buf: Map<u64, u64>,
    entries: Seq<(u64, u64)>,
    mem_usage: u64,
    mutable_mem: u64,
    now: u64,
)
    ensures
        forall|id: u64| #[trigger] spec_plan(cfg, buf, entries, mem_usage, mutable_mem, now)
            .contains(id) ==> has_region(entries, id),
{
    lemma_plan_elems(cfg, buf, entries, mem_usage, mutable_mem, now);
}

/// Every region the planner returns has a recorded size at or above the
/// flush threshold — and so is known to the size table as well — unless
/// the last-resort fallback fired.
pub proof fn lemma_plan_thresholded(
    cfg: Config,
    buf: Map<u64, u64>,
    entries: Seq<(u64, u64)>,
    mem_usage: u64,
    mutable_mem: u64,
    now: u64,
)
    ensures
        forall|id: u64| #[trigger] spec_plan(cfg, buf, entries, mem_usage, mutable_mem, now)
            .contains(id) ==> (buf.contains_key(id) && buf[id] >= cfg.flush_threshold)
            || last_resort_fired(cfg, buf, entries, mem_usage, mutable_mem, now),
{
    lemma_plan_elems(cfg, buf, entries, mem_usage, mutable_mem, now);
}

/// Reporting a size and planning right away: if the planner then selects
/// that region, the freshly reported size reached the flush threshold,
/// unless a last-resort fallback fired.
pub proof fn lemma_fresh_size_respected(
    cfg: Config,
    buf: Map<u64, u64>,
    entries: Seq<(u64, u64)>,
    id: u64,
    size: u64,
    mem_usage: u64,
    mutable_mem: u64,
    now: u64,
)
    ensures
        spec_plan(cfg, buf.insert(id, size), entries, mem_usage, mutable_mem, now).contains(id)
            ==> size >= cfg.flush_threshold || last_resort_fired(
            cfg,
            buf.insert(id, size),
            entries,
            mem_usage,
            mutable_mem,
            now,
        ),
{
    lemma_plan_thresholded(cfg, buf.insert(id, size), entries, mem_usage, mutable_mem, now);
}

/// The planner is deterministic: two controllers that track the same
/// access entries, in whatever stored order, and read the same sizes,
/// readings and clock, plan the same batch.
pub proof fn lemma_plan_deterministic(
    cfg: Config,
    buf: Map<u64, u64>,
    entries1: Seq<(u64, u64)>,
    entries2: Seq<(u64, u64)>,
    mem_usage: u64,
    mutable_mem: u64,
    now: u64,
)
    requires
        entries1.to_multiset() == entries2.to_multiset(),
    ensures
        spec_plan(cfg, buf, entries1, mem_usage, mutable_mem, now) == spec_plan(
            cfg,
            buf,
            entries2,
            mem_usage,
            mutable_mem,
            now,
        ),
{
    lemma_access_order_total();
    entries1.lemma_sort_by_ensures(access_order());
    entries2.lemma_sort_by_ensures(access_order());
    lemma_sorted_unique(
        entries1.sort_by(access_order()),
        entries2.sort_by(access_order()),
        access_order(),
    );
    assert(entries1.sort_by(access_order()) == entries2.sort_by(access_order()));
}

} // verus!
