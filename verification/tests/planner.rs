use write_buffer_manager::{Config, WriteBufferManager};

const KB: u64 = 1024;
const MB: u64 = 1024 * 1024;
const GB: u64 = 1024 * 1024 * 1024;
const MINUTE: u64 = 60 * 1000;

/// One hour on the monotonic clock, so that "40 minutes ago" exists.
const T: u64 = 60 * MINUTE;

fn manager() -> WriteBufferManager {
    WriteBufferManager::new(Config::default())
}

#[test]
fn no_pressure_plans_nothing() {
    let mut m = manager();
    m.record_access(1, T - 40 * MINUTE);
    m.record_size(1, (10 * MB) as usize);
    let plan = m.pick_to_flush(1 * GB, 1 * GB, T);
    assert_eq!(plan, Vec::<u64>::new());
}

#[test]
fn immutable_pressure_plans_nothing() {
    let mut m = manager();
    m.record_access(1, T - 40 * MINUTE);
    m.record_size(1, (10 * MB) as usize);
    let plan = m.pick_to_flush(3 * GB, 1 * GB, T);
    assert_eq!(plan, Vec::<u64>::new());
}

#[test]
fn mutable_heavy_picks_single_cold_large_candidate() {
    let mut m = manager();
    // A: cold and large enough.
    m.record_access(1, T - 40 * MINUTE);
    m.record_size(1, (10 * MB) as usize);
    // B: large but too recent.
    m.record_access(2, T - 5 * MINUTE);
    m.record_size(2, (50 * MB) as usize);
    // C: cold but under the threshold.
    m.record_access(3, T - 40 * MINUTE);
    m.record_size(3, (500 * KB) as usize);
    let plan = m.pick_to_flush(3 * GB, 2 * GB + GB / 2, T);
    assert_eq!(plan, vec![1]);
}

#[test]
fn batch_selects_largest_cold_tablets_in_descending_size_order() {
    let mut m = manager();
    for id in 1..=10u64 {
        m.record_access(id, T - 40 * MINUTE);
        m.record_size(id, ((11 - id) * MB) as usize);
    }
    let plan = m.pick_to_flush(6 * GB, 5 * GB, T);
    assert_eq!(plan, vec![1, 2, 3, 4, 5, 6, 7, 8]);
}

#[test]
fn batch_falls_back_to_size_when_nothing_is_cold() {
    let mut m = manager();
    for id in 1..=10u64 {
        m.record_access(id, T - 50 * 1000);
        m.record_size(id, (100 * MB) as usize);
    }
    let plan = m.pick_to_flush(6 * GB, 5 * GB, T);
    assert_eq!(plan.len(), 8);
    assert_eq!(plan, vec![1, 2, 3, 4, 5, 6, 7, 8]);
}

#[test]
fn batch_last_resort_flushes_oldest_half() {
    let mut m = manager();
    // All cold but all under the flush threshold: both stages come back
    // empty and the last resort takes the oldest half.
    for id in 1..=10u64 {
        m.record_access(id, T - 40 * MINUTE - (10 - id) * MINUTE);
        m.record_size(id, (500 * KB) as usize);
    }
    let plan = m.pick_to_flush(6 * GB, 5 * GB, T);
    // Region 1 was accessed longest ago, then 2, and so on.
    assert_eq!(plan, vec![1, 2, 3, 4, 5]);
}

#[test]
fn single_regime_picks_largest_cold_tablet() {
    let mut m = manager();
    m.record_access(1, T - 40 * MINUTE);
    m.record_size(1, (10 * MB) as usize);
    m.record_access(2, T - 35 * MINUTE);
    m.record_size(2, (20 * MB) as usize);
    m.record_access(3, T - 5 * MINUTE);
    m.record_size(3, (50 * MB) as usize);
    // Mutable memory is low but the hard limit is hit: one victim.
    let plan = m.pick_to_flush(6 * GB, 1 * GB, T);
    assert_eq!(plan, vec![2]);
}

#[test]
fn single_regime_falls_back_to_coldest() {
    let mut m = manager();
    m.record_access(1, T - 40 * MINUTE);
    m.record_size(1, (100 * KB) as usize);
    m.record_access(2, T - 35 * MINUTE);
    m.record_size(2, (200 * KB) as usize);
    let plan = m.pick_to_flush(6 * GB, 1 * GB, T);
    assert_eq!(plan, vec![1]);
}

#[test]
fn single_regime_with_no_regions_plans_nothing() {
    let m = manager();
    let plan = m.pick_to_flush(6 * GB, 1 * GB, T);
    assert_eq!(plan, Vec::<u64>::new());
}

#[test]
fn plan_length_never_exceeds_batch_limit() {
    let mut m = manager();
    for id in 1..=20u64 {
        m.record_access(id, T - 40 * MINUTE);
        m.record_size(id, (id * MB) as usize);
    }
    let plan = m.pick_to_flush(6 * GB, 5 * GB, T);
    assert_eq!(plan.len(), 8);
}

#[test]
fn planned_regions_are_tracked_in_both_tables() {
    let mut m = manager();
    for id in 1..=10u64 {
        m.record_access(id, T - 40 * MINUTE);
        m.record_size(id, ((11 - id) * MB) as usize);
    }
    let plan = m.pick_to_flush(6 * GB, 5 * GB, T);
    assert!(!plan.is_empty());
    for id in plan {
        assert!(m.write_buffers.get(id).is_some());
        assert!(m.last_access.get(id).is_some());
    }
}

#[test]
fn plan_is_deterministic_across_insertion_orders() {
    let mut m1 = manager();
    let mut m2 = manager();
    for id in 1..=10u64 {
        m1.record_access(id, T - 40 * MINUTE);
        m1.record_size(id, (id * MB) as usize);
    }
    for id in (1..=10u64).rev() {
        m2.record_access(id, T - 40 * MINUTE);
        m2.record_size(id, (id * MB) as usize);
    }
    assert_eq!(
        m1.pick_to_flush(6 * GB, 5 * GB, T),
        m2.pick_to_flush(6 * GB, 5 * GB, T)
    );
    assert_eq!(
        m1.pick_to_flush(6 * GB, 1 * GB, T),
        m2.pick_to_flush(6 * GB, 1 * GB, T)
    );
}

#[test]
fn selected_regions_meet_threshold_after_fresh_size() {
    let mut m = manager();
    for id in 1..=6u64 {
        m.record_access(id, T - 40 * MINUTE);
        m.record_size(id, (2 * MB) as usize);
    }
    // A fresh report below the threshold keeps the region out of the
    // threshold-guarded stages.
    m.record_size(3, (100 * KB) as usize);
    let plan = m.pick_to_flush(6 * GB, 5 * GB, T);
    assert!(!plan.is_empty());
    for id in plan {
        assert!(m.write_buffers.get(id).unwrap() >= 1 * MB);
        assert_ne!(id, 3);
    }
}

#[test]
fn equal_sizes_break_ties_by_region_id_ascending() {
    let mut m = manager();
    for id in [3u64, 1, 2] {
        m.record_access(id, T - 40 * MINUTE);
        m.record_size(id, (5 * MB) as usize);
    }
    let plan = m.pick_to_flush(6 * GB, 5 * GB, T);
    assert_eq!(plan, vec![1, 2, 3]);
}

#[test]
fn fetch_by_access_time_stops_at_first_warm_entry() {
    let mut m = manager();
    m.record_size(1, (5 * MB) as usize);
    m.record_size(2, (9 * MB) as usize);
    m.record_size(3, (9 * MB) as usize);
    // The walk takes the entries in the given order and stops at the
    // first one that is not cold, so region 3 is never reached.
    let accesses = vec![(1, T - 40 * MINUTE), (2, T - 5 * MINUTE), (3, T - 40 * MINUTE)];
    let picked = m.fetch_by_access_time(&accesses, T);
    assert_eq!(picked, vec![1]);
}

#[test]
fn fetch_by_size_blends_size_with_access_rank() {
    let mut cfg = Config::default();
    // A tiny threshold so that small, close sizes qualify.
    cfg.flush_threshold = 1;
    let mut m = WriteBufferManager::new(cfg);
    // Region 2 is slightly larger, but region 1 was accessed earlier and
    // each position is worth 1024 bytes of rank: the older one wins.
    m.record_access(1, T - 10 * 1000);
    m.record_size(1, 10_000);
    m.record_access(2, T - 5 * 1000);
    m.record_size(2, 10_512);
    let plan = m.pick_to_flush(6 * GB, 5 * GB, T);
    assert_eq!(plan, vec![1, 2]);
}

#[test]
fn single_regime_fallback_may_pick_an_unsized_region() {
    let mut m = manager();
    // The region has an access entry but no recorded size: the fallback
    // still returns the coldest region for forward progress.
    m.record_access(9, T - 40 * MINUTE);
    let plan = m.pick_to_flush(6 * GB, 1 * GB, T);
    assert_eq!(plan, vec![9]);
    assert_eq!(m.write_buffers.get(9), None);
}

#[test]
fn pick_one_returns_largest_cold_candidate() {
    let mut m = manager();
    m.record_access(1, T - 40 * MINUTE);
    m.record_size(1, (10 * MB) as usize);
    m.record_access(2, T - 35 * MINUTE);
    m.record_size(2, (30 * MB) as usize);
    assert_eq!(m.pick_one(T), Some(2));
}

#[test]
fn pick_batch_prefers_cold_stage_over_size_stage() {
    let mut m = manager();
    m.record_access(1, T - 40 * MINUTE);
    m.record_size(1, (2 * MB) as usize);
    m.record_access(2, T - 1000);
    m.record_size(2, (500 * MB) as usize);
    // Region 2 is far larger, but region 1 is cold: the cold stage wins.
    assert_eq!(m.pick_batch(5 * GB, T), vec![1]);
}

#[test]
fn tick_interval_comes_from_config() {
    let m = manager();
    assert_eq!(m.get_interval(), 10 * 1000);
}

#[test]
fn default_config_values() {
    let c = Config::default();
    assert_eq!(c.total_limit, 5 * GB);
    assert_eq!(c.soft_limit, 2 * GB);
    assert_eq!(c.flush_threshold, 1 * MB);
    assert_eq!(c.evict_life_time, 30 * MINUTE);
    assert_eq!(c.max_flush_batch, 8);
    assert_eq!(c.check_interval, 10 * 1000);
}
