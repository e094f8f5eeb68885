use write_buffer_manager::{Config, Msg, WriteBufferManager};

const MB: u64 = 1024 * 1024;

/// An arbitrary planning instant.
const T: u64 = 3_600_000;

fn manager() -> WriteBufferManager {
    WriteBufferManager::new(Config::default())
}

#[test]
fn record_size_overwrites_in_place() {
    let mut m = manager();
    m.record_size(5, 100);
    assert_eq!(m.write_buffers.get(5), Some(100));
    m.record_size(5, 0);
    assert_eq!(m.write_buffers.get(5), Some(0));
    assert_eq!(m.write_buffers.get(6), None);
}

#[test]
fn record_access_overwrites_unconditionally() {
    let mut m = manager();
    m.record_access(5, 1000);
    assert_eq!(m.last_access.get(5), Some(1000));
    // Later writes win, even with an older instant.
    m.record_access(5, 500);
    assert_eq!(m.last_access.get(5), Some(500));
}

#[test]
fn run_dispatches_messages() {
    let mut m = manager();
    m.run(Msg::RecordAccess { region_id: 9, time: 42 });
    m.run(Msg::RecordSize { region_id: 9, size: 4096 });
    assert_eq!(m.last_access.get(9), Some(42));
    assert_eq!(m.write_buffers.get(9), Some(4096));
}

#[test]
fn concurrent_access_defeats_stale_size_update() {
    let mut m = manager();
    m.record_size(7, (100 * MB) as usize);
    m.record_access(7, T);
    // The planner selected region 7 at instant T; an access lands just
    // after planning, then the flush finishes.
    m.record_access(7, T + 1);
    m.mark_flush(7, T, (2 * MB) as usize);
    // The access entry and the stale size are both preserved.
    assert_eq!(m.last_access.get(7), Some(T + 1));
    assert_eq!(m.write_buffers.get(7), Some(100 * MB));
}

#[test]
fn undisturbed_flush_clears_access_and_updates_size() {
    let mut m = manager();
    m.record_size(7, (100 * MB) as usize);
    m.record_access(7, T);
    m.mark_flush(7, T + 2, (2 * MB) as usize);
    assert_eq!(m.last_access.get(7), None);
    assert_eq!(m.write_buffers.get(7), Some(2 * MB));
}

#[test]
fn mark_flush_without_access_entry_still_records_size() {
    let mut m = manager();
    m.record_size(7, (100 * MB) as usize);
    m.mark_flush(7, T, (3 * MB) as usize);
    assert_eq!(m.last_access.get(7), None);
    assert_eq!(m.write_buffers.get(7), Some(3 * MB));
}
