use std::collections::VecDeque;

use bookticker::history::{evict_older, HistEntry, WINDOW_MS};

fn entry(ts_ms: u64) -> HistEntry {
    HistEntry {
        ts_ms,
        mid: 1,
        wmid: 1,
    }
}

#[test]
fn eviction_is_idempotent() {
    // Append a value per second for 70 seconds, then evict: running the
    // eviction check again immediately removes nothing further.
    let mut h: VecDeque<HistEntry> = VecDeque::new();
    for sec in 0..=70u64 {
        h.push_back(entry(sec * 1_000));
    }
    evict_older(&mut h, 70_000);
    let after_once = h.clone();
    evict_older(&mut h, 70_000);
    assert_eq!(h, after_once);
    assert_eq!(h.front().unwrap().ts_ms, 10_000);
    assert_eq!(h.len(), 61);
}

#[test]
fn entries_exactly_at_window_edge_are_retained() {
    let mut h: VecDeque<HistEntry> = VecDeque::new();
    h.push_back(entry(0));
    h.push_back(entry(1));
    // Exactly WINDOW_MS old: retained.
    evict_older(&mut h, WINDOW_MS);
    assert_eq!(h.len(), 2);
    // One millisecond past the window: evicted.
    evict_older(&mut h, WINDOW_MS + 1);
    assert_eq!(h.len(), 1);
    assert_eq!(h.front().unwrap().ts_ms, 1);
}
