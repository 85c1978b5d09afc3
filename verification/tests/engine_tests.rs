use bookticker::engine::{Engine, RawFields};

fn fields(sym: &str, bid: &str, ask: &str, bid_qty: &str, ask_qty: &str) -> RawFields {
    RawFields {
        symbol: Some(sym.to_string()),
        bid: Some(bid.to_string()),
        ask: Some(ask.to_string()),
        bid_qty: Some(bid_qty.to_string()),
        ask_qty: Some(ask_qty.to_string()),
    }
}

#[test]
fn computes_mid_and_weighted_mid() {
    // bid=100, ask=102, bid_qty=1, ask_qty=3:
    // mid = 101.00, weighted mid = (100*3 + 102*1) / 4 = 100.50
    let mut engine = Engine::new(vec!["X".to_string()], 0);
    let emit = engine.process_update(&fields("X", "100", "102", "1", "3"), 0);
    assert!(emit.is_none());
    assert_eq!(engine.entries.len(), 1);
    assert_eq!(engine.entries[0].symbol, "X");
    assert_eq!(engine.entries[0].mid, 10_100_000_000);
    assert_eq!(engine.entries[0].wmid, 10_050_000_000);
}

#[test]
fn weighted_mid_lies_between_bid_and_ask() {
    let mut engine = Engine::new(vec!["X".to_string()], 0);
    engine.process_update(&fields("X", "99.5", "100.5", "7", "2"), 0);
    let bid = 9_950_000_000u64;
    let ask = 10_050_000_000u64;
    let wmid = engine.entries[0].wmid;
    assert!(bid <= wmid && wmid <= ask);
}

#[test]
fn malformed_update_changes_nothing() {
    let mut engine = Engine::new(vec!["X".to_string()], 0);
    engine.process_update(&fields("X", "100", "102", "1", "3"), 0);
    let mid = engine.entries[0].mid;
    let hist_len = engine.entries[0].history.len();

    // Missing bid field.
    let mut f = fields("X", "100", "102", "1", "3");
    f.bid = None;
    let emit = engine.process_update(&f, 1_000);
    assert!(emit.is_none());
    assert_eq!(engine.entries.len(), 1);
    assert_eq!(engine.entries[0].mid, mid);
    assert_eq!(engine.entries[0].history.len(), hist_len);

    // Non-numeric bid field.
    let emit = engine.process_update(&fields("X", "oops", "102", "1", "3"), 2_000);
    assert!(emit.is_none());
    assert_eq!(engine.entries.len(), 1);
    assert_eq!(engine.entries[0].mid, mid);
    assert_eq!(engine.entries[0].history.len(), hist_len);
}

#[test]
fn zero_total_quantity_is_discarded() {
    let mut engine = Engine::new(vec!["X".to_string()], 0);
    let emit = engine.process_update(&fields("X", "100", "102", "0", "0"), 0);
    assert!(emit.is_none());
    assert_eq!(engine.entries.len(), 0);
}

#[test]
fn no_emission_until_all_subscribed_have_updates() {
    let mut engine = Engine::new(vec!["BTCUSDT".to_string(), "ETHUSDT".to_string()], 0);

    // Valid updates for BTCUSDT only, once a second for 10 seconds:
    // well past the emission interval, but ETHUSDT has no snapshot yet.
    for sec in 0..=10u64 {
        let emit = engine.process_update(&fields("BTCUSDT", "100", "102", "1", "3"), sec * 1_000);
        assert!(emit.is_none());
    }

    // The first ETHUSDT update completes the subscription; emission now
    // occurs (11 s have passed since the start).
    let emit = engine.process_update(&fields("ETHUSDT", "2000", "2002", "5", "5"), 11_000);
    let rows = emit.expect("summary should be emitted once every instrument is known");
    assert_eq!(rows.len(), 2);

    // The next emission comes only once 5 s have passed since the last.
    let emit = engine.process_update(&fields("BTCUSDT", "100", "102", "1", "3"), 12_000);
    assert!(emit.is_none());
    let emit = engine.process_update(&fields("BTCUSDT", "100", "102", "1", "3"), 15_999);
    assert!(emit.is_none());
    let emit = engine.process_update(&fields("BTCUSDT", "100", "102", "1", "3"), 16_000);
    assert!(emit.is_some());
}

#[test]
fn history_window_stays_bounded() {
    // 65 seconds of continuous updates at one per second.
    let mut engine = Engine::new(vec!["Y".to_string()], 0);
    for sec in 0..=65u64 {
        engine.process_update(&fields("Y", "10", "11", "1", "1"), sec * 1_000);
        let hist = &engine.entries[0].history;
        assert!(hist.len() <= 61);
        let newest = hist.back().unwrap().ts_ms;
        let oldest = hist.front().unwrap().ts_ms;
        assert!(newest - oldest <= 60_000);
    }
    // Entries exactly 60 s old are retained: timestamps 5000..=65000.
    let hist = &engine.entries[0].history;
    assert_eq!(hist.len(), 61);
    assert_eq!(hist.front().unwrap().ts_ms, 5_000);
    assert_eq!(hist.back().unwrap().ts_ms, 65_000);
}

#[test]
fn summary_rows_carry_window_extrema() {
    let mut engine = Engine::new(vec!["X".to_string()], 0);
    engine.process_update(&fields("X", "100", "102", "1", "1"), 0);
    engine.process_update(&fields("X", "104", "106", "1", "1"), 1_000);
    let emit = engine.process_update(&fields("X", "102", "104", "1", "1"), 6_000);
    let rows = emit.expect("summary should be emitted after the interval");
    assert_eq!(rows.len(), 1);
    let row = &rows[0];
    assert_eq!(row.symbol, "X");
    assert_eq!(row.mid, 10_300_000_000); // 103.00, the current mid
    assert_eq!(row.max_mid, 10_500_000_000); // 105.00 seen at 1 s
    assert_eq!(row.min_mid, 10_100_000_000); // 101.00 seen at start
    assert_eq!(row.max_wmid, 10_500_000_000);
    assert_eq!(row.min_wmid, 10_100_000_000);
}

#[test]
fn unsubscribed_instrument_is_tracked_but_does_not_satisfy_gate() {
    // The stream name is not validated against the instrument list:
    // an update for an unknown instrument is tracked, but emission
    // still waits for every subscribed instrument.
    let mut engine = Engine::new(vec!["A".to_string()], 0);
    let emit = engine.process_update(&fields("Z", "1", "2", "1", "1"), 6_000);
    assert!(emit.is_none());
    assert_eq!(engine.entries.len(), 1);
    let emit = engine.process_update(&fields("A", "1", "2", "1", "1"), 7_000);
    let rows = emit.expect("summary should cover every known instrument");
    assert_eq!(rows.len(), 2);
}
