use bookticker::engine::{DecodeError, Engine};

#[test]
fn processes_valid_envelope() {
    let mut engine = Engine::new(vec!["BTCUSDT".to_string()], 0);
    let text = "{\"stream\":\"btcusdt@bookTicker\",\"data\":{\"s\":\"BTCUSDT\",\"b\":\"100\",\"a\":\"102\",\"B\":\"1\",\"A\":\"3\",\"u\":12345}}";
    let r = engine.process_text(text, 0);
    assert!(r.is_ok());
    assert_eq!(engine.entries.len(), 1);
    assert_eq!(engine.entries[0].symbol, "BTCUSDT");
    assert_eq!(engine.entries[0].mid, 10_100_000_000);
    assert_eq!(engine.entries[0].wmid, 10_050_000_000);
}

#[test]
fn malformed_document_is_fatal_and_changes_nothing() {
    let mut engine = Engine::new(vec!["BTCUSDT".to_string()], 0);
    let r = engine.process_text("this is not json", 0);
    assert!(matches!(r, Err(DecodeError::MalformedPayload)));
    assert_eq!(engine.entries.len(), 0);
}

#[test]
fn envelope_without_data_is_skipped() {
    let mut engine = Engine::new(vec!["BTCUSDT".to_string()], 0);
    let r = engine.process_text("{\"result\":null,\"id\":1}", 0);
    assert!(matches!(r, Ok(None)));
    assert_eq!(engine.entries.len(), 0);
}

#[test]
fn missing_bid_field_is_skipped() {
    let mut engine = Engine::new(vec!["BTCUSDT".to_string()], 0);
    let text = "{\"data\":{\"s\":\"BTCUSDT\",\"a\":\"102\",\"B\":\"1\",\"A\":\"3\"}}";
    let r = engine.process_text(text, 0);
    assert!(matches!(r, Ok(None)));
    assert_eq!(engine.entries.len(), 0);
}

#[test]
fn non_numeric_bid_field_is_skipped() {
    let mut engine = Engine::new(vec!["BTCUSDT".to_string()], 0);
    let text = "{\"data\":{\"s\":\"BTCUSDT\",\"b\":\"abc\",\"a\":\"102\",\"B\":\"1\",\"A\":\"3\"}}";
    let r = engine.process_text(text, 0);
    assert!(matches!(r, Ok(None)));
    assert_eq!(engine.entries.len(), 0);
}

#[test]
fn non_string_numeric_field_is_skipped() {
    // The feed sends numbers as JSON strings; a bare number is not a
    // valid field.
    let mut engine = Engine::new(vec!["BTCUSDT".to_string()], 0);
    let text = "{\"data\":{\"s\":\"BTCUSDT\",\"b\":100,\"a\":\"102\",\"B\":\"1\",\"A\":\"3\"}}";
    let r = engine.process_text(text, 0);
    assert!(matches!(r, Ok(None)));
    assert_eq!(engine.entries.len(), 0);
}

#[test]
fn emission_through_text_frames() {
    let mut engine = Engine::new(vec!["BTCUSDT".to_string()], 0);
    let frame = |bid: &str, ask: &str| {
        format!(
            "{{\"stream\":\"btcusdt@bookTicker\",\"data\":{{\"s\":\"BTCUSDT\",\"b\":\"{}\",\"a\":\"{}\",\"B\":\"2\",\"A\":\"2\"}}}}",
            bid, ask
        )
    };
    let r = engine.process_text(&frame("100", "102"), 0);
    assert!(matches!(r, Ok(None)));
    let r = engine.process_text(&frame("101", "103"), 5_000);
    let rows = r.unwrap().expect("gate is open and the instrument is known");
    assert_eq!(rows.len(), 1);
    assert_eq!(rows[0].mid, 10_200_000_000);
    assert_eq!(rows[0].max_mid, 10_200_000_000);
    assert_eq!(rows[0].min_mid, 10_100_000_000);
}
