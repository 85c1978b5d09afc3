use bookticker::url::build_stream_url;

#[test]
fn builds_single_stream_url() {
    let url = build_stream_url(&vec!["BTCUSDT".to_string()]);
    assert_eq!(
        url,
        "wss://fstream.binance.com/stream?streams=btcusdt@bookTicker"
    );
}

#[test]
fn builds_combined_stream_url() {
    let url = build_stream_url(&vec!["BTCUSDT".to_string(), "ETHUSDT".to_string()]);
    assert_eq!(
        url,
        "wss://fstream.binance.com/stream?streams=btcusdt@bookTicker/ethusdt@bookTicker"
    );
}

#[test]
fn lowercases_mixed_case_symbols() {
    let url = build_stream_url(&vec!["EthUsdt".to_string()]);
    assert_eq!(
        url,
        "wss://fstream.binance.com/stream?streams=ethusdt@bookTicker"
    );
}
