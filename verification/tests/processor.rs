use arb_engine::DetectionResult;
use arb_engine::Tick;
use arb_engine::UpdateProcessor;

fn quotes() -> Vec<String> {
    vec![
        "USDT".to_string(),
        "BTC".to_string(),
        "ETH".to_string(),
        "BNB".to_string(),
        "BUSD".to_string(),
    ]
}

fn tick(symbol: &str, price: &str) -> Tick {
    Tick { symbol: symbol.to_string(), last_price: price.to_string() }
}

#[test]
fn malformed_price_is_skipped_and_counted() {
    let mut p = UpdateProcessor::new(quotes());
    let batch = vec![tick("BTCUSDT", "abc"), tick("ETHBTC", "0.05")];
    p.process_batch(&batch);
    assert_eq!(p.invalid_price_count(), 1);
    assert_eq!(p.invalid_symbol_count(), 0);
    assert_eq!(p.invalid_rate_count(), 0);
    // only the valid tick's edge pair was applied
    assert_eq!(p.graph().edge_count(), 2);
    assert_eq!(p.graph().rate_of("ETH", "BTC"), Some((5, 100)));
    assert_eq!(p.graph().rate_of("BTC", "ETH"), Some((100, 5)));
    assert_eq!(p.graph().rate_of("BTC", "USDT"), None);
}

#[test]
fn bad_symbol_is_skipped_and_counted() {
    let mut p = UpdateProcessor::new(quotes());
    let batch = vec![tick("XXXYYY", "5")];
    p.process_batch(&batch);
    assert_eq!(p.invalid_symbol_count(), 1);
    assert_eq!(p.graph().edge_count(), 0);
}

#[test]
fn non_positive_rate_is_skipped_and_counted() {
    let mut p = UpdateProcessor::new(quotes());
    let batch = vec![tick("BTCUSDT", "-5"), tick("ETHUSDT", "0")];
    p.process_batch(&batch);
    assert_eq!(p.invalid_rate_count(), 2);
    assert_eq!(p.invalid_price_count(), 0);
    assert_eq!(p.graph().edge_count(), 0);
}

#[test]
fn empty_batch_still_detects() {
    let mut p = UpdateProcessor::new(quotes());
    let r = p.process_batch(&Vec::new());
    assert_eq!(r, DetectionResult::NoArbitrage);
    assert_eq!(p.invalid_symbol_count(), 0);
    assert_eq!(p.invalid_price_count(), 0);
    assert_eq!(p.invalid_rate_count(), 0);
}

#[test]
fn later_tick_overwrites_earlier() {
    let mut p = UpdateProcessor::new(quotes());
    let batch = vec![tick("BTCUSDT", "50000"), tick("BTCUSDT", "51000")];
    p.process_batch(&batch);
    assert_eq!(p.graph().edge_count(), 2);
    assert_eq!(p.graph().rate_of("BTC", "USDT"), Some((51000, 1)));
    assert_eq!(p.graph().rate_of("USDT", "BTC"), Some((1, 51000)));
}

#[test]
fn consistent_pricing_then_skew_detects_cycle() {
    // with BTC at 50000 and ETH/BTC at 0.05, ETH at 2500 is consistent:
    // every round trip multiplies by exactly one
    let mut p = UpdateProcessor::new(quotes());
    let batch = vec![
        tick("BTCUSDT", "50000"),
        tick("ETHBTC", "0.05"),
        tick("ETHUSDT", "2500"),
    ];
    let r = p.process_batch(&batch);
    assert_eq!(r, DetectionResult::NoArbitrage);
    // ETH now overpriced against the BTC cross: a cycle through the three
    let skew = vec![tick("ETHUSDT", "2600")];
    match p.process_batch(&skew) {
        DetectionResult::Arbitrage(cyc) => {
            let c = &cyc.currencies;
            assert!(c.len() >= 4);
            assert_eq!(c[0], c[c.len() - 1]);
            let mut set: Vec<&str> = c[..c.len() - 1].iter().map(|s| s.as_str()).collect();
            set.sort();
            set.dedup();
            assert_eq!(set, vec!["BTC", "ETH", "USDT"]);
        }
        DetectionResult::NoArbitrage => panic!("expected an arbitrage cycle"),
    }
}

#[test]
fn end_to_end_batches() {
    // BTC at 50000, ETH/BTC at 0.05 (so ETH is worth 2500 via BTC), but
    // ETH quoted at 2400: buying ETH with USDT and selling it through BTC
    // multiplies a balance by 2500/2400, which the detector must report
    let mut p = UpdateProcessor::new(quotes());
    let batch = vec![
        tick("BTCUSDT", "50000"),
        tick("ETHBTC", "0.05"),
        tick("ETHUSDT", "2400"),
    ];
    let r1 = p.process_batch(&batch);
    match r1 {
        DetectionResult::Arbitrage(cyc) => {
            let c = &cyc.currencies;
            assert_eq!(c[0], c[c.len() - 1]);
            let mut set: Vec<&str> = c[..c.len() - 1].iter().map(|s| s.as_str()).collect();
            set.sort();
            set.dedup();
            assert_eq!(set, vec!["BTC", "ETH", "USDT"]);
        }
        DetectionResult::NoArbitrage => panic!("expected an arbitrage cycle"),
    }
    // after ETH rises to 2600 the skew reverses but a cycle remains
    let follow = vec![tick("ETHUSDT", "2600")];
    match p.process_batch(&follow) {
        DetectionResult::Arbitrage(cyc) => {
            let c = &cyc.currencies;
            let mut set: Vec<&str> = c[..c.len() - 1].iter().map(|s| s.as_str()).collect();
            set.sort();
            set.dedup();
            assert_eq!(set, vec!["BTC", "ETH", "USDT"]);
        }
        DetectionResult::NoArbitrage => panic!("expected an arbitrage cycle"),
    }
}

#[test]
fn counters_accumulate_across_batches() {
    let mut p = UpdateProcessor::new(quotes());
    p.process_batch(&vec![tick("BTCUSDT", "abc")]);
    p.process_batch(&vec![tick("BTCUSDT", "oops"), tick("NOPE", "1")]);
    assert_eq!(p.invalid_price_count(), 2);
    assert_eq!(p.invalid_symbol_count(), 1);
}
