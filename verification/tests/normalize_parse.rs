use arb_engine::EngineError;
use arb_engine::Price;
use arb_engine::extract_currency_pair;
use arb_engine::parse_price;

fn quotes() -> Vec<String> {
    vec![
        "USDT".to_string(),
        "BTC".to_string(),
        "ETH".to_string(),
        "BNB".to_string(),
        "BUSD".to_string(),
    ]
}

#[test]
fn normalize_btcusdt() {
    let r = extract_currency_pair("BTCUSDT", &quotes()).unwrap();
    assert_eq!(r.0, "BTC");
    assert_eq!(r.1, "USDT");
}

#[test]
fn normalize_long_base() {
    let r = extract_currency_pair("DOGEUSDT", &quotes()).unwrap();
    assert_eq!(r.0, "DOGE");
    assert_eq!(r.1, "USDT");
}

#[test]
fn normalize_self_pair_fails() {
    assert_eq!(
        extract_currency_pair("USDTUSDT", &quotes()),
        Err(EngineError::InvalidSymbol)
    );
}

#[test]
fn normalize_unknown_suffix_fails() {
    assert_eq!(
        extract_currency_pair("BTCXYZ", &quotes()),
        Err(EngineError::InvalidSymbol)
    );
}

#[test]
fn normalize_empty_base_fails() {
    assert_eq!(
        extract_currency_pair("USDT", &quotes()),
        Err(EngineError::InvalidSymbol)
    );
}

#[test]
fn normalize_empty_symbol_fails() {
    assert_eq!(
        extract_currency_pair("", &quotes()),
        Err(EngineError::InvalidSymbol)
    );
}

#[test]
fn normalize_prefers_longest_suffix() {
    // "BNBBUSD" ends in both "BUSD" and nothing shorter that matters;
    // the longest configured suffix wins and the base is what remains
    let r = extract_currency_pair("BNBBUSD", &quotes()).unwrap();
    assert_eq!(r.0, "BNB");
    assert_eq!(r.1, "BUSD");
}

#[test]
fn normalize_overlapping_quotes_take_longest() {
    // both "T" and "USDT" are suffixes of "BTCUSDT"; the longest wins
    let qs = vec!["T".to_string(), "USDT".to_string()];
    let r = extract_currency_pair("BTCUSDT", &qs).unwrap();
    assert_eq!(r.0, "BTC");
    assert_eq!(r.1, "USDT");
}

#[test]
fn normalize_is_deterministic() {
    let a = extract_currency_pair("ETHBTC", &quotes());
    let b = extract_currency_pair("ETHBTC", &quotes());
    assert_eq!(a, b);
    let r = a.unwrap();
    assert_eq!(r.0, "ETH");
    assert_eq!(r.1, "BTC");
}

#[test]
fn parse_integer() {
    let p = parse_price("50000").unwrap();
    assert_eq!(p, Price { neg: false, num: 50000, den: 1 });
}

#[test]
fn parse_fraction() {
    let p = parse_price("0.05").unwrap();
    assert_eq!(p, Price { neg: false, num: 5, den: 100 });
}

#[test]
fn parse_negative() {
    let p = parse_price("-3.5").unwrap();
    assert_eq!(p, Price { neg: true, num: 35, den: 10 });
}

#[test]
fn parse_trailing_dot() {
    let p = parse_price("5.").unwrap();
    assert_eq!(p, Price { neg: false, num: 5, den: 1 });
}

#[test]
fn parse_leading_dot() {
    let p = parse_price(".5").unwrap();
    assert_eq!(p, Price { neg: false, num: 5, den: 10 });
}

#[test]
fn parse_zero() {
    let p = parse_price("0").unwrap();
    assert_eq!(p, Price { neg: false, num: 0, den: 1 });
}

#[test]
fn parse_malformed_fails() {
    assert_eq!(parse_price("abc"), Err(EngineError::InvalidPrice));
}

#[test]
fn parse_empty_fails() {
    assert_eq!(parse_price(""), Err(EngineError::InvalidPrice));
}

#[test]
fn parse_lone_dot_fails() {
    assert_eq!(parse_price("."), Err(EngineError::InvalidPrice));
}

#[test]
fn parse_two_dots_fails() {
    assert_eq!(parse_price("1.2.3"), Err(EngineError::InvalidPrice));
}

#[test]
fn parse_numerator_overflow_fails() {
    assert_eq!(
        parse_price("99999999999999999999999999"),
        Err(EngineError::InvalidPrice)
    );
}

#[test]
fn parse_denominator_overflow_fails() {
    // more than nineteen fractional digits cannot be represented exactly
    assert_eq!(
        parse_price("0.00000000000000000000123"),
        Err(EngineError::InvalidPrice)
    );
}
