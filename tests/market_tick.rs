use financial_data_pipeline::price::Price;
use financial_data_pipeline::tick::{tick_from_quote, MarketTick};

#[test]
fn test_is_significant_volume() {
    let sig_tick = MarketTick::new(String::from("AMZN"), Price::new(1000, 2), 1001);
    assert!(sig_tick.is_significant_volume());

    let insig_tick = MarketTick::new(String::from("AMZN"), Price::new(1000, 2), 999);
    assert!(!insig_tick.is_significant_volume());
}

#[test]
fn test_fetch_market_data() {
    let result = tick_from_quote("BTI", 4250, 10);
    assert!(result.is_ok());
    assert_eq!(result.unwrap().symbol, "BTI");

    let bad_result = tick_from_quote("INVALID", 4250, 10);
    assert!(bad_result.is_err());
}

#[test]
fn volume_of_exactly_one_thousand_is_not_significant() {
    let tick = MarketTick::new(String::from("AMZN"), Price::new(1000, 2), 1000);
    assert!(!tick.is_significant_volume());
}

#[test]
fn quote_builds_price_in_cents() {
    let tick = tick_from_quote("MSFT", 12345, 77).unwrap();
    assert_eq!(tick.price, Price::new(12345, 2));
    assert_eq!(tick.volume, 77);
}

#[test]
fn invalid_symbol_message_names_it() {
    let err = tick_from_quote("INVALID", 1, 1).unwrap_err();
    assert_eq!(err, "Invalid symbol INVALID");
}

#[test]
fn tick_timestamp_is_after_2020() {
    let tick = MarketTick::new(String::from("X"), Price::new(1, 0), 1);
    assert!(tick.timestamp_millis > 1_577_836_800_000);
}
