use financial_data_pipeline::aggregator::PriceAggregator;
use financial_data_pipeline::price::Price;
use financial_data_pipeline::tick::MarketTick;

fn tick(symbol: &str, cents: i64) -> MarketTick {
    MarketTick::new(String::from(symbol), Price::new(cents, 2), 10)
}

fn same_value(a: Price, b: Price) -> bool {
    !a.less_than(b) && !b.less_than(a)
}

#[test]
fn statistics_of_unknown_symbol_is_none() {
    let agg = PriceAggregator::new();
    assert!(agg.get_statistics("NONE").is_none());
}

#[test]
fn statistics_count_min_max_avg() {
    let mut agg = PriceAggregator::new();
    for cents in [1000, 1200, 800, 1400] {
        agg.add_tick(tick("AAPL", cents));
    }
    agg.add_tick(tick("MSFT", 5000));
    let st = agg.get_statistics("AAPL").unwrap();
    assert_eq!(st.symbol, "AAPL");
    assert_eq!(st.count, 4);
    assert_eq!(st.min_price, Price::new(800, 2));
    assert_eq!(st.max_price, Price::new(1400, 2));
    // (10 + 12 + 8 + 14) / 4 = 11
    assert!(same_value(st.avg_price, Price::new(11, 0)));
}

#[test]
fn mean_keeps_decimal_precision() {
    let mut agg = PriceAggregator::new();
    for cents in [100, 100, 200] {
        agg.add_tick(tick("X", cents));
    }
    let st = agg.get_statistics("X").unwrap();
    // 4 / 3 = 1.3333333333333333333333333333
    assert_eq!(st.avg_price, Price { mantissa: 13333333333333333333333333333, scale: 28 });
}

#[test]
fn single_tick_statistics() {
    let mut agg = PriceAggregator::new();
    agg.add_tick(tick("Z", 4242));
    let st = agg.statistics_at(&String::from("Z"), 17).unwrap();
    assert_eq!(st.count, 1);
    assert_eq!(st.min_price, Price::new(4242, 2));
    assert_eq!(st.max_price, Price::new(4242, 2));
    assert!(same_value(st.avg_price, Price::new(4242, 2)));
    assert_eq!(st.duration_millis, 17);
}

#[test]
fn equal_prices_in_other_scales() {
    let mut agg = PriceAggregator::new();
    agg.add_tick(MarketTick::new(String::from("E"), Price::new(15, 1), 1));
    agg.add_tick(MarketTick::new(String::from("E"), Price::new(150, 2), 1));
    let st = agg.get_statistics("E").unwrap();
    assert!(same_value(st.min_price, Price::new(15, 1)));
    assert!(same_value(st.max_price, Price::new(15, 1)));
    assert!(same_value(st.avg_price, Price::new(15, 1)));
}

#[test]
fn overflowing_sum_gives_no_statistics() {
    let mut agg = PriceAggregator::new();
    let big = Price::from_parts(financial_data_pipeline::price::MAX_MANTISSA, 0).unwrap();
    agg.add_tick(MarketTick::new(String::from("B"), big, 1));
    agg.add_tick(MarketTick::new(String::from("B"), big, 1));
    assert!(agg.get_statistics("B").is_none());
}

#[test]
fn summary_totals() {
    let mut agg = PriceAggregator::new();
    agg.add_tick(tick("A", 100));
    agg.add_tick(tick("B", 200));
    agg.add_tick(tick("A", 300));
    let s = agg.summary();
    assert_eq!(s.symbol_count, 2);
    assert_eq!(s.total_ticks, 3);
    assert_eq!(s.symbols.len(), 2);
    assert_eq!(s.symbols[0].symbol, "A");
    assert_eq!(s.symbols[0].count, 2);
    assert_eq!(s.symbols[1].symbol, "B");
    assert_eq!(agg.total_ticks(), 3);
}

#[test]
fn fan_in_count_equals_ticks_sent() {
    // Ticks from four producers, recorded in an interleaved order.
    let mut agg = PriceAggregator::new();
    let producers = 4;
    let per_producer = 25;
    for round in 0..per_producer {
        for p in 0..producers {
            agg.add_tick(tick(&format!("SYM{p}"), 100 + round));
        }
    }
    assert_eq!(agg.total_ticks(), (producers * per_producer) as u128);
    assert_eq!(agg.get_statistics("SYM3").unwrap().count, per_producer as usize);
}

#[test]
fn fan_in_counts_do_not_depend_on_interleaving() {
    let ticks: Vec<(String, i64)> =
        (0..40).map(|i| (format!("SYM{}", i % 3), 100 + i as i64)).collect();
    let mut forward = PriceAggregator::new();
    for (s, c) in &ticks {
        forward.add_tick(tick(s, *c));
    }
    // A different order, as four workers taking turns might produce.
    let mut shuffled = PriceAggregator::new();
    for w in 0..4 {
        for (s, c) in ticks.iter().skip(w).step_by(4) {
            shuffled.add_tick(tick(s, *c));
        }
    }
    assert_eq!(forward.total_ticks(), 40);
    assert_eq!(shuffled.total_ticks(), 40);
    for s in ["SYM0", "SYM1", "SYM2"] {
        assert_eq!(
            forward.get_statistics(s).unwrap().count,
            shuffled.get_statistics(s).unwrap().count
        );
    }
}
