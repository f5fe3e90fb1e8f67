use financial_data_pipeline::hub::{HubCore, HubState, LoopAction, LoopEvent};
use financial_data_pipeline::price::Price;
use financial_data_pipeline::tick::MarketTick;

fn tick(symbol: &str, cents: i64) -> MarketTick {
    MarketTick::new(String::from(symbol), Price::new(cents, 2), 10)
}

/// Offers a tick to every current subscriber; `alive` says which handles
/// still accept it. Returns the handles it reached.
fn distribute(hub: &mut HubCore<u32>, t: MarketTick, alive: &dyn Fn(u32) -> bool) -> Vec<u32> {
    let symbol = t.symbol.clone();
    let n = hub.record_tick(t);
    let mut reached = Vec::new();
    let mut delivered = Vec::new();
    for i in 0..n {
        let h = *hub.subscriber(&symbol, i);
        let ok = alive(h);
        if ok {
            reached.push(h);
        }
        delivered.push(ok);
    }
    hub.evict_failed(&symbol, &delivered);
    reached
}

#[test]
fn every_subscriber_gets_every_tick_in_order() {
    let mut hub: HubCore<u32> = HubCore::new();
    hub.subscribe(String::from("AAPL"), 1);
    hub.subscribe(String::from("AAPL"), 2);
    let mut got: Vec<Vec<u32>> = Vec::new();
    for k in 0..5 {
        got.push(distribute(&mut hub, tick("AAPL", 100 + k), &|_| true));
    }
    assert_eq!(got.len(), 5);
    for r in got {
        assert_eq!(r, vec![1, 2]);
    }
}

#[test]
fn unsubscribe_stops_deliveries() {
    let mut hub: HubCore<u32> = HubCore::new();
    hub.subscribe(String::from("VZW"), 1);
    let removed = hub.unsubscribe(&String::from("VZW")).unwrap();
    assert_eq!(removed, vec![1]);
    for k in 0..3 {
        assert!(distribute(&mut hub, tick("VZW", k), &|_| true).is_empty());
    }
}

#[test]
fn unsubscribe_unknown_symbol_is_noop() {
    let mut hub: HubCore<u32> = HubCore::new();
    hub.subscribe(String::from("A"), 1);
    assert!(hub.unsubscribe(&String::from("B")).is_none());
    assert_eq!(distribute(&mut hub, tick("A", 1), &|_| true), vec![1]);
}

#[test]
fn failed_delivery_evicts_only_that_subscriber() {
    let mut hub: HubCore<u32> = HubCore::new();
    for h in 1..=3 {
        hub.subscribe(String::from("S"), h);
    }
    // Subscriber 2 dropped its receiver: its one failed delivery evicts it.
    assert_eq!(distribute(&mut hub, tick("S", 1), &|h| h != 2), vec![1, 3]);
    assert_eq!(distribute(&mut hub, tick("S", 2), &|_| true), vec![1, 3]);
    assert_eq!(hub.record_tick(tick("S", 3)), 2);
}

#[test]
fn get_stats_excludes_symbols_without_subscribers() {
    let mut hub: HubCore<u32> = HubCore::new();
    hub.subscribe(String::from("A"), 1);
    distribute(&mut hub, tick("A", 100), &|_| true);
    distribute(&mut hub, tick("A", 300), &|_| true);
    distribute(&mut hub, tick("B", 500), &|_| true);
    let stats = hub.subscribed_stats();
    assert_eq!(stats.len(), 1);
    assert_eq!(stats[0].symbol, "A");
    assert_eq!(stats[0].count, 2);
    assert_eq!(stats[0].min_price, Price::new(100, 2));
    assert_eq!(stats[0].max_price, Price::new(300, 2));
    let avg = stats[0].avg_price;
    assert!(!avg.less_than(Price::new(2, 0)) && !Price::new(2, 0).less_than(avg));
}

#[test]
fn get_stats_drops_symbol_whose_subscribers_all_left() {
    let mut hub: HubCore<u32> = HubCore::new();
    hub.subscribe(String::from("A"), 1);
    distribute(&mut hub, tick("A", 100), &|_| false);
    assert!(hub.subscribed_stats().is_empty());
}

#[test]
fn subscribe_after_unsubscribe_scenario() {
    let mut hub: HubCore<u32> = HubCore::new();
    hub.subscribe(String::from("VZW"), 1);
    for k in 0..5 {
        assert_eq!(distribute(&mut hub, tick("VZW", k), &|_| true), vec![1]);
    }
    hub.subscribe(String::from("JNJ"), 2);
    hub.unsubscribe(&String::from("VZW"));
    for k in 0..5 {
        assert!(distribute(&mut hub, tick("VZW", k), &|_| true).is_empty());
        assert_eq!(distribute(&mut hub, tick("JNJ", k), &|_| true), vec![2]);
    }
}

#[test]
fn shutdown_command_notifies_once_and_stops() {
    let mut hub: HubCore<u32> = HubCore::new();
    assert_eq!(hub.on_event(LoopEvent::TickArrived), LoopAction::Continue);
    assert_eq!(hub.on_event(LoopEvent::CommandSourceClosed), LoopAction::Continue);
    assert_eq!(hub.on_event(LoopEvent::ShutdownCommand), LoopAction::NotifyAndStop);
    assert_eq!(hub.state(), HubState::ShuttingDown);
    assert_eq!(hub.on_event(LoopEvent::ShutdownCommand), LoopAction::Stop);
    assert_eq!(hub.on_event(LoopEvent::TickArrived), LoopAction::Stop);
}

#[test]
fn shutdown_signal_stops_without_notifying() {
    let mut hub: HubCore<u32> = HubCore::new();
    assert_eq!(hub.state(), HubState::Running);
    assert_eq!(hub.on_event(LoopEvent::ShutdownSignal), LoopAction::Stop);
    assert_eq!(hub.state(), HubState::ShuttingDown);
}

#[test]
fn get_stats_lists_each_symbol_once() {
    let mut hub: HubCore<u32> = HubCore::new();
    hub.subscribe(String::from("A"), 1);
    hub.subscribe(String::from("A"), 2);
    hub.subscribe(String::from("B"), 3);
    hub.subscribe(String::from("A"), 4);
    distribute(&mut hub, tick("A", 100), &|_| true);
    distribute(&mut hub, tick("B", 200), &|_| true);
    let stats = hub.subscribed_stats();
    assert_eq!(stats.len(), 2);
    assert_eq!(stats.iter().filter(|s| s.symbol == "A").count(), 1);
    assert_eq!(stats.iter().filter(|s| s.symbol == "B").count(), 1);
}

#[test]
fn evicted_subscriber_never_offered_again() {
    let mut hub: HubCore<u32> = HubCore::new();
    hub.subscribe(String::from("S"), 1);
    hub.subscribe(String::from("S"), 2);
    let mut attempts_on_2 = 0;
    for k in 0..6 {
        let symbol = String::from("S");
        let n = hub.record_tick(tick("S", k));
        let mut delivered = Vec::new();
        for i in 0..n {
            let h = *hub.subscriber(&symbol, i);
            if h == 2 {
                attempts_on_2 += 1;
            }
            delivered.push(h != 2);
        }
        hub.evict_failed(&symbol, &delivered);
    }
    assert_eq!(attempts_on_2, 1);
}
