use rust_lib_aggs::config::Config;
use rust_lib_aggs::decimal::Decimal;
use rust_lib_aggs::engine::Engine;
use rust_lib_aggs::errors::EngineError;
use rust_lib_aggs::trade::TradeRecord;
use rust_lib_aggs::window::WindowKey;

fn dec(mantissa: i64, scale: u32) -> Decimal {
    Decimal::new(mantissa, scale).expect("scale in range")
}

fn config() -> Config {
    Config {
        bar_length_ms: 1_000,
        retention_ms: 5_000,
        grace_period_ms: 0,
        flush_frequency_ms: 25,
        input_queue_capacity: 16,
        worker_count: 1,
    }
}

fn trade(sym: &str, price: i64, volume: i64, t: u64) -> TradeRecord {
    TradeRecord {
        symbol: sym.to_string(),
        price: dec(price, 0),
        volume: dec(volume, 0),
        event_time_ms: t,
        exchange: 4,
        conditions: Vec::new(),
    }
}

fn key(sym: &str, start: u64) -> WindowKey {
    WindowKey { symbol: sym.to_string(), window_start_ms: start }
}

#[test]
fn zero_window_is_refused() {
    let mut cfg = config();
    cfg.bar_length_ms = 0;
    match Engine::new(cfg) {
        Err(EngineError::BadConfig) => {}
        _ => panic!("a zero window must be refused"),
    }
}

#[test]
fn one_trade_reduces_to_its_own_bar() {
    let mut e = Engine::new(config()).expect("config is usable");
    let u = e.insert(trade("AAA", 100, 2, 0)).expect("fits");
    assert_eq!(u.diff, 1);
    assert_eq!(u.key.window_start_ms, 0);
    assert_eq!(u.key.symbol, "AAA");
    let b = u.bar.expect("positive diff carries a bar");
    assert!(b.open.eq_val(dec(100, 0)));
    assert!(b.high.eq_val(dec(100, 0)));
    assert!(b.low.eq_val(dec(100, 0)));
    assert!(b.close.eq_val(dec(100, 0)));
    assert!(b.volume_sum.eq_val(dec(2, 0)));
    assert!(b.value_sum.eq_val(dec(200, 0)));
    assert_eq!(b.trade_count, 1);
}

#[test]
fn conservation_over_several_trades() {
    let mut e = Engine::new(config()).expect("config is usable");
    e.insert(trade("AAA", 100, 2, 0)).expect("fits");
    e.insert(trade("AAA", 110, 3, 500)).expect("fits");
    let u = e.insert(trade("AAA", 90, 5, 700)).expect("fits");
    let b = u.bar.expect("bar");
    assert_eq!(b.trade_count, 3);
    assert!(b.volume_sum.eq_val(dec(10, 0)));
    // 200 + 330 + 450
    assert!(b.value_sum.eq_val(dec(980, 0)));
    assert!(b.low.eq_val(dec(90, 0)));
    assert!(b.high.eq_val(dec(110, 0)));
    assert!(b.open.eq_val(dec(100, 0)));
    assert!(b.close.eq_val(dec(90, 0)));
}

#[test]
fn ohlc_is_ordered_by_event_time_not_arrival() {
    let mut e = Engine::new(config()).expect("config is usable");
    // the later trade (by event time) arrives first
    e.insert(trade("AAA", 110, 3, 500)).expect("fits");
    let u = e.insert(trade("AAA", 100, 2, 0)).expect("fits");
    let b = u.bar.expect("bar");
    assert!(b.open.eq_val(dec(100, 0)));
    assert!(b.close.eq_val(dec(110, 0)));
    assert!(b.low.eq_val(dec(100, 0)));
    assert!(b.high.eq_val(dec(110, 0)));
    assert!(b.volume_sum.eq_val(dec(5, 0)));
    assert!(b.value_sum.eq_val(dec(530, 0)));
    assert_eq!(b.trade_count, 2);
}

#[test]
fn equal_event_times_break_ties_by_arrival() {
    let mut e = Engine::new(config()).expect("config is usable");
    e.insert(trade("AAA", 100, 1, 42)).expect("fits");
    let u = e.insert(trade("AAA", 200, 1, 42)).expect("fits");
    let b = u.bar.expect("bar");
    // first arrival opens, last arrival closes
    assert!(b.open.eq_val(dec(100, 0)));
    assert!(b.close.eq_val(dec(200, 0)));
}

#[test]
fn window_boundary_splits_keys() {
    let mut e = Engine::new(config()).expect("config is usable");
    let u1 = e.insert(trade("AAA", 100, 1, 999)).expect("fits");
    let u2 = e.insert(trade("AAA", 200, 1, 1_000)).expect("fits");
    assert_eq!(u1.key.window_start_ms, 0);
    assert_eq!(u2.key.window_start_ms, 1_000);
    assert_eq!(e.key_count(), 2);
    let b1 = e.bar_at(&key("AAA", 0)).expect("reduces").expect("present");
    let b2 = e.bar_at(&key("AAA", 1_000)).expect("reduces").expect("present");
    assert_eq!(b1.trade_count, 1);
    assert_eq!(b2.trade_count, 1);
    assert!(b1.close.eq_val(dec(100, 0)));
    assert!(b2.close.eq_val(dec(200, 0)));
}

#[test]
fn symbols_key_separately() {
    let mut e = Engine::new(config()).expect("config is usable");
    e.insert(trade("AAA", 100, 1, 0)).expect("fits");
    e.insert(trade("BBB", 7, 1, 0)).expect("fits");
    assert_eq!(e.key_count(), 2);
    let b = e.bar_at(&key("BBB", 0)).expect("reduces").expect("present");
    assert!(b.close.eq_val(dec(7, 0)));
    assert!(e.bar_at(&key("CCC", 0)).expect("reduces").is_none());
}

#[test]
fn retention_evicts_old_trades() {
    let mut e = Engine::new(config()).expect("config is usable");
    e.insert(trade("AAA", 100, 2, 0)).expect("fits");
    // horizon = retention + bar_length = 6000; at 5999 the trade is alive
    let us = e.advance(5_999).expect("reduces");
    assert!(us.is_empty());
    assert!(e.bar_at(&key("AAA", 0)).expect("reduces").is_some());
    // at 6000 it has aged out: a withdrawal update is produced
    let us = e.advance(6_000).expect("reduces");
    assert_eq!(us.len(), 1);
    assert_eq!(us[0].diff, -1);
    assert!(us[0].bar.is_none());
    assert!(e.bar_at(&key("AAA", 0)).expect("reduces").is_none());
    e.purge_empty();
    assert_eq!(e.key_count(), 0);
}

#[test]
fn partial_eviction_reduces_the_rest() {
    let mut e = Engine::new(config()).expect("config is usable");
    e.insert(trade("AAA", 100, 2, 0)).expect("fits");
    e.advance(3_000).expect("reduces");
    // second trade of the same window, inserted at frontier 3000
    e.insert(trade("AAA", 110, 3, 500)).expect("fits");
    // 6000 evicts the first (inserted at 0) and keeps the second
    let us = e.advance(6_000).expect("reduces");
    assert_eq!(us.len(), 1);
    assert_eq!(us[0].diff, 1);
    let b = us[0].bar.expect("bar");
    assert_eq!(b.trade_count, 1);
    assert!(b.close.eq_val(dec(110, 0)));
    assert!(b.volume_sum.eq_val(dec(3, 0)));
}

#[test]
fn frontier_never_goes_backwards() {
    let mut e = Engine::new(config()).expect("config is usable");
    e.advance(5_000).expect("reduces");
    e.advance(1_000).expect("reduces");
    // inserting at the unchanged frontier keeps the trade live
    e.insert(trade("AAA", 100, 1, 0)).expect("fits");
    let us = e.advance(5_999).expect("reduces");
    assert!(us.is_empty());
    assert!(e.bar_at(&key("AAA", 0)).expect("reduces").is_some());
}

#[test]
fn retract_reverses_insert() {
    let mut e = Engine::new(config()).expect("config is usable");
    let t1 = trade("AAA", 100, 2, 0);
    let t2 = trade("AAA", 110, 3, 500);
    e.insert(trade("AAA", 100, 2, 0)).expect("fits");
    e.insert(trade("AAA", 110, 3, 500)).expect("fits");
    let u = e.retract(&t1).expect("present");
    assert_eq!(u.diff, 1);
    let b = u.bar.expect("bar");
    assert_eq!(b.trade_count, 1);
    assert!(b.close.eq_val(dec(110, 0)));
    let u = e.retract(&t2).expect("present");
    assert_eq!(u.diff, -1);
    assert!(u.bar.is_none());
    assert!(e.bar_at(&key("AAA", 0)).expect("reduces").is_none());
    e.purge_empty();
    assert_eq!(e.key_count(), 0);
}

#[test]
fn retracting_an_absent_trade_is_fatal() {
    let mut e = Engine::new(config()).expect("config is usable");
    e.insert(trade("AAA", 100, 2, 0)).expect("fits");
    let ghost_trade = trade("AAA", 101, 2, 0);
    match e.retract(&ghost_trade) {
        Err(EngineError::MissingTrade) => {}
        _ => panic!("a negative multiplicity must be refused"),
    }
    // the present one still retracts fine
    e.retract(&trade("AAA", 100, 2, 0)).expect("present");
}

#[test]
fn value_overflow_is_fatal_and_harmless() {
    let mut e = Engine::new(config()).expect("config is usable");
    e.insert(trade("AAA", 100, 2, 0)).expect("fits");
    let huge = TradeRecord {
        symbol: "AAA".to_string(),
        price: dec(4_000_000_000_000_000_000, 0),
        volume: dec(4_000_000_000_000_000_000, 0),
        event_time_ms: 0,
        exchange: 4,
        conditions: Vec::new(),
    };
    match e.insert(huge) {
        Err(EngineError::Overflow) => {}
        _ => panic!("an unrepresentable product must be fatal"),
    }
    // the engine is unchanged: the earlier trade still reduces
    let b = e.bar_at(&key("AAA", 0)).expect("reduces").expect("present");
    assert_eq!(b.trade_count, 1);
}

#[test]
fn bars_carry_decimal_scales_exactly() {
    let mut e = Engine::new(config()).expect("config is usable");
    // price 1.25, volume 0.4: value 0.5
    let t = TradeRecord {
        symbol: "BTC-USD".to_string(),
        price: dec(125, 2),
        volume: dec(4, 1),
        event_time_ms: 10,
        exchange: 1,
        conditions: vec![1, 2],
    };
    let u = e.insert(t).expect("fits");
    let b = u.bar.expect("bar");
    assert!(b.value_sum.eq_val(dec(5, 1)));
    assert!(b.volume_sum.eq_val(dec(4, 1)));
    // VWAP view: value / volume = 1.25
    let vwap = b.value_sum.div_floor(b.volume_sum, 2).expect("in range");
    assert!(vwap.eq_val(dec(125, 2)));
}

#[test]
fn identical_trades_count_as_multiplicities() {
    let mut e = Engine::new(config()).expect("config is usable");
    e.insert(trade("AAA", 100, 2, 0)).expect("fits");
    let u = e.insert(trade("AAA", 100, 2, 0)).expect("fits");
    let b = u.bar.expect("bar");
    assert_eq!(b.trade_count, 2);
    assert!(b.volume_sum.eq_val(dec(4, 0)));
    assert!(b.value_sum.eq_val(dec(400, 0)));
    // retracting one instance leaves the other
    let u = e.retract(&trade("AAA", 100, 2, 0)).expect("present");
    let b = u.bar.expect("bar");
    assert_eq!(b.trade_count, 1);
    assert!(b.volume_sum.eq_val(dec(2, 0)));
}

#[test]
fn inserting_then_retracting_a_sequence_empties_the_state() {
    let mut e = Engine::new(config()).expect("config is usable");
    let script = [
        ("AAA", 100, 2, 0),
        ("BBB", 7, 1, 500),
        ("AAA", 110, 3, 1_500),
        ("AAA", 100, 2, 0),
    ];
    for (sym, p, v, t) in script.iter() {
        e.insert(trade(sym, *p, *v, *t)).expect("fits");
    }
    assert_eq!(e.key_count(), 3);
    for (sym, p, v, t) in script.iter() {
        e.retract(&trade(sym, *p, *v, *t)).expect("present");
    }
    e.purge_empty();
    assert_eq!(e.key_count(), 0);
    assert!(e.bar_at(&key("AAA", 0)).expect("reduces").is_none());
    assert!(e.bar_at(&key("AAA", 1_000)).expect("reduces").is_none());
    assert!(e.bar_at(&key("BBB", 0)).expect("reduces").is_none());
}
