use rust_lib_aggs::config::Config;
use rust_lib_aggs::control::Session;
use rust_lib_aggs::decimal::Decimal;
use rust_lib_aggs::engine::Update;
use rust_lib_aggs::errors::EngineError;
use rust_lib_aggs::gate::Gate;
use rust_lib_aggs::trade::TradeRecord;
use rust_lib_aggs::window::{Bar, WindowKey};

fn dec(mantissa: i64, scale: u32) -> Decimal {
    Decimal::new(mantissa, scale).expect("scale in range")
}

fn config() -> Config {
    Config {
        bar_length_ms: 1_000,
        retention_ms: 5_000,
        grace_period_ms: 0,
        flush_frequency_ms: 25,
        input_queue_capacity: 16,
        worker_count: 1,
    }
}

fn trade(sym: &str, price: i64, volume: i64, t: u64) -> TradeRecord {
    TradeRecord {
        symbol: sym.to_string(),
        price: dec(price, 0),
        volume: dec(volume, 0),
        event_time_ms: t,
        exchange: 4,
        conditions: Vec::new(),
    }
}

fn bar(price: i64, volume: i64, count: i64) -> Bar {
    Bar {
        open: dec(price, 0),
        high: dec(price, 0),
        low: dec(price, 0),
        close: dec(price, 0),
        value_sum: dec(price * volume, 0),
        volume_sum: dec(volume, 0),
        trade_count: count,
        last_update_ms: 0,
    }
}

#[test]
fn single_trade_single_window() {
    let mut s = Session::new(config()).expect("config is usable");
    s.offer(trade("AAA", 100, 2, 0)).expect("queue has room");
    s.flush(1).expect("reduces");
    // window [0, 1000) closes strictly after 1000
    assert!(s.tick(1_000).is_empty());
    let out = s.tick(1_001);
    assert_eq!(out.len(), 1);
    let (k, b) = &out[0];
    assert_eq!(k.symbol, "AAA");
    assert_eq!(k.window_start_ms, 0);
    assert!(b.open.eq_val(dec(100, 0)));
    assert!(b.high.eq_val(dec(100, 0)));
    assert!(b.low.eq_val(dec(100, 0)));
    assert!(b.close.eq_val(dec(100, 0)));
    assert!(b.value_sum.eq_val(dec(200, 0)));
    assert!(b.volume_sum.eq_val(dec(2, 0)));
    assert_eq!(b.trade_count, 1);
}

#[test]
fn grace_period_holds_emission_back() {
    let mut cfg = config();
    cfg.grace_period_ms = 25;
    let mut s = Session::new(cfg).expect("config is usable");
    s.offer(trade("AAA", 100, 2, 0)).expect("queue has room");
    s.flush(1_001).expect("reduces");
    // the window is closed at 1002 but the last change was at 1001
    assert!(s.tick(1_002).is_empty());
    let out = s.tick(1_026);
    assert_eq!(out.len(), 1);
}

#[test]
fn two_trades_same_window() {
    let mut s = Session::new(config()).expect("config is usable");
    s.offer(trade("AAA", 100, 2, 0)).expect("queue has room");
    s.flush(1).expect("reduces");
    s.offer(trade("AAA", 110, 3, 500)).expect("queue has room");
    s.flush(2).expect("reduces");
    let out = s.tick(1_001);
    assert_eq!(out.len(), 1);
    let (k, b) = &out[0];
    assert_eq!(k.window_start_ms, 0);
    assert!(b.open.eq_val(dec(100, 0)));
    assert!(b.high.eq_val(dec(110, 0)));
    assert!(b.low.eq_val(dec(100, 0)));
    assert!(b.close.eq_val(dec(110, 0)));
    assert!(b.value_sum.eq_val(dec(530, 0)));
    assert!(b.volume_sum.eq_val(dec(5, 0)));
    assert_eq!(b.trade_count, 2);
}

#[test]
fn ohlc_is_arrival_order_independent() {
    let mut s = Session::new(config()).expect("config is usable");
    // reverse arrival order: the t=500 trade arrives first
    s.offer(trade("AAA", 110, 3, 500)).expect("queue has room");
    s.offer(trade("AAA", 100, 2, 0)).expect("queue has room");
    s.flush(1).expect("reduces");
    let out = s.tick(1_001);
    assert_eq!(out.len(), 1);
    let b = &out[0].1;
    assert!(b.open.eq_val(dec(100, 0)));
    assert!(b.close.eq_val(dec(110, 0)));
    assert!(b.low.eq_val(dec(100, 0)));
    assert!(b.high.eq_val(dec(110, 0)));
    assert!(b.value_sum.eq_val(dec(530, 0)));
    assert!(b.volume_sum.eq_val(dec(5, 0)));
    assert_eq!(b.trade_count, 2);
}

#[test]
fn window_boundary_emits_two_bars() {
    let mut s = Session::new(config()).expect("config is usable");
    s.offer(trade("AAA", 100, 1, 999)).expect("queue has room");
    s.offer(trade("AAA", 200, 1, 1_000)).expect("queue has room");
    s.flush(1).expect("reduces");
    let mut out = s.tick(2_002);
    assert_eq!(out.len(), 2);
    out.sort_by_key(|(k, _)| k.window_start_ms);
    assert_eq!(out[0].0.window_start_ms, 0);
    assert_eq!(out[0].1.trade_count, 1);
    assert!(out[0].1.close.eq_val(dec(100, 0)));
    assert_eq!(out[1].0.window_start_ms, 1_000);
    assert_eq!(out[1].1.trade_count, 1);
    assert!(out[1].1.close.eq_val(dec(200, 0)));
}

#[test]
fn emission_is_not_repeated() {
    let mut s = Session::new(config()).expect("config is usable");
    s.offer(trade("AAA", 100, 2, 0)).expect("queue has room");
    s.flush(1).expect("reduces");
    let out = s.tick(1_001);
    assert_eq!(out.len(), 1);
    // no state change: the same instant, and any later instant, emit nothing
    assert!(s.tick(1_001).is_empty());
    assert!(s.tick(9_999).is_empty());
}

#[test]
fn retention_eviction_leaves_no_state() {
    let mut s = Session::new(config()).expect("config is usable");
    s.offer(trade("AAA", 100, 2, 0)).expect("queue has room");
    s.flush(1).expect("reduces");
    // the bar is first emitted...
    let out = s.tick(1_001);
    assert_eq!(out.len(), 1);
    // ...then the frontier advances 7 s with no new trades
    s.flush(7_001).expect("reduces");
    assert!(s.tick(7_002).is_empty());
    // a probe finds no state for the key
    assert_eq!(s.engine.key_count(), 0);
    let k = WindowKey { symbol: "AAA".to_string(), window_start_ms: 0 };
    assert!(s.engine.bar_at(&k).expect("reduces").is_none());
    assert_eq!(s.gate.pending_count(), 0);
}

#[test]
fn late_arrival_is_never_emitted() {
    let mut s = Session::new(config()).expect("config is usable");
    // window_start = 0; the arrival frontier is already past
    // window_start + retention + 1 s
    s.offer(trade("AAA", 100, 2, 0)).expect("queue has room");
    s.flush(6_001).expect("reduces");
    // no emission now or later
    assert!(s.tick(6_002).is_empty());
    s.flush(13_000).expect("reduces");
    assert!(s.tick(13_001).is_empty());
    // and no persistent state either
    assert_eq!(s.engine.key_count(), 0);
    assert_eq!(s.gate.pending_count(), 0);
}

#[test]
fn backpressure_hands_the_trade_back() {
    let mut cfg = config();
    cfg.input_queue_capacity = 2;
    let mut s = Session::new(cfg).expect("config is usable");
    s.offer(trade("AAA", 1, 1, 0)).expect("queue has room");
    s.offer(trade("AAA", 2, 1, 0)).expect("queue has room");
    match s.offer(trade("AAA", 3, 1, 0)) {
        Err(back) => {
            assert!(back.price.eq_val(dec(3, 0)));
        }
        Ok(()) => panic!("a full buffer must hand the trade back"),
    }
    // nothing was dropped: the two buffered trades aggregate
    s.flush(1).expect("reduces");
    let out = s.tick(1_001);
    assert_eq!(out.len(), 1);
    assert_eq!(out[0].1.trade_count, 2);
}

#[test]
fn flush_cadence_follows_the_configuration() {
    let mut s = Session::new(config()).expect("config is usable");
    assert!(!s.should_flush(0));
    assert!(s.should_flush(25));
    s.flush(10).expect("reduces");
    assert!(!s.should_flush(34));
    assert!(s.should_flush(35));
}

#[test]
fn session_refuses_a_zero_window() {
    let mut cfg = config();
    cfg.bar_length_ms = 0;
    match Session::new(cfg) {
        Err(EngineError::BadConfig) => {}
        _ => panic!("a zero window must be refused"),
    }
}

#[test]
fn gate_ignores_withdrawals_and_stale_changes() {
    let mut g = Gate::new(config());
    let key = WindowKey { symbol: "AAA".to_string(), window_start_ms: 0 };
    // a withdrawal of never-recorded state changes nothing
    g.on_update(&Update { key, bar: None, logical_time_ms: 10, diff: -1 });
    assert_eq!(g.pending_count(), 0);
    // a stale change (window already past retention) is ignored
    let key = WindowKey { symbol: "AAA".to_string(), window_start_ms: 0 };
    g.on_update(&Update { key, bar: Some(bar(100, 1, 1)), logical_time_ms: 5_000, diff: 1 });
    assert_eq!(g.pending_count(), 0);
    // a live positive change is recorded
    let key = WindowKey { symbol: "AAA".to_string(), window_start_ms: 0 };
    g.on_update(&Update { key, bar: Some(bar(100, 1, 1)), logical_time_ms: 4_999, diff: 1 });
    assert_eq!(g.pending_count(), 1);
}

#[test]
fn gate_keeps_the_latest_bar_per_key() {
    let mut g = Gate::new(config());
    let key = WindowKey { symbol: "AAA".to_string(), window_start_ms: 0 };
    g.on_update(&Update { key, bar: Some(bar(100, 1, 1)), logical_time_ms: 1, diff: 1 });
    let key = WindowKey { symbol: "AAA".to_string(), window_start_ms: 0 };
    g.on_update(&Update { key, bar: Some(bar(110, 2, 2)), logical_time_ms: 2, diff: 1 });
    assert_eq!(g.pending_count(), 1);
    let out = g.tick(1_001);
    assert_eq!(out.len(), 1);
    assert_eq!(out[0].1.trade_count, 2);
    assert!(out[0].1.close.eq_val(dec(110, 0)));
}

#[test]
fn flush_overflow_is_fatal() {
    let mut s = Session::new(config()).expect("config is usable");
    let huge = TradeRecord {
        symbol: "AAA".to_string(),
        price: dec(4_000_000_000_000_000_000, 0),
        volume: dec(4_000_000_000_000_000_000, 0),
        event_time_ms: 0,
        exchange: 4,
        conditions: Vec::new(),
    };
    s.offer(huge).expect("queue has room");
    match s.flush(1) {
        Err(EngineError::Overflow) => {}
        _ => panic!("an unrepresentable product must be fatal"),
    }
}
