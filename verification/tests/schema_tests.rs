use rust_lib_aggs::decimal::Decimal;
use rust_lib_aggs::queue::IngressQueue;
use rust_lib_aggs::trade::{Trade, TradeRecord, to_record};
use rust_lib_aggs::window_start_ms;
use rust_lib_aggs::ws::{
    ActionType, CryptoTrade, EventType, Message, Status, StatusUpdate, StockTrade, Tape,
    WebsocketTrade,
};

fn dec(mantissa: i64, scale: u32) -> Decimal {
    Decimal::new(mantissa, scale).expect("scale in range")
}

fn stock() -> StockTrade {
    StockTrade {
        t: 1_500,
        sym: "AAA".to_string(),
        x: 11,
        z: Tape::B,
        p: dec(12550, 2),
        s: 7,
        c: vec![14, 37],
    }
}

fn crypto() -> CryptoTrade {
    CryptoTrade {
        t: 2_500,
        pair: "BTC-USD".to_string(),
        p: dec(4_212_345, 2),
        s: dec(25, 3),
        c: vec![1],
        x: 2,
        r: 2_600,
    }
}

#[test]
fn window_start_truncates_to_the_bucket() {
    assert_eq!(window_start_ms(0, 1_000), 0);
    assert_eq!(window_start_ms(999, 1_000), 0);
    assert_eq!(window_start_ms(1_000, 1_000), 1_000);
    assert_eq!(window_start_ms(59_999, 30_000), 30_000);
    assert_eq!(window_start_ms(7, 1), 7);
}

#[test]
fn tape_codes_round_trip() {
    assert_eq!(Tape::Missing.code(), 0);
    assert_eq!(Tape::A.code(), 1);
    assert_eq!(Tape::B.code(), 2);
    assert_eq!(Tape::C.code(), 3);
    for code in 0u8..4u8 {
        let t = Tape::from_code(code).expect("a marker carries this value");
        assert_eq!(t.code(), code);
    }
    assert!(Tape::from_code(4).is_none());
}

#[test]
fn stock_trade_exposes_its_fields() {
    let st = stock();
    assert_eq!(st.ticker(), "AAA");
    assert!(st.price().eq_val(dec(12550, 2)));
    // a stock size is whole shares
    assert!(st.volume().eq_val(dec(7, 0)));
    assert_eq!(st.timestamp(), 1_500);
    assert_eq!(st.exchange(), 11);
}

#[test]
fn crypto_trade_exposes_its_fields() {
    let ct = crypto();
    assert_eq!(ct.ticker(), "BTC-USD");
    assert!(ct.price().eq_val(dec(4_212_345, 2)));
    assert!(ct.volume().eq_val(dec(25, 3)));
    assert_eq!(ct.timestamp(), 2_500);
    assert_eq!(ct.exchange(), 2);
}

#[test]
fn records_carry_the_trade_over() {
    let rec = to_record(&stock());
    assert_eq!(rec.symbol, "AAA");
    assert!(rec.price.eq_val(dec(12550, 2)));
    assert!(rec.volume.eq_val(dec(7, 0)));
    assert_eq!(rec.event_time_ms, 1_500);
    assert_eq!(rec.exchange, 11);
    assert!(rec.conditions.is_empty());

    let rec = to_record(&crypto());
    assert_eq!(rec.symbol, "BTC-USD");
    assert!(rec.volume.eq_val(dec(25, 3)));
}

#[test]
fn record_equality_is_structural() {
    let a = to_record(&stock());
    let b = a.duplicate();
    assert!(a.same_trade(&b));
    let mut c = a.duplicate();
    c.exchange = 12;
    assert!(!a.same_trade(&c));
    let mut d = a.duplicate();
    d.conditions.push(9);
    assert!(!a.same_trade(&d));
}

#[test]
fn socket_paths_and_prefixes() {
    assert_eq!(StockTrade::socket_path(), "stocks");
    assert_eq!(StockTrade::feed_prefix(), "T");
    assert_eq!(CryptoTrade::socket_path(), "crypto");
    assert_eq!(CryptoTrade::feed_prefix(), "XT");
}

#[test]
fn messages_route_trades_and_statuses() {
    let m: Message<StockTrade> = Message::Trade(stock());
    assert!(m.is_trade());
    let t = m.into_trade().expect("a trade message carries a trade");
    assert_eq!(t.ticker(), "AAA");

    let status = StatusUpdate {
        ev: EventType::Status,
        status: Status::AuthSuccess,
        message: "authenticated".to_string(),
    };
    let m: Message<StockTrade> = Message::Status(status);
    assert!(!m.is_trade());
    assert!(m.into_trade().is_none());
    assert!(matches!(ActionType::Auth, ActionType::Auth));
}

#[test]
fn ingress_queue_is_fifo_and_bounded() {
    let mut q = IngressQueue::new(2);
    let mk = |p: i64| TradeRecord {
        symbol: "AAA".to_string(),
        price: dec(p, 0),
        volume: dec(1, 0),
        event_time_ms: 0,
        exchange: 0,
        conditions: Vec::new(),
    };
    assert_eq!(q.len(), 0);
    assert!(q.take_front().is_none());
    q.offer(mk(1)).expect("room");
    q.offer(mk(2)).expect("room");
    match q.offer(mk(3)) {
        Err(back) => assert!(back.price.eq_val(dec(3, 0))),
        Ok(()) => panic!("a full buffer must hand the trade back"),
    }
    let first = q.take_front().expect("non-empty");
    assert!(first.price.eq_val(dec(1, 0)));
    let second = q.take_front().expect("non-empty");
    assert!(second.price.eq_val(dec(2, 0)));
    assert!(q.take_front().is_none());
}
