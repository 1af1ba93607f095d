//! Trade records and the trade capability.
//!
//! A [`TradeRecord`] is the immutable value the aggregation engine works on:
//! symbol, price, volume, event time and exchange tag, plus optional
//! condition flags.  Equality is structural.  The [`Trade`] trait is the
//! capability a wire-schema type offers so that it can be turned into a
//! record.

use vstd::prelude::*;

use crate::decimal::Decimal;

verus! {

/// Longest symbol the engine accepts, in characters.
pub const MAX_SYMBOL_LEN: usize = 12;

/// Ghost image of a trade: the record with its collections abstracted to
/// sequences.
pub struct TradeView {
    pub symbol: Seq<char>,
    pub price: Decimal,
    pub volume: Decimal,
    pub event_time_ms: u64,
    pub exchange: u32,
    pub conditions: Seq<u32>,
}

impl TradeView {
    /// Well-formed trades carry a non-negative price, a strictly positive
    /// volume, and a short symbol.
    pub open spec fn wf(self) -> bool {
        &&& self.price.inv()
        &&& self.price.val() >= 0
        &&& self.volume.inv()
        &&& self.volume.val() > 0
        &&& self.symbol.len() <= MAX_SYMBOL_LEN
    }
}

/// Immutable trade value; equality is structural.
#[derive(Debug)]
pub struct TradeRecord {
    pub symbol: String,
    pub price: Decimal,
    pub volume: Decimal,
    pub event_time_ms: u64,
    pub exchange: u32,
    pub conditions: Vec<u32>,
}

impl View for TradeRecord {
    type V = TradeView;

    open spec fn view(&self) -> TradeView {
        TradeView {
            symbol: self.symbol@,
            price: self.price,
            volume: self.volume,
            event_time_ms: self.event_time_ms,
            exchange: self.exchange,
            conditions: self.conditions@,
        }
    }
}

/// Element-for-element copy of a vector of condition flags.
fn copy_conditions(v: &Vec<u32>) -> (r: Vec<u32>)
    ensures
        r@ == v@,
{
    let mut r: Vec<u32> = Vec::new();
    let mut i: usize = 0;
    while i < v.len()
        invariant
            0 <= i <= v@.len(),
            r@ == v@.subrange(0, i as int),
        decreases v@.len() - i,
    {
        r.push(v[i]);
        proof {
            assert(r@ =~= v@.subrange(0, i + 1));
        }
        i = i + 1;
    }
    proof {
        assert(r@ =~= v@);
    }
    r
}

/// Element-for-element comparison of condition flags.
fn conditions_eq(a: &Vec<u32>, b: &Vec<u32>) -> (r: bool)
    ensures
        r == (a@ == b@),
{
    if a.len() != b.len() {
        return false;
    }
    let mut i: usize = 0;
    while i < a.len()
        invariant
            0 <= i <= a@.len(),
            a@.len() == b@.len(),
            forall|k: int| 0 <= k < i ==> a@[k] == b@[k],
        decreases a@.len() - i,
    {
        if a[i] != b[i] {
            return false;
        }
        i = i + 1;
    }
    proof {
        assert(a@ =~= b@);
    }
    true
}

impl TradeRecord {
    /// Well-formedness of the record (see [`TradeView::wf`]).
    pub open spec fn wf(self) -> bool {
        self@.wf()
    }

    /// An identical copy of the record.
    pub fn duplicate(&self) -> (r: TradeRecord)
        ensures
            r@ == self@,
    {
        let r = TradeRecord {
            symbol: self.symbol.clone(),
            price: self.price,
            volume: self.volume,
            event_time_ms: self.event_time_ms,
            exchange: self.exchange,
            conditions: copy_conditions(&self.conditions),
        };
        proof {
            assert(r.symbol@ == self.symbol@);
        }
        r
    }

    /// Structural equality of two records.
    pub fn same_trade(&self, other: &TradeRecord) -> (r: bool)
        ensures
            r == (self@ == other@),
    {
        let symbols_equal: bool = self.symbol == other.symbol;
        let r = symbols_equal && self.price == other.price && self.volume == other.volume
            && self.event_time_ms == other.event_time_ms && self.exchange == other.exchange
            && conditions_eq(&self.conditions, &other.conditions);
        proof {
            if r {
                assert(self@ =~= other@);
            }
        }
        r
    }
}

/// Capability of a wire-schema trade: every trade names a symbol and carries
/// price, volume, event time (milliseconds since the epoch) and an exchange
/// tag.
pub trait Trade: Sized {
    /// Ghost symbol.
    spec fn spec_ticker(&self) -> Seq<char>;

    /// Ghost price.
    spec fn spec_price(&self) -> Decimal;

    /// Ghost volume.
    spec fn spec_volume(&self) -> Decimal;

    /// Ghost event time in milliseconds.
    spec fn spec_timestamp_ms(&self) -> u64;

    /// Ghost exchange tag.
    spec fn spec_exchange(&self) -> u32;

    /// The symbol the trade belongs to.
    fn ticker(&self) -> (r: &str)
        ensures
            r@ == self.spec_ticker(),
    ;

    /// The traded price.
    fn price(&self) -> (r: Decimal)
        ensures
            r == self.spec_price(),
    ;

    /// The traded volume.
    fn volume(&self) -> (r: Decimal)
        ensures
            r == self.spec_volume(),
    ;

    /// Event time in milliseconds since the epoch.
    fn timestamp(&self) -> (r: u64)
        ensures
            r == self.spec_timestamp_ms(),
    ;

    /// Exchange tag.
    fn exchange(&self) -> (r: u32)
        ensures
            r == self.spec_exchange(),
    ;
}

/// A trade is fit for aggregation when its numeric fields are well-formed
/// and its symbol is short.
pub open spec fn trade_valid<T: Trade>(t: T) -> bool {
    &&& t.spec_price().inv()
    &&& t.spec_price().val() >= 0
    &&& t.spec_volume().inv()
    &&& t.spec_volume().val() > 0
    &&& t.spec_ticker().len() <= MAX_SYMBOL_LEN
}

/// Turn any trade into the engine's record form (condition flags are not
/// part of the capability and are left empty).
pub fn to_record<T: Trade>(t: &T) -> (r: TradeRecord)
    requires
        trade_valid(*t),
    ensures
        r.wf(),
        r@.symbol == t.spec_ticker(),
        r@.price == t.spec_price(),
        r@.volume == t.spec_volume(),
        r@.event_time_ms == t.spec_timestamp_ms(),
        r@.exchange == t.spec_exchange(),
        r@.conditions == Seq::<u32>::empty(),
{
    let r = TradeRecord {
        symbol: t.ticker().to_owned(),
        price: t.price(),
        volume: t.volume(),
        event_time_ms: t.timestamp(),
        exchange: t.exchange(),
        conditions: Vec::new(),
    };
    r
}

} // verus!
