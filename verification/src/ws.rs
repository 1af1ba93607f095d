//! Wire-schema types of the market-data feed.
//!
//! These are the typed forms of the inbound messages: stock and crypto
//! trades, status updates, and the actions sent on connect.  Decoding the
//! JSON itself is the ingress adapter's concern and stays outside the
//! core; the core consumes these values and turns trades into records.

use vstd::prelude::*;

use crate::decimal::{Decimal, MAX_SCALE, lemma_pow10_pos, pow10};
use crate::trade::Trade;

verus! {

/// Wire event tag of an inbound message.
#[derive(Clone, Copy, Debug, PartialEq, Eq, Structural)]
pub enum EventType {
    XT,
    T,
    Status,
}

/// Connection status carried by a status update.
#[derive(Clone, Copy, Debug, PartialEq, Eq, Structural)]
pub enum Status {
    Connected,
    AuthSuccess,
    Success,
}

/// Actions the client sends on connect.
#[derive(Clone, Copy, Debug, PartialEq, Eq, Structural)]
pub enum ActionType {
    Auth,
    Subscribe,
}

/// Consolidated-tape marker of a stock trade.
#[derive(Clone, Copy, Debug, PartialEq, Eq, Structural)]
pub enum Tape {
    Missing,
    A,
    B,
    C,
}

impl Tape {
    /// The wire value of the tape marker.
    pub open spec fn spec_code(self) -> u8 {
        match self {
            Tape::Missing => 0,
            Tape::A => 1,
            Tape::B => 2,
            Tape::C => 3,
        }
    }

    /// The wire value of the tape marker.
    pub fn code(&self) -> (r: u8)
        ensures
            r == self.spec_code(),
    {
        match self {
            Tape::Missing => 0,
            Tape::A => 1,
            Tape::B => 2,
            Tape::C => 3,
        }
    }

    /// The tape marker of a wire value; `None` exactly for the values no
    /// marker carries.  Decoding a marker's own code returns the marker.
    pub fn from_code(code: u8) -> (r: Option<Tape>)
        ensures
            r is Some <==> code <= 3,
            r matches Some(t) ==> t.spec_code() == code,
    {
        match code {
            0 => Some(Tape::Missing),
            1 => Some(Tape::A),
            2 => Some(Tape::B),
            3 => Some(Tape::C),
            _ => None,
        }
    }
}

/// One action sent to the feed on connect.
pub struct Action {
    pub action: ActionType,
    pub params: String,
}

/// One status message of the feed; ignored by the core.
pub struct StatusUpdate {
    pub ev: EventType,
    pub status: Status,
    pub message: String,
}

impl StatusUpdate {
    /// Status messages carry a short text.
    pub open spec fn wf(self) -> bool {
        self.message@.len() <= 32
    }
}

/// One stock trade from the feed.
pub struct StockTrade {
    /// Event time, milliseconds since the epoch.
    pub t: u64,
    /// Symbol, at most eight characters.
    pub sym: String,
    /// Exchange tag.
    pub x: u32,
    /// Consolidated-tape marker.
    pub z: Tape,
    /// Price.
    pub p: Decimal,
    /// Size, in whole shares.
    pub s: u32,
    /// Condition flags, at most six.
    pub c: Vec<u32>,
}

impl StockTrade {
    /// Wire invariant of a stock trade.
    pub open spec fn wf(self) -> bool {
        &&& self.sym@.len() <= 8
        &&& self.c@.len() <= 6
        &&& self.p.inv()
        &&& self.p.val() >= 0
        &&& self.s >= 1
    }
}

impl Trade for StockTrade {
    open spec fn spec_ticker(&self) -> Seq<char> {
        self.sym@
    }

    open spec fn spec_price(&self) -> Decimal {
        self.p
    }

    open spec fn spec_volume(&self) -> Decimal {
        Decimal { mantissa: self.s as i128, scale: 0u32 }
    }

    open spec fn spec_timestamp_ms(&self) -> u64 {
        self.t
    }

    open spec fn spec_exchange(&self) -> u32 {
        self.x
    }

    fn ticker(&self) -> (r: &str) {
        self.sym.as_str()
    }

    fn price(&self) -> (r: Decimal) {
        self.p
    }

    fn volume(&self) -> (r: Decimal) {
        Decimal { mantissa: self.s as i128, scale: 0 }
    }

    fn timestamp(&self) -> (r: u64) {
        self.t
    }

    fn exchange(&self) -> (r: u32) {
        self.x
    }
}

/// A well-formed stock trade is fit for aggregation.
pub proof fn lemma_stock_trade_valid(st: StockTrade)
    requires
        st.wf(),
    ensures
        crate::trade::trade_valid(st),
{
    let v = st.spec_volume();
    lemma_pow10_pos((MAX_SCALE - 0u32) as nat);
    assert(v.val() == st.s as int * pow10(MAX_SCALE as nat));
    assert(st.s as int * pow10(MAX_SCALE as nat) > 0) by (nonlinear_arith)
        requires
            st.s >= 1,
            pow10(MAX_SCALE as nat) >= 1,
    ;
}

/// One crypto trade from the feed.
pub struct CryptoTrade {
    /// Event time, milliseconds since the epoch.
    pub t: u64,
    /// Currency pair, at most twelve characters.
    pub pair: String,
    /// Price.
    pub p: Decimal,
    /// Size.
    pub s: Decimal,
    /// Condition flags, at most four.
    pub c: Vec<u32>,
    /// Exchange tag.
    pub x: u32,
    /// Received-at time from the feed.
    pub r: u64,
}

impl CryptoTrade {
    /// Wire invariant of a crypto trade.
    pub open spec fn wf(self) -> bool {
        &&& self.pair@.len() <= 12
        &&& self.c@.len() <= 4
        &&& self.p.inv()
        &&& self.p.val() >= 0
        &&& self.s.inv()
        &&& self.s.val() > 0
    }
}

impl Trade for CryptoTrade {
    open spec fn spec_ticker(&self) -> Seq<char> {
        self.pair@
    }

    open spec fn spec_price(&self) -> Decimal {
        self.p
    }

    open spec fn spec_volume(&self) -> Decimal {
        self.s
    }

    open spec fn spec_timestamp_ms(&self) -> u64 {
        self.t
    }

    open spec fn spec_exchange(&self) -> u32 {
        self.x
    }

    fn ticker(&self) -> (r: &str) {
        self.pair.as_str()
    }

    fn price(&self) -> (r: Decimal) {
        self.p
    }

    fn volume(&self) -> (r: Decimal) {
        self.s
    }

    fn timestamp(&self) -> (r: u64) {
        self.t
    }

    fn exchange(&self) -> (r: u32) {
        self.x
    }
}

/// A well-formed crypto trade is fit for aggregation.
pub proof fn lemma_crypto_trade_valid(ct: CryptoTrade)
    requires
        ct.wf(),
    ensures
        crate::trade::trade_valid(ct),
{
}

/// A trade type bound to one of the feed's sockets.
pub trait WebsocketTrade: Trade {
    /// Ghost socket path.
    spec fn spec_socket_path() -> Seq<char>;

    /// Ghost feed prefix.
    spec fn spec_feed_prefix() -> Seq<char>;

    /// Path of the socket this trade type arrives on.
    fn socket_path() -> (r: &'static str)
        ensures
            r@ == Self::spec_socket_path(),
    ;

    /// Subscription prefix of this trade type.
    fn feed_prefix() -> (r: &'static str)
        ensures
            r@ == Self::spec_feed_prefix(),
    ;
}

impl WebsocketTrade for StockTrade {
    open spec fn spec_socket_path() -> Seq<char> {
        "stocks"@
    }

    open spec fn spec_feed_prefix() -> Seq<char> {
        "T"@
    }

    fn socket_path() -> (r: &'static str) {
        "stocks"
    }

    fn feed_prefix() -> (r: &'static str) {
        "T"
    }
}

impl WebsocketTrade for CryptoTrade {
    open spec fn spec_socket_path() -> Seq<char> {
        "crypto"@
    }

    open spec fn spec_feed_prefix() -> Seq<char> {
        "XT"@
    }

    fn socket_path() -> (r: &'static str) {
        "crypto"
    }

    fn feed_prefix() -> (r: &'static str) {
        "XT"
    }
}

/// One inbound message: a trade to aggregate, or a status update the core
/// ignores.
pub enum Message<T: Trade> {
    Trade(T),
    Status(StatusUpdate),
}

impl<T: Trade> Message<T> {
    /// Whether the message carries a trade.
    pub fn is_trade(&self) -> (r: bool)
        ensures
            r == (self is Trade),
    {
        match self {
            Message::Trade(_) => true,
            Message::Status(_) => false,
        }
    }

    /// The trade of the message, if it carries one.
    pub fn into_trade(self) -> (r: Option<T>)
        ensures
            self matches Message::Trade(t) ==> r == Some(t),
            self is Status ==> r is None,
    {
        match self {
            Message::Trade(t) => Some(t),
            Message::Status(_) => None,
        }
    }
}

} // verus!
