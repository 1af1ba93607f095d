//! Window keys, bars, and the per-key reduction.
//!
//! A window key names one `(symbol, window_start)` group.  An occurrence is
//! one live instance of a trade at a key, tagged with its insertion time
//! (for retention) and an arrival number (the event-time tie-break).  The
//! reducer [`compute_bar`] folds the current occurrence multiset of one key
//! into a [`Bar`]; it is a deterministic function of that multiset.

use vstd::prelude::*;

use crate::decimal::{
    Decimal, MAX_SCALE, lemma_add_val, lemma_mul_val, pow10, spec_add, spec_mul,
};
use crate::errors::EngineError;
use crate::trade::{TradeRecord, TradeView};

verus! {

/// Grouping key of the aggregation: a symbol and the start of a window.
#[derive(Debug)]
pub struct WindowKey {
    pub symbol: String,
    pub window_start_ms: u64,
}

impl View for WindowKey {
    type V = (Seq<char>, u64);

    open spec fn view(&self) -> (Seq<char>, u64) {
        (self.symbol@, self.window_start_ms)
    }
}

impl WindowKey {
    /// An identical copy of the key.
    pub fn duplicate(&self) -> (r: WindowKey)
        ensures
            r@ == self@,
    {
        WindowKey { symbol: self.symbol.clone(), window_start_ms: self.window_start_ms }
    }

    /// Structural equality of two keys.
    pub fn same_key(&self, other: &WindowKey) -> (r: bool)
        ensures
            r == (self@ == other@),
    {
        let symbols_equal: bool = self.symbol == other.symbol;
        symbols_equal && self.window_start_ms == other.window_start_ms
    }
}

/// One live instance of a trade at a key.
pub struct Occurrence {
    pub trade: TradeRecord,
    /// Input frontier at the moment the trade entered the dataflow; the
    /// retention clock runs from here.
    pub insert_time_ms: u64,
    /// Arrival number: total order of ingestion, the tie-break for
    /// open/close.
    pub arrival: u64,
}

/// Ghost image of an occurrence.
pub struct OccView {
    pub trade: TradeView,
    pub insert_time_ms: u64,
    pub arrival: u64,
}

impl View for Occurrence {
    type V = OccView;

    open spec fn view(&self) -> OccView {
        OccView { trade: self.trade@, insert_time_ms: self.insert_time_ms, arrival: self.arrival }
    }
}

impl Occurrence {
    /// An identical copy of the occurrence.
    pub fn duplicate(&self) -> (r: Occurrence)
        ensures
            r@ == self@,
    {
        Occurrence {
            trade: self.trade.duplicate(),
            insert_time_ms: self.insert_time_ms,
            arrival: self.arrival,
        }
    }
}

/// The ghost image of a stored occurrence sequence.
pub open spec fn views_of(s: Seq<Occurrence>) -> Seq<OccView> {
    s.map_values(|o: Occurrence| o@)
}

/// All trades of the sequence are well-formed.
pub open spec fn occs_wf(s: Seq<OccView>) -> bool {
    forall|i: int| 0 <= i < s.len() ==> (#[trigger] s[i]).trade.wf()
}

/// Sum of the volumes over the integers (units of `10^-MAX_SCALE`).
pub open spec fn volume_vals(s: Seq<OccView>) -> int
    decreases s.len(),
{
    if s.len() == 0 {
        0
    } else {
        volume_vals(s.drop_last()) + s.last().trade.volume.val()
    }
}

/// Sum of `price * volume` over the integers (units of `10^-2*MAX_SCALE`).
pub open spec fn value_vals(s: Seq<OccView>) -> int
    decreases s.len(),
{
    if s.len() == 0 {
        0
    } else {
        value_vals(s.drop_last()) + s.last().trade.price.val() * s.last().trade.volume.val()
    }
}

/// Exact decimal fold of the volumes; `None` once a partial sum leaves the
/// representable range.
pub open spec fn volume_sum_dec(s: Seq<OccView>) -> Option<Decimal>
    decreases s.len(),
{
    if s.len() == 0 {
        Some(Decimal { mantissa: 0i128, scale: 0u32 })
    } else {
        match volume_sum_dec(s.drop_last()) {
            Some(acc) => spec_add(acc, s.last().trade.volume),
            None => None,
        }
    }
}

/// Exact decimal fold of `price * volume`; `None` once a product or a
/// partial sum leaves the representable range.
pub open spec fn value_sum_dec(s: Seq<OccView>) -> Option<Decimal>
    decreases s.len(),
{
    if s.len() == 0 {
        Some(Decimal { mantissa: 0i128, scale: 0u32 })
    } else {
        match (value_sum_dec(s.drop_last()), spec_mul(s.last().trade.price, s.last().trade.volume)) {
            (Some(acc), Some(prod)) => spec_add(acc, prod),
            _ => None,
        }
    }
}

/// Smallest price value in the (non-empty) sequence.
pub open spec fn min_price_val(s: Seq<OccView>) -> int
    recommends
        s.len() > 0,
    decreases s.len(),
{
    if s.len() <= 1 {
        s[0].trade.price.val()
    } else {
        let rest: int = min_price_val(s.drop_last());
        if s.last().trade.price.val() < rest {
            s.last().trade.price.val()
        } else {
            rest
        }
    }
}

/// Largest price value in the (non-empty) sequence.
pub open spec fn max_price_val(s: Seq<OccView>) -> int
    recommends
        s.len() > 0,
    decreases s.len(),
{
    if s.len() <= 1 {
        s[0].trade.price.val()
    } else {
        let rest: int = max_price_val(s.drop_last());
        if s.last().trade.price.val() > rest {
            s.last().trade.price.val()
        } else {
            rest
        }
    }
}

/// Event-time order with the arrival number as the tie-break: `a` strictly
/// before `b`.
pub open spec fn occ_earlier(a: OccView, b: OccView) -> bool {
    ||| a.trade.event_time_ms < b.trade.event_time_ms
    ||| (a.trade.event_time_ms == b.trade.event_time_ms && a.arrival < b.arrival)
}

/// The earliest occurrence: the trade whose price opens the bar.
pub open spec fn open_occ(s: Seq<OccView>) -> OccView
    recommends
        s.len() > 0,
    decreases s.len(),
{
    if s.len() <= 1 {
        s[0]
    } else {
        let rest = open_occ(s.drop_last());
        if occ_earlier(s.last(), rest) {
            s.last()
        } else {
            rest
        }
    }
}

/// The latest occurrence: the trade whose price closes the bar.
pub open spec fn close_occ(s: Seq<OccView>) -> OccView
    recommends
        s.len() > 0,
    decreases s.len(),
{
    if s.len() <= 1 {
        s[0]
    } else {
        let rest = close_occ(s.drop_last());
        if occ_earlier(rest, s.last()) {
            s.last()
        } else {
            rest
        }
    }
}

/// Summary of the current trades of one key.
#[derive(Clone, Copy, Debug, PartialEq, Eq, Structural)]
pub struct Bar {
    pub open: Decimal,
    pub high: Decimal,
    pub low: Decimal,
    pub close: Decimal,
    /// `sum(price * volume)` over the present trades.
    pub value_sum: Decimal,
    /// `sum(volume)` over the present trades.
    pub volume_sum: Decimal,
    /// Count of present trades (signed: it rides on multiplicities).
    pub trade_count: i64,
    /// Frontier at the moment the bar was derived.
    pub last_update_ms: u64,
}

impl Bar {
    /// Internal consistency of a bar derived from at least one trade.
    /// The volume sum is strictly positive (every trade carries a positive
    /// volume, which is what protects the VWAP divisor); the value sum is
    /// only non-negative, since a price of zero is admitted.
    pub open spec fn wf(self) -> bool {
        &&& self.open.inv()
        &&& self.high.inv()
        &&& self.low.inv()
        &&& self.close.inv()
        &&& self.value_sum.inv()
        &&& self.volume_sum.inv()
        &&& self.trade_count >= 1
        &&& self.low.val() <= self.open.val() <= self.high.val()
        &&& self.low.val() <= self.close.val() <= self.high.val()
        &&& self.volume_sum.val() > 0
        &&& self.value_sum.val() >= 0
    }
}

/// A representable volume fold carries the integer sum of the volumes.
pub proof fn lemma_volume_sum_val(s: Seq<OccView>)
    requires
        occs_wf(s),
    ensures
        volume_sum_dec(s) matches Some(d) ==> d.inv() && d.val() == volume_vals(s),
    decreases s.len(),
{
    if s.len() > 0 && volume_sum_dec(s) is Some {
        lemma_volume_sum_val(s.drop_last());
        lemma_add_val(volume_sum_dec(s.drop_last())->Some_0, s.last().trade.volume);
    }
}

/// A representable value fold carries the integer sum of the products
/// `price * volume` (at the squared unit).
pub proof fn lemma_value_sum_val(s: Seq<OccView>)
    requires
        occs_wf(s),
    ensures
        value_sum_dec(s) matches Some(d) ==> d.inv() && d.val() * pow10(MAX_SCALE as nat)
            == value_vals(s),
    decreases s.len(),
{
    if s.len() > 0 && value_sum_dec(s) is Some {
        lemma_value_sum_val(s.drop_last());
        let acc = value_sum_dec(s.drop_last())->Some_0;
        let prod = spec_mul(s.last().trade.price, s.last().trade.volume)->Some_0;
        lemma_mul_val(s.last().trade.price, s.last().trade.volume);
        lemma_add_val(acc, prod);
        let p: int = pow10(MAX_SCALE as nat);
        assert((acc.val() + prod.val()) * p == acc.val() * p + prod.val() * p)
            by (nonlinear_arith);
    }
}

/// Once the volume fold of a prefix has left the range, so has the whole
/// fold.
pub proof fn lemma_volume_none_extends(s: Seq<OccView>, i: int)
    requires
        0 <= i <= s.len(),
        volume_sum_dec(s.subrange(0, i)) is None,
    ensures
        volume_sum_dec(s) is None,
    decreases s.len() - i,
{
    if i == s.len() {
        assert(s.subrange(0, i) =~= s);
    } else {
        assert(s.subrange(0, i + 1).drop_last() =~= s.subrange(0, i));
        lemma_volume_none_extends(s, i + 1);
    }
}

/// Once the value fold of a prefix has left the range, so has the whole
/// fold.
pub proof fn lemma_value_none_extends(s: Seq<OccView>, i: int)
    requires
        0 <= i <= s.len(),
        value_sum_dec(s.subrange(0, i)) is None,
    ensures
        value_sum_dec(s) is None,
    decreases s.len() - i,
{
    if i == s.len() {
        assert(s.subrange(0, i) =~= s);
    } else {
        assert(s.subrange(0, i + 1).drop_last() =~= s.subrange(0, i));
        lemma_value_none_extends(s, i + 1);
    }
}

/// Every price of the sequence lies between the extremes.
pub proof fn lemma_price_extremes(s: Seq<OccView>, i: int)
    requires
        0 <= i < s.len(),
    ensures
        min_price_val(s) <= s[i].trade.price.val() <= max_price_val(s),
    decreases s.len(),
{
    if s.len() > 1 {
        if i < s.len() - 1 {
            lemma_price_extremes(s.drop_last(), i);
        }
    }
}

/// The opening occurrence is a member of the sequence.
pub proof fn lemma_open_occ_in(s: Seq<OccView>)
    requires
        s.len() > 0,
    ensures
        exists|i: int| 0 <= i < s.len() && s[i] == open_occ(s),
    decreases s.len(),
{
    if s.len() == 1 {
        assert(s[0] == open_occ(s));
    } else {
        lemma_open_occ_in(s.drop_last());
        if occ_earlier(s.last(), open_occ(s.drop_last())) {
            assert(s[s.len() - 1] == open_occ(s));
        } else {
            let j = choose|j: int|
                0 <= j < s.drop_last().len() && s.drop_last()[j] == open_occ(s.drop_last());
            assert(s.drop_last()[j] == s[j]);
            assert(s[j] == open_occ(s));
        }
    }
}

/// The closing occurrence is a member of the sequence.
pub proof fn lemma_close_occ_in(s: Seq<OccView>)
    requires
        s.len() > 0,
    ensures
        exists|i: int| 0 <= i < s.len() && s[i] == close_occ(s),
    decreases s.len(),
{
    if s.len() == 1 {
        assert(s[0] == close_occ(s));
    } else {
        lemma_close_occ_in(s.drop_last());
        if occ_earlier(close_occ(s.drop_last()), s.last()) {
            assert(s[s.len() - 1] == close_occ(s));
        } else {
            let j = choose|j: int|
                0 <= j < s.drop_last().len() && s.drop_last()[j] == close_occ(s.drop_last());
            assert(s.drop_last()[j] == s[j]);
            assert(s[j] == close_occ(s));
        }
    }
}

/// With every volume strictly positive, the volume sum is strictly
/// positive, and the value sum is non-negative.
pub proof fn lemma_sums_positive(s: Seq<OccView>)
    requires
        occs_wf(s),
        s.len() > 0,
    ensures
        volume_vals(s) > 0,
        value_vals(s) >= 0,
    decreases s.len(),
{
    let last = s.last();
    assert(last == s[s.len() - 1]);
    assert(s[s.len() - 1].trade.wf());
    assert(last.trade.price.val() * last.trade.volume.val() >= 0) by (nonlinear_arith)
        requires
            last.trade.price.val() >= 0,
            last.trade.volume.val() > 0,
    ;
    if s.len() > 1 {
        assert forall|i: int| 0 <= i < s.drop_last().len() implies (#[trigger] s.drop_last()[i]).trade.wf() by {
            assert(s.drop_last()[i] == s[i]);
            assert(s[i].trade.wf());
        }
        lemma_sums_positive(s.drop_last());
    }
}

/// The bar is exactly the reduction of the occurrence sequence: count,
/// conserved sums, extremes, and the event-time-ordered open/close.
pub open spec fn bar_matches(s: Seq<OccView>, b: Bar) -> bool
    recommends
        s.len() > 0,
{
    &&& b.trade_count == s.len()
    &&& volume_sum_dec(s) == Some(b.volume_sum)
    &&& value_sum_dec(s) == Some(b.value_sum)
    &&& b.volume_sum.val() == volume_vals(s)
    &&& b.value_sum.val() * pow10(MAX_SCALE as nat) == value_vals(s)
    &&& b.low.val() == min_price_val(s)
    &&& b.high.val() == max_price_val(s)
    &&& b.open == open_occ(s).trade.price
    &&& b.close == close_occ(s).trade.price
}


/// The reduction of this occurrence sequence leaves the representable
/// range (the engine's fatal overflow condition).
pub open spec fn reduce_fails(s: Seq<OccView>) -> bool {
    ||| volume_sum_dec(s) is None
    ||| value_sum_dec(s) is None
    ||| s.len() > i64::MAX
}

/// Fold the current occurrences of one key into its bar.
///
/// The reduction is a deterministic function of the occurrence multiset:
/// count, conserved volume and value sums, price extremes, and the
/// event-time-ordered open and close.  `Err(Overflow)` exactly when a
/// decimal fold leaves the representable range or the count leaves `i64`;
/// the engine treats that as fatal.
pub fn compute_bar(occs: &Vec<Occurrence>, last_update_ms: u64) -> (r: Result<
    Bar,
    EngineError,
>)
    requires
        occs@.len() >= 1,
        occs_wf(views_of(occs@)),
    ensures
        r matches Ok(b) ==> bar_matches(views_of(occs@), b) && b.wf() && b.last_update_ms
            == last_update_ms,
        r is Err <==> reduce_fails(views_of(occs@)),
        r matches Err(e) ==> e == EngineError::Overflow,
{
    let ghost s: Seq<OccView> = views_of(occs@);
    proof {
        assert(s.len() == occs@.len());
        assert(forall|k: int| 0 <= k < s.len() ==> #[trigger] s[k] == occs@[k]@);
    }
    if occs.len() as u64 > i64::MAX as u64 {
        return Err(EngineError::Overflow);
    }
    let first = &occs[0];
    let mut low: Decimal = first.trade.price;
    let mut high: Decimal = first.trade.price;
    let mut open_px: Decimal = first.trade.price;
    let mut open_t: u64 = first.trade.event_time_ms;
    let mut open_arr: u64 = first.arrival;
    let mut close_px: Decimal = first.trade.price;
    let mut close_t: u64 = first.trade.event_time_ms;
    let mut close_arr: u64 = first.arrival;
    let mut vol_acc: Decimal = first.trade.volume;
    proof {
        assert(s[0].trade.wf());
        let e: Seq<OccView> = Seq::empty();
        assert(s.subrange(0, 1).len() == 1);
        assert(s.subrange(0, 1)[0] == s[0]);
        assert(s.subrange(0, 1).last() == s[0]);
        assert(s.subrange(0, 1).drop_last() =~= e);
        assert(volume_sum_dec(e) == Some(Decimal { mantissa: 0i128, scale: 0u32 }));
        assert(value_sum_dec(e) == Some(Decimal { mantissa: 0i128, scale: 0u32 }));
        crate::decimal::lemma_zero_add_identity(s[0].trade.volume);
        assert(volume_sum_dec(s.subrange(0, 1)) == Some(s[0].trade.volume));
    }
    let val_acc0: Option<Decimal> = first.trade.price.mul(first.trade.volume);
    let mut val_acc: Decimal;
    match val_acc0 {
        Some(p0) => {
            proof {
                lemma_mul_val(s[0].trade.price, s[0].trade.volume);
                crate::decimal::lemma_zero_add_identity(p0);
                assert(value_sum_dec(s.subrange(0, 1)) == Some(p0));
            }
            val_acc = p0;
        },
        None => {
            proof {
                assert(value_sum_dec(s.subrange(0, 1)) is None);
                lemma_value_none_extends(s, 1);
            }
            return Err(EngineError::Overflow);
        },
    }
    let mut i: usize = 1;
    while i < occs.len()
        invariant
            1 <= i <= s.len(),
            s == views_of(occs@),
            s.len() == occs@.len(),
            s.len() <= i64::MAX,
            forall|k: int| 0 <= k < s.len() ==> #[trigger] s[k] == occs@[k]@,
            occs_wf(s),
            low.inv(),
            high.inv(),
            vol_acc.inv(),
            val_acc.inv(),
            low.val() == min_price_val(s.subrange(0, i as int)),
            high.val() == max_price_val(s.subrange(0, i as int)),
            open_px == open_occ(s.subrange(0, i as int)).trade.price,
            open_t == open_occ(s.subrange(0, i as int)).trade.event_time_ms,
            open_arr == open_occ(s.subrange(0, i as int)).arrival,
            close_px == close_occ(s.subrange(0, i as int)).trade.price,
            close_t == close_occ(s.subrange(0, i as int)).trade.event_time_ms,
            close_arr == close_occ(s.subrange(0, i as int)).arrival,
            volume_sum_dec(s.subrange(0, i as int)) == Some(vol_acc),
            value_sum_dec(s.subrange(0, i as int)) == Some(val_acc),
        decreases s.len() - i,
    {
        let o = &occs[i];
        proof {
            assert(s[i as int] == occs@[i as int]@);
            assert(s[i as int].trade == o.trade@);
            assert(s[i as int].trade.price == o.trade.price);
            assert(s[i as int].trade.volume == o.trade.volume);
            assert(s[i as int].trade.wf());
            assert(s.subrange(0, i as int + 1).drop_last() =~= s.subrange(0, i as int));
            assert(s.subrange(0, i as int + 1).last() == s[i as int]);
        }
        match vol_acc.add(o.trade.volume) {
            Some(n) => {
                vol_acc = n;
            },
            None => {
                proof {
                    lemma_volume_none_extends(s, i as int + 1);
                }
                return Err(EngineError::Overflow);
            },
        }
        match o.trade.price.mul(o.trade.volume) {
            Some(prod) => {
                match val_acc.add(prod) {
                    Some(n) => {
                        val_acc = n;
                    },
                    None => {
                        proof {
                            lemma_value_none_extends(s, i as int + 1);
                        }
                        return Err(EngineError::Overflow);
                    },
                }
            },
            None => {
                proof {
                    lemma_value_none_extends(s, i as int + 1);
                }
                return Err(EngineError::Overflow);
            },
        }
        if o.trade.price.lt(low) {
            low = o.trade.price;
        }
        if high.lt(o.trade.price) {
            high = o.trade.price;
        }
        if o.trade.event_time_ms < open_t || (o.trade.event_time_ms == open_t && o.arrival
            < open_arr) {
            open_px = o.trade.price;
            open_t = o.trade.event_time_ms;
            open_arr = o.arrival;
        }
        if o.trade.event_time_ms > close_t || (o.trade.event_time_ms == close_t && o.arrival
            > close_arr) {
            close_px = o.trade.price;
            close_t = o.trade.event_time_ms;
            close_arr = o.arrival;
        }
        i = i + 1;
    }
    proof {
        assert(s.subrange(0, s.len() as int) =~= s);
    }
    let b = Bar {
        open: open_px,
        high,
        low,
        close: close_px,
        value_sum: val_acc,
        volume_sum: vol_acc,
        trade_count: occs.len() as i64,
        last_update_ms,
    };
    proof {
        lemma_volume_sum_val(s);
        lemma_value_sum_val(s);
        lemma_sums_positive(s);
        lemma_open_occ_in(s);
        let oi = choose|k: int| 0 <= k < s.len() && s[k] == open_occ(s);
        lemma_price_extremes(s, oi);
        assert(s[oi].trade.wf());
        lemma_close_occ_in(s);
        let ci = choose|k: int| 0 <= k < s.len() && s[k] == close_occ(s);
        lemma_price_extremes(s, ci);
        assert(s[ci].trade.wf());
        let p: int = pow10(MAX_SCALE as nat);
        crate::decimal::lemma_pow10_pos(MAX_SCALE as nat);
        assert(val_acc.val() >= 0) by (nonlinear_arith)
            requires
                val_acc.val() * p >= 0,
                p >= 1,
        ;
    }
    Ok(b)
}

} // verus!
