//! Sliding per-symbol trade-bar aggregation.
//!
//! The crate maintains, per `(symbol, window)` key, a multiset of live
//! trades under insert/retract semantics, derives OHLC / volume / value /
//! count summaries ("bars"), retracts trades that age past a retention
//! horizon, and holds finished bars back in an emission gate until their
//! window has closed.

pub mod config;
pub mod control;
pub mod decimal;
pub mod engine;
pub mod errors;
pub mod gate;
pub mod queue;
pub mod trade;
pub mod window;
pub mod ws;

use vstd::prelude::*;

verus! {

/// Start of the window that holds an event time: event times are bucketed
/// into half-open intervals `[k * bar_len, (k + 1) * bar_len)`.
pub open spec fn spec_window_start(t_ms: int, bar_len_ms: int) -> int
    recommends
        bar_len_ms > 0,
{
    (t_ms / bar_len_ms) * bar_len_ms
}

/// Truncate an event time (milliseconds) to the start of its window.
pub fn window_start_ms(t_ms: u64, bar_len_ms: u64) -> (r: u64)
    requires
        bar_len_ms > 0,
    ensures
        r == spec_window_start(t_ms as int, bar_len_ms as int),
        r <= t_ms,
        t_ms - r < bar_len_ms,
{
    proof {
        vstd::arithmetic::div_mod::lemma_fundamental_div_mod(t_ms as int, bar_len_ms as int);
        vstd::arithmetic::div_mod::lemma_mod_bound(t_ms as int, bar_len_ms as int);
        vstd::arithmetic::mul::lemma_mul_is_commutative(
            t_ms as int / bar_len_ms as int,
            bar_len_ms as int,
        );
    }
    (t_ms / bar_len_ms) * bar_len_ms
}

} // verus!
