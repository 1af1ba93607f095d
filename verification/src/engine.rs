//! The incremental aggregation engine.
//!
//! The engine owns, per `(symbol, window)` key, the multiset of live trade
//! occurrences, under insert/retract semantics.  Inserting a trade appends
//! an occurrence stamped with the current input frontier and an arrival
//! number; retracting removes one matching occurrence; advancing the
//! frontier retracts every occurrence that has outlived the retention
//! horizon (the feedback edge of the dataflow).  Each change to a key's
//! multiset re-reduces that key and is reported as an [`Update`] carrying
//! the fresh [`Bar`] (or a withdrawal when the key emptied), for the
//! emission gate downstream.

use vstd::prelude::*;
use vstd::multiset::Multiset;

use crate::config::Config;
use crate::errors::EngineError;
use crate::spec_window_start;
use crate::trade::{TradeRecord, TradeView};
use crate::window::{
    Bar, Occurrence, OccView, WindowKey, bar_matches, compute_bar, occs_wf, reduce_fails,
    value_sum_dec, views_of, volume_sum_dec,
};

verus! {

/// Ghost form of a window key: the symbol's characters and the window
/// start.
pub type KeyV = (Seq<char>, u64);

/// The key a trade belongs to under a given window length.
pub open spec fn spec_key_of(t: TradeView, bar_length_ms: u64) -> KeyV
    recommends
        bar_length_ms >= 1,
{
    (t.symbol, spec_window_start(t.event_time_ms as int, bar_length_ms as int) as u64)
}

/// One key of the store with its live occurrences.
pub struct Entry {
    pub key: WindowKey,
    pub occs: Vec<Occurrence>,
}

/// One change the engine signals downstream: at `logical_time_ms`, the
/// key's summary became `bar` (positive `diff`), or was withdrawn because
/// its multiset emptied (`diff <= 0`, no bar).
pub struct Update {
    pub key: WindowKey,
    pub bar: Option<Bar>,
    pub logical_time_ms: u64,
    pub diff: i64,
}

/// An occurrence is still live at frontier `f` when it has not outlived
/// the retention horizon counted from its insertion.
pub open spec fn live_at(o: OccView, frontier_ms: u64, horizon_ms: int) -> bool {
    frontier_ms - o.insert_time_ms < horizon_ms
}

/// What retention leaves of an occurrence sequence at frontier `f`: the
/// live occurrences, in their original order.
pub open spec fn evict_views(s: Seq<OccView>, frontier_ms: u64, horizon_ms: int) -> Seq<OccView>
    decreases s.len(),
{
    if s.len() == 0 {
        s
    } else {
        let rest = evict_views(s.drop_last(), frontier_ms, horizon_ms);
        if live_at(s.last(), frontier_ms, horizon_ms) {
            rest.push(s.last())
        } else {
            rest
        }
    }
}

/// Eviction never grows a sequence.
pub proof fn lemma_evict_len(s: Seq<OccView>, f: u64, h: int)
    ensures
        evict_views(s, f, h).len() <= s.len(),
    decreases s.len(),
{
    if s.len() > 0 {
        lemma_evict_len(s.drop_last(), f, h);
    }
}

/// An eviction that kept every element left the sequence unchanged.
pub proof fn lemma_evict_full(s: Seq<OccView>, f: u64, h: int)
    requires
        evict_views(s, f, h).len() == s.len(),
    ensures
        evict_views(s, f, h) == s,
    decreases s.len(),
{
    if s.len() > 0 {
        lemma_evict_len(s.drop_last(), f, h);
        if live_at(s.last(), f, h) {
            lemma_evict_full(s.drop_last(), f, h);
            assert(evict_views(s, f, h) =~= s);
        }
    }
}

/// Every survivor of an eviction is one of the original occurrences.
pub proof fn lemma_evict_member(s: Seq<OccView>, f: u64, h: int, x: int)
    requires
        0 <= x < evict_views(s, f, h).len(),
    ensures
        exists|j: int| 0 <= j < s.len() && s[j] == evict_views(s, f, h)[x],
        live_at(evict_views(s, f, h)[x], f, h),
    decreases s.len(),
{
    if s.len() > 0 {
        let rest = evict_views(s.drop_last(), f, h);
        if live_at(s.last(), f, h) && x == rest.len() {
            assert(s[s.len() - 1] == evict_views(s, f, h)[x]);
        } else {
            lemma_evict_member(s.drop_last(), f, h, x);
            let j = choose|j: int|
                0 <= j < s.drop_last().len() && s.drop_last()[j] == evict_views(
                    s.drop_last(),
                    f,
                    h,
                )[x];
            assert(s[j] == evict_views(s, f, h)[x]);
        }
    }
}

/// The incremental aggregation engine (see the module note).
pub struct Engine {
    pub config: Config,
    /// Input frontier: monotone logical time, driven by the wall clock.
    pub frontier_ms: u64,
    /// Next arrival number to hand out.
    pub next_arrival: u64,
    /// Keyed store of live occurrences.
    pub store: Vec<Entry>,
}

/// Every occurrence of the entry is well-formed, belongs to the entry's
/// key, and sits inside the retention horizon; arrivals rise strictly.
pub open spec fn entry_inv(e: Entry, config: Config, frontier_ms: u64, next_arrival: u64) -> bool {
    &&& forall|j: int|
        0 <= j < e.occs@.len() ==> {
            let o = (#[trigger] e.occs@[j])@;
            &&& o.trade.wf()
            &&& o.trade.symbol == e.key@.0
            &&& e.key@.1 == spec_window_start(
                o.trade.event_time_ms as int,
                config.bar_length_ms as int,
            )
            &&& o.insert_time_ms <= frontier_ms
            &&& frontier_ms - o.insert_time_ms < config.horizon_ms()
            &&& o.arrival < next_arrival
        }
    &&& forall|j1: int, j2: int|
        0 <= j1 < j2 < e.occs@.len() ==> e.occs@[j1].arrival < e.occs@[j2].arrival
}

impl Engine {
    /// The invariant of entry `i` (see [`entry_inv`]).
    pub open spec fn entry_wf(self, i: int) -> bool
        recommends
            0 <= i < self.store@.len(),
    {
        entry_inv(self.store@[i], self.config, self.frontier_ms, self.next_arrival)
    }

    /// Engine invariant: a usable configuration, well-formed entries, and
    /// pairwise distinct keys.
    pub open spec fn wf(self) -> bool {
        &&& self.config.wf()
        &&& forall|i: int| 0 <= i < self.store@.len() ==> #[trigger] self.entry_wf(i)
        &&& forall|i1: int, i2: int|
            0 <= i1 < i2 < self.store@.len() ==> self.store@[i1].key@ != self.store@[i2].key@
    }

    /// Whether some entry carries the key.
    pub open spec fn has_key(self, k: KeyV) -> bool {
        exists|i: int| 0 <= i < self.store@.len() && self.store@[i].key@ == k
    }

    /// Index of the entry carrying the key (unique under `wf`).
    pub open spec fn key_at(self, k: KeyV) -> int {
        choose|i: int| 0 <= i < self.store@.len() && self.store@[i].key@ == k
    }

    /// The current occurrence sequence of a key; empty when the key holds
    /// no state.
    pub open spec fn occs_at(self, k: KeyV) -> Seq<OccView> {
        if self.has_key(k) {
            views_of(self.store@[self.key_at(k)].occs@)
        } else {
            Seq::empty()
        }
    }

    /// The key a trade falls into under this engine's window length.
    pub open spec fn insert_key(self, t: TradeView) -> KeyV {
        spec_key_of(t, self.config.bar_length_ms)
    }

    /// The occurrence an insertion at the current state would create.
    pub open spec fn inserted_view(self, t: TradeView) -> OccView {
        OccView { trade: t, insert_time_ms: self.frontier_ms, arrival: self.next_arrival }
    }
}

/// An entry holding the key pins down `key_at` and `occs_at`.
proof fn lemma_key_at_unique(e: Engine, k: KeyV, i: int)
    requires
        e.wf(),
        0 <= i < e.store@.len(),
        e.store@[i].key@ == k,
    ensures
        e.has_key(k),
        e.key_at(k) == i,
        e.occs_at(k) == views_of(e.store@[i].occs@),
{
    assert(e.has_key(k));
    let c = e.key_at(k);
    if c != i {
        if c < i {
            assert(e.store@[c].key@ != e.store@[i].key@);
        } else {
            assert(e.store@[i].key@ != e.store@[c].key@);
        }
    }
}

impl Engine {
    /// Build an engine.  The configuration is refused (`BadConfig`)
    /// exactly when the window length is zero — that would make a feedback
    /// summary of zero — or the retention horizon does not fit the clock.
    pub fn new(config: Config) -> (r: Result<Engine, EngineError>)
        ensures
            r is Ok <==> config.wf(),
            r matches Ok(e) ==> e.wf() && e.config == config && e.frontier_ms == 0
                && e.next_arrival == 0 && e.store@.len() == 0 && (forall|k: KeyV|
                e.occs_at(k) == Seq::<OccView>::empty()),
            r matches Err(err) ==> err == EngineError::BadConfig,
    {
        if config.bar_length_ms >= 1 && config.retention_ms <= u64::MAX - config.bar_length_ms {
            let e = Engine { config, frontier_ms: 0, next_arrival: 0, store: Vec::new() };
            proof {
                assert(forall|k: KeyV| !e.has_key(k));
            }
            Ok(e)
        } else {
            Err(EngineError::BadConfig)
        }
    }

    /// Number of keys currently holding state.
    pub fn key_count(&self) -> (r: usize)
        ensures
            r == self.store@.len(),
    {
        self.store.len()
    }

    /// Index of the entry carrying `key`, if any.
    fn find_key(&self, key: &WindowKey) -> (r: Option<usize>)
        requires
            self.wf(),
        ensures
            r matches Some(i) ==> i < self.store@.len() && self.store@[i as int].key@ == key@
                && self.has_key(key@) && self.key_at(key@) == i,
            r is None ==> !self.has_key(key@),
    {
        let mut i: usize = 0;
        while i < self.store.len()
            invariant
                self.wf(),
                0 <= i <= self.store@.len(),
                forall|j: int| 0 <= j < i ==> self.store@[j].key@ != key@,
            decreases self.store@.len() - i,
        {
            if self.store[i].key.same_key(key) {
                proof {
                    lemma_key_at_unique(*self, key@, i as int);
                }
                return Some(i);
            }
            i = i + 1;
        }
        None
    }

    /// Insert one trade at the current frontier.
    ///
    /// The trade's occurrence joins its `(symbol, window)` key with
    /// multiplicity `+1`, and the update carries the key's freshly reduced
    /// bar.  `Err(Overflow)` — fatal — exactly when the reduction of the
    /// grown multiset leaves the representable range; the state is then
    /// unchanged.
    pub fn insert(&mut self, trade: TradeRecord) -> (r: Result<Update, EngineError>)
        requires
            old(self).wf(),
            trade@.wf(),
            old(self).next_arrival < u64::MAX,
        ensures
            final(self).wf(),
            final(self).config == old(self).config,
            final(self).frontier_ms == old(self).frontier_ms,
            r matches Ok(u) ==> ({
                let k = old(self).insert_key(trade@);
                let occv = old(self).inserted_view(trade@);
                &&& final(self).next_arrival == old(self).next_arrival + 1
                &&& u.key@ == k
                &&& u.diff == 1i64
                &&& u.logical_time_ms == old(self).frontier_ms
                &&& final(self).occs_at(k) == old(self).occs_at(k).push(occv)
                &&& (forall|k2: KeyV| k2 != k ==> final(self).occs_at(k2) == old(self).occs_at(k2))
                &&& u.bar matches Some(b) && bar_matches(final(self).occs_at(k), b) && b.wf()
                    && b.last_update_ms == old(self).frontier_ms
            }),
            r is Err <==> reduce_fails(
                old(self).occs_at(old(self).insert_key(trade@)).push(
                    old(self).inserted_view(trade@),
                ),
            ),
            r matches Err(e) ==> e == EngineError::Overflow && final(self).next_arrival == old(
                self,
            ).next_arrival && (forall|k2: KeyV| final(self).occs_at(k2) == old(self).occs_at(k2)),
    {
        let ghost k: KeyV = old(self).insert_key(trade@);
        let ghost occv: OccView = old(self).inserted_view(trade@);
        let ws: u64 = crate::window_start_ms(trade.event_time_ms, self.config.bar_length_ms);
        let key = WindowKey { symbol: trade.symbol.clone(), window_start_ms: ws };
        proof {
            assert(key@ == k);
        }
        let occ = Occurrence {
            trade,
            insert_time_ms: self.frontier_ms,
            arrival: self.next_arrival,
        };
        proof {
            assert(occ@ == occv);
        }
        match self.find_key(&key) {
            Some(i) => {
                proof {
                    assert(old(self).occs_at(k) == views_of(self.store@[i as int].occs@));
                    assert(self.entry_wf(i as int));
                }
                let ghost old_occs: Seq<Occurrence> = self.store@[i as int].occs@;
                self.store[i].occs.push(occ);
                proof {
                    assert(self.store@[i as int].occs@ == old_occs.push(occ));
                    assert(views_of(old_occs.push(occ)) =~= views_of(old_occs).push(occv));
                    assert(occs_wf(views_of(self.store@[i as int].occs@)));
                }
                match compute_bar(&self.store[i].occs, self.frontier_ms) {
                    Ok(bar) => {
                        self.next_arrival = self.next_arrival + 1;
                        proof {
                            assert forall|j: int|
                                0 <= j < self.store@.len() implies #[trigger] self.entry_wf(
                                j,
                            ) by {
                                assert(old(self).entry_wf(j));
                            }
                            lemma_key_at_unique(*self, k, i as int);
                            assert forall|k2: KeyV| k2 != k implies self.occs_at(k2) == old(
                                self,
                            ).occs_at(k2) by {
                                lemma_unchanged_key(*old(self), *self, k2);
                            }
                        }
                        Ok(Update { key, bar: Some(bar), logical_time_ms: self.frontier_ms, diff: 1 })
                    },
                    Err(_) => {
                        let ghost pushed: Seq<Occurrence> = self.store@[i as int].occs@;
                        let _dropped = self.store[i].occs.pop();
                        proof {
                            assert(self.store@[i as int].occs@ =~= old_occs);
                            assert(views_of(self.store@[i as int].occs@) =~= views_of(old_occs));
                            assert forall|j: int|
                                0 <= j < self.store@.len() implies #[trigger] self.entry_wf(
                                j,
                            ) by {
                                assert(old(self).entry_wf(j));
                            }
                            lemma_key_at_unique(*self, k, i as int);
                            assert forall|k2: KeyV| self.occs_at(k2) == old(self).occs_at(
                                k2,
                            ) by {
                                if k2 != k {
                                    lemma_unchanged_key(*old(self), *self, k2);
                                }
                            }
                        }
                        Err(EngineError::Overflow)
                    },
                }
            },
            None => {
                proof {
                    assert(old(self).occs_at(k) == Seq::<OccView>::empty());
                }
                let mut occs: Vec<Occurrence> = Vec::new();
                occs.push(occ);
                proof {
                    assert(views_of(occs@) =~= Seq::<OccView>::empty().push(occv));
                    assert(occs_wf(views_of(occs@)));
                }
                match compute_bar(&occs, self.frontier_ms) {
                    Ok(bar) => {
                        let entry = Entry { key: key.duplicate(), occs };
                        self.store.push(entry);
                        self.next_arrival = self.next_arrival + 1;
                        proof {
                            let n: int = self.store@.len() - 1;
                            assert(self.store@[n].key@ == k);
                            assert forall|j: int|
                                0 <= j < self.store@.len() implies #[trigger] self.entry_wf(
                                j,
                            ) by {
                                if j < n {
                                    assert(old(self).entry_wf(j));
                                }
                            }
                            assert forall|i1: int, i2: int|
                                0 <= i1 < i2 < self.store@.len() implies self.store@[i1].key@
                                != self.store@[i2].key@ by {
                                if i2 == n {
                                    assert(!old(self).has_key(k));
                                    assert(old(self).store@[i1].key@ != k);
                                }
                            }
                            lemma_key_at_unique(*self, k, n);
                            assert forall|k2: KeyV| k2 != k implies self.occs_at(k2) == old(
                                self,
                            ).occs_at(k2) by {
                                lemma_unchanged_key(*old(self), *self, k2);
                            }
                        }
                        Ok(Update { key, bar: Some(bar), logical_time_ms: self.frontier_ms, diff: 1 })
                    },
                    Err(_) => {
                        proof {
                            assert forall|k2: KeyV| self.occs_at(k2) == old(self).occs_at(
                                k2,
                            ) by {}
                        }
                        Err(EngineError::Overflow)
                    },
                }
            },
        }
    }
}

impl Engine {
    /// The bar a key currently reduces to: `Ok(None)` exactly when the key
    /// holds no state, otherwise the summary of its live occurrences.
    /// `Err(Overflow)` exactly when that reduction leaves the representable
    /// range.
    pub fn bar_at(&self, key: &WindowKey) -> (r: Result<Option<Bar>, EngineError>)
        requires
            self.wf(),
        ensures
            (r is Ok && r->Ok_0 is None) <==> self.occs_at(key@).len() == 0,
            r matches Ok(o) ==> (o matches Some(b) ==> bar_matches(self.occs_at(key@), b) && b.wf()
                && b.last_update_ms == self.frontier_ms),
            r is Err <==> self.occs_at(key@).len() > 0 && reduce_fails(self.occs_at(key@)),
            r matches Err(e) ==> e == EngineError::Overflow,
    {
        match self.find_key(key) {
            None => Ok(None),
            Some(i) => {
                proof {
                    assert(self.entry_wf(i as int));
                    lemma_key_at_unique(*self, key@, i as int);
                }
                if self.store[i].occs.len() == 0 {
                    Ok(None)
                } else {
                    match compute_bar(&self.store[i].occs, self.frontier_ms) {
                        Ok(b) => {
                            proof {
                                assert(self.occs_at(key@) == views_of(
                                    self.store@[i as int].occs@,
                                ));
                                assert(bar_matches(self.occs_at(key@), b));
                            }
                            Ok(Some(b))
                        },
                        Err(_) => Err(EngineError::Overflow),
                    }
                }
            },
        }
    }

    /// Retract one instance of a trade from its key: the compensating `-1`
    /// multiplicity.
    ///
    /// One matching occurrence leaves the multiset.  The update carries the
    /// key's re-reduced bar, or a withdrawal when the key emptied.
    /// `Err(MissingTrade)` — fatal, the multiplicity would go negative —
    /// exactly when no occurrence of the trade is present.  `Err(Overflow)`
    /// exactly when the shrunken multiset no longer reduces; the state is
    /// then unchanged.
    pub fn retract(&mut self, trade: &TradeRecord) -> (r: Result<Update, EngineError>)
        requires
            old(self).wf(),
            trade@.wf(),
        ensures
            final(self).wf(),
            final(self).config == old(self).config,
            final(self).frontier_ms == old(self).frontier_ms,
            final(self).next_arrival == old(self).next_arrival,
            r matches Ok(u) ==> ({
                let k = old(self).insert_key(trade@);
                let s = old(self).occs_at(k);
                &&& exists|j: int|
                    0 <= j < s.len() && (#[trigger] s[j]).trade == trade@ && final(self).occs_at(k)
                        == s.remove(j)
                &&& (forall|k2: KeyV| k2 != k ==> final(self).occs_at(k2) == old(self).occs_at(k2))
                &&& u.key@ == k
                &&& u.logical_time_ms == old(self).frontier_ms
                &&& final(self).occs_at(k).len() == s.len() - 1
                &&& (s.len() == 1 ==> u.diff == -1i64 && u.bar is None)
                &&& (s.len() > 1 ==> u.diff == 1i64 && (u.bar matches Some(b) && bar_matches(
                    final(self).occs_at(k),
                    b,
                ) && b.wf()))
            }),
            r == Result::<Update, EngineError>::Err(EngineError::MissingTrade) <==> (forall|j: int|
                0 <= j < old(self).occs_at(old(self).insert_key(trade@)).len()
                    ==> (#[trigger] old(self).occs_at(old(self).insert_key(trade@))[j]).trade
                    != trade@),
            r matches Err(e) ==> (e == EngineError::MissingTrade || e == EngineError::Overflow)
                && (forall|k2: KeyV| final(self).occs_at(k2) == old(self).occs_at(k2)),
            r == Result::<Update, EngineError>::Err(EngineError::Overflow) ==> (exists|j: int|
                0 <= j < old(self).occs_at(old(self).insert_key(trade@)).len() && (#[trigger] old(
                    self,
                ).occs_at(old(self).insert_key(trade@))[j]).trade == trade@ && reduce_fails(
                    old(self).occs_at(old(self).insert_key(trade@)).remove(j),
                )),
    {
        let ghost k: KeyV = old(self).insert_key(trade@);
        let ws: u64 = crate::window_start_ms(trade.event_time_ms, self.config.bar_length_ms);
        let key = WindowKey { symbol: trade.symbol.clone(), window_start_ms: ws };
        proof {
            assert(key@ == k);
        }
        let i: usize;
        match self.find_key(&key) {
            None => {
                return Err(EngineError::MissingTrade);
            },
            Some(found) => {
                i = found;
            },
        }
        proof {
            assert(self.entry_wf(i as int));
            assert(old(self).occs_at(k) == views_of(self.store@[i as int].occs@));
        }
        let ghost s: Seq<OccView> = old(self).occs_at(k);
        let j: usize;
        match find_match(&self.store[i].occs, trade) {
            None => {
                return Err(EngineError::MissingTrade);
            },
            Some(found) => {
                j = found;
            },
        }
        proof {
            assert(s[j as int].trade == trade@);
        }
        let ghost old_occs: Seq<Occurrence> = self.store@[i as int].occs@;
        let removed: Occurrence = self.store[i].occs.remove(j);
        proof {
            assert(self.store@[i as int].occs@ == old_occs.remove(j as int));
            assert(views_of(old_occs.remove(j as int)) =~= s.remove(j as int));
            assert forall|x: int|
                0 <= x < self.store@.len() implies #[trigger] self.entry_wf(x) by {
                assert(old(self).entry_wf(x));
            }
            lemma_key_at_unique(*self, k, i as int);
            assert forall|k2: KeyV| k2 != k implies self.occs_at(k2) == old(self).occs_at(
                k2,
            ) by {
                lemma_unchanged_key(*old(self), *self, k2);
            }
        }
        proof {
            assert(self.occs_at(k) == s.remove(j as int));
            assert(0 <= j < s.len() && s[j as int].trade == trade@ && self.occs_at(k) == s.remove(
                j as int,
            ));
        }
        if self.store[i].occs.len() == 0 {
            return Ok(Update { key, bar: None, logical_time_ms: self.frontier_ms, diff: -1 });
        }
        match compute_bar(&self.store[i].occs, self.frontier_ms) {
            Ok(bar) => Ok(Update {
                key,
                bar: Some(bar),
                logical_time_ms: self.frontier_ms,
                diff: 1,
            }),
            Err(_) => {
                self.store[i].occs.insert(j, removed);
                proof {
                    assert(self.store@[i as int].occs@ =~= old_occs);
                    assert(views_of(self.store@[i as int].occs@) =~= s);
                    assert forall|x: int|
                        0 <= x < self.store@.len() implies #[trigger] self.entry_wf(x) by {
                        assert(old(self).entry_wf(x));
                    }
                    lemma_key_at_unique(*self, k, i as int);
                    assert forall|k2: KeyV| self.occs_at(k2) == old(self).occs_at(k2) by {
                        if k2 != k {
                            lemma_unchanged_key(*old(self), *self, k2);
                        }
                    }
                }
                Err(EngineError::Overflow)
            },
        }
    }
}

/// The update correctly reports what retention did to one key: the key's
/// occurrences changed, and the update carries the re-reduced bar (`+1`)
/// or the withdrawal of an emptied key (`-1`).
pub open spec fn update_describes(u: Update, old_views: Seq<OccView>, f: u64, horizon: int) -> bool {
    let newv = evict_views(old_views, f, horizon);
    &&& u.logical_time_ms == f
    &&& newv != old_views
    &&& (u.diff == 1i64 || u.diff == -1i64)
    &&& (u.diff == 1i64 ==> newv.len() >= 1 && u.bar is Some && bar_matches(newv, u.bar->Some_0)
        && u.bar->Some_0.wf() && u.bar->Some_0.last_update_ms == f)
    &&& (u.diff == -1i64 ==> newv.len() == 0 && old_views.len() > 0 && u.bar is None)
}

/// Retention would shrink this occurrence sequence to a non-empty rest
/// whose reduction leaves the representable range.
pub open spec fn evict_reduce_fails(s: Seq<OccView>, f: u64, h: int) -> bool {
    let ev = evict_views(s, f, h);
    &&& ev != s
    &&& ev.len() > 0
    &&& reduce_fails(ev)
}

impl Engine {
    /// The frontier an advance to `now_ms` reaches: `max(frontier, now)`.
    pub open spec fn advanced_frontier(self, now_ms: u64) -> u64 {
        if now_ms > self.frontier_ms {
            now_ms
        } else {
            self.frontier_ms
        }
    }

    /// An advance to `now_ms` is doomed: some key's shrunken, still
    /// non-empty multiset no longer reduces.
    pub open spec fn advance_fails(self, now_ms: u64) -> bool {
        exists|k: KeyV|
            #![trigger self.occs_at(k)]
            evict_reduce_fails(
                self.occs_at(k),
                self.advanced_frontier(now_ms),
                self.config.horizon_ms(),
            )
    }

    /// Advance the input frontier to `max(frontier, now_ms)` and run the
    /// retention feedback: every occurrence inserted `retention +
    /// bar_length` or more before the new frontier is retracted.  One
    /// update is returned for each key whose multiset changed.
    /// `Err(Overflow)` — fatal — exactly when some shrunken key no longer
    /// reduces; the engine is then unchanged.
    pub fn advance(&mut self, now_ms: u64) -> (r: Result<Vec<Update>, EngineError>)
        requires
            old(self).wf(),
        ensures
            final(self).wf(),
            final(self).config == old(self).config,
            final(self).next_arrival == old(self).next_arrival,
            final(self).frontier_ms >= old(self).frontier_ms,
            r is Ok ==> final(self).frontier_ms == (if now_ms > old(self).frontier_ms {
                now_ms
            } else {
                old(self).frontier_ms
            }),
            r matches Ok(us) ==> (forall|k: KeyV|
                final(self).occs_at(k) == evict_views(
                    old(self).occs_at(k),
                    final(self).frontier_ms,
                    old(self).config.horizon_ms(),
                )),
            r matches Ok(us) ==> (forall|x: int|
                0 <= x < us@.len() ==> old(self).has_key((#[trigger] us@[x]).key@)
                    && update_describes(
                    us@[x],
                    old(self).occs_at(us@[x].key@),
                    final(self).frontier_ms,
                    old(self).config.horizon_ms(),
                )),
            r matches Ok(us) ==> (forall|x1: int, x2: int|
                0 <= x1 < x2 < us@.len() ==> us@[x1].key@ != us@[x2].key@),
            r matches Ok(us) ==> (forall|k: KeyV|
                old(self).occs_at(k) != evict_views(
                    old(self).occs_at(k),
                    final(self).frontier_ms,
                    old(self).config.horizon_ms(),
                ) ==> exists|x: int| 0 <= x < us@.len() && (#[trigger] us@[x].key@) == k),
            r is Err <==> old(self).advance_fails(now_ms),
            r is Err ==> *final(self) == *old(self),
            r matches Err(e) ==> e == EngineError::Overflow,
    {
        let f: u64 = if now_ms > self.frontier_ms {
            now_ms
        } else {
            self.frontier_ms
        };
        let horizon: u64 = self.config.retention_ms + self.config.bar_length_ms;
        let ghost h: int = old(self).config.horizon_ms();
        proof {
            assert(horizon == h);
        }
        let mut new_store: Vec<Entry> = Vec::new();
        let mut updates: Vec<Update> = Vec::new();
        let mut i: usize = 0;
        while i < self.store.len()
            invariant
                self == old(self),
                self.wf(),
                f >= self.frontier_ms,
                f == (if now_ms > self.frontier_ms {
                    now_ms
                } else {
                    self.frontier_ms
                }),
                horizon == h,
                h == self.config.horizon_ms(),
                0 <= i <= self.store@.len(),
                new_store@.len() == i,
                forall|x: int|
                    0 <= x < i ==> (#[trigger] new_store@[x]).key@ == self.store@[x].key@,
                forall|x: int|
                    0 <= x < i ==> views_of((#[trigger] new_store@[x]).occs@) == evict_views(
                        views_of(self.store@[x].occs@),
                        f,
                        h,
                    ),
                forall|x: int|
                    0 <= x < i ==> entry_inv(
                        #[trigger] new_store@[x],
                        self.config,
                        f,
                        self.next_arrival,
                    ),
                forall|ii: int|
                    0 <= ii < i ==> !evict_reduce_fails(
                        views_of((#[trigger] self.store@[ii]).occs@),
                        f,
                        h,
                    ),
                forall|x: int|
                    0 <= x < updates@.len() ==> exists|ii: int|
                        0 <= ii < i && (#[trigger] updates@[x]).key@ == self.store@[ii].key@,
                forall|x: int|
                    0 <= x < updates@.len() ==> update_describes(
                        #[trigger] updates@[x],
                        views_of(self.store@[self.key_at(updates@[x].key@)].occs@),
                        f,
                        h,
                    ) && self.has_key(updates@[x].key@),
                forall|x1: int, x2: int|
                    0 <= x1 < x2 < updates@.len() ==> updates@[x1].key@ != updates@[x2].key@,
                forall|ii: int|
                    0 <= ii < i && views_of((#[trigger] self.store@[ii]).occs@) != evict_views(
                        views_of(self.store@[ii].occs@),
                        f,
                        h,
                    ) ==> exists|x: int|
                        0 <= x < updates@.len() && (#[trigger] updates@[x].key@)
                            == self.store@[ii].key@,
            decreases self.store@.len() - i,
        {
            proof {
                assert(self.entry_wf(i as int));
            }
            let ghost orig: Seq<OccView> = views_of(self.store@[i as int].occs@);
            let entry = &self.store[i];
            let n: usize = entry.occs.len();
            let mut kept: Vec<Occurrence> = Vec::new();
            let mut j: usize = 0;
            proof {
                assert(orig.subrange(0, 0) =~= Seq::<OccView>::empty());
            }
            while j < n
                invariant
                    0 <= j <= n,
                    n == entry.occs@.len(),
                    orig == views_of(entry.occs@),
                    entry_inv(*entry, self.config, self.frontier_ms, self.next_arrival),
                    f >= self.frontier_ms,
                    horizon == h,
                    views_of(kept@) == evict_views(orig.subrange(0, j as int), f, h),
                    forall|x: int|
                        0 <= x < kept@.len() ==> exists|jx: int|
                            0 <= jx < j && (#[trigger] kept@[x])@ == orig[jx],
                decreases n - j,
            {
                proof {
                    assert(orig.subrange(0, j as int + 1).drop_last() =~= orig.subrange(
                        0,
                        j as int,
                    ));
                    assert(orig.subrange(0, j as int + 1).last() == orig[j as int]);
                    assert(entry.occs@[j as int]@ == orig[j as int]);
                }
                let occ = &entry.occs[j];
                if f - occ.insert_time_ms < horizon {
                    proof {
                        assert(live_at(orig[j as int], f, h));
                    }
                    let copy = occ.duplicate();
                    kept.push(copy);
                    proof {
                        assert(views_of(kept@) =~= evict_views(
                            orig.subrange(0, j as int + 1),
                            f,
                            h,
                        ));
                        assert forall|x: int| 0 <= x < kept@.len() implies exists|jx: int|
                            0 <= jx < j + 1 && (#[trigger] kept@[x])@ == orig[jx] by {
                            if x == kept@.len() - 1 {
                                assert(kept@[x]@ == orig[j as int]);
                            }
                        }
                    }
                } else {
                    proof {
                        assert(!live_at(orig[j as int], f, h));
                        assert(views_of(kept@) =~= evict_views(
                            orig.subrange(0, j as int + 1),
                            f,
                            h,
                        ));
                    }
                }
                j = j + 1;
            }
            proof {
                assert(orig.subrange(0, n as int) =~= orig);
                assert(views_of(kept@) == evict_views(orig, f, h));
            }
            let key_copy = entry.key.duplicate();
            let changed: bool = kept.len() != n;
            proof {
                if !changed {
                    lemma_evict_full(orig, f, h);
                }
            }
            let ghost ups0: Seq<Update> = updates@;
            if changed {
                if kept.len() == 0 {
                    updates.push(
                        Update { key: key_copy.duplicate(), bar: None, logical_time_ms: f, diff: -1 },
                    );
                    proof {
                        assert(update_describes(updates@.last(), orig, f, h));
                        assert(updates@.last().key@ == self.store@[i as int].key@);
                    }
                } else {
                    proof {
                        assert forall|x: int|
                            0 <= x < views_of(kept@).len() implies (#[trigger] views_of(
                            kept@,
                        )[x]).trade.wf() by {
                            lemma_evict_member(orig, f, h, x);
                            let jj = choose|jj: int|
                                0 <= jj < orig.len() && orig[jj] == views_of(kept@)[x];
                            assert(entry.occs@[jj]@ == orig[jj]);
                        }
                    }
                    match compute_bar(&kept, f) {
                        Ok(bar) => {
                            updates.push(
                                Update {
                                    key: key_copy.duplicate(),
                                    bar: Some(bar),
                                    logical_time_ms: f,
                                    diff: 1,
                                },
                            );
                            proof {
                                assert(update_describes(updates@.last(), orig, f, h));
                                assert(updates@.last().key@ == self.store@[i as int].key@);
                            }
                        },
                        Err(_) => {
                            proof {
                                assert(evict_reduce_fails(orig, f, h));
                                lemma_key_at_unique(*self, self.store@[i as int].key@, i as int);
                                assert(old(self).occs_at(self.store@[i as int].key@) == orig);
                                assert(old(self).advance_fails(now_ms));
                            }
                            return Err(EngineError::Overflow);
                        },
                    }
                }
            }
            proof {
                assert(!evict_reduce_fails(orig, f, h));
            }
            let new_entry = Entry { key: key_copy, occs: kept };
            proof {
                assert(new_entry.key@ == self.store@[i as int].key@);
                assert(views_of(new_entry.occs@) == evict_views(orig, f, h));
                lemma_entry_inv_evicted(
                    new_entry,
                    self.store@[i as int],
                    self.config,
                    self.frontier_ms,
                    f,
                    self.next_arrival,
                );
                lemma_key_at_unique(*self, self.store@[i as int].key@, i as int);
            }
            new_store.push(new_entry);
            proof {
                assert forall|x: int| 0 <= x < updates@.len() implies exists|ii: int|
                    0 <= ii < i + 1 && (#[trigger] updates@[x]).key@ == self.store@[ii].key@ by {
                    if x < ups0.len() {
                        assert(ups0[x] == updates@[x]);
                    } else {
                        assert(updates@[x].key@ == self.store@[i as int].key@);
                    }
                }
                assert forall|x: int| 0 <= x < updates@.len() implies update_describes(
                    #[trigger] updates@[x],
                    views_of(self.store@[self.key_at(updates@[x].key@)].occs@),
                    f,
                    h,
                ) && self.has_key(updates@[x].key@) by {
                    if x < ups0.len() {
                        assert(ups0[x] == updates@[x]);
                    } else {
                        assert(self.key_at(updates@[x].key@) == i as int);
                        assert(update_describes(updates@[x], orig, f, h));
                    }
                }
                assert forall|x1: int, x2: int|
                    0 <= x1 < x2 < updates@.len() implies updates@[x1].key@
                    != updates@[x2].key@ by {
                    if x2 >= ups0.len() {
                        assert(ups0[x1] == updates@[x1]);
                        let ii = choose|ii: int|
                            0 <= ii < i && updates@[x1].key@ == self.store@[ii].key@;
                        assert(self.store@[ii].key@ != self.store@[i as int].key@);
                    } else {
                        assert(ups0[x1] == updates@[x1]);
                        assert(ups0[x2] == updates@[x2]);
                    }
                }
                assert forall|ii: int|
                    0 <= ii < i + 1 && views_of((#[trigger] self.store@[ii]).occs@)
                    != evict_views(views_of(self.store@[ii].occs@), f, h) implies exists|x: int|
                    0 <= x < updates@.len() && (#[trigger] updates@[x].key@)
                        == self.store@[ii].key@ by {
                    if ii == i {
                        assert(changed);
                        assert(updates@[updates@.len() - 1].key@ == self.store@[i as int].key@);
                    } else {
                        let x0 = choose|x0: int|
                            0 <= x0 < ups0.len() && ups0[x0].key@ == self.store@[ii].key@;
                        assert(updates@[x0] == ups0[x0]);
                    }
                }
            }
            i = i + 1;
        }
        let ghost prev: Engine = *self;
        self.store = new_store;
        self.frontier_ms = f;
        proof {
            assert forall|x: int| 0 <= x < self.store@.len() implies #[trigger] self.entry_wf(
                x,
            ) by {
                assert(entry_inv(self.store@[x], self.config, f, self.next_arrival));
            }
            assert forall|i1: int, i2: int|
                0 <= i1 < i2 < self.store@.len() implies self.store@[i1].key@
                != self.store@[i2].key@ by {
                assert(prev.store@[i1].key@ != prev.store@[i2].key@);
            }
            assert forall|k: KeyV| self.occs_at(k) == evict_views(
                prev.occs_at(k),
                f,
                h,
            ) by {
                if prev.has_key(k) {
                    let io = prev.key_at(k);
                    lemma_key_at_unique(prev, k, io);
                    lemma_key_at_unique(*self, k, io);
                } else {
                    assert(!self.has_key(k)) by {
                        if self.has_key(k) {
                            let ix = self.key_at(k);
                            assert(prev.store@[ix].key@ == k);
                        }
                    }
                    assert(evict_views(Seq::<OccView>::empty(), f, h) =~= Seq::<
                        OccView,
                    >::empty());
                }
            }
            assert forall|x: int|
                0 <= x < updates@.len() implies old(self).has_key(
                (#[trigger] updates@[x]).key@,
            ) && update_describes(
                updates@[x],
                old(self).occs_at(updates@[x].key@),
                f,
                h,
            ) by {
                let ii = choose|ii: int|
                    0 <= ii < prev.store@.len() && updates@[x].key@ == prev.store@[ii].key@;
                lemma_key_at_unique(prev, updates@[x].key@, ii);
            }
            assert forall|k: KeyV|
                prev.occs_at(k) != evict_views(prev.occs_at(k), f, h) implies exists|x: int|
                0 <= x < updates@.len() && (#[trigger] updates@[x].key@) == k by {
                if prev.has_key(k) {
                    let io = prev.key_at(k);
                    lemma_key_at_unique(prev, k, io);
                } else {
                    assert(evict_views(Seq::<OccView>::empty(), f, h) =~= Seq::<
                        OccView,
                    >::empty());
                }
            }
            assert forall|k: KeyV| !evict_reduce_fails(
                #[trigger] prev.occs_at(k),
                f,
                h,
            ) by {
                if prev.has_key(k) {
                    let io = prev.key_at(k);
                    lemma_key_at_unique(prev, k, io);
                    assert(!evict_reduce_fails(views_of(prev.store@[io].occs@), f, h));
                } else {
                    assert(evict_views(Seq::<OccView>::empty(), f, h) =~= Seq::<
                        OccView,
                    >::empty());
                }
            }
            assert(!old(self).advance_fails(now_ms));
        }
        Ok(updates)
    }
}

/// An entry built from the survivors of an eviction keeps the entry
/// invariant at the advanced frontier.
proof fn lemma_entry_inv_evicted(
    new_e: Entry,
    old_e: Entry,
    config: Config,
    frontier: u64,
    f: u64,
    next_arrival: u64,
)
    requires
        entry_inv(old_e, config, frontier, next_arrival),
        f >= frontier,
        new_e.key@ == old_e.key@,
        views_of(new_e.occs@) == evict_views(views_of(old_e.occs@), f, config.horizon_ms()),
    ensures
        entry_inv(new_e, config, f, next_arrival),
{
    let orig = views_of(old_e.occs@);
    let kept = views_of(new_e.occs@);
    let h = config.horizon_ms();
    assert forall|j: int| 0 <= j < new_e.occs@.len() implies ({
        let o = (#[trigger] new_e.occs@[j])@;
        &&& o.trade.wf()
        &&& o.trade.symbol == new_e.key@.0
        &&& new_e.key@.1 == spec_window_start(
            o.trade.event_time_ms as int,
            config.bar_length_ms as int,
        )
        &&& o.insert_time_ms <= f
        &&& f - o.insert_time_ms < config.horizon_ms()
        &&& o.arrival < next_arrival
    }) by {
        assert(new_e.occs@[j]@ == kept[j]);
        lemma_evict_member(orig, f, h, j);
        let jj = choose|jj: int| 0 <= jj < orig.len() && orig[jj] == kept[j];
        assert(old_e.occs@[jj]@ == orig[jj]);
    }
    assert forall|j1: int, j2: int|
        0 <= j1 < j2 < new_e.occs@.len() implies new_e.occs@[j1].arrival
        < new_e.occs@[j2].arrival by {
        lemma_evict_order(orig, f, h, j1, j2);
        assert(new_e.occs@[j1]@ == kept[j1]);
        assert(new_e.occs@[j2]@ == kept[j2]);
        let (a1, a2) = choose|a1: int, a2: int|
            0 <= a1 < a2 < orig.len() && orig[a1] == kept[j1] && orig[a2] == kept[j2];
        assert(old_e.occs@[a1]@ == orig[a1]);
        assert(old_e.occs@[a2]@ == orig[a2]);
        assert(old_e.occs@[a1].arrival < old_e.occs@[a2].arrival);
    }
}

/// Eviction preserves the relative order of the survivors: two kept
/// occurrences descend from two originals in the same order.
proof fn lemma_evict_order(s: Seq<OccView>, f: u64, h: int, x1: int, x2: int)
    requires
        0 <= x1 < x2 < evict_views(s, f, h).len(),
    ensures
        exists|a1: int, a2: int|
            0 <= a1 < a2 < s.len() && s[a1] == evict_views(s, f, h)[x1] && s[a2] == evict_views(
                s,
                f,
                h,
            )[x2],
    decreases s.len(),
{
    let kept = evict_views(s, f, h);
    let rest = evict_views(s.drop_last(), f, h);
    if live_at(s.last(), f, h) && x2 == rest.len() {
        lemma_evict_member(s.drop_last(), f, h, x1);
        let a1 = choose|a1: int|
            0 <= a1 < s.drop_last().len() && s.drop_last()[a1] == evict_views(
                s.drop_last(),
                f,
                h,
            )[x1];
        assert(s[a1] == kept[x1]);
        assert(s[s.len() - 1] == kept[x2]);
    } else {
        lemma_evict_order(s.drop_last(), f, h, x1, x2);
        let (a1, a2) = choose|a1: int, a2: int|
            0 <= a1 < a2 < s.drop_last().len() && s.drop_last()[a1] == evict_views(
                s.drop_last(),
                f,
                h,
            )[x1] && s.drop_last()[a2] == evict_views(s.drop_last(), f, h)[x2];
        assert(s[a1] == kept[x1]);
        assert(s[a2] == kept[x2]);
    }
}

/// Element-for-element copy of an occurrence vector.
fn copy_occs(v: &Vec<Occurrence>) -> (r: Vec<Occurrence>)
    ensures
        views_of(r@) == views_of(v@),
        r@.len() == v@.len(),
        forall|x: int| 0 <= x < r@.len() ==> (#[trigger] r@[x])@ == v@[x]@,
{
    let mut r: Vec<Occurrence> = Vec::new();
    let mut i: usize = 0;
    while i < v.len()
        invariant
            0 <= i <= v@.len(),
            r@.len() == i,
            forall|x: int| 0 <= x < i ==> (#[trigger] r@[x])@ == v@[x]@,
        decreases v@.len() - i,
    {
        r.push(v[i].duplicate());
        i = i + 1;
    }
    proof {
        assert(views_of(r@) =~= views_of(v@));
    }
    r
}

impl Engine {
    /// Drop the keys whose multisets have emptied: the terminal `purged`
    /// state of a window's lifecycle.  No key's observable occurrences
    /// change.
    #[verifier::rlimit(60)]
    pub fn purge_empty(&mut self)
        requires
            old(self).wf(),
        ensures
            final(self).wf(),
            final(self).config == old(self).config,
            final(self).frontier_ms == old(self).frontier_ms,
            final(self).next_arrival == old(self).next_arrival,
            forall|k: KeyV| final(self).occs_at(k) == old(self).occs_at(k),
            forall|i: int|
                #![trigger final(self).store@[i]]
                0 <= i < final(self).store@.len() ==> final(self).store@[i].occs@.len() > 0,
            final(self).store@.len() <= old(self).store@.len(),
    {
        let mut new_store: Vec<Entry> = Vec::new();
        let ghost mut srcmap: Seq<int> = Seq::empty();
        let mut i: usize = 0;
        while i < self.store.len()
            invariant
                self == old(self),
                self.wf(),
                0 <= i <= self.store@.len(),
                new_store@.len() <= i,
                srcmap.len() == new_store@.len(),
                forall|x: int|
                    0 <= x < new_store@.len() ==> 0 <= #[trigger] srcmap[x] < i,
                forall|x: int|
                    0 <= x < new_store@.len() ==> (#[trigger] new_store@[x]).key@
                        == self.store@[srcmap[x]].key@ && views_of(new_store@[x].occs@)
                        == views_of(self.store@[srcmap[x]].occs@) && new_store@[x].occs@.len() > 0
                        && entry_inv(new_store@[x], self.config, self.frontier_ms, self.next_arrival),
                forall|x1: int, x2: int| 0 <= x1 < x2 < srcmap.len() ==> srcmap[x1] < srcmap[x2],
                forall|ii: int|
                    0 <= ii < i && (#[trigger] self.store@[ii]).occs@.len() > 0 ==> exists|x: int|
                        0 <= x < srcmap.len() && #[trigger] srcmap[x] == ii,
            decreases self.store@.len() - i,
        {
            proof {
                assert(self.entry_wf(i as int));
            }
            let entry = &self.store[i];
            let ghost ns0: Seq<Entry> = new_store@;
            let ghost sm0: Seq<int> = srcmap;
            if entry.occs.len() > 0 {
                let kept = Entry { key: entry.key.duplicate(), occs: copy_occs(&entry.occs) };
                proof {
                    assert(kept.key@ == self.store@[i as int].key@);
                    assert(entry_inv(kept, self.config, self.frontier_ms, self.next_arrival)) by {
                        assert forall|j: int| 0 <= j < kept.occs@.len() implies (
                        #[trigger] kept.occs@[j])@ == self.store@[i as int].occs@[j]@ by {}
                        assert forall|j1: int, j2: int|
                            0 <= j1 < j2 < kept.occs@.len() implies kept.occs@[j1].arrival
                            < kept.occs@[j2].arrival by {
                            assert(kept.occs@[j1]@ == self.store@[i as int].occs@[j1]@);
                            assert(kept.occs@[j2]@ == self.store@[i as int].occs@[j2]@);
                        }
                    }
                }
                new_store.push(kept);
                proof {
                    srcmap = srcmap.push(i as int);
                    assert forall|x: int|
                        0 <= x < new_store@.len() implies (#[trigger] new_store@[x]).key@
                        == self.store@[srcmap[x]].key@ && views_of(new_store@[x].occs@)
                        == views_of(self.store@[srcmap[x]].occs@) && new_store@[x].occs@.len() > 0
                        && entry_inv(
                        new_store@[x],
                        self.config,
                        self.frontier_ms,
                        self.next_arrival,
                    ) by {
                        if x < ns0.len() {
                            assert(new_store@[x] == ns0[x]);
                            assert(srcmap[x] == sm0[x]);
                        } else {
                            assert(new_store@[x] == kept);
                            assert(srcmap[x] == i as int);
                        }
                    }
                }
            }
            proof {
                assert forall|ii: int|
                    0 <= ii < i + 1 && (#[trigger] self.store@[ii]).occs@.len()
                        > 0 implies exists|x: int|
                    0 <= x < srcmap.len() && #[trigger] srcmap[x] == ii by {
                    if ii == i {
                        assert(srcmap[srcmap.len() - 1] == ii);
                    } else {
                        let x0 = choose|x0: int| 0 <= x0 < sm0.len() && #[trigger] sm0[x0] == ii;
                        assert(srcmap[x0] == ii);
                    }
                }
            }
            i = i + 1;
        }
        let ghost prev: Engine = *self;
        self.store = new_store;
        proof {
            assert forall|x: int| 0 <= x < self.store@.len() implies #[trigger] self.entry_wf(
                x,
            ) by {
                assert(entry_inv(self.store@[x], self.config, self.frontier_ms, self.next_arrival));
            }
            assert forall|x1: int, x2: int|
                0 <= x1 < x2 < self.store@.len() implies self.store@[x1].key@
                != self.store@[x2].key@ by {
                assert(prev.store@[srcmap[x1]].key@ != prev.store@[srcmap[x2]].key@);
            }
            assert(self.wf());
            assert forall|k: KeyV| self.occs_at(k) == prev.occs_at(k) by {
                if prev.has_key(k) {
                    let io = prev.key_at(k);
                    lemma_key_at_unique(prev, k, io);
                    if prev.store@[io].occs@.len() > 0 {
                        let x = choose|x: int| 0 <= x < srcmap.len() && #[trigger] srcmap[x] == io;
                        assert(self.store@[x].key@ == k);
                        lemma_key_at_unique(*self, k, x);
                    } else {
                        assert(!self.has_key(k)) by {
                            if self.has_key(k) {
                                let x = self.key_at(k);
                                let ii = srcmap[x];
                                assert(prev.store@[ii].key@ == k);
                                if ii < io {
                                    assert(prev.store@[ii].key@ != prev.store@[io].key@);
                                } else if io < ii {
                                    assert(prev.store@[io].key@ != prev.store@[ii].key@);
                                }
                            }
                        }
                        assert(prev.occs_at(k) =~= Seq::<OccView>::empty());
                        assert(views_of(prev.store@[io].occs@) =~= Seq::<OccView>::empty());
                    }
                } else {
                    assert(!self.has_key(k)) by {
                        if self.has_key(k) {
                            let x = self.key_at(k);
                            assert(prev.store@[srcmap[x]].key@ == k);
                            assert(prev.has_key(k));
                        }
                    }
                }
            }
        }
    }
}

/// Law (retention bound): under the engine invariant, no occurrence is
/// observable once `retention + bar_length` has passed since its
/// insertion — whatever the key, every stored occurrence is younger than
/// the horizon at the current frontier.
pub proof fn lemma_retention_bound(e: Engine, k: KeyV, j: int)
    requires
        e.wf(),
        0 <= j < e.occs_at(k).len(),
    ensures
        e.occs_at(k)[j].insert_time_ms <= e.frontier_ms,
        e.frontier_ms - e.occs_at(k)[j].insert_time_ms < e.config.horizon_ms(),
{
    let i = e.key_at(k);
    assert(e.entry_wf(i));
    assert(e.occs_at(k)[j] == e.store@[i].occs@[j]@);
}

/// Law (arrival bound): under the engine invariant, every stored
/// occurrence's arrival number is below the counter, whatever the key.
pub proof fn lemma_arrival_bound(e: Engine, k: KeyV, j: int)
    requires
        e.wf(),
        0 <= j < e.occs_at(k).len(),
    ensures
        e.occs_at(k)[j].arrival < e.next_arrival,
{
    let i = e.key_at(k);
    assert(e.entry_wf(i));
    assert(e.occs_at(k)[j] == e.store@[i].occs@[j]@);
}

/// The multiset of trades an occurrence sequence holds: the "present"
/// elements with their multiplicities.
pub open spec fn occ_trades(s: Seq<OccView>) -> Multiset<TradeView>
    decreases s.len(),
{
    if s.len() == 0 {
        Multiset::empty()
    } else {
        occ_trades(s.drop_last()).insert(s.last().trade)
    }
}

/// Appending an occurrence inserts its trade into the multiset.
pub proof fn lemma_occ_trades_push(s: Seq<OccView>, o: OccView)
    ensures
        occ_trades(s.push(o)) == occ_trades(s).insert(o.trade),
{
    assert(s.push(o).drop_last() =~= s);
    assert(s.push(o).last() == o);
}

/// Removing an occurrence removes one instance of its trade from the
/// multiset.
pub proof fn lemma_occ_trades_remove(s: Seq<OccView>, j: int)
    requires
        0 <= j < s.len(),
    ensures
        occ_trades(s.remove(j)) == occ_trades(s).remove(s[j].trade),
    decreases s.len(),
{
    if j == s.len() - 1 {
        assert(s.remove(j) =~= s.drop_last());
        assert(occ_trades(s.drop_last()).insert(s.last().trade).remove(s.last().trade) =~=
            occ_trades(s.drop_last()));
    } else {
        assert(s.remove(j).drop_last() =~= s.drop_last().remove(j));
        assert(s.remove(j).last() == s.last());
        lemma_occ_trades_remove(s.drop_last(), j);
        assert(s.drop_last()[j] == s[j]);
        lemma_occ_trades_contains(s.drop_last(), s[j].trade);
        assert(occ_trades(s.drop_last()).count(s[j].trade) > 0);
        assert(occ_trades(s.drop_last()).remove(s[j].trade).insert(s.last().trade) =~= occ_trades(
            s.drop_last(),
        ).insert(s.last().trade).remove(s[j].trade));
    }
}

/// A trade is present in the multiset exactly when some occurrence holds
/// it.
pub proof fn lemma_occ_trades_contains(s: Seq<OccView>, t: TradeView)
    ensures
        occ_trades(s).count(t) > 0 <==> exists|j: int| 0 <= j < s.len() && s[j].trade == t,
    decreases s.len(),
{
    if s.len() > 0 {
        lemma_occ_trades_contains(s.drop_last(), t);
        if s.last().trade == t {
            assert(s[s.len() - 1].trade == t);
        } else if occ_trades(s).count(t) > 0 {
            let j = choose|j: int| 0 <= j < s.drop_last().len() && s.drop_last()[j].trade == t;
            assert(s[j].trade == t);
        } else {
            if exists|j: int| 0 <= j < s.len() && s[j].trade == t {
                let j = choose|j: int| 0 <= j < s.len() && s[j].trade == t;
                assert(s.drop_last()[j].trade == t);
            }
        }
    }
}

/// Folding a sequence of trades into a multiset, one insertion at a time.
pub open spec fn insert_each(m: Multiset<TradeView>, ts: Seq<TradeView>) -> Multiset<TradeView>
    decreases ts.len(),
{
    if ts.len() == 0 {
        m
    } else {
        insert_each(m.insert(ts.first()), ts.drop_first())
    }
}

/// Removing a sequence of trades from a multiset, one removal at a time.
pub open spec fn remove_each(m: Multiset<TradeView>, ts: Seq<TradeView>) -> Multiset<TradeView>
    decreases ts.len(),
{
    if ts.len() == 0 {
        m
    } else {
        remove_each(m.remove(ts.first()), ts.drop_first())
    }
}

/// Removing an element the multiset holds commutes with the later
/// insertions.
proof fn lemma_insert_each_remove(m: Multiset<TradeView>, ts: Seq<TradeView>, t: TradeView)
    requires
        m.count(t) >= 1,
    ensures
        insert_each(m, ts).remove(t) =~= insert_each(m.remove(t), ts),
    decreases ts.len(),
{
    if ts.len() > 0 {
        lemma_insert_each_remove(m.insert(ts.first()), ts.drop_first(), t);
        assert(m.insert(ts.first()).remove(t) =~= m.remove(t).insert(ts.first()));
    }
}

/// Law (insert/retract symmetry): inserting any trade sequence and then
/// retracting it, trade for trade, restores the original multiset — from
/// an empty engine, the state is empty again and every key is purged.
/// (`Engine::insert` makes the per-key multiset gain the trade,
/// `Engine::retract` makes it lose one instance: see their contracts and
/// [`lemma_occ_trades_push`] / [`lemma_occ_trades_remove`].)
pub proof fn lemma_insert_retract_symmetry(m: Multiset<TradeView>, ts: Seq<TradeView>)
    ensures
        remove_each(insert_each(m, ts), ts) == m,
    decreases ts.len(),
{
    if ts.len() > 0 {
        assert(m.insert(ts.first()).count(ts.first()) >= 1);
        lemma_insert_each_remove(m.insert(ts.first()), ts.drop_first(), ts.first());
        assert(m.insert(ts.first()).remove(ts.first()) =~= m);
        lemma_insert_retract_symmetry(m, ts.drop_first());
        assert(insert_each(m.insert(ts.first()), ts.drop_first()).remove(ts.first())
            == insert_each(m, ts.drop_first()));
    }
}

/// Index of the first occurrence of the trade, if present.
fn find_match(occs: &Vec<Occurrence>, trade: &TradeRecord) -> (r: Option<usize>)
    ensures
        r matches Some(j) ==> j < occs@.len() && views_of(occs@)[j as int].trade == trade@,
        r is None ==> forall|x: int|
            0 <= x < occs@.len() ==> (#[trigger] views_of(occs@)[x]).trade != trade@,
{
    let mut j: usize = 0;
    while j < occs.len()
        invariant
            0 <= j <= occs@.len(),
            forall|x: int| 0 <= x < j ==> (#[trigger] views_of(occs@)[x]).trade != trade@,
        decreases occs@.len() - j,
    {
        if occs[j].trade.same_trade(trade) {
            proof {
                assert(views_of(occs@)[j as int].trade == trade@);
            }
            return Some(j);
        }
        proof {
            assert(views_of(occs@)[j as int] == occs@[j as int]@);
        }
        j = j + 1;
    }
    None
}

/// A key carried by no changed entry reads the same occurrences in both
/// states.
proof fn lemma_unchanged_key(before: Engine, after: Engine, k: KeyV)
    requires
        before.wf(),
        after.wf(),
        forall|i: int|
            0 <= i < after.store@.len() && (#[trigger] after.store@[i].key@) == k ==> i
                < before.store@.len() && before.store@[i].key@ == k && views_of(
                after.store@[i].occs@,
            ) == views_of(before.store@[i].occs@),
        forall|i: int|
            0 <= i < before.store@.len() && (#[trigger] before.store@[i].key@) == k ==> i
                < after.store@.len() && after.store@[i].key@ == k,
    ensures
        after.occs_at(k) == before.occs_at(k),
{
    if after.has_key(k) {
        let i = after.key_at(k);
        lemma_key_at_unique(before, k, i);
        lemma_key_at_unique(after, k, i);
    } else if before.has_key(k) {
        let i = before.key_at(k);
        assert(0 <= i < before.store@.len() && before.store@[i].key@ == k);
        assert(after.store@[i].key@ == k);
        assert(after.has_key(k));
    }
}

} // verus!
