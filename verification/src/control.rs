//! The time controller: buffering, flush cadence, and the session facade.
//!
//! A [`Session`] wires the pieces together: trades are buffered in the
//! bounded ingress queue; a flush advances the input frontier to the wall
//! clock (never backwards), runs retention, inserts the buffered trades at
//! the new frontier, and feeds every resulting change to the emission
//! gate; a tick purges emptied keys and scans the held-back bars: those whose
//! windows have closed.

use vstd::prelude::*;

use vstd::multiset::Multiset;

use crate::config::Config;
use crate::engine::{Engine, KeyV, evict_views, occ_trades, spec_key_of, update_describes};
use crate::gate::stale_at;
use crate::trade::TradeView;
use crate::window::{OccView, bar_matches, reduce_fails};
use crate::errors::EngineError;
use crate::gate::{Gate, emitted_ok};
use crate::queue::IngressQueue;
use crate::trade::TradeRecord;
use crate::window::{Bar, WindowKey};

verus! {

/// The trades of a buffered sequence that fall on one key, as a multiset.
pub open spec fn queued_at(ts: Seq<TradeView>, k: KeyV, bar_length_ms: u64) -> Multiset<TradeView>
    decreases ts.len(),
{
    if ts.len() == 0 {
        Multiset::empty()
    } else {
        let rest = queued_at(ts.drop_first(), k, bar_length_ms);
        if spec_key_of(ts.first(), bar_length_ms) == k {
            rest.insert(ts.first())
        } else {
            rest
        }
    }
}

/// The occurrence sequence key `k` holds after a flush at `now_ms` has
/// advanced the frontier and inserted the first `j` buffered trades.
pub open spec fn flushed_occs(s: Session, now_ms: u64, k: KeyV, j: int) -> Seq<OccView>
    recommends
        0 <= j <= s.queue.trades().len(),
    decreases j,
{
    if j <= 0 {
        evict_views(
            s.engine.occs_at(k),
            s.engine.advanced_frontier(now_ms),
            s.engine.config.horizon_ms(),
        )
    } else {
        let prev = flushed_occs(s, now_ms, k, j - 1);
        let t = s.queue.trades()[j - 1];
        if spec_key_of(t, s.engine.config.bar_length_ms) == k {
            prev.push(
                OccView {
                    trade: t,
                    insert_time_ms: s.engine.advanced_frontier(now_ms),
                    arrival: (s.engine.next_arrival + j - 1) as u64,
                },
            )
        } else {
            prev
        }
    }
}

/// A flush at `now_ms` is doomed: the retention step or one of the
/// buffered insertions leaves a multiset that no longer reduces.
pub open spec fn flush_fails(s: Session, now_ms: u64) -> bool {
    ||| s.engine.advance_fails(now_ms)
    ||| exists|j: int|
        0 <= j < s.queue.trades().len() && reduce_fails(
            flushed_occs(
                s,
                now_ms,
                spec_key_of(#[trigger] s.queue.trades()[j], s.engine.config.bar_length_ms),
                j + 1,
            ),
        )
}

/// One live aggregation pipeline: engine, gate, and ingress buffer under
/// one configuration.
pub struct Session {
    pub engine: Engine,
    pub gate: Gate,
    pub queue: IngressQueue,
    /// Wall-clock time of the last flush.
    pub last_flush_ms: u64,
}

impl Session {
    /// Session invariant: the parts are well-formed and share one
    /// configuration.
    pub open spec fn wf(self) -> bool {
        &&& self.engine.wf()
        &&& self.gate.wf()
        &&& self.queue.wf()
        &&& self.gate.config == self.engine.config
        &&& self.queue.capacity == self.engine.config.input_queue_capacity
    }

    /// Build a session.  The configuration is refused (`BadConfig`)
    /// exactly when the engine refuses it.
    pub fn new(config: Config) -> (r: Result<Session, EngineError>)
        ensures
            r is Ok <==> config.wf(),
            r matches Ok(s) ==> s.wf() && s.engine.config == config && s.engine.frontier_ms == 0
                && s.engine.store@.len() == 0 && s.gate.entries@.len() == 0 && s.queue.trades()
                == Seq::<crate::trade::TradeView>::empty() && s.last_flush_ms == 0,
            r matches Err(e) ==> e == EngineError::BadConfig,
    {
        match Engine::new(config) {
            Err(e) => Err(e),
            Ok(engine) => {
                let gate = Gate::new(config);
                let queue = IngressQueue::new(config.input_queue_capacity);
                Ok(Session { engine, gate, queue, last_flush_ms: 0 })
            },
        }
    }

    /// Buffer one trade; a full buffer hands it back (backpressure).
    pub fn offer(&mut self, t: TradeRecord) -> (r: Result<(), TradeRecord>)
        requires
            old(self).wf(),
            t@.wf(),
        ensures
            final(self).wf(),
            final(self).engine == old(self).engine,
            final(self).gate == old(self).gate,
            final(self).last_flush_ms == old(self).last_flush_ms,
            old(self).queue.trades().len() < old(self).queue.capacity ==> (r is Ok
                && final(self).queue.trades() == old(self).queue.trades().push(t@)),
            old(self).queue.trades().len() >= old(self).queue.capacity ==> (r matches Err(back)
                && back@ == t@ && final(self).queue.trades() == old(self).queue.trades()),
    {
        self.queue.offer(t)
    }

    /// Whether the flush cadence has elapsed.
    pub fn should_flush(&self, now_ms: u64) -> (r: bool)
        ensures
            r == (self.last_flush_ms + self.engine.config.flush_frequency_ms <= now_ms),
    {
        (self.last_flush_ms as u128 + self.engine.config.flush_frequency_ms as u128)
            <= now_ms as u128
    }

    /// Flush at wall-clock `now_ms`: advance the frontier (monotonically:
    /// the new frontier is `max(frontier, now)`), run retention, insert
    /// every buffered trade at the new frontier in arrival order, and feed
    /// each change to the emission gate.  On success every key holds
    /// exactly [`flushed_occs`], and for every key whose multiset changed,
    /// stayed non-empty and is not stale, the emission gate records the bar
    /// of the key's final occurrences, stamped with the new frontier; every
    /// other key's held-back bar is untouched.  `Err(Overflow)` — fatal —
    /// exactly when the flush is doomed ([`flush_fails`]): the retention
    /// step or one of the insertions leaves a multiset that no longer
    /// reduces.
    #[verifier::rlimit(100)]
    pub fn flush(&mut self, now_ms: u64) -> (r: Result<(), EngineError>)
        requires
            old(self).wf(),
            old(self).engine.next_arrival + old(self).queue.trades().len() <= u64::MAX,
        ensures
            final(self).wf(),
            final(self).engine.config == old(self).engine.config,
            final(self).engine.frontier_ms >= old(self).engine.frontier_ms,
            r is Ok ==> final(self).engine.frontier_ms == old(self).engine.advanced_frontier(
                now_ms,
            ),
            r is Ok ==> final(self).queue.trades() == Seq::<crate::trade::TradeView>::empty()
                && final(self).last_flush_ms == now_ms,
            r is Ok ==> (forall|k: KeyV|
                #[trigger] final(self).engine.occs_at(k) == flushed_occs(
                    *old(self),
                    now_ms,
                    k,
                    old(self).queue.trades().len() as int,
                )),
            r is Ok ==> (forall|k: KeyV|
                occ_trades(#[trigger] final(self).engine.occs_at(k)) == occ_trades(
                    evict_views(
                        old(self).engine.occs_at(k),
                        final(self).engine.frontier_ms,
                        old(self).engine.config.horizon_ms(),
                    ),
                ).add(
                    queued_at(
                        old(self).queue.trades(),
                        k,
                        old(self).engine.config.bar_length_ms,
                    ),
                )),
            r is Ok ==> (forall|k: KeyV|
                #![trigger final(self).gate.pending_of(k)]
                (final(self).engine.occs_at(k) != old(self).engine.occs_at(k) && final(self).engine.occs_at(k).len() > 0 && !stale_at(
                    old(self).engine.config,
                    k,
                    final(self).engine.frontier_ms,
                )) ==> (final(self).gate.pending_of(k) matches Some(p) && p.1 == final(self).engine.frontier_ms && bar_matches(final(self).engine.occs_at(k), p.0)
                    && p.0.wf())),
            r is Ok ==> (forall|k: KeyV|
                #![trigger final(self).gate.pending_of(k)]
                (final(self).engine.occs_at(k) == old(self).engine.occs_at(k) || stale_at(
                    old(self).engine.config,
                    k,
                    final(self).engine.frontier_ms,
                ) || final(self).engine.occs_at(k).len() == 0) ==> final(self).gate.pending_of(k)
                    == old(self).gate.pending_of(k)),
            r is Err <==> flush_fails(*old(self), now_ms),
            r matches Err(e) ==> e == EngineError::Overflow && final(self).last_flush_ms == old(
                self,
            ).last_flush_ms,
    {
        let ghost f0: u64 = old(self).engine.frontier_ms;
        let ghost q0: Seq<TradeView> = old(self).queue.trades();
        let ghost h: int = old(self).engine.config.horizon_ms();
        let ghost bl: u64 = old(self).engine.config.bar_length_ms;
        let ghost cfg: Config = old(self).engine.config;
        let updates: Vec<crate::engine::Update>;
        match self.engine.advance(now_ms) {
            Ok(us) => {
                updates = us;
            },
            Err(_) => {
                return Err(EngineError::Overflow);
            },
        }
        let ghost f: u64 = self.engine.frontier_ms;
        let ghost evicted: Engine = self.engine;
        proof {
            assert(f == old(self).engine.advanced_frontier(now_ms));
            assert(forall|k: KeyV|
                #[trigger] evicted.occs_at(k) == evict_views(old(self).engine.occs_at(k), f, h));
        }
        let mut i: usize = 0;
        while i < updates.len()
            invariant
                old(self).wf(),
                self.engine.wf(),
                self.gate.wf(),
                self.queue.wf(),
                self.gate.config == self.engine.config,
                self.queue.capacity == self.engine.config.input_queue_capacity,
                self.engine.config == old(self).engine.config,
                cfg == old(self).engine.config,
                self.engine.next_arrival + self.queue.trades().len() <= u64::MAX,
                f0 == old(self).engine.frontier_ms,
                self.engine.frontier_ms >= f0,
                self.engine.frontier_ms == (if now_ms > f0 {
                    now_ms
                } else {
                    f0
                }),
                f == self.engine.frontier_ms,
                h == cfg.horizon_ms(),
                self.engine == evicted,
                self.queue.trades() == q0,
                self.last_flush_ms == old(self).last_flush_ms,
                forall|k: KeyV|
                    #[trigger] evicted.occs_at(k) == evict_views(
                        old(self).engine.occs_at(k),
                        f,
                        h,
                    ),
                0 <= i <= updates@.len(),
                forall|x: int|
                    0 <= x < updates@.len() ==> old(self).engine.has_key(
                        (#[trigger] updates@[x]).key@,
                    ) && update_describes(
                        updates@[x],
                        old(self).engine.occs_at(updates@[x].key@),
                        f,
                        h,
                    ),
                forall|x1: int, x2: int|
                    0 <= x1 < x2 < updates@.len() ==> updates@[x1].key@ != updates@[x2].key@,
                forall|k: KeyV|
                    old(self).engine.occs_at(k) != evict_views(
                        old(self).engine.occs_at(k),
                        f,
                        h,
                    ) ==> exists|x: int|
                        0 <= x < updates@.len() && (#[trigger] updates@[x].key@) == k,
                forall|x: int|
                    0 <= x < i && (#[trigger] updates@[x]).diff == 1i64 && !stale_at(
                        cfg,
                        updates@[x].key@,
                        f,
                    ) ==> self.gate.pending_of(updates@[x].key@) == Some(
                        (updates@[x].bar->Some_0, f),
                    ),
                forall|k: KeyV|
                    #[trigger] self.gate.pending_of(k) != old(self).gate.pending_of(k)
                        ==> exists|x: int|
                        0 <= x < i && (#[trigger] updates@[x].key@) == k && updates@[x].diff
                            == 1i64 && !stale_at(cfg, k, f),
                forall|k: KeyV|
                    stale_at(cfg, k, f) ==> #[trigger] self.gate.pending_of(k) == old(self).gate.pending_of(k),
            decreases updates@.len() - i,
        {
            let ghost g0: crate::gate::Gate = self.gate;
            proof {
                assert(update_describes(
                    updates@[i as int],
                    old(self).engine.occs_at(updates@[i as int].key@),
                    f,
                    h,
                ));
            }
            self.gate.on_update(&updates[i]);
            proof {
                let u = updates@[i as int];
                assert forall|x: int|
                    0 <= x < i + 1 && (#[trigger] updates@[x]).diff == 1i64 && !stale_at(
                        cfg,
                        updates@[x].key@,
                        f,
                    ) implies self.gate.pending_of(updates@[x].key@) == Some(
                    (updates@[x].bar->Some_0, f),
                ) by {
                    if x < i {
                        if u.diff > 0 && u.bar is Some && !stale_at(cfg, u.key@, f) {
                            assert(updates@[x].key@ != u.key@);
                        }
                    } else {
                        assert(u.diff == 1i64 && !stale_at(cfg, u.key@, f));
                    }
                }
                assert forall|k: KeyV|
                    #[trigger] self.gate.pending_of(k) != old(self).gate.pending_of(
                    k,
                ) implies exists|x: int|
                    0 <= x < i + 1 && (#[trigger] updates@[x].key@) == k && updates@[x].diff
                        == 1i64 && !stale_at(cfg, k, f) by {
                    if g0.pending_of(k) != old(self).gate.pending_of(k) {
                        let x0 = choose|x0: int|
                            0 <= x0 < i && (#[trigger] updates@[x0].key@) == k && updates@[x0].diff
                                == 1i64 && !stale_at(cfg, k, f);
                        assert(updates@[x0].key@ == k);
                    } else {
                        assert(updates@[i as int].key@ == k && u.diff == 1i64 && !stale_at(
                            cfg,
                            k,
                            f,
                        ));
                    }
                }
            }
            i = i + 1;
        }
        proof {
            assert forall|k: KeyV|
                #![trigger self.gate.pending_of(k)]
                (self.engine.occs_at(k) != old(self).engine.occs_at(k) && self.engine.occs_at(
                    k,
                ).len() > 0 && !stale_at(cfg, k, f)) implies (self.gate.pending_of(k) matches Some(
                p,
            ) && p.1 == f && bar_matches(self.engine.occs_at(k), p.0) && p.0.wf()) by {
                let x = choose|x: int|
                    0 <= x < updates@.len() && (#[trigger] updates@[x].key@) == k;
                assert(update_describes(updates@[x], old(self).engine.occs_at(k), f, h));
                assert(updates@[x].diff == 1i64);
            }
            assert forall|k: KeyV|
                #![trigger self.gate.pending_of(k)]
                (self.engine.occs_at(k) == old(self).engine.occs_at(k) || stale_at(cfg, k, f)
                    || self.engine.occs_at(k).len() == 0) implies self.gate.pending_of(k) == old(self).gate.pending_of(k) by {
                if !stale_at(cfg, k, f) && self.gate.pending_of(k) != old(self).gate.pending_of(
                    k,
                ) {
                    let x = choose|x: int|
                        0 <= x < updates@.len() && (#[trigger] updates@[x].key@) == k
                            && updates@[x].diff == 1i64 && !stale_at(cfg, k, f);
                    assert(update_describes(updates@[x], old(self).engine.occs_at(k), f, h));
                }
            }
        }
        let ghost mut c: int = 0;
        proof {
            assert(self.queue.trades() =~= q0.subrange(0, q0.len() as int));
        }
        loop
            invariant
                old(self).wf(),
                self.engine.wf(),
                self.gate.wf(),
                self.queue.wf(),
                self.gate.config == self.engine.config,
                self.queue.capacity == self.engine.config.input_queue_capacity,
                self.engine.config == old(self).engine.config,
                cfg == old(self).engine.config,
                f0 == old(self).engine.frontier_ms,
                self.engine.frontier_ms >= f0,
                self.engine.frontier_ms == (if now_ms > f0 {
                    now_ms
                } else {
                    f0
                }),
                f == self.engine.frontier_ms,
                f == old(self).engine.advanced_frontier(now_ms),
                h == cfg.horizon_ms(),
                bl == cfg.bar_length_ms,
                self.last_flush_ms == old(self).last_flush_ms,
                0 <= c <= q0.len(),
                q0 == old(self).queue.trades(),
                self.queue.trades() == q0.subrange(c, q0.len() as int),
                self.engine.next_arrival == old(self).engine.next_arrival + c,
                old(self).engine.next_arrival + q0.len() <= u64::MAX,
                forall|k: KeyV|
                    #[trigger] self.engine.occs_at(k) == flushed_occs(*old(self), now_ms, k, c),
                forall|jj: int|
                    0 <= jj < c ==> !reduce_fails(
                        flushed_occs(
                            *old(self),
                            now_ms,
                            spec_key_of(#[trigger] q0[jj], bl),
                            jj + 1,
                        ),
                    ),
                forall|k: KeyV|
                    occ_trades(#[trigger] self.engine.occs_at(k)).add(
                        queued_at(self.queue.trades(), k, bl),
                    ) == occ_trades(evicted.occs_at(k)).add(queued_at(q0, k, bl)),
                forall|k: KeyV|
                    #![trigger self.gate.pending_of(k)]
                    (self.engine.occs_at(k) != old(self).engine.occs_at(k)
                        && self.engine.occs_at(k).len() > 0 && !stale_at(cfg, k, f)) ==> (
                    self.gate.pending_of(k) matches Some(p) && p.1 == f && bar_matches(
                        self.engine.occs_at(k),
                        p.0,
                    ) && p.0.wf()),
                forall|k: KeyV|
                    #![trigger self.gate.pending_of(k)]
                    (self.engine.occs_at(k) == old(self).engine.occs_at(k) || stale_at(cfg, k, f)
                        || self.engine.occs_at(k).len() == 0) ==> self.gate.pending_of(k) == old(self).gate.pending_of(k),
            ensures
                self.engine.wf(),
                self.gate.wf(),
                self.queue.wf(),
                self.gate.config == self.engine.config,
                self.queue.capacity == self.engine.config.input_queue_capacity,
                self.engine.config == old(self).engine.config,
                self.engine.frontier_ms == (if now_ms > f0 {
                    now_ms
                } else {
                    f0
                }),
                f == self.engine.frontier_ms,
                self.queue.trades().len() == 0,
                c == q0.len(),
                forall|k: KeyV|
                    #[trigger] self.engine.occs_at(k) == flushed_occs(*old(self), now_ms, k, c),
                forall|jj: int|
                    0 <= jj < c ==> !reduce_fails(
                        flushed_occs(
                            *old(self),
                            now_ms,
                            spec_key_of(#[trigger] q0[jj], bl),
                            jj + 1,
                        ),
                    ),
                forall|k: KeyV|
                    occ_trades(#[trigger] self.engine.occs_at(k)).add(
                        queued_at(self.queue.trades(), k, bl),
                    ) == occ_trades(evicted.occs_at(k)).add(queued_at(q0, k, bl)),
                forall|k: KeyV|
                    #![trigger self.gate.pending_of(k)]
                    (self.engine.occs_at(k) != old(self).engine.occs_at(k)
                        && self.engine.occs_at(k).len() > 0 && !stale_at(cfg, k, f)) ==> (
                    self.gate.pending_of(k) matches Some(p) && p.1 == f && bar_matches(
                        self.engine.occs_at(k),
                        p.0,
                    ) && p.0.wf()),
                forall|k: KeyV|
                    #![trigger self.gate.pending_of(k)]
                    (self.engine.occs_at(k) == old(self).engine.occs_at(k) || stale_at(cfg, k, f)
                        || self.engine.occs_at(k).len() == 0) ==> self.gate.pending_of(k) == old(self).gate.pending_of(k),
            decreases self.queue.trades().len(),
        {
            let ghost qprev: Seq<TradeView> = self.queue.trades();
            let t: TradeRecord;
            match self.queue.take_front() {
                None => {
                    break ;
                },
                Some(front) => {
                    t = front;
                },
            }
            let ghost qmid: Seq<TradeView> = self.queue.trades();
            let ghost emid: Engine = self.engine;
            proof {
                assert(qmid == qprev.drop_first());
                assert(t@ == qprev.first());
                assert(t@ == q0[c]);
                assert(qmid =~= q0.subrange(c + 1, q0.len() as int));
            }
            match self.engine.insert(t) {
                Ok(u) => {
                    proof {
                        let kt: KeyV = emid.insert_key(t@);
                        let occv = emid.inserted_view(t@);
                        assert(occv == OccView {
                            trade: q0[c],
                            insert_time_ms: f,
                            arrival: (old(self).engine.next_arrival + c) as u64,
                        });
                        crate::engine::lemma_occ_trades_push(emid.occs_at(kt), occv);
                        assert forall|k: KeyV|
                            #[trigger] self.engine.occs_at(k) == flushed_occs(
                            *old(self),
                            now_ms,
                            k,
                            c + 1,
                        ) by {
                            if k == kt {
                                assert(self.engine.occs_at(k) == emid.occs_at(k).push(occv));
                                assert(flushed_occs(*old(self), now_ms, k, c + 1) == flushed_occs(
                                    *old(self),
                                    now_ms,
                                    k,
                                    c,
                                ).push(occv));
                            } else {
                                assert(self.engine.occs_at(k) == emid.occs_at(k));
                                assert(flushed_occs(*old(self), now_ms, k, c + 1) == flushed_occs(
                                    *old(self),
                                    now_ms,
                                    k,
                                    c,
                                ));
                            }
                        }
                        assert(!reduce_fails(flushed_occs(*old(self), now_ms, kt, c + 1)));
                        assert forall|jj: int| 0 <= jj < c + 1 implies !reduce_fails(
                            flushed_occs(
                                *old(self),
                                now_ms,
                                spec_key_of(#[trigger] q0[jj], bl),
                                jj + 1,
                            ),
                        ) by {
                            if jj == c {
                                assert(spec_key_of(q0[jj], bl) == kt);
                            }
                        }
                        assert forall|k: KeyV|
                            occ_trades(#[trigger] self.engine.occs_at(k)).add(
                                queued_at(qmid, k, bl),
                            ) == occ_trades(evicted.occs_at(k)).add(queued_at(q0, k, bl)) by {
                            if k == kt {
                                assert(occ_trades(self.engine.occs_at(k)) == occ_trades(
                                    emid.occs_at(k),
                                ).insert(t@));
                                assert(queued_at(qprev, k, bl) == queued_at(qmid, k, bl).insert(
                                    t@,
                                ));
                                assert(occ_trades(emid.occs_at(k)).insert(t@).add(
                                    queued_at(qmid, k, bl),
                                ) =~= occ_trades(emid.occs_at(k)).add(
                                    queued_at(qmid, k, bl).insert(t@),
                                ));
                                assert(occ_trades(emid.occs_at(k)).add(queued_at(qprev, k, bl))
                                    == occ_trades(evicted.occs_at(k)).add(queued_at(q0, k, bl)));
                            } else {
                                assert(self.engine.occs_at(k) == emid.occs_at(k));
                                assert(queued_at(qprev, k, bl) == queued_at(qmid, k, bl));
                                assert(occ_trades(emid.occs_at(k)).add(queued_at(qprev, k, bl))
                                    == occ_trades(evicted.occs_at(k)).add(queued_at(q0, k, bl)));
                            }
                        }
                    }
                    let ghost gmid: crate::gate::Gate = self.gate;
                    self.gate.on_update(&u);
                    proof {
                        let kt: KeyV = emid.insert_key(t@);
                        assert(u.key@ == kt && u.diff == 1i64 && u.logical_time_ms == f);
                        assert(self.engine.occs_at(kt) != old(self).engine.occs_at(kt)) by {
                            let n = self.engine.occs_at(kt).len();
                            assert(self.engine.occs_at(kt)[n - 1].arrival >= old(self).engine.next_arrival);
                            if self.engine.occs_at(kt) == old(self).engine.occs_at(kt) {
                                crate::engine::lemma_arrival_bound(old(self).engine, kt, n - 1);
                            }
                        }
                        assert forall|k: KeyV|
                            #![trigger self.gate.pending_of(k)]
                            (self.engine.occs_at(k) != old(self).engine.occs_at(k)
                                && self.engine.occs_at(k).len() > 0 && !stale_at(
                                cfg,
                                k,
                                f,
                            )) implies (self.gate.pending_of(k) matches Some(p) && p.1 == f
                            && bar_matches(self.engine.occs_at(k), p.0) && p.0.wf()) by {
                            if k == kt {
                                assert(!stale_at(cfg, kt, u.logical_time_ms));
                                assert(self.gate.pending_of(kt) == Some((u.bar->Some_0, f)));
                            } else {
                                assert(self.engine.occs_at(k) == emid.occs_at(k));
                                if u.diff > 0 && u.bar is Some && !stale_at(
                                    cfg,
                                    u.key@,
                                    u.logical_time_ms,
                                ) {
                                    assert(self.gate.pending_of(k) == gmid.pending_of(k));
                                } else {
                                    assert(self.gate.pending_of(k) == gmid.pending_of(k));
                                }
                            }
                        }
                        assert forall|k: KeyV|
                            #![trigger self.gate.pending_of(k)]
                            (self.engine.occs_at(k) == old(self).engine.occs_at(k) || stale_at(
                                cfg,
                                k,
                                f,
                            ) || self.engine.occs_at(k).len() == 0) implies self.gate.pending_of(
                            k,
                        ) == old(self).gate.pending_of(k) by {
                            if k == kt {
                                assert(stale_at(cfg, k, f) || self.engine.occs_at(k).len() == 0
                                    || self.engine.occs_at(k) == old(self).engine.occs_at(k));
                                assert(self.engine.occs_at(kt).len() > 0);
                                assert(self.engine.occs_at(kt) != old(self).engine.occs_at(kt));
                                assert(stale_at(cfg, k, f));
                                assert(self.gate.pending_of(k) == gmid.pending_of(k));
                                assert(gmid.pending_of(k) == old(self).gate.pending_of(k));
                            } else {
                                assert(self.engine.occs_at(k) == emid.occs_at(k));
                                assert(self.gate.pending_of(k) == gmid.pending_of(k));
                            }
                        }
                        c = c + 1;
                    }
                },
                Err(_) => {
                    proof {
                        let kt: KeyV = emid.insert_key(t@);
                        assert(reduce_fails(emid.occs_at(kt).push(emid.inserted_view(t@))));
                        assert(emid.occs_at(kt).push(emid.inserted_view(t@)) == flushed_occs(
                            *old(self),
                            now_ms,
                            kt,
                            c + 1,
                        ));
                        assert(spec_key_of(q0[c], bl) == kt);
                        assert(flush_fails(*old(self), now_ms));
                    }
                    return Err(EngineError::Overflow);
                },
            }
        }
        proof {
            assert(self.queue.trades() =~= Seq::<crate::trade::TradeView>::empty());
            assert(!flush_fails(*old(self), now_ms)) by {
                assert(!old(self).engine.advance_fails(now_ms));
                if exists|j: int|
                    0 <= j < q0.len() && reduce_fails(
                        flushed_occs(
                            *old(self),
                            now_ms,
                            spec_key_of(#[trigger] q0[j], bl),
                            j + 1,
                        ),
                    ) {
                    let j = choose|j: int|
                        0 <= j < q0.len() && reduce_fails(
                            flushed_occs(
                                *old(self),
                                now_ms,
                                spec_key_of(#[trigger] q0[j], bl),
                                j + 1,
                            ),
                        );
                    assert(!reduce_fails(
                        flushed_occs(*old(self), now_ms, spec_key_of(q0[j], bl), j + 1),
                    ));
                }
            }
        }
        self.last_flush_ms = now_ms;
        Ok(())
    }

    /// Tick at wall-clock `now_ms`: purge emptied keys and deliver every
    /// due bar out of holdback, each exactly once — a due held-back bar is
    /// in the result and forgotten, a non-due one stays, and nothing else
    /// is delivered (see [`Gate::tick`]).
    pub fn tick(&mut self, now_ms: u64) -> (r: Vec<(WindowKey, Bar)>)
        requires
            old(self).wf(),
        ensures
            final(self).wf(),
            final(self).engine.config == old(self).engine.config,
            final(self).engine.frontier_ms == old(self).engine.frontier_ms,
            forall|k: crate::engine::KeyV|
                final(self).engine.occs_at(k) == old(self).engine.occs_at(k),
            forall|k: crate::engine::KeyV|
                #![trigger old(self).gate.pending_of(k)]
                (match old(self).gate.pending_of(k) {
                    Some((b, lc)) => if crate::gate::due_at(
                        old(self).gate.config,
                        k,
                        lc,
                        now_ms,
                    ) {
                        final(self).gate.pending_of(k) is None && exists|x: int|
                            0 <= x < r@.len() && (#[trigger] r@[x]).0@ == k && r@[x].1 == b
                    } else {
                        final(self).gate.pending_of(k) == Some((b, lc))
                    },
                    None => final(self).gate.pending_of(k) is None,
                }),
            forall|x: int| 0 <= x < r@.len() ==> (#[trigger] r@[x]).1.wf(),
            forall|x: int|
                0 <= x < r@.len() ==> emitted_ok(old(self).gate, #[trigger] r@[x], now_ms),
            forall|x1: int, x2: int| 0 <= x1 < x2 < r@.len() ==> r@[x1].0@ != r@[x2].0@,
            forall|i: int|
                0 <= i < final(self).gate.entries@.len() ==> !crate::gate::due_at(
                    final(self).gate.config,
                    (#[trigger] final(self).gate.entries@[i]).key@,
                    final(self).gate.entries@[i].last_change_ms,
                    now_ms,
                ),
            (forall|i: int|
                0 <= i < old(self).gate.entries@.len() ==> !crate::gate::due_at(
                    old(self).gate.config,
                    (#[trigger] old(self).gate.entries@[i]).key@,
                    old(self).gate.entries@[i].last_change_ms,
                    now_ms,
                )) ==> r@.len() == 0,
    {
        self.engine.purge_empty();
        self.gate.tick(now_ms)
    }
}

} // verus!
