//! The emission gate.
//!
//! The emission gate decouples engine-level churn (a bar mutates on every trade)
//! from one-shot emission.  It records the latest bar per key for positive
//! diffs, ignores withdrawals and stale changes, and on a periodic tick
//! hands out — and forgets — every bar whose window has closed and whose
//! grace period has elapsed.  Forgetting on emission is what makes
//! re-emission unobservable: a second tick at the same instant emits
//! nothing.

use vstd::prelude::*;

use crate::config::Config;
use crate::engine::{KeyV, Update};
use crate::window::{Bar, WindowKey};

verus! {

/// One held-back bar.
pub struct GateEntry {
    pub key: WindowKey,
    pub bar: Bar,
    /// Logical time of the last recorded change of this key.
    pub last_change_ms: u64,
}

/// The emission gate (see the module note).
pub struct Gate {
    pub config: Config,
    pub entries: Vec<GateEntry>,
}

/// A change is stale when its window has already left the retention
/// horizon at the change's logical time.
pub open spec fn stale_at(config: Config, k: KeyV, logical_time_ms: u64) -> bool {
    k.1 + config.retention_ms <= logical_time_ms
}

/// An entry is due at `now`: its window has closed and no change arrived
/// within the grace period.
pub open spec fn due_at(config: Config, k: KeyV, last_change_ms: u64, now_ms: u64) -> bool {
    &&& k.1 + config.bar_length_ms < now_ms
    &&& last_change_ms + config.grace_period_ms <= now_ms
}

impl Gate {
    /// Gate invariant: a usable configuration, pairwise distinct keys,
    /// internally consistent bars.
    pub open spec fn wf(self) -> bool {
        &&& self.config.wf()
        &&& forall|i1: int, i2: int|
            0 <= i1 < i2 < self.entries@.len() ==> self.entries@[i1].key@ != self.entries@[i2].key@
        &&& forall|i: int| 0 <= i < self.entries@.len() ==> (#[trigger] self.entries@[i]).bar.wf()
    }

    /// Whether some entry carries the key.
    pub open spec fn has_key(self, k: KeyV) -> bool {
        exists|i: int| 0 <= i < self.entries@.len() && self.entries@[i].key@ == k
    }

    /// Index of the entry carrying the key (unique under `wf`).
    pub open spec fn key_at(self, k: KeyV) -> int {
        choose|i: int| 0 <= i < self.entries@.len() && self.entries@[i].key@ == k
    }

    /// The held-back bar of a key and the logical time of its last
    /// change, if one is held back.
    pub open spec fn pending_of(self, k: KeyV) -> Option<(Bar, u64)> {
        if self.has_key(k) {
            Some(
                (self.entries@[self.key_at(k)].bar, self.entries@[self.key_at(k)].last_change_ms),
            )
        } else {
            None
        }
    }

    /// An empty gate.
    pub fn new(config: Config) -> (r: Gate)
        requires
            config.wf(),
        ensures
            r.wf(),
            r.config == config,
            r.entries@.len() == 0,
            forall|k: KeyV| r.pending_of(k) is None,
    {
        let g = Gate { config, entries: Vec::new() };
        proof {
            assert(forall|k: KeyV| !g.has_key(k));
        }
        g
    }

    /// Number of held-back bars.
    pub fn pending_count(&self) -> (r: usize)
        ensures
            r == self.entries@.len(),
    {
        self.entries.len()
    }

    /// Index of the entry carrying `key`, if any.
    fn find_key(&self, key: &WindowKey) -> (r: Option<usize>)
        requires
            self.wf(),
        ensures
            r matches Some(i) ==> i < self.entries@.len() && self.entries@[i as int].key@ == key@
                && self.has_key(key@) && self.key_at(key@) == i,
            r is None ==> !self.has_key(key@),
    {
        let mut i: usize = 0;
        while i < self.entries.len()
            invariant
                self.wf(),
                0 <= i <= self.entries@.len(),
                forall|j: int| 0 <= j < i ==> self.entries@[j].key@ != key@,
            decreases self.entries@.len() - i,
        {
            if self.entries[i].key.same_key(key) {
                proof {
                    let c = self.key_at(key@);
                    if c != i {
                        if c < i {
                            assert(self.entries@[c].key@ != self.entries@[i as int].key@);
                        } else {
                            assert(self.entries@[i as int].key@ != self.entries@[c].key@);
                        }
                    }
                }
                return Some(i);
            }
            i = i + 1;
        }
        None
    }

    /// Record one engine change.
    ///
    /// Withdrawals (`diff <= 0` or no bar) and stale changes — the window
    /// already past retention at the change's logical time — are ignored.
    /// A live positive change records the latest bar for its key, stamped
    /// with the change's logical time.  Because withdrawals are ignored, a
    /// key whose trades are all retracted before its window closes keeps
    /// its last recorded bar and still delivers it once the window closes;
    /// only retention-stale changes are silenced for good.
    pub fn on_update(&mut self, u: &Update)
        requires
            old(self).wf(),
            u.diff > 0 && u.bar is Some ==> u.bar->Some_0.wf(),
        ensures
            final(self).wf(),
            final(self).config == old(self).config,
            (u.diff <= 0 || u.bar is None || stale_at(old(self).config, u.key@, u.logical_time_ms))
                ==> (forall|k: KeyV| final(self).pending_of(k) == old(self).pending_of(k)),
            (u.diff > 0 && u.bar is Some && !stale_at(
                old(self).config,
                u.key@,
                u.logical_time_ms,
            )) ==> final(self).pending_of(u.key@) == Some(
                (u.bar->Some_0, u.logical_time_ms),
            ) && (forall|k: KeyV|
                k != u.key@ ==> final(self).pending_of(k) == old(self).pending_of(k)),
    {
        if u.diff <= 0 {
            return ;
        }
        let bar: Bar;
        match &u.bar {
            None => {
                return ;
            },
            Some(b) => {
                bar = *b;
            },
        }
        if u.key.window_start_ms as u128 + self.config.retention_ms as u128
            <= u.logical_time_ms as u128 {
            proof {
                assert(stale_at(old(self).config, u.key@, u.logical_time_ms));
            }
            return ;
        }
        proof {
            assert(!stale_at(old(self).config, u.key@, u.logical_time_ms));
        }
        match self.find_key(&u.key) {
            Some(i) => {
                let fresh = GateEntry {
                    key: u.key.duplicate(),
                    bar,
                    last_change_ms: u.logical_time_ms,
                };
                self.entries.set(i, fresh);
                proof {
                    lemma_gate_key_at(*self, u.key@, i as int);
                    assert forall|k: KeyV| k != u.key@ implies final(self).pending_of(k) == old(
                        self,
                    ).pending_of(k) by {
                        lemma_gate_unchanged_key(*old(self), *self, k);
                    }
                }
            },
            None => {
                let fresh = GateEntry {
                    key: u.key.duplicate(),
                    bar,
                    last_change_ms: u.logical_time_ms,
                };
                self.entries.push(fresh);
                proof {
                    let n: int = self.entries@.len() - 1;
                    assert forall|i1: int, i2: int|
                        0 <= i1 < i2 < self.entries@.len() implies self.entries@[i1].key@
                        != self.entries@[i2].key@ by {
                        if i2 == n {
                            assert(!old(self).has_key(u.key@));
                            assert(old(self).entries@[i1].key@ != u.key@);
                        }
                    }
                    lemma_gate_key_at(*self, u.key@, n);
                    assert forall|k: KeyV| k != u.key@ implies final(self).pending_of(k) == old(
                        self,
                    ).pending_of(k) by {
                        lemma_gate_unchanged_key(*old(self), *self, k);
                    }
                }
            },
        }
    }
}

impl Gate {
    /// Scan the held-back bars at wall-clock `now_ms`: every entry whose
    /// window has closed (`window_start + bar_length < now`) and whose
    /// grace period has elapsed is delivered and forgotten; the rest stay.
    ///
    /// Forgetting is the deduplication: after a tick no due entry remains,
    /// so a second tick at the same instant delivers nothing (see the last
    /// two clauses).
    #[verifier::rlimit(100)]
    pub fn tick(&mut self, now_ms: u64) -> (r: Vec<(WindowKey, Bar)>)
        requires
            old(self).wf(),
        ensures
            final(self).wf(),
            final(self).config == old(self).config,
            forall|k: KeyV|
                #![trigger old(self).pending_of(k)]
                (match old(self).pending_of(k) {
                    Some((b, lc)) => if due_at(old(self).config, k, lc, now_ms) {
                        final(self).pending_of(k) is None && exists|x: int|
                            0 <= x < r@.len() && (#[trigger] r@[x]).0@ == k && r@[x].1 == b
                    } else {
                        final(self).pending_of(k) == Some((b, lc))
                    },
                    None => final(self).pending_of(k) is None,
                }),
            forall|x: int| 0 <= x < r@.len() ==> (#[trigger] r@[x]).1.wf(),
            forall|x: int| 0 <= x < r@.len() ==> emitted_ok(*old(self), #[trigger] r@[x], now_ms),
            forall|x1: int, x2: int| 0 <= x1 < x2 < r@.len() ==> r@[x1].0@ != r@[x2].0@,
            forall|i: int|
                0 <= i < final(self).entries@.len() ==> !due_at(
                    final(self).config,
                    (#[trigger] final(self).entries@[i]).key@,
                    final(self).entries@[i].last_change_ms,
                    now_ms,
                ),
            (forall|i: int|
                0 <= i < old(self).entries@.len() ==> !due_at(
                    old(self).config,
                    (#[trigger] old(self).entries@[i]).key@,
                    old(self).entries@[i].last_change_ms,
                    now_ms,
                )) ==> r@.len() == 0,
    {
        let mut kept: Vec<GateEntry> = Vec::new();
        let mut out: Vec<(WindowKey, Bar)> = Vec::new();
        let ghost mut kmap: Seq<int> = Seq::empty();
        let ghost mut omap: Seq<int> = Seq::empty();
        let mut i: usize = 0;
        while i < self.entries.len()
            invariant
                self == old(self),
                self.wf(),
                0 <= i <= self.entries@.len(),
                kmap.len() == kept@.len(),
                omap.len() == out@.len(),
                forall|x: int| 0 <= x < kept@.len() ==> 0 <= #[trigger] kmap[x] < i,
                forall|x: int| 0 <= x < out@.len() ==> 0 <= #[trigger] omap[x] < i,
                forall|x: int|
                    0 <= x < kept@.len() ==> (#[trigger] kept@[x]).key@
                        == self.entries@[kmap[x]].key@ && kept@[x].bar == self.entries@[kmap[x]].bar
                        && kept@[x].last_change_ms == self.entries@[kmap[x]].last_change_ms
                        && !due_at(
                        self.config,
                        kept@[x].key@,
                        kept@[x].last_change_ms,
                        now_ms,
                    ),
                forall|x: int|
                    0 <= x < out@.len() ==> (#[trigger] out@[x]).0@ == self.entries@[omap[x]].key@
                        && out@[x].1 == self.entries@[omap[x]].bar && due_at(
                        self.config,
                        out@[x].0@,
                        self.entries@[omap[x]].last_change_ms,
                        now_ms,
                    ),
                forall|x1: int, x2: int| 0 <= x1 < x2 < kmap.len() ==> kmap[x1] < kmap[x2],
                forall|x1: int, x2: int| 0 <= x1 < x2 < omap.len() ==> omap[x1] < omap[x2],
                forall|ii: int| 0 <= ii < i ==> #[trigger] covered_by(ii, kmap, omap),
            decreases self.entries@.len() - i,
        {
            let entry = &self.entries[i];
            let ghost km0: Seq<int> = kmap;
            let ghost om0: Seq<int> = omap;
            let window_closed: bool = (entry.key.window_start_ms as u128
                + self.config.bar_length_ms as u128) < now_ms as u128;
            let grace_over: bool = (entry.last_change_ms as u128
                + self.config.grace_period_ms as u128) <= now_ms as u128;
            if window_closed && grace_over {
                proof {
                    assert(due_at(
                        self.config,
                        self.entries@[i as int].key@,
                        self.entries@[i as int].last_change_ms,
                        now_ms,
                    ));
                }
                out.push((entry.key.duplicate(), entry.bar));
                proof {
                    omap = omap.push(i as int);
                }
            } else {
                proof {
                    assert(!due_at(
                        self.config,
                        self.entries@[i as int].key@,
                        self.entries@[i as int].last_change_ms,
                        now_ms,
                    ));
                }
                kept.push(
                    GateEntry {
                        key: entry.key.duplicate(),
                        bar: entry.bar,
                        last_change_ms: entry.last_change_ms,
                    },
                );
                proof {
                    kmap = kmap.push(i as int);
                }
            }
            proof {
                assert forall|ii: int| 0 <= ii < i + 1 implies #[trigger] covered_by(
                    ii,
                    kmap,
                    omap,
                ) by {
                    if ii == i {
                        if kmap.len() > 0 && kmap[kmap.len() - 1] == ii {
                            assert(kmap[kmap.len() - 1] == ii);
                        } else {
                            assert(omap[omap.len() - 1] == ii);
                        }
                    } else {
                        assert(covered_by(ii, km0, om0));
                        if exists|x: int| 0 <= x < km0.len() && #[trigger] km0[x] == ii {
                            let x0 = choose|x0: int|
                                0 <= x0 < km0.len() && #[trigger] km0[x0] == ii;
                            assert(kmap[x0] == ii);
                        } else {
                            let x0 = choose|x0: int|
                                0 <= x0 < om0.len() && #[trigger] om0[x0] == ii;
                            assert(omap[x0] == ii);
                        }
                    }
                }
            }
            i = i + 1;
        }
        let ghost prev: Gate = *self;
        self.entries = kept;
        proof {
            assert forall|i1: int, i2: int|
                0 <= i1 < i2 < self.entries@.len() implies self.entries@[i1].key@
                != self.entries@[i2].key@ by {
                assert(prev.entries@[kmap[i1]].key@ != prev.entries@[kmap[i2]].key@);
            }
            assert forall|i1: int, i2: int| 0 <= i1 < i2 < out@.len() implies out@[i1].0@
                != out@[i2].0@ by {
                assert(prev.entries@[omap[i1]].key@ != prev.entries@[omap[i2]].key@);
            }
            assert(self.wf());
            assert forall|k: KeyV|
                #![trigger prev.pending_of(k)]
                (match prev.pending_of(k) {
                    Some((b, lc)) => if due_at(prev.config, k, lc, now_ms) {
                        self.pending_of(k) is None && exists|x: int|
                            0 <= x < out@.len() && (#[trigger] out@[x]).0@ == k && out@[x].1 == b
                    } else {
                        self.pending_of(k) == Some((b, lc))
                    },
                    None => self.pending_of(k) is None,
                }) by {
                if prev.has_key(k) {
                    let io = prev.key_at(k);
                    lemma_gate_key_at(prev, k, io);
                    assert(covered_by(io, kmap, omap));
                    if exists|x: int| 0 <= x < kmap.len() && #[trigger] kmap[x] == io {
                        let x = choose|x: int| 0 <= x < kmap.len() && #[trigger] kmap[x] == io;
                        lemma_gate_key_at(*self, k, x);
                    } else {
                        let x = choose|x: int| 0 <= x < omap.len() && #[trigger] omap[x] == io;
                        assert(out@[x].0@ == k && out@[x].1 == prev.entries@[io].bar);
                        assert(due_at(
                            prev.config,
                            k,
                            prev.entries@[io].last_change_ms,
                            now_ms,
                        ));
                        assert(!self.has_key(k)) by {
                            if self.has_key(k) {
                                let xx = self.key_at(k);
                                assert(prev.entries@[kmap[xx]].key@ == k);
                                if kmap[xx] < io {
                                    assert(prev.entries@[kmap[xx]].key@ != prev.entries@[io].key@);
                                } else if io < kmap[xx] {
                                    assert(prev.entries@[io].key@ != prev.entries@[kmap[xx]].key@);
                                }
                                assert(!due_at(
                                    self.config,
                                    self.entries@[xx].key@,
                                    self.entries@[xx].last_change_ms,
                                    now_ms,
                                ));
                            }
                        }
                    }
                } else {
                    assert(!self.has_key(k)) by {
                        if self.has_key(k) {
                            let xx = self.key_at(k);
                            assert(prev.entries@[kmap[xx]].key@ == k);
                            assert(prev.has_key(k));
                        }
                    }
                }
            }
            assert forall|x: int| 0 <= x < out@.len() implies (#[trigger] out@[x]).1.wf() by {
                let ii = omap[x];
                lemma_gate_key_at(prev, out@[x].0@, ii);
                assert(prev.entries@[ii].bar.wf());
                assert(out@[x].1 == prev.entries@[ii].bar);
            }
            assert forall|x: int| 0 <= x < out@.len() implies emitted_ok(
                *old(self),
                #[trigger] out@[x],
                now_ms,
            ) by {
                let ii = omap[x];
                lemma_gate_key_at(prev, out@[x].0@, ii);
                let lc0 = prev.entries@[ii].last_change_ms;
                assert(old(self).pending_of(out@[x].0@) == Some((out@[x].1, lc0)) && due_at(
                    old(self).config,
                    out@[x].0@,
                    lc0,
                    now_ms,
                ));
            }
            if out@.len() > 0 {
                assert(out@[0].0@ == prev.entries@[omap[0]].key@);
                assert(due_at(
                    prev.config,
                    out@[0].0@,
                    prev.entries@[omap[0]].last_change_ms,
                    now_ms,
                ));
            }
        }
        out
    }
}

/// The emitted pair was held back with its bar and was due at `now`.
pub open spec fn emitted_ok(g: Gate, pair: (WindowKey, Bar), now_ms: u64) -> bool {
    exists|lc: u64|
        g.pending_of(pair.0@) == Some((pair.1, lc)) && due_at(g.config, pair.0@, lc, now_ms)
}

/// Source index `ii` went either to the kept entries or to the emitted
/// ones.
spec fn covered_by(ii: int, kmap: Seq<int>, omap: Seq<int>) -> bool {
    ||| exists|x: int| 0 <= x < kmap.len() && #[trigger] kmap[x] == ii
    ||| exists|x: int| 0 <= x < omap.len() && #[trigger] omap[x] == ii
}

/// An entry holding the key pins down `key_at` and `pending_of`.
proof fn lemma_gate_key_at(g: Gate, k: KeyV, i: int)
    requires
        g.wf(),
        0 <= i < g.entries@.len(),
        g.entries@[i].key@ == k,
    ensures
        g.has_key(k),
        g.key_at(k) == i,
        g.pending_of(k) == Some((g.entries@[i].bar, g.entries@[i].last_change_ms)),
{
    assert(g.has_key(k));
    let c = g.key_at(k);
    if c != i {
        if c < i {
            assert(g.entries@[c].key@ != g.entries@[i].key@);
        } else {
            assert(g.entries@[i].key@ != g.entries@[c].key@);
        }
    }
}

/// A key carried by no changed entry reads the same pending bar in both
/// states.
proof fn lemma_gate_unchanged_key(before: Gate, after: Gate, k: KeyV)
    requires
        before.wf(),
        after.wf(),
        forall|i: int|
            0 <= i < after.entries@.len() && (#[trigger] after.entries@[i].key@) == k ==> i
                < before.entries@.len() && before.entries@[i].key@ == k && after.entries@[i].bar
                == before.entries@[i].bar && after.entries@[i].last_change_ms
                == before.entries@[i].last_change_ms,
        forall|i: int|
            0 <= i < before.entries@.len() && (#[trigger] before.entries@[i].key@) == k ==> i
                < after.entries@.len() && after.entries@[i].key@ == k,
    ensures
        after.pending_of(k) == before.pending_of(k),
{
    if after.has_key(k) {
        let i = after.key_at(k);
        lemma_gate_key_at(before, k, i);
        lemma_gate_key_at(after, k, i);
    } else if before.has_key(k) {
        let i = before.key_at(k);
        assert(0 <= i < before.entries@.len() && before.entries@[i].key@ == k);
        assert(after.entries@[i].key@ == k);
        assert(after.has_key(k));
    }
}

} // verus!
