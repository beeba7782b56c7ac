//! The snapshot membership map: each address's current weight, a per-address
//! history of checkpointed weights so that the weight effective at any past
//! height can be recovered, and the running total of all weights with its own
//! history.  What gets recorded is governed by a snapshot strategy.

use vstd::prelude::*;

use crate::table::{
    lemma_sorted_get_at, lemma_sum_index_bound, lemma_sum_insert, lemma_sum_remove,
    lemma_sum_update, lemma_tbl_get_index, sum_weights, tbl_get, Table,
};

verus! {

/// When history entries are written.
#[derive(Clone, Copy, Debug, PartialEq, Eq, Structural)]
pub enum Strategy {
    /// Record a history entry on every write.
    EveryBlock,
    /// Keep only the current value; historical queries approximate with it.
    Never,
    /// Record only at heights where a checkpoint was explicitly taken.
    Selected,
}

/// One recorded change of an address's weight: the weight that held from
/// `height` on, or `None` if the address was removed at that height.
#[derive(Clone, Copy, Debug, PartialEq, Eq)]
pub struct HistoryEntry {
    pub height: u64,
    pub weight: Option<u64>,
}

/// One recorded change of the total weight.
#[derive(Clone, Copy, Debug, PartialEq, Eq)]
pub struct TotalEntry {
    pub height: u64,
    pub total: u64,
}

/// The latest recorded state at or before `h`: `None` if nothing was
/// recorded by then, otherwise the recorded weight (itself `None` for a
/// removal).
pub open spec fn hist_at(s: Seq<HistoryEntry>, h: u64) -> Option<Option<u64>>
    decreases s.len(),
{
    if s.len() == 0 {
        None
    } else if s.last().height <= h {
        Some(s.last().weight)
    } else {
        hist_at(s.drop_last(), h)
    }
}

/// The latest recorded total at or before `h`, or `None` if nothing was
/// recorded by then.
pub open spec fn total_hist_at(s: Seq<TotalEntry>, h: u64) -> Option<u64>
    decreases s.len(),
{
    if s.len() == 0 {
        None
    } else if s.last().height <= h {
        Some(s.last().total)
    } else {
        total_hist_at(s.drop_last(), h)
    }
}

/// Appends a record at `h`, collapsing with the last entry when that entry
/// is already at `h`: one height never holds two entries.
pub open spec fn record_entry(s: Seq<HistoryEntry>, h: u64, w: Option<u64>) -> Seq<HistoryEntry> {
    if s.len() > 0 && s.last().height == h {
        s.update(s.len() - 1, HistoryEntry { height: h, weight: w })
    } else {
        s.push(HistoryEntry { height: h, weight: w })
    }
}

/// The same collapsing append, for the total's history.
pub open spec fn record_total(s: Seq<TotalEntry>, h: u64, t: u64) -> Seq<TotalEntry> {
    if s.len() > 0 && s.last().height == h {
        s.update(s.len() - 1, TotalEntry { height: h, total: t })
    } else {
        s.push(TotalEntry { height: h, total: t })
    }
}

/// A well-formed history: heights strictly increase and never exceed the
/// map's watermark.
pub open spec fn hist_wf(s: Seq<HistoryEntry>, wm: u64) -> bool {
    &&& forall|i: int| 0 <= i < s.len() ==> #[trigger] s[i].height <= wm
    &&& forall|i: int, j: int| 0 <= i < j < s.len() ==> s[i].height < s[j].height
}

/// A well-formed total history: heights strictly increase and never exceed
/// the watermark.
pub open spec fn total_hist_wf(s: Seq<TotalEntry>, wm: u64) -> bool {
    &&& forall|i: int| 0 <= i < s.len() ==> #[trigger] s[i].height <= wm
    &&& forall|i: int, j: int| 0 <= i < j < s.len() ==> s[i].height < s[j].height
}

/// A per-address membership weight with a checkpointed history and a running
/// total kept in lock-step.
pub struct SnapshotMap {
    /// When history entries are written.
    pub strategy: Strategy,
    /// Current weight of each member; an absent key is a non-member.
    pub current: Table<u64>,
    /// Recorded weight changes of each address.
    pub history: Table<Vec<HistoryEntry>>,
    /// Sum of all current weights, updated in lock-step with them.
    pub total: u64,
    /// Recorded changes of the total.
    pub total_history: Vec<TotalEntry>,
    /// Heights at which a checkpoint was taken, for `Strategy::Selected`.
    pub checkpoints: Vec<u64>,
    /// The highest height any write has used; writes never go back in time.
    pub watermark: u64,
}

impl SnapshotMap {
    /// The recorded history of `a`, oldest first.
    pub open spec fn hist_of(&self, a: Seq<char>) -> Seq<HistoryEntry> {
        match tbl_get(self.history.entries@, a) {
            Some(v) => v@,
            None => Seq::empty(),
        }
    }

    /// The current weight of `a`: `None` when `a` is not a member.
    pub open spec fn cur_of(&self, a: Seq<char>) -> Option<u64> {
        tbl_get(self.current.entries@, a)
    }

    /// Whether a write at height `h` records history under this strategy.
    pub open spec fn records_at(&self, h: u64) -> bool {
        match self.strategy {
            Strategy::EveryBlock => true,
            Strategy::Never => false,
            Strategy::Selected => self.checkpoints@.contains(h),
        }
    }

    /// The weight of `a` as of height `h`.  At or past the watermark (and
    /// always under `Strategy::Never`) this is the current weight; below it,
    /// the latest recorded state at or before `h`.
    pub open spec fn weight_at_spec(&self, a: Seq<char>, h: u64) -> Option<u64> {
        if self.strategy == Strategy::Never || h >= self.watermark {
            self.cur_of(a)
        } else {
            match hist_at(self.hist_of(a), h) {
                Some(w) => w,
                None => None,
            }
        }
    }

    /// The total weight as of height `h`, `0` before anything was recorded.
    pub open spec fn total_at_spec(&self, h: u64) -> u64 {
        if self.strategy == Strategy::Never || h >= self.watermark {
            self.total
        } else {
            match total_hist_at(self.total_history@, h) {
                Some(t) => t,
                None => 0,
            }
        }
    }

    /// Whether the map is well formed: stores sorted, the total equal to the
    /// sum of current weights, histories strictly ordered below the
    /// watermark, and, when every write is recorded, each address's latest
    /// record agreeing with its current weight.
    pub open spec fn wf(&self) -> bool {
        &&& self.current.sorted()
        &&& self.history.sorted()
        &&& self.total as int == sum_weights(self.current.entries@)
        &&& forall|a: Seq<char>| hist_wf(#[trigger] self.hist_of(a), self.watermark)
        &&& total_hist_wf(self.total_history@, self.watermark)
        &&& self.strategy == Strategy::EveryBlock ==> forall|a: Seq<char>|
            #[trigger] self.cur_of(a) == (if self.hist_of(a).len() == 0 {
                None::<u64>
            } else {
                self.hist_of(a).last().weight
            })
        &&& self.strategy == Strategy::EveryBlock ==> self.total == (
        if self.total_history@.len() == 0 {
            0u64
        } else {
            self.total_history@.last().total
        })
    }

    /// Two maps that agree on everything the well-formedness clauses read
    /// are equally well formed.
    proof fn lemma_wf_congruent(m1: &SnapshotMap, m2: &SnapshotMap)
        requires
            m1.wf(),
            m2.strategy == m1.strategy,
            m2.current == m1.current,
            m2.history == m1.history,
            m2.total == m1.total,
            m2.total_history == m1.total_history,
            m2.watermark == m1.watermark,
        ensures
            m2.wf(),
    {
        assert forall|a: Seq<char>| hist_wf(#[trigger] m2.hist_of(a), m2.watermark) by {
            assert(m2.hist_of(a) == m1.hist_of(a));
        }
        if m2.strategy == Strategy::EveryBlock {
            assert forall|a: Seq<char>|
                #[trigger] m2.cur_of(a) == (if m2.hist_of(a).len() == 0 {
                    None::<u64>
                } else {
                    m2.hist_of(a).last().weight
                }) by {
                assert(m2.hist_of(a) == m1.hist_of(a));
                assert(m2.cur_of(a) == m1.cur_of(a));
                assert(m1.cur_of(a) == (if m1.hist_of(a).len() == 0 {
                    None::<u64>
                } else {
                    m1.hist_of(a).last().weight
                }));
            }
        }
    }

    /// An empty map under the given strategy.
    pub fn new(strategy: Strategy) -> (r: SnapshotMap)
        ensures
            r.wf(),
            r.strategy == strategy,
            r.total == 0,
            r.watermark == 0,
            forall|a: Seq<char>| r.cur_of(a) is None,
            forall|a: Seq<char>| #[trigger] r.hist_of(a) == Seq::<HistoryEntry>::empty(),
            r.total_history@.len() == 0,
            r.checkpoints@.len() == 0,
    {
        let r = SnapshotMap {
            strategy,
            current: Table::new(),
            history: Table::new(),
            total: 0,
            total_history: Vec::new(),
            checkpoints: Vec::new(),
            watermark: 0,
        };
        r
    }

    /// The current total weight.
    pub fn total_weight(&self) -> (r: u64)
        ensures
            r == self.total,
    {
        self.total
    }

    /// Whether a checkpoint was taken at height `h`.
    pub fn has_checkpoint(&self, h: u64) -> (r: bool)
        ensures
            r == self.checkpoints@.contains(h),
    {
        let n = self.checkpoints.len();
        let mut i: usize = 0;
        while i < n
            invariant
                i <= n,
                n == self.checkpoints@.len(),
                forall|j: int| 0 <= j < i ==> self.checkpoints@[j] != h,
            decreases n - i,
        {
            if self.checkpoints[i] == h {
                return true;
            }
            i = i + 1;
        }
        false
    }

    /// Takes a checkpoint at height `h`: writes at `h` will record history
    /// under `Strategy::Selected`.  Taking one twice changes nothing.
    pub fn checkpoint(&mut self, h: u64)
        requires
            old(self).wf(),
        ensures
            final(self).wf(),
            final(self).checkpoints@ == if old(self).checkpoints@.contains(h) {
                old(self).checkpoints@
            } else {
                old(self).checkpoints@.push(h)
            },
            final(self).strategy == old(self).strategy,
            final(self).current == old(self).current,
            final(self).history == old(self).history,
            final(self).total == old(self).total,
            final(self).total_history == old(self).total_history,
            final(self).watermark == old(self).watermark,
    {
        if !self.has_checkpoint(h) {
            self.checkpoints.push(h);
        }
        proof {
            SnapshotMap::lemma_wf_congruent(old(self), self);
        }
    }

    /// The weight of `a` as of height `h`.
    #[verifier::loop_isolation(false)]
    pub fn weight_at(&self, a: &str, h: u64) -> (r: Option<u64>)
        ensures
            r == self.weight_at_spec(a@, h),
    {
        let use_current = match self.strategy {
            Strategy::Never => true,
            _ => h >= self.watermark,
        };
        if use_current {
            match self.current.get(a) {
                Some(w) => Some(*w),
                None => None,
            }
        } else {
            match self.history.get(a) {
                None => None,
                Some(v) => {
                    let mut i: usize = v.len();
                    proof {
                        assert(v@.take(i as int) =~= v@);
                    }
                    while i > 0
                        invariant
                            i <= v@.len(),
                            hist_at(v@, h) == hist_at(v@.take(i as int), h),
                            forall|j: int| i <= j < v@.len() ==> !((#[trigger] v@[j]).height <= h),
                        decreases i,
                    {
                        if v[i - 1].height <= h {
                            proof {
                                assert(v@.take(i as int).last() == v@[i as int - 1]);
                            }
                            return match v[i - 1].weight {
                                Some(w) => Some(w),
                                None => None,
                            };
                        }
                        proof {
                            assert(v@.take(i as int).drop_last() =~= v@.take(i as int - 1));
                            assert(v@.take(i as int).last() == v@[i as int - 1]);
                        }
                        i = i - 1;
                    }
                    proof {
                        assert(v@.take(0) =~= Seq::<HistoryEntry>::empty());
                    }
                    None
                },
            }
        }
    }

    /// The total weight as of height `h`, `0` before anything was recorded.
    #[verifier::loop_isolation(false)]
    pub fn total_at(&self, h: u64) -> (r: u64)
        ensures
            r == self.total_at_spec(h),
    {
        let use_current = match self.strategy {
            Strategy::Never => true,
            _ => h >= self.watermark,
        };
        if use_current {
            self.total
        } else {
            let mut i: usize = self.total_history.len();
            proof {
                assert(self.total_history@.take(i as int) =~= self.total_history@);
            }
            while i > 0
                invariant
                    i <= self.total_history@.len(),
                    total_hist_at(self.total_history@, h) == total_hist_at(
                        self.total_history@.take(i as int),
                        h,
                    ),
                    forall|j: int|
                        i <= j < self.total_history@.len() ==> !((
                        #[trigger] self.total_history@[j]).height <= h),
                decreases i,
            {
                if self.total_history[i - 1].height <= h {
                    proof {
                        assert(self.total_history@.take(i as int).last() == self.total_history@[i
                            as int - 1]);
                    }
                    return self.total_history[i - 1].total;
                }
                proof {
                    assert(self.total_history@.take(i as int).drop_last() =~= self.total_history@
                        .take(i as int - 1));
                    assert(self.total_history@.take(i as int).last() == self.total_history@[i as int
                        - 1]);
                }
                i = i - 1;
            }
            proof {
                assert(self.total_history@.take(0) =~= Seq::<TotalEntry>::empty());
            }
            0
        }
    }
}

/// Under `Strategy::EveryBlock`, the weight as of any height is what the
/// history lookup says: at or past the watermark the latest record is the
/// current value.
proof fn lemma_weight_at_is_lookup(m: &SnapshotMap, a: Seq<char>, hh: u64)
    requires
        m.wf(),
        m.strategy == Strategy::EveryBlock,
    ensures
        m.weight_at_spec(a, hh) == (match hist_at(m.hist_of(a), hh) {
            Some(w) => w,
            None => None::<u64>,
        }),
{
    if hh >= m.watermark {
        let s = m.hist_of(a);
        assert(hist_wf(s, m.watermark));
        assert(m.cur_of(a) == (if s.len() == 0 {
            None::<u64>
        } else {
            s.last().weight
        }));
        if s.len() > 0 {
            assert(s[s.len() - 1].height <= m.watermark);
            assert(hist_at(s, hh) == Some(s.last().weight));
        }
    }
}

/// Once a height is recorded past `hh`, the state as of `hh` is settled:
/// recording at a later height changes no lookup at or before `hh`.
proof fn lemma_stability(m1: &SnapshotMap, m2: &SnapshotMap, addr: Seq<char>, height: u64, w: Option<u64>)
    requires
        m1.wf(),
        m1.strategy == Strategy::EveryBlock,
        m2.strategy == Strategy::EveryBlock,
        m2.watermark == height,
        height >= m1.watermark,
        forall|a: Seq<char>| a != addr ==> #[trigger] m2.hist_of(a) == m1.hist_of(a),
        m2.hist_of(addr) == record_entry(m1.hist_of(addr), height, w),
    ensures
        forall|a: Seq<char>, hh: u64|
            hh < height ==> #[trigger] m2.weight_at_spec(a, hh) == m1.weight_at_spec(a, hh),
{
    assert forall|a: Seq<char>, hh: u64|
        hh < height implies #[trigger] m2.weight_at_spec(a, hh) == m1.weight_at_spec(a, hh) by {
        lemma_weight_at_is_lookup(m1, a, hh);
        let h1 = m1.hist_of(a);
        let h2 = m2.hist_of(a);
        assert(hist_wf(h1, m1.watermark));
        if a == addr {
            if h1.len() > 0 && h1.last().height == height {
                assert(h2 == h1.update(h1.len() - 1, HistoryEntry { height, weight: w }));
                assert(h2.len() == h1.len());
                assert(h2.last().height == height);
                assert(h2.drop_last() =~= h1.drop_last());
                assert(hist_at(h2, hh) == hist_at(h1, hh));
            } else {
                assert(h2 == h1.push(HistoryEntry { height, weight: w }));
                assert(h2.drop_last() =~= h1);
                assert(h2.last().height == height);
                assert(hist_at(h2, hh) == hist_at(h1, hh));
            }
        } else {
            assert(h2 == h1);
        }
    }
}

impl SnapshotMap {
    /// Writes `weight` as the weight of `addr` from `height` on, adjusts the
    /// total by the difference, and records history as the strategy directs.
    /// Heights never go backwards; writes at one height collapse to the last.
    #[verifier::rlimit(30)]
    pub fn set_weight(&mut self, addr: &str, weight: u64, height: u64)
        requires
            old(self).wf(),
            height >= old(self).watermark,
            old(self).total - (match old(self).cur_of(addr@) {
                Some(w) => w as int,
                None => 0,
            }) + weight <= u64::MAX,
        ensures
            final(self).wf(),
            final(self).strategy == old(self).strategy,
            final(self).checkpoints == old(self).checkpoints,
            final(self).watermark == height,
            forall|a: Seq<char>|
                final(self).cur_of(a) == if a == addr@ {
                    Some(weight)
                } else {
                    old(self).cur_of(a)
                },
            final(self).total as int == old(self).total - (match old(self).cur_of(addr@) {
                Some(w) => w as int,
                None => 0,
            }) + weight,
            forall|a: Seq<char>|
                a != addr@ ==> #[trigger] final(self).hist_of(a) == old(self).hist_of(a),
            final(self).hist_of(addr@) == if old(self).records_at(height) {
                record_entry(old(self).hist_of(addr@), height, Some(weight))
            } else {
                old(self).hist_of(addr@)
            },
            final(self).total_history@ == if old(self).records_at(height) {
                record_total(old(self).total_history@, height, final(self).total)
            } else {
                old(self).total_history@
            },
            old(self).strategy == Strategy::EveryBlock ==> forall|a: Seq<char>, hh: u64|
                hh < height ==> #[trigger] final(self).weight_at_spec(a, hh) == old(
                    self,
                ).weight_at_spec(a, hh),
    {
        let prev: u64 = match self.current.get(addr) {
            Some(w) => *w,
            None => 0,
        };
        proof {
            if old(self).cur_of(addr@) is Some {
                lemma_tbl_get_index(self.current.entries@, addr@);
                let i = choose|i: int|
                    0 <= i < self.current.entries@.len() && (
                    #[trigger] self.current.entries@[i].key)@ == addr@ && tbl_get(
                        self.current.entries@,
                        addr@,
                    ) == Some(self.current.entries@[i].val);
                lemma_sum_index_bound(self.current.entries@, i);
            }
        }
        let rec = match self.strategy {
            Strategy::EveryBlock => true,
            Strategy::Never => false,
            Strategy::Selected => self.has_checkpoint(height),
        };
        let ghost c0 = self.current.entries@;
        self.current.set(addr, weight);
        proof {
            let t = self.current.entries@;
            match tbl_get(c0, addr@) {
                Some(_) => {
                    let i = choose|i: int|
                        {
                            &&& 0 <= i < c0.len()
                            &&& c0[i].key@ == addr@
                            &&& t =~= #[trigger] c0.update(i, t[i])
                            &&& t[i].key@ == addr@
                            &&& t[i].val == weight
                        };
                    lemma_sum_update(c0, i, t[i]);
                    lemma_sorted_get_at(c0, i);
                },
                None => {
                    let i = choose|i: int|
                        {
                            &&& 0 <= i <= c0.len()
                            &&& t =~= #[trigger] c0.insert(i, t[i])
                            &&& t[i].key@ == addr@
                            &&& t[i].val == weight
                        };
                    lemma_sum_insert(c0, i, t[i]);
                },
            }
            assert(sum_weights(self.current.entries@) == sum_weights(c0) - prev + weight);
        }
        self.total = self.total - prev + weight;
        if rec {
            let mut hv: Vec<HistoryEntry> = match self.history.remove(addr) {
                Some(v) => v,
                None => Vec::new(),
            };
            let ghost h0 = hv@;
            proof {
                assert(h0 == old(self).hist_of(addr@));
            }
            let hl = hv.len();
            if hl > 0 && hv[hl - 1].height == height {
                let _dropped = hv.pop();
            }
            hv.push(HistoryEntry { height, weight: Some(weight) });
            proof {
                assert(hv@ =~= record_entry(h0, height, Some(weight)));
            }
            self.history.set(addr, hv);
            let tl = self.total_history.len();
            if tl > 0 && self.total_history[tl - 1].height == height {
                let _dropped = self.total_history.pop();
            }
            self.total_history.push(TotalEntry { height, total: self.total });
            proof {
                assert(self.total_history@ =~= record_total(
                    old(self).total_history@,
                    height,
                    self.total,
                ));
            }
        }
        self.watermark = height;
        proof {
            assert forall|a: Seq<char>|
                self.cur_of(a) == (if a == addr@ {
                    Some(weight)
                } else {
                    old(self).cur_of(a)
                }) by {
                assert(self.current.spec_get(a) == if a == addr@ {
                    Some(weight)
                } else {
                    old(self).current.spec_get(a)
                });
            }
            assert forall|a: Seq<char>|
                a != addr@ implies #[trigger] self.hist_of(a) == old(self).hist_of(a) by {
                assert(self.history.spec_get(a) == old(self).history.spec_get(a));
            }
            if rec {
                assert(self.history.spec_get(addr@) is Some);
            }
            assert(self.hist_of(addr@) == if rec {
                record_entry(old(self).hist_of(addr@), height, Some(weight))
            } else {
                old(self).hist_of(addr@)
            });
            self.lemma_after_write(old(self), addr@, Some(weight), weight, height, rec);
        }
    }

    /// Removes `addr` from the membership as of `height`, takes its weight
    /// out of the total, and records the removal as the strategy directs.
    #[verifier::rlimit(30)]
    pub fn remove(&mut self, addr: &str, height: u64)
        requires
            old(self).wf(),
            height >= old(self).watermark,
        ensures
            final(self).wf(),
            final(self).strategy == old(self).strategy,
            final(self).checkpoints == old(self).checkpoints,
            final(self).watermark == height,
            forall|a: Seq<char>|
                final(self).cur_of(a) == if a == addr@ {
                    None::<u64>
                } else {
                    old(self).cur_of(a)
                },
            final(self).total as int == old(self).total - (match old(self).cur_of(addr@) {
                Some(w) => w as int,
                None => 0,
            }),
            forall|a: Seq<char>|
                a != addr@ ==> #[trigger] final(self).hist_of(a) == old(self).hist_of(a),
            final(self).hist_of(addr@) == if old(self).records_at(height) {
                record_entry(old(self).hist_of(addr@), height, None)
            } else {
                old(self).hist_of(addr@)
            },
            final(self).total_history@ == if old(self).records_at(height) {
                record_total(old(self).total_history@, height, final(self).total)
            } else {
                old(self).total_history@
            },
            old(self).strategy == Strategy::EveryBlock ==> forall|a: Seq<char>, hh: u64|
                hh < height ==> #[trigger] final(self).weight_at_spec(a, hh) == old(
                    self,
                ).weight_at_spec(a, hh),
    {
        proof {
            if old(self).cur_of(addr@) is Some {
                lemma_tbl_get_index(self.current.entries@, addr@);
                let i = choose|i: int|
                    0 <= i < self.current.entries@.len() && (
                    #[trigger] self.current.entries@[i].key)@ == addr@ && tbl_get(
                        self.current.entries@,
                        addr@,
                    ) == Some(self.current.entries@[i].val);
                lemma_sum_index_bound(self.current.entries@, i);
            }
        }
        let rec = match self.strategy {
            Strategy::EveryBlock => true,
            Strategy::Never => false,
            Strategy::Selected => self.has_checkpoint(height),
        };
        let ghost c0 = self.current.entries@;
        let removed = self.current.remove(addr);
        let prev: u64 = match removed {
            Some(w) => w,
            None => 0,
        };
        proof {
            match tbl_get(c0, addr@) {
                Some(_) => {
                    let i = choose|i: int|
                        {
                            &&& 0 <= i < c0.len()
                            &&& c0[i].key@ == addr@
                            &&& self.current.entries@ =~= #[trigger] c0.remove(i)
                        };
                    lemma_sum_remove(c0, i);
                    lemma_sorted_get_at(c0, i);
                },
                None => {},
            }
            assert(sum_weights(self.current.entries@) == sum_weights(c0) - prev);
        }
        self.total = self.total - prev;
        if rec {
            let mut hv: Vec<HistoryEntry> = match self.history.remove(addr) {
                Some(v) => v,
                None => Vec::new(),
            };
            let ghost h0 = hv@;
            proof {
                assert(h0 == old(self).hist_of(addr@));
            }
            let hl = hv.len();
            if hl > 0 && hv[hl - 1].height == height {
                let _dropped = hv.pop();
            }
            hv.push(HistoryEntry { height, weight: None });
            proof {
                assert(hv@ =~= record_entry(h0, height, None));
            }
            self.history.set(addr, hv);
            let tl = self.total_history.len();
            if tl > 0 && self.total_history[tl - 1].height == height {
                let _dropped = self.total_history.pop();
            }
            self.total_history.push(TotalEntry { height, total: self.total });
            proof {
                assert(self.total_history@ =~= record_total(
                    old(self).total_history@,
                    height,
                    self.total,
                ));
            }
        }
        self.watermark = height;
        proof {
            assert forall|a: Seq<char>|
                self.cur_of(a) == (if a == addr@ {
                    None::<u64>
                } else {
                    old(self).cur_of(a)
                }) by {
                assert(self.current.spec_get(a) == if a == addr@ {
                    None::<u64>
                } else {
                    old(self).current.spec_get(a)
                });
            }
            assert forall|a: Seq<char>|
                a != addr@ implies #[trigger] self.hist_of(a) == old(self).hist_of(a) by {
                assert(self.history.spec_get(a) == old(self).history.spec_get(a));
            }
            if rec {
                assert(self.history.spec_get(addr@) is Some);
            }
            assert(self.hist_of(addr@) == if rec {
                record_entry(old(self).hist_of(addr@), height, None)
            } else {
                old(self).hist_of(addr@)
            });
            self.lemma_after_write(old(self), addr@, None, 0, height, rec);
        }
    }

    /// Re-establishes well-formedness and the settled-history property after
    /// one write of `addr` at `height`.
    proof fn lemma_after_write(
        &self,
        pre: &SnapshotMap,
        addr: Seq<char>,
        w: Option<u64>,
        wv: u64,
        height: u64,
        rec: bool,
    )
        requires
            pre.wf(),
            height >= pre.watermark,
            rec == pre.records_at(height),
            self.strategy == pre.strategy,
            self.checkpoints == pre.checkpoints,
            self.watermark == height,
            self.current.sorted(),
            self.history.sorted(),
            self.total as int == sum_weights(self.current.entries@),
            forall|a: Seq<char>|
                self.cur_of(a) == if a == addr {
                    w
                } else {
                    pre.cur_of(a)
                },
            w == Some(wv) || w is None,
            forall|a: Seq<char>| a != addr ==> #[trigger] self.hist_of(a) == pre.hist_of(a),
            self.hist_of(addr) == if rec {
                record_entry(pre.hist_of(addr), height, w)
            } else {
                pre.hist_of(addr)
            },
            self.total_history@ == if rec {
                record_total(pre.total_history@, height, self.total)
            } else {
                pre.total_history@
            },
        ensures
            self.wf(),
            pre.strategy == Strategy::EveryBlock ==> forall|a: Seq<char>, hh: u64|
                hh < height ==> #[trigger] self.weight_at_spec(a, hh) == pre.weight_at_spec(a, hh),
    {
        let h0 = pre.hist_of(addr);
        let h1 = self.hist_of(addr);
        assert(hist_wf(h0, pre.watermark));
        // histories stay well formed under the higher watermark
        assert forall|a: Seq<char>| hist_wf(#[trigger] self.hist_of(a), self.watermark) by {
            if a != addr {
                assert(self.hist_of(a) == pre.hist_of(a));
                assert(hist_wf(pre.hist_of(a), pre.watermark));
            } else {
                if rec {
                    if h0.len() > 0 && h0.last().height == height {
                        assert(h1 == h0.update(h0.len() - 1, HistoryEntry { height, weight: w }));
                        assert(forall|i: int|
                            0 <= i < h1.len() - 1 ==> h1[i] == h0[i]);
                    } else {
                        assert(h1 == h0.push(HistoryEntry { height, weight: w }));
                        if h0.len() > 0 {
                            assert(h0[h0.len() - 1].height <= pre.watermark);
                        }
                    }
                }
            }
        }
        // the total history stays well formed
        let t0 = pre.total_history@;
        let t1 = self.total_history@;
        if rec {
            if t0.len() > 0 && t0.last().height == height {
                assert(t1 == t0.update(t0.len() - 1, TotalEntry { height, total: self.total }));
                assert(forall|i: int| 0 <= i < t1.len() - 1 ==> t1[i] == t0[i]);
            } else {
                assert(t1 == t0.push(TotalEntry { height, total: self.total }));
                if t0.len() > 0 {
                    assert(t0[t0.len() - 1].height <= pre.watermark);
                }
            }
        }
        // under every-write recording, the latest record mirrors the current
        if self.strategy == Strategy::EveryBlock {
            assert(rec);
            assert forall|a: Seq<char>|
                #[trigger] self.cur_of(a) == (if self.hist_of(a).len() == 0 {
                    None::<u64>
                } else {
                    self.hist_of(a).last().weight
                }) by {
                if a != addr {
                    assert(self.hist_of(a) == pre.hist_of(a));
                    assert(pre.cur_of(a) == (if pre.hist_of(a).len() == 0 {
                        None::<u64>
                    } else {
                        pre.hist_of(a).last().weight
                    }));
                } else {
                    assert(h1.len() > 0 && h1.last().weight == w);
                }
            }
            lemma_stability(pre, self, addr, height, w);
        }
    }
}

} // verus!
