//! The per-query counter structure of the matcher: it counts, per song and
//! per time offset, how many hash coincidences a query has accumulated, and
//! yields the winning song once the whole query has been scanned.
use vstd::prelude::*;

verus! {

/// One counter cell: coincidences of one song at one time offset.
struct DeltaSlot {
    sid: i32,
    delta: i32,
    count: usize,
}

/// The best (highest) cell count seen for one song, over all offsets.
struct BestSlot {
    sid: i32,
    best: usize,
}

/// The count the cell list holds for `(s, d)`: the first matching cell's
/// count, or zero when no cell matches.
spec fn slots_count(sl: Seq<DeltaSlot>, s: int, d: int) -> nat
    decreases sl.len(),
{
    if sl.len() == 0 {
        0
    } else if sl[0].sid == s && sl[0].delta == d {
        sl[0].count as nat
    } else {
        slots_count(sl.drop_first(), s, d)
    }
}

/// The running maximum the best list holds for song `s`: the first matching
/// entry's value, or zero when no entry matches.
spec fn best_of(bs: Seq<BestSlot>, s: int) -> nat
    decreases bs.len(),
{
    if bs.len() == 0 {
        0
    } else if bs[0].sid == s {
        bs[0].best as nat
    } else {
        best_of(bs.drop_first(), s)
    }
}

/// Song `w` attains the count `m` at some offset.
pub open spec fn attains(c: MatchCounter, w: int, m: nat) -> bool {
    exists|d: int| c.count_of(w, d) == m
}

/// Some cell carries song `s` with count `c`.
spec fn cell_with(sl: Seq<DeltaSlot>, s: int, c: nat) -> bool {
    exists|k: int| 0 <= k < sl.len() && (#[trigger] sl[k]).sid == s && sl[k].count == c
}

/// No two cells share a `(sid, delta)` key.
spec fn slot_keys_unique(sl: Seq<DeltaSlot>) -> bool {
    forall|i: int, j: int|
        0 <= i < j < sl.len() ==> !(sl[i].sid == sl[j].sid && sl[i].delta == sl[j].delta)
}

/// No two best entries share a `sid`.
spec fn best_keys_unique(bs: Seq<BestSlot>) -> bool {
    forall|i: int, j: int| 0 <= i < j < bs.len() ==> bs[i].sid != bs[j].sid
}

proof fn lemma_slots_count_zero(sl: Seq<DeltaSlot>, s: int, d: int)
    requires
        forall|k: int| 0 <= k < sl.len() ==> !((#[trigger] sl[k]).sid == s && sl[k].delta == d),
    ensures
        slots_count(sl, s, d) == 0,
    decreases sl.len(),
{
    if sl.len() > 0 {
        assert(forall|k: int| 0 <= k < sl.drop_first().len() ==> sl.drop_first()[k] == sl[k + 1]);
        lemma_slots_count_zero(sl.drop_first(), s, d);
    }
}

/// A positive count is witnessed by a cell with that key.
proof fn lemma_slots_count_witness(sl: Seq<DeltaSlot>, s: int, d: int) -> (k: int)
    requires
        slots_count(sl, s, d) >= 1,
    ensures
        0 <= k < sl.len(),
        sl[k].sid == s,
        sl[k].delta == d,
    decreases sl.len(),
{
    if sl[0].sid == s && sl[0].delta == d {
        0
    } else {
        let k0 = lemma_slots_count_witness(sl.drop_first(), s, d);
        assert(sl[k0 + 1] == sl.drop_first()[k0]);
        k0 + 1
    }
}

proof fn lemma_unique_drop_first(sl: Seq<DeltaSlot>)
    requires
        slot_keys_unique(sl),
        sl.len() > 0,
    ensures
        slot_keys_unique(sl.drop_first()),
{
    assert(forall|i: int| 0 <= i < sl.drop_first().len() ==> sl.drop_first()[i] == sl[i + 1]);
}

/// With unique keys, the count looked up for a cell's key is that cell's count.
proof fn lemma_slots_count_at(sl: Seq<DeltaSlot>, k: int)
    requires
        slot_keys_unique(sl),
        0 <= k < sl.len(),
    ensures
        slots_count(sl, sl[k].sid as int, sl[k].delta as int) == sl[k].count,
    decreases sl.len(),
{
    if k == 0 {
    } else {
        assert(!(sl[0].sid == sl[k].sid && sl[0].delta == sl[k].delta));
        lemma_unique_drop_first(sl);
        assert(sl.drop_first()[k - 1] == sl[k]);
        lemma_slots_count_at(sl.drop_first(), k - 1);
    }
}

/// Replacing the cell at `k` by one with the same key changes the lookup at
/// that key to the new count and no other lookup.
proof fn lemma_slots_count_update(sl: Seq<DeltaSlot>, k: int, cell: DeltaSlot, s: int, d: int)
    requires
        0 <= k < sl.len(),
        cell.sid == sl[k].sid,
        cell.delta == sl[k].delta,
        slot_keys_unique(sl),
    ensures
        slots_count(sl.update(k, cell), s, d) == if sl[k].sid == s && sl[k].delta == d {
            cell.count as nat
        } else {
            slots_count(sl, s, d)
        },
    decreases sl.len(),
{
    let sl2 = sl.update(k, cell);
    if k == 0 {
        assert(sl2.drop_first() =~= sl.drop_first());
    } else {
        assert(sl2[0] == sl[0]);
        assert(sl2.drop_first() =~= sl.drop_first().update(k - 1, cell));
        lemma_unique_drop_first(sl);
        assert(sl.drop_first()[k - 1] == sl[k]);
        lemma_slots_count_update(sl.drop_first(), k - 1, cell, s, d);
        if sl[0].sid == s && sl[0].delta == d {
            assert(!(sl[k].sid == s && sl[k].delta == d));
        }
    }
}

/// Appending a cell whose key is absent changes the lookup at its key to its
/// count and no other lookup.
proof fn lemma_slots_count_push(sl: Seq<DeltaSlot>, cell: DeltaSlot, s: int, d: int)
    requires
        forall|j: int|
            0 <= j < sl.len() ==> !((#[trigger] sl[j]).sid == cell.sid && sl[j].delta
                == cell.delta),
    ensures
        slots_count(sl.push(cell), s, d) == if cell.sid == s && cell.delta == d {
            cell.count as nat
        } else {
            slots_count(sl, s, d)
        },
    decreases sl.len(),
{
    let sl2 = sl.push(cell);
    if sl.len() == 0 {
        assert(sl2[0] == cell);
        assert(sl2.drop_first() =~= Seq::<DeltaSlot>::empty());
        if !(cell.sid == s && cell.delta == d) {
            lemma_slots_count_zero(sl2.drop_first(), s, d);
        }
    } else {
        assert(sl2[0] == sl[0]);
        assert(sl2.drop_first() =~= sl.drop_first().push(cell));
        assert(forall|j: int| 0 <= j < sl.drop_first().len() ==> sl.drop_first()[j] == sl[j + 1]);
        lemma_slots_count_push(sl.drop_first(), cell, s, d);
        if sl[0].sid == s && sl[0].delta == d {
            assert(!(cell.sid == s && cell.delta == d));
        }
    }
}

proof fn lemma_best_of_zero(bs: Seq<BestSlot>, s: int)
    requires
        forall|b: int| 0 <= b < bs.len() ==> (#[trigger] bs[b]).sid != s,
    ensures
        best_of(bs, s) == 0,
    decreases bs.len(),
{
    if bs.len() > 0 {
        assert(forall|b: int| 0 <= b < bs.drop_first().len() ==> bs.drop_first()[b] == bs[b + 1]);
        lemma_best_of_zero(bs.drop_first(), s);
    }
}

/// A positive running maximum is witnessed by an entry with that value.
proof fn lemma_best_of_witness(bs: Seq<BestSlot>, s: int) -> (b: int)
    requires
        best_of(bs, s) >= 1,
    ensures
        0 <= b < bs.len(),
        bs[b].sid == s,
        bs[b].best == best_of(bs, s),
    decreases bs.len(),
{
    if bs[0].sid == s {
        0
    } else {
        let b0 = lemma_best_of_witness(bs.drop_first(), s);
        assert(bs[b0 + 1] == bs.drop_first()[b0]);
        b0 + 1
    }
}

proof fn lemma_best_unique_drop_first(bs: Seq<BestSlot>)
    requires
        best_keys_unique(bs),
        bs.len() > 0,
    ensures
        best_keys_unique(bs.drop_first()),
{
    assert(forall|i: int| 0 <= i < bs.drop_first().len() ==> bs.drop_first()[i] == bs[i + 1]);
}

/// With unique sids, the running maximum looked up for an entry's song is
/// that entry's value.
proof fn lemma_best_of_at(bs: Seq<BestSlot>, b: int)
    requires
        best_keys_unique(bs),
        0 <= b < bs.len(),
    ensures
        best_of(bs, bs[b].sid as int) == bs[b].best,
    decreases bs.len(),
{
    if b == 0 {
    } else {
        assert(bs[0].sid != bs[b].sid);
        lemma_best_unique_drop_first(bs);
        assert(bs.drop_first()[b - 1] == bs[b]);
        lemma_best_of_at(bs.drop_first(), b - 1);
    }
}

/// Replacing the entry at `b` by one with the same song changes the lookup
/// for that song to the new value and no other lookup.
proof fn lemma_best_of_update(bs: Seq<BestSlot>, b: int, entry: BestSlot, s: int)
    requires
        0 <= b < bs.len(),
        entry.sid == bs[b].sid,
        best_keys_unique(bs),
    ensures
        best_of(bs.update(b, entry), s) == if bs[b].sid == s {
            entry.best as nat
        } else {
            best_of(bs, s)
        },
    decreases bs.len(),
{
    let bs2 = bs.update(b, entry);
    if b == 0 {
        assert(bs2.drop_first() =~= bs.drop_first());
    } else {
        assert(bs2[0] == bs[0]);
        assert(bs2.drop_first() =~= bs.drop_first().update(b - 1, entry));
        lemma_best_unique_drop_first(bs);
        assert(bs.drop_first()[b - 1] == bs[b]);
        lemma_best_of_update(bs.drop_first(), b - 1, entry, s);
        if bs[0].sid == s {
            assert(bs[b].sid != s);
        }
    }
}

/// Appending an entry for a song without one changes the lookup for that
/// song to the new value and no other lookup.
proof fn lemma_best_of_push(bs: Seq<BestSlot>, entry: BestSlot, s: int)
    requires
        forall|b: int| 0 <= b < bs.len() ==> (#[trigger] bs[b]).sid != entry.sid,
    ensures
        best_of(bs.push(entry), s) == if entry.sid == s {
            entry.best as nat
        } else {
            best_of(bs, s)
        },
    decreases bs.len(),
{
    let bs2 = bs.push(entry);
    if bs.len() == 0 {
        assert(bs2[0] == entry);
        assert(bs2.drop_first() =~= Seq::<BestSlot>::empty());
        if entry.sid != s {
            lemma_best_of_zero(bs2.drop_first(), s);
        }
    } else {
        assert(bs2[0] == bs[0]);
        assert(bs2.drop_first() =~= bs.drop_first().push(entry));
        assert(forall|b: int| 0 <= b < bs.drop_first().len() ==> bs.drop_first()[b] == bs[b + 1]);
        lemma_best_of_push(bs.drop_first(), entry, s);
        if bs[0].sid == s {
            assert(entry.sid != s);
        }
    }
}

/// A cell carrying `(s, c)` has an index.
proof fn lemma_cell_with_witness(sl: Seq<DeltaSlot>, s: int, c: nat) -> (k: int)
    requires
        cell_with(sl, s, c),
    ensures
        0 <= k < sl.len(),
        sl[k].sid == s,
        sl[k].count == c,
{
    choose|k: int| 0 <= k < sl.len() && (#[trigger] sl[k]).sid == s && sl[k].count == c
}

/// The counter structure of one `find` call: a cell per song and offset that
/// has accumulated at least one coincidence, and a per-song running maximum.
pub struct MatchCounter {
    slots: Vec<DeltaSlot>,
    bests: Vec<BestSlot>,
}

impl MatchCounter {
    /// How many coincidences song `s` has accumulated at offset `d`.
    pub closed spec fn count_of(self, s: int, d: int) -> nat {
        slots_count(self.slots@, s, d)
    }

    /// Internal invariant: keys are unique, every cell holds at least one
    /// coincidence, every cell is dominated by its song's running maximum,
    /// and every running maximum is attained by some cell.
    pub closed spec fn wf(self) -> bool {
        &&& slot_keys_unique(self.slots@)
        &&& best_keys_unique(self.bests@)
        &&& forall|k: int| 0 <= k < self.slots@.len() ==> (#[trigger] self.slots@[k]).count >= 1
        &&& forall|k: int|
            0 <= k < self.slots@.len() ==> (#[trigger] self.slots@[k]).count <= best_of(
                self.bests@,
                self.slots@[k].sid as int,
            )
        &&& forall|b: int| 0 <= b < self.bests@.len() ==> (#[trigger] self.bests@[b]).best >= 1
        &&& forall|b: int|
            0 <= b < self.bests@.len() ==> cell_with(
                self.slots@,
                (#[trigger] self.bests@[b]).sid as int,
                self.bests@[b].best as nat,
            )
    }

    /// A fresh, empty counter.
    pub fn new() -> (r: MatchCounter)
        ensures
            r.wf(),
            forall|s: int, d: int| r.count_of(s, d) == 0,
    {
        let r = MatchCounter { slots: Vec::new(), bests: Vec::new() };
        proof {
            assert(forall|s: int, d: int| slots_count(r.slots@, s, d) == 0);
        }
        r
    }

    /// How many coincidences song `sid` has accumulated at offset `delta`.
    pub fn count(&self, sid: i32, delta: i32) -> (r: usize)
        ensures
            r == self.count_of(sid as int, delta as int),
    {
        let mut k: usize = 0;
        while k < self.slots.len()
            invariant
                k <= self.slots@.len(),
                forall|j: int|
                    0 <= j < k ==> !((#[trigger] self.slots@[j]).sid == sid && self.slots@[j].delta
                        == delta),
            decreases self.slots@.len() - k,
        {
            if self.slots[k].sid == sid && self.slots[k].delta == delta {
                proof {
                    lemma_slots_first_match(self.slots@, k as int, sid as int, delta as int);
                }
                return self.slots[k].count;
            }
            k += 1;
        }
        proof {
            lemma_slots_count_zero(self.slots@, sid as int, delta as int);
        }
        0
    }

    /// Index of the cell for `(sid, delta)`, if one exists.
    fn find_slot(&self, sid: i32, delta: i32) -> (r: Option<usize>)
        ensures
            (match r {
                Some(k) => k < self.slots@.len() && self.slots@[k as int].sid == sid
                    && self.slots@[k as int].delta == delta,
                None => forall|j: int|
                    0 <= j < self.slots@.len() ==> !((#[trigger] self.slots@[j]).sid == sid
                        && self.slots@[j].delta == delta),
            }),
    {
        let mut k: usize = 0;
        while k < self.slots.len()
            invariant
                k <= self.slots@.len(),
                forall|j: int|
                    0 <= j < k ==> !((#[trigger] self.slots@[j]).sid == sid && self.slots@[j].delta
                        == delta),
            decreases self.slots@.len() - k,
        {
            if self.slots[k].sid == sid && self.slots[k].delta == delta {
                return Some(k);
            }
            k += 1;
        }
        None
    }

    /// Index of the running maximum for `sid`, if one exists.
    fn find_best(&self, sid: i32) -> (r: Option<usize>)
        ensures
            (match r {
                Some(b) => b < self.bests@.len() && self.bests@[b as int].sid == sid,
                None => forall|j: int|
                    0 <= j < self.bests@.len() ==> (#[trigger] self.bests@[j]).sid != sid,
            }),
    {
        let mut k: usize = 0;
        while k < self.bests.len()
            invariant
                k <= self.bests@.len(),
                forall|j: int| 0 <= j < k ==> (#[trigger] self.bests@[j]).sid != sid,
            decreases self.bests@.len() - k,
        {
            if self.bests[k].sid == sid {
                return Some(k);
            }
            k += 1;
        }
        None
    }

    /// Record one coincidence of song `sid` at offset `delta`.
    pub fn observe(&mut self, sid: i32, delta: i32)
        requires
            old(self).wf(),
            old(self).count_of(sid as int, delta as int) < usize::MAX,
        ensures
            final(self).wf(),
            final(self).count_of(sid as int, delta as int) == old(self).count_of(
                sid as int,
                delta as int,
            ) + 1,
            forall|s: int, d: int|
                !(s == sid as int && d == delta as int) ==> final(self).count_of(s, d) == old(
                    self,
                ).count_of(s, d),
    {
        let ghost pre = *self;
        let slot_idx = self.find_slot(sid, delta);
        let nc: usize;
        match slot_idx {
            Some(k) => {
                proof {
                    lemma_slots_count_at(pre.slots@, k as int);
                }
                let c = self.slots[k].count;
                nc = c + 1;
                self.slots[k] = DeltaSlot { sid, delta, count: nc };
                proof {
                    assert forall|s: int, d: int| true implies slots_count(self.slots@, s, d) == (
                    if s == sid as int && d == delta as int {
                        nc as nat
                    } else {
                        slots_count(pre.slots@, s, d)
                    }) by {
                        lemma_slots_count_update(
                            pre.slots@,
                            k as int,
                            DeltaSlot { sid, delta, count: nc },
                            s,
                            d,
                        );
                    }
                }
            },
            None => {
                nc = 1;
                self.slots.push(DeltaSlot { sid, delta, count: 1 });
                proof {
                    lemma_slots_count_zero(pre.slots@, sid as int, delta as int);
                    assert forall|s: int, d: int| true implies slots_count(self.slots@, s, d) == (
                    if s == sid as int && d == delta as int {
                        1nat
                    } else {
                        slots_count(pre.slots@, s, d)
                    }) by {
                        lemma_slots_count_push(
                            pre.slots@,
                            DeltaSlot { sid, delta, count: 1 },
                            s,
                            d,
                        );
                    }
                }
            },
        }
        proof {
            assert(slot_keys_unique(self.slots@)) by {
                match slot_idx {
                    Some(k) => {
                        assert(forall|i: int|
                            0 <= i < self.slots@.len() && i != k ==> self.slots@[i]
                                == pre.slots@[i]);
                    },
                    None => {
                        assert(forall|i: int|
                            0 <= i < pre.slots@.len() ==> self.slots@[i] == pre.slots@[i]);
                    },
                }
            }
        }
        let best_idx = self.find_best(sid);
        let raised: bool;
        match best_idx {
            Some(b) => {
                if nc > self.bests[b].best {
                    self.bests[b] = BestSlot { sid, best: nc };
                    raised = true;
                } else {
                    raised = false;
                }
            },
            None => {
                self.bests.push(BestSlot { sid, best: nc });
                raised = true;
            },
        }
        proof {
            lemma_observe_wf(pre, *self, sid, delta, nc, slot_idx, best_idx, raised);
        }
    }

    /// The winning song and its best single-offset count, if any coincidence
    /// was recorded: no song attains a higher count at any offset, and among
    /// the songs attaining the winner's count the winner has the smallest
    /// identity.
    #[verifier::rlimit(50)]
    pub fn winner(&self) -> (r: Option<(i32, usize)>)
        requires
            self.wf(),
        ensures
            r is None ==> forall|s: int, d: int| self.count_of(s, d) == 0,
            r matches Some((w, m)) ==> m >= 1,
            r matches Some((w, m)) ==> attains(*self, w as int, m as nat),
            r matches Some((w, m)) ==> forall|s: int, d: int| self.count_of(s, d) <= m,
            r matches Some((w, m)) ==> forall|s: int, d: int|
                s < w as int ==> self.count_of(s, d) < m,
    {
        if self.bests.len() == 0 {
            proof {
                assert forall|s: int, d: int| self.count_of(s, d) == 0 by {
                    if self.count_of(s, d) >= 1 {
                        let k = lemma_slots_count_witness(self.slots@, s, d);
                    }
                }
            }
            return None;
        }
        let mut w: i32 = self.bests[0].sid;
        let mut m: usize = self.bests[0].best;
        let ghost mut widx: int = 0;
        let mut k: usize = 1;
        while k < self.bests.len()
            invariant
                self.wf(),
                1 <= k <= self.bests@.len(),
                0 <= widx < k,
                self.bests@[widx].sid == w,
                self.bests@[widx].best == m,
                forall|b: int| 0 <= b < k ==> (#[trigger] self.bests@[b]).best <= m,
                forall|b: int|
                    0 <= b < k && (#[trigger] self.bests@[b]).best == m ==> w <= self.bests@[b].sid,
            decreases self.bests@.len() - k,
        {
            let cand_best = self.bests[k].best;
            let cand_sid = self.bests[k].sid;
            if cand_best > m || (cand_best == m && cand_sid < w) {
                w = cand_sid;
                m = cand_best;
                proof {
                    widx = k as int;
                }
            }
            k += 1;
        }
        proof {
            lemma_winner_sound(*self, w as int, m as nat, widx);
            assert(attains(*self, w as int, m as nat));
            assert(forall|s: int, d: int| self.count_of(s, d) <= m as nat);
            assert(forall|s: int, d: int| s < w as int ==> self.count_of(s, d) < m as nat);
        }
        Some((w, m))
    }
}

/// With nothing before `k` matching the key, the lookup yields cell `k`.
proof fn lemma_slots_first_match(sl: Seq<DeltaSlot>, k: int, s: int, d: int)
    requires
        0 <= k < sl.len(),
        sl[k].sid == s,
        sl[k].delta == d,
        forall|j: int| 0 <= j < k ==> !((#[trigger] sl[j]).sid == s && sl[j].delta == d),
    ensures
        slots_count(sl, s, d) == sl[k].count,
    decreases k,
{
    if k == 0 {
    } else {
        assert(forall|j: int| 0 <= j < sl.drop_first().len() ==> sl.drop_first()[j] == sl[j + 1]);
        lemma_slots_first_match(sl.drop_first(), k - 1, s, d);
    }
}

/// From the scan facts over the best list, the winner's properties over the
/// counts themselves.
proof fn lemma_winner_sound(c: MatchCounter, w: int, m: nat, widx: int)
    requires
        c.wf(),
        0 <= widx < c.bests@.len(),
        c.bests@[widx].sid == w,
        c.bests@[widx].best == m,
        forall|b: int| 0 <= b < c.bests@.len() ==> (#[trigger] c.bests@[b]).best <= m,
        forall|b: int|
            0 <= b < c.bests@.len() && (#[trigger] c.bests@[b]).best == m ==> w <= c.bests@[b].sid,
    ensures
        m >= 1,
        attains(c, w, m),
        forall|s: int, d: int| c.count_of(s, d) <= m,
        forall|s: int, d: int| s < w ==> c.count_of(s, d) < m,
{
    let sl = c.slots@;
    let bs = c.bests@;
    // the winner's maximum is attained by a cell at some offset
    assert(cell_with(sl, w, m));
    let kw = lemma_cell_with_witness(sl, w, m);
    lemma_slots_count_at(sl, kw);
    assert(c.count_of(w, sl[kw].delta as int) == m);
    assert forall|s: int, d: int| c.count_of(s, d) <= m by {
        if c.count_of(s, d) >= 1 {
            let k = lemma_slots_count_witness(sl, s, d);
            lemma_slots_count_at(sl, k);
            assert(sl[k].count <= best_of(bs, s));
            let b = lemma_best_of_witness(bs, s);
            assert(bs[b].best <= m);
        }
    }
    assert forall|s: int, d: int| s < w implies c.count_of(s, d) < m by {
        if c.count_of(s, d) >= 1 {
            let k = lemma_slots_count_witness(sl, s, d);
            lemma_slots_count_at(sl, k);
            assert(sl[k].count <= best_of(bs, s));
            let b = lemma_best_of_witness(bs, s);
            assert(bs[b].best <= m);
            if bs[b].best == m {
                assert(w <= bs[b].sid);
                assert(false);
            }
        }
    }
}

/// After `observe` has adjusted the cell and the running maximum, the
/// counter's invariant holds again.
proof fn lemma_observe_wf(
    pre: MatchCounter,
    post: MatchCounter,
    sid: i32,
    delta: i32,
    nc: usize,
    slot_idx: Option<usize>,
    best_idx: Option<usize>,
    raised: bool,
)
    requires
        pre.wf(),
        nc >= 1,
        slot_keys_unique(post.slots@),
        // how the cells changed
        (match slot_idx {
            Some(k) => (k as int) < pre.slots@.len() && pre.slots@[k as int].sid == sid
                && pre.slots@[k as int].delta == delta && nc == pre.slots@[k as int].count + 1
                && post.slots@ == pre.slots@.update(k as int, DeltaSlot { sid, delta, count: nc }),
            None => (forall|j: int|
                0 <= j < pre.slots@.len() ==> !((#[trigger] pre.slots@[j]).sid == sid
                    && pre.slots@[j].delta == delta)) && nc == 1 && post.slots@
                == pre.slots@.push(DeltaSlot { sid, delta, count: 1 }),
        }),
        // how the running maxima changed
        (match best_idx {
            Some(b) => (b as int) < pre.bests@.len() && pre.bests@[b as int].sid == sid && (if nc
                > pre.bests@[b as int].best {
                raised && post.bests@ == pre.bests@.update(b as int, BestSlot { sid, best: nc })
            } else {
                !raised && post.bests@ == pre.bests@
            }),
            None => (forall|j: int|
                0 <= j < pre.bests@.len() ==> (#[trigger] pre.bests@[j]).sid != sid) && raised
                && post.bests@ == pre.bests@.push(BestSlot { sid, best: nc }),
        }),
    ensures
        post.wf(),
{
    let sl = post.slots@;
    let bs = post.bests@;
    let kn: int = match slot_idx {
        Some(k) => k as int,
        None => sl.len() - 1,
    };
    assert(sl[kn].sid == sid && sl[kn].delta == delta && sl[kn].count == nc);
    assert(forall|k: int| 0 <= k < sl.len() && k != kn ==> sl[k] == pre.slots@[k]);
    assert(best_keys_unique(bs)) by {
        match best_idx {
            Some(b) => {
                assert(forall|i: int| 0 <= i < bs.len() ==> bs[i].sid == pre.bests@[i].sid);
            },
            None => {
                assert(forall|i: int| 0 <= i < pre.bests@.len() ==> bs[i] == pre.bests@[i]);
            },
        }
    }
    // the lookup of every song's running maximum, after versus before
    assert forall|s: int| true implies best_of(bs, s) == (if s == sid as int && raised {
        nc as nat
    } else {
        best_of(pre.bests@, s)
    }) by {
        match best_idx {
            Some(b) => {
                if nc > pre.bests@[b as int].best {
                    lemma_best_of_update(pre.bests@, b as int, BestSlot { sid, best: nc }, s);
                } else {
                }
            },
            None => {
                lemma_best_of_push(pre.bests@, BestSlot { sid, best: nc }, s);
            },
        }
    }
    assert(best_of(pre.bests@, sid as int) == (match best_idx {
        Some(b) => pre.bests@[b as int].best as nat,
        None => 0nat,
    })) by {
        match best_idx {
            Some(b) => {
                lemma_best_of_at(pre.bests@, b as int);
            },
            None => {
                lemma_best_of_zero(pre.bests@, sid as int);
            },
        }
    }
    assert(nc <= best_of(bs, sid as int));
    // every cell holds at least one coincidence
    assert(forall|k: int| 0 <= k < sl.len() ==> (#[trigger] sl[k]).count >= 1);
    // every cell is dominated by its song's running maximum
    assert forall|k: int| 0 <= k < sl.len() implies (#[trigger] sl[k]).count <= best_of(
        bs,
        sl[k].sid as int,
    ) by {
        if k == kn {
        } else {
            assert(sl[k] == pre.slots@[k]);
            assert(pre.slots@[k].count <= best_of(pre.bests@, pre.slots@[k].sid as int));
        }
    }
    // every running maximum is positive
    assert forall|b: int| 0 <= b < bs.len() implies (#[trigger] bs[b]).best >= 1 by {
        match best_idx {
            Some(bi) => {
                if !(raised && b == bi as int) {
                    assert(bs[b] == pre.bests@[b]);
                }
            },
            None => {
                if b < bs.len() - 1 {
                    assert(bs[b] == pre.bests@[b]);
                }
            },
        }
    }
    // every running maximum is attained by some cell
    assert forall|b: int| 0 <= b < bs.len() implies cell_with(
        sl,
        (#[trigger] bs[b]).sid as int,
        bs[b].best as nat,
    ) by {
        let entry_new: bool = match best_idx {
            Some(bi) => raised && b == bi as int,
            None => b == bs.len() - 1,
        };
        if entry_new {
            assert(bs[b].sid == sid && bs[b].best == nc);
            assert(sl[kn].sid == sid as int && sl[kn].count == nc as nat);
            assert(cell_with(sl, sid as int, nc as nat));
        } else {
            assert(0 <= b < pre.bests@.len() && bs[b] == pre.bests@[b]);
            assert(cell_with(pre.slots@, pre.bests@[b].sid as int, pre.bests@[b].best as nat));
            let k0 = lemma_cell_with_witness(
                pre.slots@,
                pre.bests@[b].sid as int,
                pre.bests@[b].best as nat,
            );
            if k0 == kn {
                // the old witness cell is the adjusted one
                match slot_idx {
                    Some(ki) => {
                        assert(pre.slots@[k0].sid == sid);
                        match best_idx {
                            Some(bi) => {
                                assert(b == bi as int) by {
                                    if b != bi as int {
                                        assert(pre.bests@[b].sid == sid);
                                        assert(pre.bests@[bi as int].sid == sid);
                                        assert(!best_keys_unique(pre.bests@));
                                    }
                                }
                                // the old maximum equals the old count, so
                                // the new count passes it and it was raised,
                                // contradicting this branch
                                assert(pre.bests@[b].best == pre.slots@[k0].count);
                                assert(nc > pre.bests@[b].best);
                                assert(false);
                            },
                            None => {
                                assert(pre.bests@[b].sid != sid);
                                assert(false);
                            },
                        }
                    },
                    None => {
                        // the adjusted cell was appended, so the old witness
                        // index lies outside the old range
                        assert(k0 < pre.slots@.len());
                        assert(false);
                    },
                }
            } else {
                assert(sl[k0] == pre.slots@[k0]);
                assert(cell_with(sl, bs[b].sid as int, bs[b].best as nat));
            }
        }
    }
}

} // verus!
