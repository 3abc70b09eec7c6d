//! Session-level loot accounting. The engine always reports loot since the
//! last inventory sort; a session folds the difference between successive
//! reports into its own running totals.
use vstd::prelude::*;
use crate::catalog::FLAME_ELEMENTIUM_ID;
use crate::ranking::delta_entries;
use crate::replay::{add_delta, delta_pos, lemma_delta_pos_from};
use crate::replay_lemmas::delta_of;
use crate::report::{ItemDelta, LootSummary};

verus! {

/// The `(item, delta)` pairs of a report, in its order.
pub open spec fn snapshot_of(items: Seq<ItemDelta>) -> Seq<(Seq<char>, int)> {
    items.map_values(|d: ItemDelta| (d.config_base_id@, d.delta as int))
}

/// The totals after folding in `snap`, the report that follows `prev`: each
/// item of `snap` whose delta differs from its delta in `prev` (zero when
/// absent) adds the difference to its total. `None` when a total would leave
/// the `i64` range.
pub open spec fn fold_report(
    totals: Seq<(Seq<char>, int)>,
    prev: Seq<(Seq<char>, int)>,
    snap: Seq<(Seq<char>, int)>,
) -> Option<Seq<(Seq<char>, int)>>
    decreases snap.len(),
{
    if snap.len() == 0 {
        Some(totals)
    } else {
        match fold_report(totals, prev, snap.drop_last()) {
            None => None,
            Some(t) => {
                let id = snap.last().0;
                let diff = snap.last().1 - delta_of(prev, id);
                if diff == 0 {
                    Some(t)
                } else if i64::MIN <= delta_of(t, id) + diff <= i64::MAX {
                    Some(add_delta(t, id, diff))
                } else {
                    None
                }
            },
        }
    }
}

/// A total would leave the `i64` range.
#[derive(Debug, Clone, Copy, PartialEq, Eq)]
pub struct LedgerOverflow;

/// The loot a session has gained, item by item, and the last report it saw.
pub struct LootLedger {
    totals: Vec<(String, i64)>,
    last_report: Vec<(String, i64)>,
}

fn find_entry(v: &Vec<(String, i64)>, id: &String) -> (r: Option<usize>)
    ensures
        match r {
            Some(i) => delta_pos(delta_entries(v@), id@) == Some(i as int) && i < v@.len(),
            None => delta_pos(delta_entries(v@), id@) is None,
        },
{
    let ghost m = delta_entries(v@);
    proof {
        lemma_delta_pos_from(m, id@, 0);
    }
    let mut i: usize = 0;
    while i < v.len()
        invariant
            i <= v@.len(),
            m == delta_entries(v@),
            delta_pos(m, id@) == crate::replay::delta_pos_from(m, id@, i as int),
        decreases v@.len() - i,
    {
        if v[i].0 == *id {
            return Some(i);
        }
        i = i + 1;
    }
    None
}

fn value_of(v: &Vec<(String, i64)>, id: &String) -> (r: i64)
    ensures
        r == delta_of(delta_entries(v@), id@),
{
    match find_entry(v, id) {
        Some(i) => v[i].1,
        None => 0,
    }
}

fn copy_pairs(v: &Vec<(String, i64)>) -> (r: Vec<(String, i64)>)
    ensures
        delta_entries(r@) == delta_entries(v@),
{
    let mut out: Vec<(String, i64)> = Vec::new();
    let mut i: usize = 0;
    while i < v.len()
        invariant
            i <= v@.len(),
            delta_entries(out@) == delta_entries(v@).take(i as int),
        decreases v@.len() - i,
    {
        let ghost before = out@;
        out.push((v[i].0.clone(), v[i].1));
        assert(delta_entries(out@) =~= delta_entries(before).push(
            (v@[i as int].0@, v@[i as int].1 as int),
        ));
        assert(delta_entries(out@) =~= delta_entries(v@).take(i + 1));
        i = i + 1;
    }
    assert(delta_entries(v@).take(i as int) =~= delta_entries(v@));
    out
}

fn pairs_of(items: &Vec<ItemDelta>) -> (r: Vec<(String, i64)>)
    ensures
        delta_entries(r@) == snapshot_of(items@),
{
    let mut out: Vec<(String, i64)> = Vec::new();
    let mut i: usize = 0;
    while i < items.len()
        invariant
            i <= items@.len(),
            delta_entries(out@) == snapshot_of(items@).take(i as int),
        decreases items@.len() - i,
    {
        let ghost before = out@;
        out.push((items[i].config_base_id.clone(), items[i].delta));
        assert(delta_entries(out@) =~= delta_entries(before).push(
            (items@[i as int].config_base_id@, items@[i as int].delta as int),
        ));
        assert(delta_entries(out@) =~= snapshot_of(items@).take(i + 1));
        i = i + 1;
    }
    assert(snapshot_of(items@).take(i as int) =~= snapshot_of(items@));
    out
}

impl LootLedger {
    pub closed spec fn totals(&self) -> Seq<(Seq<char>, int)> {
        delta_entries(self.totals@)
    }

    pub closed spec fn last_report(&self) -> Seq<(Seq<char>, int)> {
        delta_entries(self.last_report@)
    }

    /// A ledger with no totals, counting from `current` on (from nothing
    /// when there is no report yet).
    pub fn start(current: Option<&LootSummary>) -> (r: LootLedger)
        ensures
            r.totals().len() == 0,
            r.last_report() == match current {
                Some(s) => snapshot_of(s.items@),
                None => Seq::empty(),
            },
    {
        let last_report = match current {
            Some(s) => pairs_of(&s.items),
            None => Vec::new(),
        };
        let r = LootLedger { totals: Vec::new(), last_report };
        proof {
            if current is None {
                assert(r.last_report() =~= Seq::empty());
            }
        }
        r
    }

    /// Folds in the next report: each item's total grows by the change of
    /// its delta since the last report. On overflow nothing changes.
    pub fn absorb(&mut self, report: &LootSummary) -> (r: Result<(), LedgerOverflow>)
        ensures
            match fold_report(old(self).totals(), old(self).last_report(), snapshot_of(report.items@)) {
                Some(t) => r is Ok && final(self).totals() == t && final(self).last_report()
                    == snapshot_of(report.items@),
                None => r is Err && final(self).totals() == old(self).totals()
                    && final(self).last_report() == old(self).last_report(),
            },
    {
        let snap = pairs_of(&report.items);
        let ghost start_totals = self.totals();
        let ghost prev = self.last_report();
        let ghost all = snapshot_of(report.items@);
        let mut work: Vec<(String, i64)> = copy_pairs(&self.totals);
        assert(fold_report(start_totals, prev, all.take(0)) == Some(start_totals));
        let mut i: usize = 0;
        while i < snap.len()
            invariant
                i <= snap@.len(),
                delta_entries(snap@) == all,
                all == snapshot_of(report.items@),
                prev == self.last_report(),
                start_totals == self.totals(),
                fold_report(start_totals, prev, all.take(i as int)) == Some(delta_entries(work@)),
            decreases snap@.len() - i,
        {
            assert(all.take(i + 1).drop_last() =~= all.take(i as int));
            let id = &snap[i].0;
            assert(all[i as int] == (id@, snap@[i as int].1 as int));
            assert(all.take(i + 1).last() == all[i as int]);
            let before = value_of(&self.last_report, id);
            let diff: i128 = snap[i].1 as i128 - before as i128;
            if diff != 0 {
                let cur = value_of(&work, id);
                let next: i128 = cur as i128 + diff;
                if next < -0x8000_0000_0000_0000i128 || next > 0x7fff_ffff_ffff_ffffi128 {
                    proof {
                        lemma_fold_stays_failed(start_totals, prev, all, i + 1);
                    }
                    return Err(LedgerOverflow);
                }
                let ghost w = delta_entries(work@);
                match find_entry(&work, id) {
                    Some(k) => {
                        work[k] = (id.clone(), next as i64);
                    },
                    None => {
                        work.push((id.clone(), next as i64));
                    },
                }
                assert(delta_entries(work@) =~= add_delta(w, id@, diff as int));
            }
            i = i + 1;
        }
        assert(all.take(i as int) =~= all);
        self.totals = work;
        self.last_report = snap;
        Ok(())
    }

    /// What the session has gained of `id`.
    pub fn gained(&self, id: &str) -> (r: i64)
        ensures
            r == delta_of(self.totals(), id@),
    {
        value_of(&self.totals, &id.to_owned())
    }

    /// Flame Elementium gained during the session.
    pub fn flame_elementium(&self) -> (r: i64)
        ensures
            r == delta_of(self.totals(), FLAME_ELEMENTIUM_ID@),
    {
        self.gained(FLAME_ELEMENTIUM_ID)
    }

    /// The sum of the session's totals over all items.
    pub fn total_items(&self) -> (r: i128)
        ensures
            r == sum_of(self.totals()),
    {
        total_of(&self.totals)
    }
}

proof fn lemma_fold_stays_failed(
    totals: Seq<(Seq<char>, int)>,
    prev: Seq<(Seq<char>, int)>,
    snap: Seq<(Seq<char>, int)>,
    k: int,
)
    requires
        0 < k <= snap.len(),
        fold_report(totals, prev, snap.take(k)) is None,
    ensures
        fold_report(totals, prev, snap) is None,
    decreases snap.len() - k,
{
    if k < snap.len() {
        assert(snap.take(k + 1).drop_last() =~= snap.take(k));
        lemma_fold_stays_failed(totals, prev, snap, k + 1);
    } else {
        assert(snap.take(k) =~= snap);
    }
}

/// The sum of the values of `v`.
pub open spec fn sum_of(v: Seq<(Seq<char>, int)>) -> int
    decreases v.len(),
{
    if v.len() == 0 {
        0
    } else {
        sum_of(v.drop_last()) + v.last().1
    }
}

fn total_of(v: &Vec<(String, i64)>) -> (r: i128)
    ensures
        r == sum_of(delta_entries(v@)),
{
    let ghost all = delta_entries(v@);
    let mut sum: i128 = 0;
    let mut i: usize = 0;
    while i < v.len()
        invariant
            i <= v@.len(),
            all == delta_entries(v@),
            sum == sum_of(all.take(i as int)),
            -(i * 0x8000_0000_0000_0000) <= sum <= i * 0x7fff_ffff_ffff_ffff,
        decreases v@.len() - i,
    {
        assert(all.take(i + 1).drop_last() =~= all.take(i as int));
        sum = sum + v[i].1 as i128;
        i = i + 1;
    }
    assert(all.take(i as int) =~= all);
    sum
}

/// The index of the first active session among `(id, is_active)` pairs.
pub open spec fn first_active(sessions: Seq<(String, bool)>, i: int) -> Option<int>
    decreases sessions.len() - i,
{
    if i < 0 || i >= sessions.len() {
        None
    } else if sessions[i].1 {
        Some(i)
    } else {
        first_active(sessions, i + 1)
    }
}

/// No session was named and none is active.
#[derive(Debug, Clone, Copy, PartialEq, Eq)]
pub struct NoActiveSession;

/// The session an operation applies to: the one `requested`, else the first
/// active one among `(id, is_active)` pairs.
pub fn resolve_session_id(sessions: &[(String, bool)], requested: Option<String>) -> (r: Result<
    String,
    NoActiveSession,
>)
    ensures
        match requested {
            Some(id) => r matches Ok(s) && s@ == id@,
            None => match first_active(sessions@, 0) {
                Some(i) => r matches Ok(s) && s@ == sessions@[i].0@,
                None => r is Err,
            },
        },
{
    if let Some(id) = requested {
        return Ok(id);
    }
    let mut i: usize = 0;
    while i < sessions.len()
        invariant
            i <= sessions@.len(),
            requested is None,
            first_active(sessions@, 0) == first_active(sessions@, i as int),
        decreases sessions@.len() - i,
    {
        if sessions[i].1 {
            return Ok(sessions[i].0.clone());
        }
        i = i + 1;
    }
    Err(NoActiveSession)
}

/// One map run and the loot gained during it.
pub struct MapRun {
    pub map_name: String,
    pub loot_gained: Vec<(String, i64)>,
}

impl MapRun {
    /// The sum of the run's gains over all items.
    pub fn total_items(&self) -> (r: i128)
        ensures
            r == sum_of(delta_entries(self.loot_gained@)),
    {
        total_of(&self.loot_gained)
    }
}

} // verus!
