//! Orderings of the replay's results: deltas by descending magnitude (ties in
//! first-counted order), slots by `(page, slot)`.
use vstd::prelude::*;
use crate::catalog::ItemCatalog;
use crate::events::{BagEvent, SlotModel};

verus! {

pub open spec fn magnitude(x: int) -> int {
    if x < 0 {
        -x
    } else {
        x
    }
}

/// The entries of `d` whose delta is not zero, in order.
pub open spec fn nonzero(d: Seq<(Seq<char>, int)>) -> Seq<(Seq<char>, int)>
    decreases d.len(),
{
    if d.len() == 0 {
        d
    } else if d.last().1 == 0 {
        nonzero(d.drop_last())
    } else {
        nonzero(d.drop_last()).push(d.last())
    }
}

/// The first index of an entry of largest magnitude.
pub open spec fn first_max(d: Seq<(Seq<char>, int)>) -> int
    decreases d.len(),
{
    if d.len() <= 1 {
        0
    } else {
        let m = first_max(d.drop_last());
        if magnitude(d.last().1) > magnitude(d[m].1) {
            d.len() - 1
        } else {
            m
        }
    }
}

pub proof fn lemma_first_max(d: Seq<(Seq<char>, int)>)
    requires
        d.len() > 0,
    ensures
        0 <= first_max(d) < d.len(),
        forall|j: int|
            0 <= j < d.len() ==> magnitude(#[trigger] d[j].1) <= magnitude(d[first_max(d)].1),
        forall|j: int|
            0 <= j < first_max(d) ==> magnitude(#[trigger] d[j].1) < magnitude(d[first_max(d)].1),
    decreases d.len(),
{
    if d.len() > 1 {
        let p = d.drop_last();
        lemma_first_max(p);
        let m = first_max(d);
        assert(p[first_max(p)] == d[first_max(p)]);
        assert forall|j: int| 0 <= j < d.len() implies magnitude(#[trigger] d[j].1) <= magnitude(
            d[m].1,
        ) by {
            if j < p.len() {
                assert(d[j] == p[j]);
            }
        }
        assert forall|j: int| 0 <= j < m implies magnitude(#[trigger] d[j].1) < magnitude(
            d[m].1,
        ) by {
            if j < p.len() {
                assert(d[j] == p[j]);
            }
        }
    }
}

/// `d` ordered by descending magnitude of the delta; among equal magnitudes
/// the earlier entry comes first.
pub open spec fn by_magnitude(d: Seq<(Seq<char>, int)>) -> Seq<(Seq<char>, int)>
    decreases d.len(),
    via by_magnitude_decreases
{
    if d.len() == 0 {
        d
    } else {
        let m = first_max(d);
        seq![d[m]] + by_magnitude(d.remove(m))
    }
}

#[via_fn]
proof fn by_magnitude_decreases(d: Seq<(Seq<char>, int)>) {
    if d.len() > 0 {
        lemma_first_max(d);
    }
}

/// Every entry that survives the filter is an entry of `d` with a non-zero
/// delta.
pub proof fn lemma_nonzero_members(d: Seq<(Seq<char>, int)>)
    ensures
        forall|k: int|
            0 <= k < nonzero(d).len() ==> (#[trigger] nonzero(d)[k]).1 != 0 && d.contains(
                nonzero(d)[k],
            ),
    decreases d.len(),
{
    if d.len() > 0 {
        let p = d.drop_last();
        lemma_nonzero_members(p);
        assert forall|k: int| 0 <= k < nonzero(d).len() implies (#[trigger] nonzero(d)[k]).1 != 0
            && d.contains(nonzero(d)[k]) by {
            if k < nonzero(p).len() {
                assert(nonzero(d)[k] == nonzero(p)[k]);
                assert(nonzero(p)[k].1 != 0 && p.contains(nonzero(p)[k]));
                let j = choose|j: int| 0 <= j < p.len() && p[j] == nonzero(p)[k];
                assert(d[j] == p[j]);
            } else {
                assert(nonzero(d)[k] == d[d.len() - 1]);
            }
        }
    }
}

/// Ranking reorders `d`: it keeps the length, and each ranked entry is an
/// entry of `d`.
pub proof fn lemma_by_magnitude_members(d: Seq<(Seq<char>, int)>)
    ensures
        by_magnitude(d).len() == d.len(),
        forall|k: int| 0 <= k < d.len() ==> d.contains(#[trigger] by_magnitude(d)[k]),
    decreases d.len(),
{
    if d.len() > 0 {
        lemma_first_max(d);
        let m = first_max(d);
        let rest = d.remove(m);
        lemma_by_magnitude_members(rest);
        assert forall|k: int| 0 <= k < d.len() implies d.contains(#[trigger] by_magnitude(d)[k]) by {
            if k == 0 {
                assert(by_magnitude(d)[0] == d[m]);
            } else {
                assert(by_magnitude(d)[k] == by_magnitude(rest)[k - 1]);
                assert(rest.contains(by_magnitude(rest)[k - 1]));
                let j = choose|j: int| 0 <= j < rest.len() && rest[j] == by_magnitude(rest)[k - 1];
                if j < m {
                    assert(rest[j] == d[j]);
                } else {
                    assert(rest[j] == d[j + 1]);
                }
            }
        }
    }
}

/// The ranking is sorted: magnitudes never grow along it.
pub proof fn lemma_by_magnitude_sorted(d: Seq<(Seq<char>, int)>)
    ensures
        forall|i: int, j: int|
            0 <= i < j < by_magnitude(d).len() ==> magnitude(#[trigger] by_magnitude(d)[i].1)
                >= magnitude(#[trigger] by_magnitude(d)[j].1),
    decreases d.len(),
{
    if d.len() > 0 {
        lemma_first_max(d);
        let m = first_max(d);
        let rest = d.remove(m);
        lemma_by_magnitude_sorted(rest);
        lemma_by_magnitude_members(rest);
        let r = by_magnitude(d);
        assert forall|i: int, j: int| 0 <= i < j < r.len() implies magnitude(#[trigger] r[i].1)
            >= magnitude(#[trigger] r[j].1) by {
            assert(r[j] == by_magnitude(rest)[j - 1]);
            if i == 0 {
                assert(rest.contains(by_magnitude(rest)[j - 1]));
                let k = choose|k: int| 0 <= k < rest.len() && rest[k] == by_magnitude(rest)[j - 1];
                if k < m {
                    assert(rest[k] == d[k]);
                } else {
                    assert(rest[k] == d[k + 1]);
                }
            } else {
                assert(r[i] == by_magnitude(rest)[i - 1]);
            }
        }
    }
}

/// The ranking is stable: two ranked entries of equal magnitude stand in
/// the same order as entries of `d` that they are.
pub proof fn lemma_by_magnitude_stable(d: Seq<(Seq<char>, int)>)
    ensures
        forall|a: int, b: int|
            0 <= a < b < by_magnitude(d).len() && magnitude(#[trigger] by_magnitude(d)[a].1)
                == magnitude(#[trigger] by_magnitude(d)[b].1) ==> exists|i: int, j: int|
                0 <= i < j < d.len() && d[i] == by_magnitude(d)[a] && d[j] == by_magnitude(d)[b],
    decreases d.len(),
{
    if d.len() > 0 {
        lemma_first_max(d);
        let m = first_max(d);
        let rest = d.remove(m);
        lemma_by_magnitude_stable(rest);
        lemma_by_magnitude_members(rest);
        let r = by_magnitude(d);
        let rr = by_magnitude(rest);
        assert forall|a: int, b: int|
            0 <= a < b < r.len() && magnitude(#[trigger] r[a].1) == magnitude(
                #[trigger] r[b].1,
            ) implies exists|i: int, j: int|
            0 <= i < j < d.len() && d[i] == r[a] && d[j] == r[b] by {
            assert(r[b] == rr[b - 1]);
            if a == 0 {
                assert(r[0] == d[m]);
                assert(rest.contains(rr[b - 1]));
                let k = choose|k: int| 0 <= k < rest.len() && rest[k] == rr[b - 1];
                if k < m {
                    assert(rest[k] == d[k]);
                    assert(false);
                } else {
                    assert(rest[k] == d[k + 1]);
                    assert(d[m] == r[a] && d[k + 1] == r[b]);
                }
            } else {
                assert(r[a] == rr[a - 1]);
                let (i, j) = choose|i: int, j: int|
                    0 <= i < j < rest.len() && rest[i] == rr[a - 1] && rest[j] == rr[b - 1];
                let di = if i < m { i } else { i + 1 };
                let dj = if j < m { j } else { j + 1 };
                assert(rest[i] == d[di]);
                assert(rest[j] == d[dj]);
                assert(d[di] == r[a] && d[dj] == r[b]);
            }
        }
    }
}

/// Whether slot `a` comes before slot `b` in `(page, slot)` order.
pub open spec fn slot_before(a: SlotModel, b: SlotModel) -> bool {
    a.page < b.page || (a.page == b.page && a.slot < b.slot)
}

/// The first index of a slot that no other slot comes before.
pub open spec fn first_min_slot(s: Seq<SlotModel>) -> int
    decreases s.len(),
{
    if s.len() <= 1 {
        0
    } else {
        let m = first_min_slot(s.drop_last());
        if slot_before(s.last(), s[m]) {
            s.len() - 1
        } else {
            m
        }
    }
}

pub proof fn lemma_first_min_slot(s: Seq<SlotModel>)
    requires
        s.len() > 0,
    ensures
        0 <= first_min_slot(s) < s.len(),
        forall|j: int| 0 <= j < s.len() ==> !slot_before(#[trigger] s[j], s[first_min_slot(s)]),
    decreases s.len(),
{
    if s.len() > 1 {
        let p = s.drop_last();
        lemma_first_min_slot(p);
        let m = first_min_slot(s);
        assert(p[first_min_slot(p)] == s[first_min_slot(p)]);
        assert forall|j: int| 0 <= j < s.len() implies !slot_before(#[trigger] s[j], s[m]) by {
            if j < p.len() {
                assert(s[j] == p[j]);
            }
        }
    }
}

/// Slot ordering reorders `s`: it keeps the length, and each entry is an
/// entry of `s`.
pub proof fn lemma_by_slot_members(s: Seq<SlotModel>)
    ensures
        by_slot(s).len() == s.len(),
        forall|k: int| 0 <= k < s.len() ==> s.contains(#[trigger] by_slot(s)[k]),
    decreases s.len(),
{
    if s.len() > 0 {
        lemma_first_min_slot(s);
        let m = first_min_slot(s);
        let rest = s.remove(m);
        lemma_by_slot_members(rest);
        assert forall|k: int| 0 <= k < s.len() implies s.contains(#[trigger] by_slot(s)[k]) by {
            if k == 0 {
                assert(by_slot(s)[0] == s[m]);
            } else {
                assert(by_slot(s)[k] == by_slot(rest)[k - 1]);
                assert(rest.contains(by_slot(rest)[k - 1]));
                let j = choose|j: int| 0 <= j < rest.len() && rest[j] == by_slot(rest)[k - 1];
                if j < m {
                    assert(rest[j] == s[j]);
                } else {
                    assert(rest[j] == s[j + 1]);
                }
            }
        }
    }
}

/// The slot ordering never puts a slot after one that comes after it.
pub proof fn lemma_by_slot_sorted(s: Seq<SlotModel>)
    ensures
        forall|i: int, j: int|
            0 <= i < j < by_slot(s).len() ==> !slot_before(
                #[trigger] by_slot(s)[j],
                #[trigger] by_slot(s)[i],
            ),
    decreases s.len(),
{
    if s.len() > 0 {
        lemma_first_min_slot(s);
        let m = first_min_slot(s);
        let rest = s.remove(m);
        lemma_by_slot_sorted(rest);
        lemma_by_slot_members(rest);
        let r = by_slot(s);
        assert forall|i: int, j: int| 0 <= i < j < r.len() implies !slot_before(
            #[trigger] r[j],
            #[trigger] r[i],
        ) by {
            assert(r[j] == by_slot(rest)[j - 1]);
            if i == 0 {
                assert(rest.contains(by_slot(rest)[j - 1]));
                let k = choose|k: int| 0 <= k < rest.len() && rest[k] == by_slot(rest)[j - 1];
                if k < m {
                    assert(rest[k] == s[k]);
                } else {
                    assert(rest[k] == s[k + 1]);
                }
            } else {
                assert(r[i] == by_slot(rest)[i - 1]);
            }
        }
    }
}

/// Distinct positions of the slot ordering come from distinct entries of `s`.
pub proof fn lemma_by_slot_distinct(s: Seq<SlotModel>)
    ensures
        forall|a: int, b: int|
            0 <= a < b < by_slot(s).len() ==> exists|i: int, j: int|
                0 <= i < s.len() && 0 <= j < s.len() && i != j && s[i] == #[trigger] by_slot(s)[a]
                    && s[j] == #[trigger] by_slot(s)[b],
    decreases s.len(),
{
    if s.len() > 0 {
        lemma_first_min_slot(s);
        let m = first_min_slot(s);
        let rest = s.remove(m);
        lemma_by_slot_distinct(rest);
        lemma_by_slot_members(rest);
        let r = by_slot(s);
        let rr = by_slot(rest);
        assert forall|a: int, b: int| 0 <= a < b < r.len() implies exists|i: int, j: int|
            0 <= i < s.len() && 0 <= j < s.len() && i != j && s[i] == #[trigger] r[a] && s[j]
                == #[trigger] r[b] by {
            assert(r[b] == rr[b - 1]);
            if a == 0 {
                assert(r[0] == s[m]);
                assert(rest.contains(rr[b - 1]));
                let k = choose|k: int| 0 <= k < rest.len() && rest[k] == rr[b - 1];
                let dk = if k < m { k } else { k + 1 };
                assert(rest[k] == s[dk]);
                assert(s[m] == r[a] && s[dk] == r[b]);
            } else {
                assert(r[a] == rr[a - 1]);
                let (i, j) = choose|i: int, j: int|
                    0 <= i < rest.len() && 0 <= j < rest.len() && i != j && rest[i] == rr[a - 1]
                        && rest[j] == rr[b - 1];
                let di = if i < m { i } else { i + 1 };
                let dj = if j < m { j } else { j + 1 };
                assert(rest[i] == s[di]);
                assert(rest[j] == s[dj]);
                assert(s[di] == r[a] && s[dj] == r[b]);
            }
        }
    }
}

/// `s` in ascending `(page, slot)` order.
pub open spec fn by_slot(s: Seq<SlotModel>) -> Seq<SlotModel>
    decreases s.len(),
    via by_slot_decreases
{
    if s.len() == 0 {
        s
    } else {
        let m = first_min_slot(s);
        seq![s[m]] + by_slot(s.remove(m))
    }
}

#[via_fn]
proof fn by_slot_decreases(s: Seq<SlotModel>) {
    if s.len() > 0 {
        lemma_first_min_slot(s);
    }
}

pub open spec fn delta_entries(v: Seq<(String, i64)>) -> Seq<(Seq<char>, int)> {
    v.map_values(|e: (String, i64)| (e.0@, e.1 as int))
}

pub open spec fn slot_models(v: Seq<BagEvent>) -> Seq<SlotModel> {
    v.map_values(|b: BagEvent| b@)
}

/// The entries of `d` whose delta is not zero, in order.
pub fn drop_zero(d: Vec<(String, i64)>) -> (r: Vec<(String, i64)>)
    ensures
        delta_entries(r@) == nonzero(delta_entries(d@)),
{
    let mut out: Vec<(String, i64)> = Vec::new();
    let mut rest = d;
    let ghost all = delta_entries(rest@);
    let n = rest.len();
    let mut i: usize = 0;
    while i < n
        invariant
            i <= n,
            n == all.len(),
            delta_entries(rest@) == all,
            delta_entries(out@) == nonzero(all.take(i as int)),
        decreases n - i,
    {
        assert(all.take(i + 1).drop_last() =~= all.take(i as int));
        let keep = rest[i].1 != 0;
        if keep {
            let e = (rest[i].0.clone(), rest[i].1);
            out.push(e);
        }
        assert(delta_entries(out@) =~= nonzero(all.take(i + 1)));
        i = i + 1;
    }
    assert(all.take(n as int) =~= all);
    out
}

fn magnitude_of(x: i64) -> (r: i128)
    ensures
        r == magnitude(x as int),
{
    if x < 0 {
        0 - (x as i128)
    } else {
        x as i128
    }
}

fn first_max_index(d: &Vec<(String, i64)>) -> (r: usize)
    requires
        d@.len() > 0,
    ensures
        r == first_max(delta_entries(d@)),
{
    let ghost all = delta_entries(d@);
    let mut best: usize = 0;
    let mut i: usize = 1;
    assert(all.take(1).len() == 1);
    while i < d.len()
        invariant
            1 <= i <= d@.len(),
            all == delta_entries(d@),
            best as int == first_max(all.take(i as int)),
            0 <= best < i,
        decreases d@.len() - i,
    {
        let ghost prev = all.take(i as int);
        let ghost next = all.take(i + 1);
        assert(next.drop_last() =~= prev);
        assert(next[best as int] == all[best as int]);
        if magnitude_of(d[i].1) > magnitude_of(d[best].1) {
            best = i;
        }
        i = i + 1;
    }
    assert(all.take(d@.len() as int) =~= all);
    best
}

/// `d` ordered by descending magnitude of the delta, earlier entries first
/// among equal magnitudes.
pub fn rank_by_magnitude(d: Vec<(String, i64)>) -> (r: Vec<(String, i64)>)
    ensures
        delta_entries(r@) == by_magnitude(delta_entries(d@)),
{
    let ghost all = delta_entries(d@);
    let mut rest = d;
    let mut out: Vec<(String, i64)> = Vec::new();
    assert(delta_entries(out@) + by_magnitude(all) =~= by_magnitude(all));
    while rest.len() > 0
        invariant
            delta_entries(out@) + by_magnitude(delta_entries(rest@)) == by_magnitude(all),
        decreases rest@.len(),
    {
        let ghost before = delta_entries(rest@);
        let ghost done = delta_entries(out@);
        let m = first_max_index(&rest);
        proof {
            lemma_first_max(before);
        }
        let e = rest.remove(m);
        assert(delta_entries(rest@) =~= before.remove(m as int));
        out.push(e);
        assert(delta_entries(out@) =~= done.push(before[m as int]));
        assert(by_magnitude(before) == seq![before[m as int]] + by_magnitude(before.remove(m as int)));
        assert(delta_entries(out@) + by_magnitude(delta_entries(rest@)) =~= done + by_magnitude(before));
    }
    assert(delta_entries(rest@) =~= Seq::<(Seq<char>, int)>::empty());
    assert(delta_entries(out@) =~= delta_entries(out@) + by_magnitude(delta_entries(rest@)));
    out
}

fn first_min_slot_index(s: &Vec<BagEvent>) -> (r: usize)
    requires
        s@.len() > 0,
    ensures
        r == first_min_slot(slot_models(s@)),
{
    let ghost all = slot_models(s@);
    let mut best: usize = 0;
    let mut i: usize = 1;
    assert(all.take(1).len() == 1);
    while i < s.len()
        invariant
            1 <= i <= s@.len(),
            all == slot_models(s@),
            best as int == first_min_slot(all.take(i as int)),
            0 <= best < i,
        decreases s@.len() - i,
    {
        let ghost prev = all.take(i as int);
        let ghost next = all.take(i + 1);
        assert(next.drop_last() =~= prev);
        assert(next[best as int] == all[best as int]);
        let a = &s[i];
        let b = &s[best];
        if a.page_id < b.page_id || (a.page_id == b.page_id && a.slot_id < b.slot_id) {
            best = i;
        }
        i = i + 1;
    }
    assert(all.take(s@.len() as int) =~= all);
    best
}

/// Every slot of `s` carries the name that `catalog` gives its item.
pub open spec fn all_named(s: Seq<BagEvent>, catalog: ItemCatalog) -> bool {
    forall|i: int|
        0 <= i < s.len() ==> #[trigger] s[i].item_name@ == catalog.name_of(s[i].config_base_id@)
}

/// `s` in ascending `(page, slot)` order.
pub fn order_by_slot(s: Vec<BagEvent>, Ghost(catalog): Ghost<ItemCatalog>) -> (r: Vec<BagEvent>)
    requires
        all_named(s@, catalog),
    ensures
        slot_models(r@) == by_slot(slot_models(s@)),
        all_named(r@, catalog),
{
    let ghost all = slot_models(s@);
    let mut rest = s;
    let mut out: Vec<BagEvent> = Vec::new();
    assert(slot_models(out@) + by_slot(all) =~= by_slot(all));
    while rest.len() > 0
        invariant
            slot_models(out@) + by_slot(slot_models(rest@)) == by_slot(all),
            all_named(out@, catalog),
            all_named(rest@, catalog),
        decreases rest@.len(),
    {
        let ghost before = slot_models(rest@);
        let ghost before_exec = rest@;
        let ghost done = slot_models(out@);
        let m = first_min_slot_index(&rest);
        proof {
            lemma_first_min_slot(before);
        }
        let e = rest.remove(m);
        assert(slot_models(rest@) =~= before.remove(m as int));
        assert(rest@ =~= before_exec.remove(m as int));
        out.push(e);
        assert(slot_models(out@) =~= done.push(before[m as int]));
        assert(by_slot(before) == seq![before[m as int]] + by_slot(before.remove(m as int)));
        assert(slot_models(out@) + by_slot(slot_models(rest@)) =~= done + by_slot(before));
        assert(all_named(rest@, catalog)) by {
            assert forall|i: int| 0 <= i < rest@.len() implies #[trigger] rest@[i].item_name@
                == catalog.name_of(rest@[i].config_base_id@) by {
                if i < m {
                    assert(rest@[i] == before_exec[i]);
                } else {
                    assert(rest@[i] == before_exec[i + 1]);
                }
            }
        }
    }
    assert(slot_models(rest@) =~= Seq::<SlotModel>::empty());
    assert(slot_models(out@) =~= slot_models(out@) + by_slot(slot_models(rest@)));
    out
}

} // verus!
