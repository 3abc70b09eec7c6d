//! Facts about the replay: how single events move the state, and what the
//! reported records can and cannot hold.
use vstd::prelude::*;
use crate::events::{EventModel, SlotModel};
use crate::events::TrackerConfig;
use crate::classify::classify;
use crate::ranking::{by_magnitude, lemma_by_magnitude_members, lemma_nonzero_members, nonzero};
use crate::replay::{
    ReplayModel, add_delta, delta_pos, delta_pos_from, final_state,
    lemma_delta_pos_from, lemma_slot_pos_from, loot_records, replay, set_slot, slot_pos,
    slot_pos_from, step,
};

verus! {

/// The accumulated delta of `id` (zero when it has no entry).
pub open spec fn delta_of(deltas: Seq<(Seq<char>, int)>, id: Seq<char>) -> int {
    match delta_pos(deltas, id) {
        Some(i) => deltas[i].1,
        None => 0,
    }
}

proof fn lemma_delta_pos_at(s: Seq<(Seq<char>, int)>, x: Seq<char>, k: int, i: int)
    requires
        0 <= i <= k < s.len(),
        s[k].0 == x,
        forall|j: int| i <= j < k ==> s[j].0 != x,
    ensures
        delta_pos_from(s, x, i) == Some(k),
    decreases k - i,
{
    if i < k {
        lemma_delta_pos_at(s, x, k, i + 1);
    }
}

proof fn lemma_delta_pos_none(s: Seq<(Seq<char>, int)>, x: Seq<char>, i: int)
    requires
        0 <= i,
        forall|j: int| i <= j < s.len() ==> s[j].0 != x,
    ensures
        delta_pos_from(s, x, i) is None,
    decreases s.len() - i,
{
    if i < s.len() {
        lemma_delta_pos_none(s, x, i + 1);
    }
}

/// Adding `d` to `id` changes the delta of `id` by `d` and no other delta.
pub proof fn lemma_add_delta(deltas: Seq<(Seq<char>, int)>, id: Seq<char>, d: int, other: Seq<char>)
    ensures
        delta_of(add_delta(deltas, id, d), other) == delta_of(deltas, other) + if other == id {
            d
        } else {
            0
        },
{
    lemma_delta_pos_from(deltas, id, 0);
    lemma_delta_pos_from(deltas, other, 0);
    let new = add_delta(deltas, id, d);
    match delta_pos(deltas, id) {
        Some(i) => {
            assert(new == deltas.update(i, (id, deltas[i].1 + d)));
            if other == id {
                lemma_delta_pos_at(new, id, i, 0);
            } else {
                match delta_pos(deltas, other) {
                    Some(k) => {
                        assert forall|j: int| 0 <= j < k implies new[j].0 != other by {
                            if j != i {
                                assert(new[j] == deltas[j]);
                            }
                        }
                        lemma_delta_pos_at(new, other, k, 0);
                    },
                    None => {
                        assert forall|j: int| 0 <= j < new.len() implies new[j].0 != other by {
                            if j != i {
                                assert(new[j] == deltas[j]);
                            }
                        }
                        lemma_delta_pos_none(new, other, 0);
                    },
                }
            }
        },
        None => {
            assert(new == deltas.push((id, d)));
            if other == id {
                assert forall|j: int| 0 <= j < deltas.len() implies new[j].0 != id by {
                    assert(new[j] == deltas[j]);
                }
                lemma_delta_pos_at(new, id, deltas.len() as int, 0);
            } else {
                match delta_pos(deltas, other) {
                    Some(k) => {
                        assert forall|j: int| 0 <= j < k implies new[j].0 != other by {
                            assert(new[j] == deltas[j]);
                        }
                        lemma_delta_pos_at(new, other, k, 0);
                    },
                    None => {
                        assert forall|j: int| 0 <= j < new.len() implies new[j].0 != other by {
                            if j < deltas.len() {
                                assert(new[j] == deltas[j]);
                            }
                        }
                        lemma_delta_pos_none(new, other, 0);
                    },
                }
            }
        },
    }
}

proof fn lemma_slot_pos_at(s: Seq<SlotModel>, page: u32, slot: u32, k: int, i: int)
    requires
        0 <= i <= k < s.len(),
        s[k].page == page && s[k].slot == slot,
        forall|j: int| i <= j < k ==> !(s[j].page == page && s[j].slot == slot),
    ensures
        slot_pos_from(s, page, slot, i) == Some(k),
    decreases k - i,
{
    if i < k {
        lemma_slot_pos_at(s, page, slot, k, i + 1);
    }
}

/// After a slot is written, looking it up finds what was written.
pub proof fn lemma_set_slot_found(slots: Seq<SlotModel>, s: SlotModel)
    ensures
        slot_pos(set_slot(slots, s), s.page, s.slot) matches Some(i) && set_slot(slots, s)[i] == s,
{
    lemma_slot_pos_from(slots, s.page, s.slot, 0);
    let new = set_slot(slots, s);
    match slot_pos(slots, s.page, s.slot) {
        Some(i) => {
            assert forall|j: int| 0 <= j < i implies !(new[j].page == s.page && new[j].slot
                == s.slot) by {
                assert(new[j] == slots[j]);
            }
            lemma_slot_pos_at(new, s.page, s.slot, i, 0);
        },
        None => {
            assert forall|j: int| 0 <= j < slots.len() implies !(new[j].page == s.page
                && new[j].slot == s.slot) by {
                assert(new[j] == slots[j]);
            }
            lemma_slot_pos_at(new, s.page, s.slot, slots.len() as int, 0);
        },
    }
}

/// An incremental update right after a baseline assertion of the same slot
/// and item, inside a pickup, changes that item's delta by exactly the new
/// quantity minus the baseline quantity, and no other item's delta.
pub proof fn lemma_update_after_baseline(
    st: ReplayModel,
    page: u32,
    slot: u32,
    item: Seq<char>,
    base_qty: u32,
    qty: u32,
    pickup: Seq<char>,
)
    requires
        st.in_pickup,
    ensures
        ({
            let st1 = step(
                st,
                Some(EventModel::SlotSet { page, slot, item, qty: base_qty, baseline: true }),
                pickup,
            );
            let st2 = step(
                st1,
                Some(EventModel::SlotSet { page, slot, item, qty, baseline: false }),
                pickup,
            );
            &&& delta_of(st2.deltas, item) == delta_of(st.deltas, item) + (qty - base_qty)
            &&& forall|other: Seq<char>|
                other != item ==> #[trigger] delta_of(st2.deltas, other) == delta_of(
                    st.deltas,
                    other,
                )
        }),
{
    let base = SlotModel { page, slot, item, qty: base_qty, baseline: true };
    let st1 = step(st, Some(EventModel::SlotSet { page, slot, item, qty: base_qty, baseline: true }),
        pickup);
    let st2 = step(st1, Some(EventModel::SlotSet { page, slot, item, qty, baseline: false }),
        pickup);
    lemma_set_slot_found(st.slots, base);
    assert(st1.slots == set_slot(st.slots, base));
    assert(st1.deltas == st.deltas);
    lemma_add_delta(st.deltas, item, qty - base_qty, item);
    assert forall|other: Seq<char>| other != item implies #[trigger] delta_of(st2.deltas, other)
        == delta_of(st.deltas, other) by {
        lemma_add_delta(st.deltas, item, qty - base_qty, other);
    }
}

/// An incremental update of a slot that held a different item counts the
/// whole new quantity for the new item, inside a pickup, and changes no other
/// item's delta (the old item gets no credit).
pub proof fn lemma_item_change_counts_full(
    st: ReplayModel,
    page: u32,
    slot: u32,
    item: Seq<char>,
    qty: u32,
    pickup: Seq<char>,
)
    requires
        st.in_pickup,
        slot_pos(st.slots, page, slot) matches Some(i) && st.slots[i].item != item,
    ensures
        ({
            let st2 = step(
                st,
                Some(EventModel::SlotSet { page, slot, item, qty, baseline: false }),
                pickup,
            );
            &&& delta_of(st2.deltas, item) == delta_of(st.deltas, item) + qty
            &&& forall|other: Seq<char>|
                other != item ==> #[trigger] delta_of(st2.deltas, other) == delta_of(
                    st.deltas,
                    other,
                )
        }),
{
    let st2 = step(st, Some(EventModel::SlotSet { page, slot, item, qty, baseline: false }), pickup);
    lemma_add_delta(st.deltas, item, qty as int, item);
    assert forall|other: Seq<char>| other != item implies #[trigger] delta_of(st2.deltas, other)
        == delta_of(st.deltas, other) by {
        lemma_add_delta(st.deltas, item, qty as int, other);
    }
}

/// No item has two delta entries.
pub open spec fn ids_unique(d: Seq<(Seq<char>, int)>) -> bool {
    forall|i: int, j: int| 0 <= i < j < d.len() ==> #[trigger] d[i].0 != #[trigger] d[j].0
}

proof fn lemma_add_delta_unique(deltas: Seq<(Seq<char>, int)>, id: Seq<char>, d: int)
    requires
        ids_unique(deltas),
    ensures
        ids_unique(add_delta(deltas, id, d)),
{
    lemma_delta_pos_from(deltas, id, 0);
    let new = add_delta(deltas, id, d);
    match delta_pos(deltas, id) {
        Some(i) => {
            assert forall|a: int, b: int| 0 <= a < b < new.len() implies #[trigger] new[a].0
                != #[trigger] new[b].0 by {
                assert(deltas[a].0 != deltas[b].0);
            }
        },
        None => {
            assert forall|a: int, b: int| 0 <= a < b < new.len() implies #[trigger] new[a].0
                != #[trigger] new[b].0 by {
                if b < deltas.len() {
                    assert(deltas[a].0 != deltas[b].0);
                } else {
                    assert(new[a] == deltas[a]);
                }
            }
        },
    }
}

proof fn lemma_step_unique(st: ReplayModel, ev: Option<EventModel>, pickup: Seq<char>)
    requires
        ids_unique(st.deltas),
    ensures
        ids_unique(step(st, ev, pickup).deltas),
{
    match ev {
        Some(EventModel::SlotSet { page, slot, item, qty, baseline }) => {
            let delta = qty - crate::replay::prev_quantity(st.slots, page, slot, item);
            lemma_add_delta_unique(st.deltas, item, delta);
        },
        Some(EventModel::SlotClear { page, slot }) => {
            lemma_slot_pos_from(st.slots, page, slot, 0);
            if let Some(i) = slot_pos(st.slots, page, slot) {
                lemma_add_delta_unique(st.deltas, st.slots[i].item, -st.slots[i].qty);
            }
        },
        _ => {},
    }
}

/// A replay never holds two delta entries for one item.
pub proof fn lemma_replay_ids_unique(lines: Seq<Seq<char>>, excluded: Seq<u32>, pickup: Seq<char>)
    ensures
        ids_unique(replay(lines, excluded, pickup).deltas),
    decreases lines.len(),
{
    if lines.len() > 0 {
        lemma_replay_ids_unique(lines.drop_last(), excluded, pickup);
        lemma_step_unique(
            replay(lines.drop_last(), excluded, pickup),
            classify(lines.last(), excluded),
            pickup,
        );
    }
}

/// The loot records hold no zero delta: each record's delta is the item's
/// accumulated delta, which is not zero, so an item whose events net to zero
/// has no record.
pub proof fn lemma_no_zero_records(lines: Seq<Seq<char>>, config: TrackerConfig)
    ensures
        ({
            let m = final_state(lines, config);
            let recs = loot_records(m);
            &&& forall|k: int|
                0 <= k < recs.len() ==> #[trigger] recs[k].delta != 0 && recs[k].delta
                    == delta_of(m.deltas, recs[k].item)
            &&& forall|id: Seq<char>, k: int|
                0 <= k < recs.len() && #[trigger] delta_of(m.deltas, id) == 0 ==> #[trigger] recs[k].item
                    != id
        }),
{
    let m = final_state(lines, config);
    let start = crate::replay::replay_start(lines, config.excluded_pages@, config.sort_label@);
    crate::replay::lemma_replay_start_bounds(lines, config.excluded_pages@, config.sort_label@);
    lemma_replay_ids_unique(
        lines.subrange(start, lines.len() as int),
        config.excluded_pages@,
        config.pickup_label@,
    );
    let nz = nonzero(m.deltas);
    let recs = loot_records(m);
    lemma_nonzero_members(m.deltas);
    lemma_by_magnitude_members(nz);
    assert forall|k: int| 0 <= k < recs.len() implies #[trigger] recs[k].delta != 0 && recs[k].delta
        == delta_of(m.deltas, recs[k].item) by {
        let e = by_magnitude(nz)[k];
        assert(nz.contains(e));
        let a = choose|a: int| 0 <= a < nz.len() && nz[a] == e;
        assert(nz[a].1 != 0 && m.deltas.contains(nz[a]));
        let j = choose|j: int| 0 <= j < m.deltas.len() && m.deltas[j] == e;
        assert forall|i: int| 0 <= i < j implies m.deltas[i].0 != e.0 by {
            assert(m.deltas[i].0 != m.deltas[j].0);
        }
        lemma_delta_pos_at(m.deltas, e.0, j, 0);
    }
    assert forall|id: Seq<char>, k: int|
        0 <= k < recs.len() && #[trigger] delta_of(m.deltas, id) == 0 implies #[trigger] recs[k].item
        != id by {
        assert(recs[k].delta != 0);
    }
}

/// Replay keeps no hidden state: the same lines, under configurations with
/// the same identifiers, give the same final state and the same loot records.
pub proof fn lemma_replay_deterministic(
    a: Seq<Seq<char>>,
    b: Seq<Seq<char>>,
    c1: TrackerConfig,
    c2: TrackerConfig,
)
    requires
        a == b,
        c1.excluded_pages@ == c2.excluded_pages@,
        c1.pickup_label@ == c2.pickup_label@,
        c1.sort_label@ == c2.sort_label@,
    ensures
        final_state(a, c1) == final_state(b, c2),
        loot_records(final_state(a, c1)) == loot_records(final_state(b, c2)),
{
}

/// No two live slots share a `(page, slot)` key.
pub open spec fn keys_unique(s: Seq<SlotModel>) -> bool {
    forall|i: int, j: int|
        0 <= i < j < s.len() ==> !(#[trigger] s[i].page == #[trigger] s[j].page && s[i].slot
            == s[j].slot)
}

proof fn lemma_set_slot_unique(slots: Seq<SlotModel>, s: SlotModel)
    requires
        keys_unique(slots),
    ensures
        keys_unique(set_slot(slots, s)),
{
    lemma_slot_pos_from(slots, s.page, s.slot, 0);
    let new = set_slot(slots, s);
    match slot_pos(slots, s.page, s.slot) {
        Some(i) => {
            assert forall|a: int, b: int| 0 <= a < b < new.len() implies !(
            #[trigger] new[a].page == #[trigger] new[b].page && new[a].slot == new[b].slot) by {
                assert(!(slots[a].page == slots[b].page && slots[a].slot == slots[b].slot));
            }
        },
        None => {
            assert forall|a: int, b: int| 0 <= a < b < new.len() implies !(
            #[trigger] new[a].page == #[trigger] new[b].page && new[a].slot == new[b].slot) by {
                if b < slots.len() {
                    assert(!(slots[a].page == slots[b].page && slots[a].slot == slots[b].slot));
                } else {
                    assert(new[a] == slots[a]);
                }
            }
        },
    }
}

proof fn lemma_remove_unique(slots: Seq<SlotModel>, i: int)
    requires
        keys_unique(slots),
        0 <= i < slots.len(),
    ensures
        keys_unique(slots.remove(i)),
{
    let new = slots.remove(i);
    assert forall|a: int, b: int| 0 <= a < b < new.len() implies !(#[trigger] new[a].page
        == #[trigger] new[b].page && new[a].slot == new[b].slot) by {
        let a0 = if a < i { a } else { a + 1 };
        let b0 = if b < i { b } else { b + 1 };
        assert(new[a] == slots[a0] && new[b] == slots[b0]);
        assert(!(slots[a0].page == slots[b0].page && slots[a0].slot == slots[b0].slot));
    }
}

/// A replay never holds two slots with one key.
pub proof fn lemma_replay_keys_unique(lines: Seq<Seq<char>>, excluded: Seq<u32>, pickup: Seq<char>)
    ensures
        keys_unique(replay(lines, excluded, pickup).slots),
    decreases lines.len(),
{
    if lines.len() > 0 {
        lemma_replay_keys_unique(lines.drop_last(), excluded, pickup);
        let st = replay(lines.drop_last(), excluded, pickup);
        match classify(lines.last(), excluded) {
            Some(EventModel::SlotSet { page, slot, item, qty, baseline }) => {
                lemma_set_slot_unique(st.slots, SlotModel { page, slot, item, qty, baseline });
            },
            Some(EventModel::SlotClear { page, slot }) => {
                lemma_slot_pos_from(st.slots, page, slot, 0);
                if let Some(i) = slot_pos(st.slots, page, slot) {
                    lemma_remove_unique(st.slots, i);
                }
            },
            _ => {},
        }
    }
}

/// The state the engine reports on never holds two slots with one key.
pub proof fn lemma_final_keys_unique(lines: Seq<Seq<char>>, config: TrackerConfig)
    ensures
        keys_unique(final_state(lines, config).slots),
{
    let start = crate::replay::replay_start(lines, config.excluded_pages@, config.sort_label@);
    lemma_replay_keys_unique(
        lines.subrange(start, lines.len() as int),
        config.excluded_pages@,
        config.pickup_label@,
    );
}

/// A context marker whose label is not the pickup label leaves the state,
/// and so the pickup flag, as it was.
pub proof fn lemma_unrelated_marker_ignored(
    st: ReplayModel,
    label: Seq<char>,
    start: bool,
    pickup: Seq<char>,
)
    requires
        label != pickup,
    ensures
        step(st, Some(EventModel::Marker { label, start }), pickup) == st,
        step(st, Some(EventModel::Marker { label, start }), pickup).in_pickup == st.in_pickup,
{
}

} // verus!
