//! The state replayer: folds classified events into per-slot inventory state
//! and per-item quantity deltas, gated by pickup markers, starting after the
//! most recent inventory sort.
use vstd::prelude::*;
use crate::catalog::ItemCatalog;
use crate::classify::{classify, classify_line, named_by};
use crate::replay_lemmas::lemma_final_keys_unique;
use crate::report::{ItemDelta, LootRecord, LootSummary};
use crate::events::{BagEvent, EventModel, LogEvent, SlotModel, TrackerConfig, event_view};
use crate::ranking::{
    all_named, by_magnitude, by_slot, delta_entries, drop_zero, lemma_by_magnitude_sorted,
    lemma_by_slot_distinct, lemma_by_slot_sorted, magnitude, nonzero, order_by_slot,
    rank_by_magnitude, slot_before,
    slot_models,
};

verus! {

/// The most lines one replay takes: it keeps every accumulated delta, and
/// every sum of quantities, within 64 bits.
pub const MAX_LOG_LINES: usize = 0x7fff_ffff;

/// The state of a replay: the live slots (one entry per `(page, slot)`), the
/// accumulated delta of each item in the order the items were first counted,
/// the number of counted events, and whether a pickup is open.
pub struct ReplayModel {
    pub slots: Seq<SlotModel>,
    pub deltas: Seq<(Seq<char>, int)>,
    pub events: nat,
    pub in_pickup: bool,
}

pub open spec fn initial_model() -> ReplayModel {
    ReplayModel { slots: Seq::empty(), deltas: Seq::empty(), events: 0, in_pickup: false }
}

/// The index, at or after `i`, of the entry for `(page, slot)`.
pub open spec fn slot_pos_from(slots: Seq<SlotModel>, page: u32, slot: u32, i: int) -> Option<int>
    decreases slots.len() - i,
{
    if i < 0 || i >= slots.len() {
        None
    } else if slots[i].page == page && slots[i].slot == slot {
        Some(i)
    } else {
        slot_pos_from(slots, page, slot, i + 1)
    }
}

pub open spec fn slot_pos(slots: Seq<SlotModel>, page: u32, slot: u32) -> Option<int> {
    slot_pos_from(slots, page, slot, 0)
}

/// The index, at or after `i`, of the delta entry for `id`.
pub open spec fn delta_pos_from(deltas: Seq<(Seq<char>, int)>, id: Seq<char>, i: int) -> Option<int>
    decreases deltas.len() - i,
{
    if i < 0 || i >= deltas.len() {
        None
    } else if deltas[i].0 == id {
        Some(i)
    } else {
        delta_pos_from(deltas, id, i + 1)
    }
}

pub open spec fn delta_pos(deltas: Seq<(Seq<char>, int)>, id: Seq<char>) -> Option<int> {
    delta_pos_from(deltas, id, 0)
}

pub proof fn lemma_slot_pos_from(slots: Seq<SlotModel>, page: u32, slot: u32, i: int)
    requires
        0 <= i,
    ensures
        slot_pos_from(slots, page, slot, i) matches Some(k) ==> i <= k < slots.len()
            && slots[k].page == page && slots[k].slot == slot && forall|j: int|
            i <= j < k ==> !(slots[j].page == page && slots[j].slot == slot),
        slot_pos_from(slots, page, slot, i) is None ==> forall|j: int|
            i <= j < slots.len() ==> !(slots[j].page == page && slots[j].slot == slot),
    decreases slots.len() - i,
{
    if i < slots.len() && !(slots[i].page == page && slots[i].slot == slot) {
        lemma_slot_pos_from(slots, page, slot, i + 1);
    }
}

pub proof fn lemma_delta_pos_from(deltas: Seq<(Seq<char>, int)>, id: Seq<char>, i: int)
    requires
        0 <= i,
    ensures
        delta_pos_from(deltas, id, i) matches Some(k) ==> i <= k < deltas.len() && deltas[k].0
            == id && forall|j: int| i <= j < k ==> deltas[j].0 != id,
        delta_pos_from(deltas, id, i) is None ==> forall|j: int|
            i <= j < deltas.len() ==> deltas[j].0 != id,
    decreases deltas.len() - i,
{
    if i < deltas.len() && deltas[i].0 != id {
        lemma_delta_pos_from(deltas, id, i + 1);
    }
}

/// `slots` with the entry for `s`'s key overwritten by `s` (or `s` added).
pub open spec fn set_slot(slots: Seq<SlotModel>, s: SlotModel) -> Seq<SlotModel> {
    match slot_pos(slots, s.page, s.slot) {
        Some(i) => slots.update(i, s),
        None => slots.push(s),
    }
}

/// `deltas` with `d` added to `id`'s entry (a new entry starts at zero).
pub open spec fn add_delta(deltas: Seq<(Seq<char>, int)>, id: Seq<char>, d: int) -> Seq<
    (Seq<char>, int),
> {
    match delta_pos(deltas, id) {
        Some(i) => deltas.update(i, (id, deltas[i].1 + d)),
        None => deltas.push((id, d)),
    }
}

/// The quantity that a slot update of `(page, slot)` to `item` continues
/// from: the stored quantity when the slot holds the same item, else zero.
pub open spec fn prev_quantity(slots: Seq<SlotModel>, page: u32, slot: u32, item: Seq<char>) -> int {
    match slot_pos(slots, page, slot) {
        Some(i) => if slots[i].item == item {
            slots[i].qty as int
        } else {
            0
        },
        None => 0,
    }
}

/// One event applied to the state; `pickup` is the pickup context's label.
pub open spec fn step(st: ReplayModel, ev: Option<EventModel>, pickup: Seq<char>) -> ReplayModel {
    match ev {
        Some(EventModel::SlotSet { page, slot, item, qty, baseline }) => {
            let slots = set_slot(st.slots, SlotModel { page, slot, item, qty, baseline });
            if baseline {
                ReplayModel { slots, ..st }
            } else {
                let delta = qty - prev_quantity(st.slots, page, slot, item);
                if st.in_pickup && delta != 0 {
                    ReplayModel {
                        slots,
                        deltas: add_delta(st.deltas, item, delta),
                        events: st.events + 1,
                        ..st
                    }
                } else {
                    ReplayModel { slots, ..st }
                }
            }
        },
        Some(EventModel::SlotClear { page, slot }) => match slot_pos(st.slots, page, slot) {
            Some(i) => if st.in_pickup {
                ReplayModel {
                    slots: st.slots.remove(i),
                    deltas: add_delta(st.deltas, st.slots[i].item, -st.slots[i].qty),
                    events: st.events + 1,
                    ..st
                }
            } else {
                ReplayModel { slots: st.slots.remove(i), ..st }
            },
            None => st,
        },
        Some(EventModel::Marker { label, start }) => if label == pickup {
            ReplayModel { in_pickup: start, ..st }
        } else {
            st
        },
        _ => st,
    }
}

/// The state after replaying `lines` from the initial state.
pub open spec fn replay(lines: Seq<Seq<char>>, excluded: Seq<u32>, pickup: Seq<char>) -> ReplayModel
    decreases lines.len(),
{
    if lines.len() == 0 {
        initial_model()
    } else {
        step(replay(lines.drop_last(), excluded, pickup), classify(lines.last(), excluded), pickup)
    }
}

/// Whether `line` closes a context labelled `sort`.
pub open spec fn is_sort_end(line: Seq<char>, excluded: Seq<u32>, sort: Seq<char>) -> bool {
    classify(line, excluded) == Some(EventModel::Marker { label: sort, start: false })
}

/// Where replay starts: just after the last line that closes an inventory
/// sort, or at the first line when there is none.
pub open spec fn replay_start(lines: Seq<Seq<char>>, excluded: Seq<u32>, sort: Seq<char>) -> int
    decreases lines.len(),
{
    if lines.len() == 0 {
        0
    } else if is_sort_end(lines.last(), excluded, sort) {
        lines.len() as int
    } else {
        replay_start(lines.drop_last(), excluded, sort)
    }
}

pub open spec fn line_views(lines: Seq<&str>) -> Seq<Seq<char>> {
    lines.map_values(|l: &str| l@)
}

/// The state that the engine reports on: the replay of the lines after the
/// baseline.
pub open spec fn final_state(lines: Seq<Seq<char>>, config: TrackerConfig) -> ReplayModel {
    let start = replay_start(lines, config.excluded_pages@, config.sort_label@);
    replay(lines.subrange(start, lines.len() as int), config.excluded_pages@, config.pickup_label@)
}

/// The largest size of a delta after `n` counted lines.
pub open spec fn delta_bound(n: int) -> int {
    n * 0xffff_ffff
}

/// The executable replay state; `model` is what it stands for.
struct Replay {
    slots: Vec<BagEvent>,
    deltas: Vec<(String, i64)>,
    total_events: usize,
    in_pickup: bool,
}

impl Replay {
    spec fn model(&self) -> ReplayModel {
        ReplayModel {
            slots: self.slots@.map_values(|b: BagEvent| b@),
            deltas: self.deltas@.map_values(|e: (String, i64)| (e.0@, e.1 as int)),
            events: self.total_events as nat,
            in_pickup: self.in_pickup,
        }
    }

    /// The sizes reachable after `n` lines.
    spec fn bounded(&self, n: int) -> bool {
        &&& self.slots@.len() <= n
        &&& self.total_events <= n
        &&& forall|i: int|
            0 <= i < self.deltas@.len() ==> -delta_bound(n) <= #[trigger] self.deltas@[i].1
                <= delta_bound(n)
    }

    /// Every live slot carries the name that `catalog` gives its item.
    spec fn named(&self, catalog: ItemCatalog) -> bool {
        forall|i: int|
            0 <= i < self.slots@.len() ==> #[trigger] self.slots@[i].item_name@ == catalog.name_of(
                self.slots@[i].config_base_id@,
            )
    }

    fn new() -> (r: Replay)
        ensures
            r.model() == initial_model(),
            r.bounded(0),
    {
        let r = Replay { slots: Vec::new(), deltas: Vec::new(), total_events: 0, in_pickup: false };
        assert(r.model().slots =~= Seq::<SlotModel>::empty());
        assert(r.model().deltas =~= Seq::<(Seq<char>, int)>::empty());
        r
    }

    fn find_slot(&self, page: u32, slot: u32) -> (r: Option<usize>)
        ensures
            match r {
                Some(i) => slot_pos(self.model().slots, page, slot) == Some(i as int) && i
                    < self.slots@.len(),
                None => slot_pos(self.model().slots, page, slot) is None,
            },
    {
        proof {
            lemma_slot_pos_from(self.model().slots, page, slot, 0);
        }
        let ghost m = self.model().slots;
        let mut i: usize = 0;
        while i < self.slots.len()
            invariant
                i <= self.slots@.len(),
                m == self.model().slots,
                slot_pos(m, page, slot) == slot_pos_from(m, page, slot, i as int),
            decreases self.slots@.len() - i,
        {
            if self.slots[i].page_id == page && self.slots[i].slot_id == slot {
                return Some(i);
            }
            i = i + 1;
        }
        None
    }

    fn find_delta(&self, id: &String) -> (r: Option<usize>)
        ensures
            match r {
                Some(i) => delta_pos(self.model().deltas, id@) == Some(i as int) && i
                    < self.deltas@.len(),
                None => delta_pos(self.model().deltas, id@) is None,
            },
    {
        proof {
            lemma_delta_pos_from(self.model().deltas, id@, 0);
        }
        let ghost m = self.model().deltas;
        let mut i: usize = 0;
        while i < self.deltas.len()
            invariant
                i <= self.deltas@.len(),
                m == self.model().deltas,
                delta_pos(m, id@) == delta_pos_from(m, id@, i as int),
            decreases self.deltas@.len() - i,
        {
            if self.deltas[i].0 == *id {
                return Some(i);
            }
            i = i + 1;
        }
        None
    }

    fn count_delta(&mut self, id: &String, d: i64, n: usize)
        requires
            old(self).bounded(n as int),
            n < MAX_LOG_LINES,
            -0xffff_ffff <= d <= 0xffff_ffff,
        ensures
            final(self).model() == (ReplayModel {
                deltas: add_delta(old(self).model().deltas, id@, d as int),
                ..old(self).model()
            }),
            final(self).slots == old(self).slots,
            forall|i: int|
                0 <= i < final(self).deltas@.len() ==> -delta_bound(n + 1)
                    <= #[trigger] final(self).deltas@[i].1 <= delta_bound(n + 1),
    {
        let ghost old_model = self.model();
        match self.find_delta(id) {
            Some(i) => {
                let cur = self.deltas[i].1;
                self.deltas[i] = (id.clone(), cur + d);
                assert(self.model().deltas =~= add_delta(old_model.deltas, id@, d as int));
            },
            None => {
                self.deltas.push((id.clone(), d));
                assert(self.model().deltas =~= add_delta(old_model.deltas, id@, d as int));
            },
        }
    }

    /// Applies one classified line; `n` lines came before it.
    fn apply(&mut self, ev: Option<LogEvent>, pickup: &String, n: usize, Ghost(catalog): Ghost<
        ItemCatalog,
    >)
        requires
            old(self).bounded(n as int),
            old(self).named(catalog),
            n < MAX_LOG_LINES,
            named_by(ev, catalog),
        ensures
            final(self).model() == step(old(self).model(), event_view(ev), pickup@),
            final(self).bounded(n + 1),
            final(self).named(catalog),
    {
        let ghost old_model = self.model();
        match ev {
            Some(LogEvent::Bag(b)) => {
                let pos = self.find_slot(b.page_id, b.slot_id);
                if !b.is_init {
                    let prev: u32 = match pos {
                        Some(i) => if self.slots[i].config_base_id == b.config_base_id {
                            self.slots[i].num
                        } else {
                            0
                        },
                        None => 0,
                    };
                    let delta: i64 = b.num as i64 - prev as i64;
                    if self.in_pickup && delta != 0 {
                        self.count_delta(&b.config_base_id, delta, n);
                        self.total_events = self.total_events + 1;
                    }
                }
                match pos {
                    Some(i) => {
                        self.slots[i] = b;
                    },
                    None => {
                        self.slots.push(b);
                    },
                }
                assert(self.model().slots =~= set_slot(old_model.slots, b@));
            },
            Some(LogEvent::BagRemove(r)) => {
                match self.find_slot(r.page_id, r.slot_id) {
                    Some(i) => {
                        let removed = self.slots.remove(i);
                        assert(self.model().slots =~= old_model.slots.remove(i as int));
                        if self.in_pickup {
                            self.count_delta(&removed.config_base_id, 0 - removed.num as i64, n);
                            self.total_events = self.total_events + 1;
                        }
                    },
                    None => {},
                }
            },
            Some(LogEvent::Context(c)) => {
                if c.proto_name == *pickup {
                    self.in_pickup = c.is_start;
                }
            },
            _ => {},
        }
    }
}

/// Finds where replay starts: just after the last line that closes an
/// inventory sort, or 0 when no line does.
pub fn find_replay_start(lines: &[&str], config: &TrackerConfig) -> (r: usize)
    ensures
        r == replay_start(line_views(lines@), config.excluded_pages@, config.sort_label@),
{
    let ghost all = line_views(lines@);
    let ghost excluded = config.excluded_pages@;
    let ghost sort = config.sort_label@;
    let names = ItemCatalog::from_entries(Vec::new());
    let mut i = lines.len();
    assert(all.take(i as int) =~= all);
    while i > 0
        invariant
            i <= lines@.len(),
            all == line_views(lines@),
            excluded == config.excluded_pages@,
            sort == config.sort_label@,
            replay_start(all, excluded, sort) == replay_start(all.take(i as int), excluded, sort),
        decreases i,
    {
        let ev = classify_line(lines[i - 1], config, &names);
        let ghost part = all.take(i as int);
        assert(part.last() == lines@[i - 1]@);
        assert(part.drop_last() =~= all.take(i - 1));
        let is_end = match &ev {
            Some(LogEvent::Context(c)) => !c.is_start && c.proto_name == config.sort_label,
            _ => false,
        };
        if is_end {
            return i;
        }
        i = i - 1;
    }
    0
}

/// The state after the lines that follow the baseline.
fn run(lines: &[&str], config: &TrackerConfig, catalog: &ItemCatalog) -> (r: Replay)
    requires
        lines@.len() <= MAX_LOG_LINES,
    ensures
        r.model() == final_state(line_views(lines@), *config),
        r.bounded(MAX_LOG_LINES as int),
        r.named(*catalog),
{
    let ghost all = line_views(lines@);
    let start = find_replay_start(lines, config);
    proof {
        lemma_replay_start_bounds(all, config.excluded_pages@, config.sort_label@);
    }
    let mut st = Replay::new();
    let mut i = start;
    assert(all.subrange(start as int, start as int) =~= Seq::<Seq<char>>::empty());
    while i < lines.len()
        invariant
            start <= i <= lines@.len() <= MAX_LOG_LINES,
            all == line_views(lines@),
            st.model() == replay(
                all.subrange(start as int, i as int),
                config.excluded_pages@,
                config.pickup_label@,
            ),
            st.bounded(i - start),
            st.named(*catalog),
        decreases lines@.len() - i,
    {
        let ev = classify_line(lines[i], config, catalog);
        st.apply(ev, &config.pickup_label, i - start, Ghost(*catalog));
        assert(all.subrange(start as int, i + 1).drop_last() =~= all.subrange(start as int, i as int));
        i = i + 1;
    }
    assert(all.subrange(start as int, all.len() as int) == all.subrange(start as int, i as int));
    assert forall|k: int| 0 <= k < st.deltas@.len() implies -delta_bound(MAX_LOG_LINES as int)
        <= #[trigger] st.deltas@[k].1 <= delta_bound(MAX_LOG_LINES as int) by {}
    st
}

pub proof fn lemma_replay_start_bounds(lines: Seq<Seq<char>>, excluded: Seq<u32>, sort: Seq<char>)
    ensures
        0 <= replay_start(lines, excluded, sort) <= lines.len(),
    decreases lines.len(),
{
    if lines.len() > 0 {
        lemma_replay_start_bounds(lines.drop_last(), excluded, sort);
    }
}

/// The sum of the quantities of the live slots that hold `id`.
pub open spec fn current_total(slots: Seq<SlotModel>, id: Seq<char>) -> int
    decreases slots.len(),
{
    if slots.len() == 0 {
        0
    } else {
        current_total(slots.drop_last(), id) + if slots.last().item == id {
            slots.last().qty as int
        } else {
            0
        }
    }
}

fn total_of(slots: &Vec<BagEvent>, id: &String) -> (r: u64)
    requires
        slots@.len() <= MAX_LOG_LINES,
    ensures
        r == current_total(slot_models(slots@), id@),
{
    let ghost all = slot_models(slots@);
    let mut sum: u64 = 0;
    let mut i: usize = 0;
    while i < slots.len()
        invariant
            i <= slots@.len() <= MAX_LOG_LINES,
            all == slot_models(slots@),
            sum == current_total(all.take(i as int), id@),
            sum <= i * 0xffff_ffff,
        decreases slots@.len() - i,
    {
        assert(all.take(i + 1).drop_last() =~= all.take(i as int));
        if slots[i].config_base_id == *id {
            sum = sum + slots[i].num as u64;
        }
        i = i + 1;
    }
    assert(all.take(i as int) =~= all);
    sum
}

/// The loot records of a final state: the items with a non-zero delta, by
/// descending magnitude of the delta (earlier-counted first among equals),
/// each with the quantity that its live slots hold.
pub open spec fn loot_records(m: ReplayModel) -> Seq<LootRecord> {
    by_magnitude(nonzero(m.deltas)).map_values(
        |e: (Seq<char>, int)| LootRecord { item: e.0, delta: e.1, current: current_total(m.slots, e.0) },
    )
}

pub open spec fn loot_views(items: Seq<ItemDelta>) -> Seq<LootRecord> {
    items.map_values(|d: ItemDelta| d@)
}

/// Every record carries the display name that `catalog` gives its item.
pub open spec fn records_named(items: Seq<ItemDelta>, catalog: ItemCatalog) -> bool {
    forall|i: int|
        0 <= i < items.len() ==> #[trigger] items[i].item_name@ == catalog.name_of(
            items[i].config_base_id@,
        )
}

/// The loot gained since the last inventory sort in `lines`.
pub fn loot_summary(lines: &[&str], config: &TrackerConfig, catalog: &ItemCatalog) -> (r:
    LootSummary)
    requires
        lines@.len() <= MAX_LOG_LINES,
    ensures
        r.total_events == final_state(line_views(lines@), *config).events,
        loot_views(r.items@) == loot_records(final_state(line_views(lines@), *config)),
        records_named(r.items@, *catalog),
        forall|i: int, j: int|
            0 <= i < j < r.items@.len() ==> magnitude(#[trigger] r.items@[i].delta as int)
                >= magnitude(#[trigger] r.items@[j].delta as int),
{
    let st = run(lines, config, catalog);
    let ghost m = st.model();
    let Replay { slots, deltas, total_events, in_pickup: _ } = st;
    let ranked = rank_by_magnitude(drop_zero(deltas));
    let ghost order = by_magnitude(nonzero(m.deltas));
    assert(delta_entries(ranked@) == order);
    assert(slot_models(slots@) == m.slots);
    let mut items: Vec<ItemDelta> = Vec::new();
    let mut i: usize = 0;
    while i < ranked.len()
        invariant
            i <= ranked@.len(),
            delta_entries(ranked@) == order,
            slot_models(slots@) == m.slots,
            slots@.len() <= MAX_LOG_LINES,
            loot_views(items@) == loot_records(m).take(i as int),
            records_named(items@, *catalog),
            order == by_magnitude(nonzero(m.deltas)),
        decreases ranked@.len() - i,
    {
        let id = &ranked[i].0;
        let item = ItemDelta {
            config_base_id: id.clone(),
            item_name: catalog.resolve(id.as_str()),
            delta: ranked[i].1,
            current: total_of(&slots, id),
        };
        assert(order[i as int] == (ranked@[i as int].0@, ranked@[i as int].1 as int));
        assert(loot_records(m)[i as int] == item@);
        let ghost before = items@;
        items.push(item);
        assert(loot_views(items@) =~= loot_views(before).push(item@));
        assert(loot_views(items@) =~= loot_records(m).take(i + 1));
        i = i + 1;
    }
    assert(loot_records(m).take(i as int) =~= loot_records(m));
    proof {
        lemma_by_magnitude_sorted(nonzero(m.deltas));
        assert forall|a: int, b: int| 0 <= a < b < items@.len() implies magnitude(
            #[trigger] items@[a].delta as int,
        ) >= magnitude(#[trigger] items@[b].delta as int) by {
            assert(loot_views(items@)[a].delta == order[a].1);
            assert(loot_views(items@)[b].delta == order[b].1);
        }
    }
    LootSummary { items, total_events }
}

/// The live slots after replaying `lines` from the last inventory sort, in
/// ascending `(page, slot)` order.
pub fn inventory_snapshot(lines: &[&str], config: &TrackerConfig, catalog: &ItemCatalog) -> (r:
    Vec<BagEvent>)
    requires
        lines@.len() <= MAX_LOG_LINES,
    ensures
        slot_models(r@) == by_slot(final_state(line_views(lines@), *config).slots),
        all_named(r@, *catalog),
        forall|i: int, j: int|
            0 <= i < j < r@.len() ==> slot_before(#[trigger] r@[i]@, #[trigger] r@[j]@),
{
    let st = run(lines, config, catalog);
    let Replay { slots, deltas: _, total_events: _, in_pickup: _ } = st;
    let ghost models = slot_models(slots@);
    let r = order_by_slot(slots, Ghost(*catalog));
    proof {
        lemma_by_slot_sorted(models);
        lemma_by_slot_distinct(models);
        lemma_final_keys_unique(line_views(lines@), *config);
        assert forall|i: int, j: int| 0 <= i < j < r@.len() implies slot_before(
            #[trigger] r@[i]@,
            #[trigger] r@[j]@,
        ) by {
            assert(slot_models(r@)[i] == r@[i]@);
            assert(slot_models(r@)[j] == r@[j]@);
            let (a, b) = choose|a: int, b: int|
                0 <= a < models.len() && 0 <= b < models.len() && a != b && models[a]
                    == by_slot(models)[i] && models[b] == by_slot(models)[j];
            if a < b {
                assert(!(models[a].page == models[b].page && models[a].slot == models[b].slot));
            } else {
                assert(!(models[b].page == models[a].page && models[b].slot == models[a].slot));
            }
        }
    }
    r
}

} // verus!
