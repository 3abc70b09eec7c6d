//! The engine's output records.
use vstd::prelude::*;
use crate::catalog::FLAME_ELEMENTIUM_ID;

verus! {

/// The net change of one item since the baseline, and how much of it the
/// inventory holds now.
#[derive(Debug, Clone)]
pub struct ItemDelta {
    pub config_base_id: String,
    pub item_name: String,
    pub delta: i64,
    pub current: u64,
}

/// A loot record: `item` changed by `delta`, and `current` units of it sit in
/// live slots.
pub struct LootRecord {
    pub item: Seq<char>,
    pub delta: int,
    pub current: int,
}

impl View for ItemDelta {
    type V = LootRecord;

    open spec fn view(&self) -> LootRecord {
        LootRecord {
            item: self.config_base_id@,
            delta: self.delta as int,
            current: self.current as int,
        }
    }
}

/// The loot gained since the last inventory sort.
#[derive(Debug, Clone)]
pub struct LootSummary {
    pub items: Vec<ItemDelta>,
    pub total_events: usize,
}

/// The sum of the deltas of the records for `id`.
pub open spec fn delta_sum(items: Seq<ItemDelta>, id: Seq<char>) -> int
    decreases items.len(),
{
    if items.len() == 0 {
        0
    } else {
        delta_sum(items.drop_last(), id) + if items.last().config_base_id@ == id {
            items.last().delta as int
        } else {
            0
        }
    }
}

/// Every running sum of the deltas for `id` fits in an `i64`.
pub open spec fn sums_fit(items: Seq<ItemDelta>, id: Seq<char>) -> bool {
    forall|k: int|
        0 <= k <= items.len() ==> i64::MIN <= #[trigger] delta_sum(items.take(k), id) <= i64::MAX
}

impl LootSummary {
    /// The net Flame Elementium delta of this summary.
    pub fn flame_elementium_delta(&self) -> (r: i64)
        requires
            sums_fit(self.items@, FLAME_ELEMENTIUM_ID@),
        ensures
            r == delta_sum(self.items@, FLAME_ELEMENTIUM_ID@),
    {
        let key = FLAME_ELEMENTIUM_ID.to_owned();
        let ghost items = self.items@;
        let mut sum: i64 = 0;
        let mut i: usize = 0;
        while i < self.items.len()
            invariant
                i <= items.len(),
                items == self.items@,
                key@ == FLAME_ELEMENTIUM_ID@,
                sums_fit(items, FLAME_ELEMENTIUM_ID@),
                sum == delta_sum(items.take(i as int), FLAME_ELEMENTIUM_ID@),
            decreases items.len() - i,
        {
            assert(items.take(i + 1).drop_last() =~= items.take(i as int));
            assert(i64::MIN <= delta_sum(items.take(i + 1), FLAME_ELEMENTIUM_ID@) <= i64::MAX);
            if self.items[i].config_base_id == key {
                sum = sum + self.items[i].delta;
            }
            i = i + 1;
        }
        assert(items.take(i as int) =~= items);
        sum
    }
}

} // verus!
