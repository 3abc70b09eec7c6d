//! Typed log events, their abstract model, and the engine's configuration.
use vstd::prelude::*;

verus! {

/// An inventory slot now holds `num` units of `config_base_id`.
/// `is_init` marks a full-snapshot assertion rather than an incremental update.
#[derive(Debug, Clone)]
pub struct BagEvent {
    pub page_id: u32,
    pub slot_id: u32,
    pub config_base_id: String,
    pub item_name: String,
    pub num: u32,
    pub is_init: bool,
}

/// An inventory slot became empty.
#[derive(Debug, Clone)]
pub struct BagRemoveEvent {
    pub page_id: u32,
    pub slot_id: u32,
}

/// A named transaction boundary opening (`is_start`) or closing.
#[derive(Debug, Clone)]
pub struct ContextMarker {
    pub proto_name: String,
    pub is_start: bool,
}

/// The player entered the zone at `zone_path`.
#[derive(Debug, Clone)]
pub struct MapEvent {
    pub zone_path: String,
}

#[derive(Debug, Clone)]
pub enum LogEvent {
    Bag(BagEvent),
    BagRemove(BagRemoveEvent),
    Context(ContextMarker),
    MapChange(MapEvent),
}

/// A live inventory slot: `qty` units of `item` at `(page, slot)`;
/// `baseline` tells whether the last write was a full-snapshot assertion.
pub struct SlotModel {
    pub page: u32,
    pub slot: u32,
    pub item: Seq<char>,
    pub qty: u32,
    pub baseline: bool,
}

impl View for BagEvent {
    type V = SlotModel;

    open spec fn view(&self) -> SlotModel {
        SlotModel {
            page: self.page_id,
            slot: self.slot_id,
            item: self.config_base_id@,
            qty: self.num,
            baseline: self.is_init,
        }
    }
}

/// What an event's line says, with text as character sequences. (A slot
/// event's display name is not part of it: that comes from an item table.)
pub enum EventModel {
    SlotSet { page: u32, slot: u32, item: Seq<char>, qty: u32, baseline: bool },
    SlotClear { page: u32, slot: u32 },
    Marker { label: Seq<char>, start: bool },
    ZoneChange { path: Seq<char> },
}

impl View for LogEvent {
    type V = EventModel;

    open spec fn view(&self) -> EventModel {
        match self {
            LogEvent::Bag(b) => EventModel::SlotSet {
                page: b.page_id,
                slot: b.slot_id,
                item: b.config_base_id@,
                qty: b.num,
                baseline: b.is_init,
            },
            LogEvent::BagRemove(r) => EventModel::SlotClear { page: r.page_id, slot: r.slot_id },
            LogEvent::Context(c) => EventModel::Marker { label: c.proto_name@, start: c.is_start },
            LogEvent::MapChange(m) => EventModel::ZoneChange { path: m.zone_path@ },
        }
    }
}

pub open spec fn event_view(e: Option<LogEvent>) -> Option<EventModel> {
    match e {
        Some(ev) => Some(ev@),
        None => None,
    }
}

/// The identifiers that the engine's matching depends on.
pub struct TrackerConfig {
    /// Pages whose slots are never tracked (equipped gear).
    pub excluded_pages: Vec<u32>,
    /// The context label whose markers open and close a pickup.
    pub pickup_label: String,
    /// The context label whose closing marker ends an inventory sort.
    pub sort_label: String,
}

impl TrackerConfig {
    /// The game's own identifiers: gear page 100, `PickItems`,
    /// `ResetItemsLayout`.
    pub fn standard() -> (r: TrackerConfig)
        ensures
            r.excluded_pages@ == seq![100u32],
            r.pickup_label@ == "PickItems"@,
            r.sort_label@ == "ResetItemsLayout"@,
    {
        let mut excluded_pages: Vec<u32> = Vec::new();
        excluded_pages.push(100);
        TrackerConfig {
            excluded_pages,
            pickup_label: "PickItems".to_owned(),
            sort_label: "ResetItemsLayout".to_owned(),
        }
    }

    /// Whether slots on `page_id` are tracked.
    pub fn is_tracked_page(&self, page_id: u32) -> (r: bool)
        ensures
            r == !self.excluded_pages@.contains(page_id),
    {
        let mut i: usize = 0;
        while i < self.excluded_pages.len()
            invariant
                i <= self.excluded_pages@.len(),
                forall|j: int| 0 <= j < i ==> self.excluded_pages@[j] != page_id,
            decreases self.excluded_pages@.len() - i,
        {
            if self.excluded_pages[i] == page_id {
                return false;
            }
            i = i + 1;
        }
        true
    }
}

} // verus!
