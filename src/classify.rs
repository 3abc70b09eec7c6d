//! The line classifier: one raw log line to at most one typed event.
use vstd::prelude::*;
use crate::catalog::{builtin_name, ItemCatalog};
use crate::events::{
    BagEvent, BagRemoveEvent, ContextMarker, EventModel, LogEvent, MapEvent, TrackerConfig,
    event_view,
};
use crate::fields::{field_number, field_number_in, field_span, field_text};
use crate::text::{
    chars_eq, chars_of, contains, contains_chars, find, find_chars, lemma_find_from_bounds,
    trim, trim_bounds,
};

verus! {

/// A slot assertion under `marker` (`BagMgr@:Modfy` or `BagMgr@:InitBagData`)
/// with the fields `PageId`, `SlotId`, `ConfigBaseId` and `Num`, on a page that
/// is not excluded.
pub open spec fn slot_set_event(
    line: Seq<char>,
    marker: Seq<char>,
    baseline: bool,
    excluded: Seq<u32>,
) -> Option<EventModel> {
    if !contains(line, marker) {
        None
    } else {
        match field_number(line, "PageId"@) {
            None => None,
            Some(page) => if excluded.contains(page) {
                None
            } else {
                match (
                    field_number(line, "SlotId"@),
                    field_text(line, "ConfigBaseId"@),
                    field_number(line, "Num"@),
                ) {
                    (Some(slot), Some(item), Some(qty)) => Some(
                        EventModel::SlotSet { page, slot, item, qty, baseline },
                    ),
                    _ => None,
                }
            },
        }
    }
}

/// A `BagMgr@:RemoveBagItem` line with `PageId` and `SlotId`, on a page that
/// is not excluded.
pub open spec fn slot_clear_event(line: Seq<char>, excluded: Seq<u32>) -> Option<EventModel> {
    if !contains(line, "BagMgr@:RemoveBagItem"@) {
        None
    } else {
        match field_number(line, "PageId"@) {
            None => None,
            Some(page) => if excluded.contains(page) {
                None
            } else {
                match field_number(line, "SlotId"@) {
                    Some(slot) => Some(EventModel::SlotClear { page, slot }),
                    None => None,
                }
            },
        }
    }
}

/// An `ItemChange@` line with `ProtoName=<label> ` followed by `start` or
/// `end` and nothing else but whitespace.
pub open spec fn context_event(line: Seq<char>) -> Option<EventModel> {
    if !contains(line, "ItemChange@"@) || !contains(line, "ProtoName="@) {
        None
    } else {
        let p = find(line, "ProtoName="@)->0 + "ProtoName="@.len();
        let rest = line.subrange(p, line.len() as int);
        match find(rest, seq![' ']) {
            None => None,
            Some(k) => {
                let label = rest.subrange(0, k);
                let tail = trim(rest.subrange(k, rest.len() as int));
                if tail == "start"@ {
                    Some(EventModel::Marker { label, start: true })
                } else if tail == "end"@ {
                    Some(EventModel::Marker { label, start: false })
                } else {
                    None
                }
            },
        }
    }
}

/// An `OpenMainWorld END!` line: the zone path is what follows the first `=`
/// after `InMainLevelPath`, trimmed.
pub open spec fn zone_event(line: Seq<char>) -> Option<EventModel> {
    if !contains(line, "OpenMainWorld END!"@) {
        None
    } else {
        match find(line, "InMainLevelPath"@) {
            None => None,
            Some(i) => {
                let rest = line.subrange(i + "InMainLevelPath"@.len(), line.len() as int);
                match find(rest, seq!['=']) {
                    None => None,
                    Some(q) => Some(
                        EventModel::ZoneChange { path: trim(rest.subrange(q + 1, rest.len() as int)) },
                    ),
                }
            },
        }
    }
}

pub open spec fn first_of(a: Option<EventModel>, b: Option<EventModel>) -> Option<EventModel> {
    if a is Some {
        a
    } else {
        b
    }
}

/// The event that `line` holds, trying the rules in order: incremental slot
/// update, baseline slot assertion, slot removal, context marker, zone change.
pub open spec fn classify(line: Seq<char>, excluded: Seq<u32>) -> Option<EventModel> {
    first_of(
        slot_set_event(line, "BagMgr@:Modfy"@, false, excluded),
        first_of(
            slot_set_event(line, "BagMgr@:InitBagData"@, true, excluded),
            first_of(
                slot_clear_event(line, excluded),
                first_of(context_event(line), zone_event(line)),
            ),
        ),
    )
}

/// No line yields a slot event for an excluded page, whatever its fields say.
pub proof fn lemma_excluded_pages_unclassified(line: Seq<char>, excluded: Seq<u32>)
    ensures
        classify(line, excluded) matches Some(EventModel::SlotSet { page, .. })
            ==> !excluded.contains(page),
        classify(line, excluded) matches Some(EventModel::SlotClear { page, .. })
            ==> !excluded.contains(page),
{
}

/// A slot event carries the display name that `catalog` gives its item.
pub open spec fn named_by(e: Option<LogEvent>, catalog: ItemCatalog) -> bool {
    e matches Some(LogEvent::Bag(b)) ==> b.item_name@ == catalog.name_of(b.config_base_id@)
}

fn parse_bag_set(
    text: &str,
    line: &[char],
    marker: &str,
    is_init: bool,
    config: &TrackerConfig,
    catalog: &ItemCatalog,
) -> (r: Option<BagEvent>)
    requires
        line@ == text@,
    ensures
        event_view(
            match r {
                Some(b) => Some(LogEvent::Bag(b)),
                None => None,
            },
        ) == slot_set_event(line@, marker@, is_init, config.excluded_pages@),
        r matches Some(b) ==> b.item_name@ == catalog.name_of(b.config_base_id@),
{
    let m = chars_of(marker);
    if !contains_chars(line, m.as_slice()) {
        return None;
    }
    let page_id = match field_number_in(line, chars_of("PageId").as_slice()) {
        Some(p) => p,
        None => {
            return None;
        },
    };
    if !config.is_tracked_page(page_id) {
        return None;
    }
    let slot = field_number_in(line, chars_of("SlotId").as_slice());
    let cid = match field_span(line, chars_of("ConfigBaseId").as_slice()) {
        Some((b, e)) => Some(text.substring_char(b, e).to_owned()),
        None => None,
    };
    let num = field_number_in(line, chars_of("Num").as_slice());
    match (slot, cid, num) {
        (Some(slot_id), Some(config_base_id), Some(num)) => {
            let item_name = catalog.resolve(config_base_id.as_str());
            Some(BagEvent { page_id, slot_id, config_base_id, item_name, num, is_init })
        },
        _ => None,
    }
}

fn parse_bag_modify(text: &str, line: &[char], config: &TrackerConfig, catalog: &ItemCatalog) -> (r:
    Option<BagEvent>)
    requires
        line@ == text@,
    ensures
        event_view(
            match r {
                Some(b) => Some(LogEvent::Bag(b)),
                None => None,
            },
        ) == slot_set_event(line@, "BagMgr@:Modfy"@, false, config.excluded_pages@),
        r matches Some(b) ==> b.item_name@ == catalog.name_of(b.config_base_id@),
{
    parse_bag_set(text, line, "BagMgr@:Modfy", false, config, catalog)
}

fn parse_bag_init(text: &str, line: &[char], config: &TrackerConfig, catalog: &ItemCatalog) -> (r:
    Option<BagEvent>)
    requires
        line@ == text@,
    ensures
        event_view(
            match r {
                Some(b) => Some(LogEvent::Bag(b)),
                None => None,
            },
        ) == slot_set_event(line@, "BagMgr@:InitBagData"@, true, config.excluded_pages@),
        r matches Some(b) ==> b.item_name@ == catalog.name_of(b.config_base_id@),
{
    parse_bag_set(text, line, "BagMgr@:InitBagData", true, config, catalog)
}

fn parse_bag_remove(line: &[char], config: &TrackerConfig) -> (r: Option<BagRemoveEvent>)
    ensures
        event_view(
            match r {
                Some(b) => Some(LogEvent::BagRemove(b)),
                None => None,
            },
        ) == slot_clear_event(line@, config.excluded_pages@),
{
    if !contains_chars(line, chars_of("BagMgr@:RemoveBagItem").as_slice()) {
        return None;
    }
    let page_id = match field_number_in(line, chars_of("PageId").as_slice()) {
        Some(p) => p,
        None => {
            return None;
        },
    };
    if !config.is_tracked_page(page_id) {
        return None;
    }
    match field_number_in(line, chars_of("SlotId").as_slice()) {
        Some(slot_id) => Some(BagRemoveEvent { page_id, slot_id }),
        None => None,
    }
}

fn parse_context_marker(text: &str, line: &[char]) -> (r: Option<ContextMarker>)
    requires
        line@ == text@,
    ensures
        event_view(
            match r {
                Some(c) => Some(LogEvent::Context(c)),
                None => None,
            },
        ) == context_event(line@),
{
    let key = chars_of("ProtoName=");
    if !contains_chars(line, chars_of("ItemChange@").as_slice()) || !contains_chars(
        line,
        key.as_slice(),
    ) {
        return None;
    }
    let n = line.len();
    let i = match find_chars(line, key.as_slice()) {
        Some(i) => i,
        None => {
            return None;
        },
    };
    proof {
        lemma_find_from_bounds(line@, key@, 0);
    }
    let p = i + key.len();
    let rest = &line[p..n];
    let space: Vec<char> = vec![' '];
    assert(space@ =~= seq![' ']);
    let k = match find_chars(rest, space.as_slice()) {
        Some(k) => k,
        None => {
            return None;
        },
    };
    proof {
        lemma_find_from_bounds(rest@, space@, 0);
    }
    let tail = &rest[k..rest.len()];
    let (a, e) = trim_bounds(tail);
    let marker = &tail[a..e];
    let is_start = chars_eq(marker, chars_of("start").as_slice());
    if !is_start && !chars_eq(marker, chars_of("end").as_slice()) {
        return None;
    }
    proof {
        assert(rest@.subrange(0, k as int) =~= text@.subrange(p as int, p + k));
    }
    let proto_name = text.substring_char(p, p + k).to_owned();
    Some(ContextMarker { proto_name, is_start })
}

fn parse_map_event(text: &str, line: &[char]) -> (r: Option<MapEvent>)
    requires
        line@ == text@,
    ensures
        event_view(
            match r {
                Some(m) => Some(LogEvent::MapChange(m)),
                None => None,
            },
        ) == zone_event(line@),
{
    if !contains_chars(line, chars_of("OpenMainWorld END!").as_slice()) {
        return None;
    }
    let n = line.len();
    let key = chars_of("InMainLevelPath");
    let i = match find_chars(line, key.as_slice()) {
        Some(i) => i,
        None => {
            return None;
        },
    };
    proof {
        lemma_find_from_bounds(line@, key@, 0);
    }
    let p = i + key.len();
    let rest = &line[p..n];
    let eq: Vec<char> = vec!['='];
    assert(eq@ =~= seq!['=']);
    let q = match find_chars(rest, eq.as_slice()) {
        Some(q) => q,
        None => {
            return None;
        },
    };
    proof {
        lemma_find_from_bounds(rest@, eq@, 0);
    }
    let tail = &rest[q + 1..rest.len()];
    let (a, e) = trim_bounds(tail);
    proof {
        assert(tail@.subrange(a as int, e as int) =~= text@.subrange(
            p + q + 1 + a,
            p + q + 1 + e,
        ));
    }
    let zone_path = text.substring_char(p + q + 1 + a, p + q + 1 + e).to_owned();
    Some(MapEvent { zone_path })
}

/// Classifies `line` under `config`, naming items from `catalog`.
pub fn classify_line(line: &str, config: &TrackerConfig, catalog: &ItemCatalog) -> (r: Option<
    LogEvent,
>)
    ensures
        event_view(r) == classify(line@, config.excluded_pages@),
        named_by(r, *catalog),
{
    let chars = chars_of(line);
    let s = chars.as_slice();
    if let Some(ev) = parse_bag_modify(line, s, config, catalog) {
        return Some(LogEvent::Bag(ev));
    }
    if let Some(ev) = parse_bag_init(line, s, config, catalog) {
        return Some(LogEvent::Bag(ev));
    }
    if let Some(ev) = parse_bag_remove(s, config) {
        return Some(LogEvent::BagRemove(ev));
    }
    if let Some(ev) = parse_context_marker(line, s) {
        return Some(LogEvent::Context(ev));
    }
    if let Some(ev) = parse_map_event(line, s) {
        return Some(LogEvent::MapChange(ev));
    }
    None
}

/// Parses a single log line into a typed event, with the game's own
/// identifiers and the built-in item table.
pub fn parse_line(line: &str) -> (r: Option<LogEvent>)
    ensures
        event_view(r) == classify(line@, seq![100u32]),
        r matches Some(LogEvent::Bag(b)) ==> b.item_name@ == builtin_name(b.config_base_id@),
{
    let config = TrackerConfig::standard();
    let catalog = ItemCatalog::builtin();
    classify_line(line, &config, &catalog)
}

} // verus!
