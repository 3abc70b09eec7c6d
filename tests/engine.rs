use tli_tracker::{
    current_zone, extract_field, extract_field_str, find_replay_start, inventory_snapshot,
    loot_summary, parse_line, zone_display_name, ItemCatalog, LogEvent, LootSummary,
    TrackerConfig,
};

fn summary(lines: &[&str]) -> LootSummary {
    loot_summary(lines, &TrackerConfig::standard(), &ItemCatalog::builtin())
}

const INIT_FE_609: &str =
    "GameLog: Display: [Game] BagMgr@:InitBagData PageId=102 SlotId=0 ConfigBaseId=100300 Num=609";
const PICK_START: &str = "GameLog: Display: [Game] ItemChange@ ProtoName=PickItems start";
const PICK_END: &str = "GameLog: Display: [Game] ItemChange@ ProtoName=PickItems end";
const MODIFY_FE_671: &str =
    "GameLog: Display: [Game] BagMgr@:Modfy BagItem PageId=102 SlotId=0 ConfigBaseId=100300 Num=671";
const SORT_END: &str = "GameLog: Display: [Game] ItemChange@ ProtoName=ResetItemsLayout end";

#[test]
fn scenario_pickup_after_baseline() {
    let lines = [INIT_FE_609, PICK_START, MODIFY_FE_671, PICK_END];
    let s = summary(&lines);
    assert_eq!(s.items.len(), 1);
    assert_eq!(s.items[0].config_base_id, "100300");
    assert_eq!(s.items[0].item_name, "Flame Elementium");
    assert_eq!(s.items[0].delta, 62);
    assert_eq!(s.items[0].current, 671);
    assert_eq!(s.total_events, 1);
    assert_eq!(s.flame_elementium_delta(), 62);
}

#[test]
fn scenario_excluded_page_in_pickup() {
    let lines = [
        PICK_START,
        "GameLog: Display: [Game] BagMgr@:Modfy BagItem PageId=100 SlotId=3 ConfigBaseId=500 Num=1",
        PICK_END,
    ];
    let s = summary(&lines);
    assert!(s.items.is_empty());
    assert_eq!(s.total_events, 0);
    let inv = inventory_snapshot(&lines, &TrackerConfig::standard(), &ItemCatalog::builtin());
    assert!(inv.is_empty());
}

#[test]
fn scenario_remove_in_pickup() {
    let lines = [
        "GameLog: Display: [Game] BagMgr@:InitBagData PageId=103 SlotId=39 ConfigBaseId=200100 Num=5",
        PICK_START,
        "GameLog: Display: [Game] BagMgr@:RemoveBagItem PageId=103 SlotId=39",
        PICK_END,
    ];
    let s = summary(&lines);
    assert_eq!(s.items.len(), 1);
    assert_eq!(s.items[0].config_base_id, "200100");
    assert_eq!(s.items[0].delta, -5);
    assert_eq!(s.items[0].current, 0);
    assert_eq!(s.items[0].item_name, "Unknown 200100");
    let inv = inventory_snapshot(&lines, &TrackerConfig::standard(), &ItemCatalog::builtin());
    assert!(inv.iter().all(|b| !(b.page_id == 103 && b.slot_id == 39)));
    assert!(inv.is_empty());
}

#[test]
fn field_whitespace_does_not_matter() {
    let canonical = "BagMgr@:Modfy PageId = 102 SlotId = 7";
    let padded = "BagMgr@:Modfy PageId   =\t  102 SlotId=7";
    let tight = "BagMgr@:Modfy PageId=102 SlotId=7";
    for line in [canonical, padded, tight] {
        assert_eq!(extract_field_str(line, "PageId").as_deref(), Some("102"));
        assert_eq!(extract_field(line, "PageId"), Some(102));
        assert_eq!(extract_field(line, "SlotId"), Some(7));
    }
}

#[test]
fn field_extractor_edge_cases() {
    assert_eq!(extract_field_str("Num 5", "Num"), None);
    assert_eq!(extract_field_str("Num =   ", "Num"), None);
    assert_eq!(extract_field_str("Other = 1", "Num"), None);
    assert_eq!(extract_field_str("Num = abc def", "Num").as_deref(), Some("abc"));
    assert_eq!(extract_field("Num = abc", "Num"), None);
    assert_eq!(extract_field("Num = +5", "Num"), Some(5));
    assert_eq!(extract_field("Num = -5", "Num"), None);
    assert_eq!(extract_field("Num = 4294967295", "Num"), Some(4294967295));
    assert_eq!(extract_field("Num = 4294967296", "Num"), None);
    assert_eq!(extract_field("Num = 0007", "Num"), Some(7));
    // the first occurrence of the name counts
    assert_eq!(extract_field("Num x Num = 3", "Num"), None);
}

#[test]
fn baseline_then_update_counts_difference() {
    let lines = [
        PICK_START,
        "BagMgr@:InitBagData PageId = 102 SlotId = 4 ConfigBaseId = 700 Num = 100",
        "BagMgr@:Modfy BagItem PageId = 102 SlotId = 4 ConfigBaseId = 700 Num = 130",
    ];
    let s = summary(&lines);
    assert_eq!(s.items.len(), 1);
    assert_eq!(s.items[0].delta, 30);
    assert_eq!(s.items[0].current, 130);
}

#[test]
fn different_item_counts_full_quantity() {
    let lines = [
        "BagMgr@:InitBagData PageId = 103 SlotId = 1 ConfigBaseId = 111 Num = 50",
        PICK_START,
        "BagMgr@:Modfy BagItem PageId = 103 SlotId = 1 ConfigBaseId = 222 Num = 7",
        PICK_END,
    ];
    let s = summary(&lines);
    assert_eq!(s.items.len(), 1);
    assert_eq!(s.items[0].config_base_id, "222");
    assert_eq!(s.items[0].delta, 7);
    assert!(s.items.iter().all(|i| i.config_base_id != "111"));
}

#[test]
fn excluded_pages_never_classified() {
    for line in [
        "BagMgr@:Modfy BagItem PageId = 100 SlotId = 0 ConfigBaseId = 1 Num = 1",
        "BagMgr@:InitBagData PageId = 100 SlotId = 0 ConfigBaseId = 1 Num = 1",
        "BagMgr@:RemoveBagItem PageId = 100 SlotId = 0",
    ] {
        assert!(parse_line(line).is_none());
    }
    let mut config = TrackerConfig::standard();
    config.excluded_pages.push(101);
    let lines = [PICK_START, "BagMgr@:Modfy BagItem PageId = 101 SlotId = 0 ConfigBaseId = 9 Num = 4"];
    let s = loot_summary(&lines, &config, &ItemCatalog::builtin());
    assert!(s.items.is_empty());
    assert_eq!(summary(&lines).items.len(), 1);
}

#[test]
fn unrelated_marker_does_not_open_pickup() {
    let lines = [
        "ItemChange@ ProtoName=SellItems start",
        "BagMgr@:Modfy BagItem PageId = 102 SlotId = 0 ConfigBaseId = 9 Num = 4",
        "ItemChange@ ProtoName=SellItems end",
    ];
    let s = summary(&lines);
    assert!(s.items.is_empty());
    assert_eq!(s.total_events, 0);
    let inv = inventory_snapshot(&lines, &TrackerConfig::standard(), &ItemCatalog::builtin());
    assert_eq!(inv.len(), 1);
}

#[test]
fn net_zero_delta_is_dropped() {
    let lines = [
        "BagMgr@:InitBagData PageId = 102 SlotId = 2 ConfigBaseId = 300 Num = 10",
        PICK_START,
        "BagMgr@:Modfy BagItem PageId = 102 SlotId = 2 ConfigBaseId = 300 Num = 20",
        "BagMgr@:Modfy BagItem PageId = 102 SlotId = 2 ConfigBaseId = 300 Num = 10",
        PICK_END,
    ];
    let s = summary(&lines);
    assert!(s.items.is_empty());
    assert_eq!(s.total_events, 2);
}

#[test]
fn replay_is_deterministic() {
    let lines = [INIT_FE_609, PICK_START, MODIFY_FE_671, PICK_END];
    let a = summary(&lines);
    let b = summary(&lines);
    assert_eq!(a.items.len(), b.items.len());
    for (x, y) in a.items.iter().zip(b.items.iter()) {
        assert_eq!(x.config_base_id, y.config_base_id);
        assert_eq!(x.delta, y.delta);
        assert_eq!(x.current, y.current);
    }
    assert_eq!(a.total_events, b.total_events);
}

#[test]
fn records_ordered_by_magnitude_ties_in_first_counted_order() {
    let lines = [
        PICK_START,
        "BagMgr@:Modfy BagItem PageId = 102 SlotId = 0 ConfigBaseId = 1 Num = 5",
        "BagMgr@:Modfy BagItem PageId = 102 SlotId = 1 ConfigBaseId = 2 Num = 9",
        "BagMgr@:Modfy BagItem PageId = 102 SlotId = 2 ConfigBaseId = 3 Num = 5",
        "BagMgr@:InitBagData PageId = 103 SlotId = 0 ConfigBaseId = 4 Num = 9",
        "BagMgr@:RemoveBagItem PageId = 103 SlotId = 0",
    ];
    let s = summary(&lines);
    let ids: Vec<&str> = s.items.iter().map(|i| i.config_base_id.as_str()).collect();
    assert_eq!(ids, vec!["2", "4", "1", "3"]);
    let deltas: Vec<i64> = s.items.iter().map(|i| i.delta).collect();
    assert_eq!(deltas, vec![9, -9, 5, 5]);
    assert_eq!(s.total_events, 4);
}

#[test]
fn current_sums_all_slots_of_an_item() {
    let lines = [
        "BagMgr@:InitBagData PageId = 102 SlotId = 0 ConfigBaseId = 100300 Num = 999",
        PICK_START,
        "BagMgr@:Modfy BagItem PageId = 102 SlotId = 1 ConfigBaseId = 100300 Num = 40",
    ];
    let s = summary(&lines);
    assert_eq!(s.items.len(), 1);
    assert_eq!(s.items[0].delta, 40);
    assert_eq!(s.items[0].current, 1039);
}

#[test]
fn replay_starts_after_last_sort() {
    let lines = [
        PICK_START,
        "BagMgr@:Modfy BagItem PageId = 102 SlotId = 0 ConfigBaseId = 5 Num = 3",
        SORT_END,
        "BagMgr@:InitBagData PageId = 102 SlotId = 0 ConfigBaseId = 5 Num = 3",
        SORT_END,
        "BagMgr@:InitBagData PageId = 102 SlotId = 1 ConfigBaseId = 6 Num = 8",
    ];
    let config = TrackerConfig::standard();
    assert_eq!(find_replay_start(&lines, &config), 5);
    assert_eq!(find_replay_start(&lines[..2], &config), 0);
    assert_eq!(find_replay_start(&[], &config), 0);
    let s = summary(&lines);
    assert!(s.items.is_empty());
    let inv = inventory_snapshot(&lines, &config, &ItemCatalog::builtin());
    assert_eq!(inv.len(), 1);
    assert_eq!(inv[0].config_base_id, "6");
    assert!(inv[0].is_init);
}

#[test]
fn sort_start_marker_is_not_a_baseline() {
    let lines = ["ItemChange@ ProtoName=ResetItemsLayout start", "x"];
    assert_eq!(find_replay_start(&lines, &TrackerConfig::standard()), 0);
}

#[test]
fn empty_log_gives_nothing() {
    let s = summary(&[]);
    assert!(s.items.is_empty());
    assert_eq!(s.total_events, 0);
    assert!(inventory_snapshot(&[], &TrackerConfig::standard(), &ItemCatalog::builtin()).is_empty());
    assert_eq!(current_zone(&[], &TrackerConfig::standard()), None);
}

#[test]
fn inventory_sorted_by_page_then_slot() {
    let lines = [
        "BagMgr@:InitBagData PageId = 103 SlotId = 1 ConfigBaseId = 1 Num = 1",
        "BagMgr@:InitBagData PageId = 102 SlotId = 9 ConfigBaseId = 2 Num = 2",
        "BagMgr@:Modfy BagItem PageId = 102 SlotId = 3 ConfigBaseId = 100300 Num = 3",
        "BagMgr@:InitBagData PageId = 103 SlotId = 0 ConfigBaseId = 4 Num = 4",
        "BagMgr@:InitBagData PageId = 102 SlotId = 9 ConfigBaseId = 5 Num = 5",
    ];
    let inv = inventory_snapshot(&lines, &TrackerConfig::standard(), &ItemCatalog::builtin());
    let keys: Vec<(u32, u32)> = inv.iter().map(|b| (b.page_id, b.slot_id)).collect();
    assert_eq!(keys, vec![(102, 3), (102, 9), (103, 0), (103, 1)]);
    assert_eq!(inv[0].item_name, "Flame Elementium");
    assert!(!inv[0].is_init);
    assert_eq!(inv[1].config_base_id, "5");
    assert_eq!(inv[1].num, 5);
}

#[test]
fn zone_is_last_map_change_anywhere() {
    let lines = [
        "SceneLevelMgr@ OpenMainWorld END! InMainLevelPath = /Game/Maps/First/Alpha",
        SORT_END,
        "SceneLevelMgr@ OpenMainWorld END! InMainLevelPath = /Game/Maps/Second/Beta  ",
        "unrelated",
    ];
    let config = TrackerConfig::standard();
    assert_eq!(current_zone(&lines, &config).as_deref(), Some("Beta"));
    assert_eq!(current_zone(&lines[..2], &config).as_deref(), Some("Alpha"));
    assert_eq!(zone_display_name("NoSlashes"), "NoSlashes");
    assert_eq!(zone_display_name("/a/b/"), "");
}

#[test]
fn context_marker_forms() {
    match parse_line("ItemChange@ ProtoName=PickItems end") {
        Some(LogEvent::Context(c)) => {
            assert_eq!(c.proto_name, "PickItems");
            assert!(!c.is_start);
        }
        _ => panic!("expected a context marker"),
    }
    match parse_line("ItemChange@ ProtoName=PickItems   start   ") {
        Some(LogEvent::Context(c)) => assert!(c.is_start),
        _ => panic!("expected a context marker"),
    }
    assert!(parse_line("ItemChange@ ProtoName=PickItems started").is_none());
    assert!(parse_line("ItemChange@ ProtoName=PickItems").is_none());
    assert!(parse_line("ProtoName=PickItems start").is_none());
}

#[test]
fn malformed_slot_lines_are_ignored() {
    assert!(parse_line("BagMgr@:Modfy BagItem PageId = 102 SlotId = x ConfigBaseId = 1 Num = 1").is_none());
    assert!(parse_line("BagMgr@:Modfy BagItem PageId = 102 SlotId = 1 Num = 1").is_none());
    assert!(parse_line("BagMgr@:Modfy BagItem PageId = 102 SlotId = 1 ConfigBaseId = 1").is_none());
    assert!(parse_line("BagMgr@:RemoveBagItem PageId = 103").is_none());
    assert!(parse_line("").is_none());
    assert!(parse_line("OpenMainWorld END! no path here").is_none());
}

#[test]
fn map_event_path_is_trimmed() {
    match parse_line("SceneLevelMgr@ OpenMainWorld END! InMainLevelPath =   /A/B   ") {
        Some(LogEvent::MapChange(m)) => assert_eq!(m.zone_path, "/A/B"),
        _ => panic!("expected a zone change"),
    }
}

#[test]
fn tracked_pages_follow_config() {
    let config = TrackerConfig::standard();
    assert!(!config.is_tracked_page(100));
    assert!(config.is_tracked_page(101));
    assert!(config.is_tracked_page(102));
    let none = TrackerConfig {
        excluded_pages: Vec::new(),
        pickup_label: "PickItems".to_string(),
        sort_label: "ResetItemsLayout".to_string(),
    };
    assert!(none.is_tracked_page(100));
    assert!(tli_tracker::classify_line(
        "BagMgr@:Modfy BagItem PageId = 100 SlotId = 0 ConfigBaseId = 1 Num = 1",
        &none,
        &ItemCatalog::builtin()
    )
    .is_some());
}

#[test]
fn custom_catalog_and_labels() {
    let catalog = ItemCatalog::from_entries(vec![("42".to_string(), "Answer".to_string())]);
    let config = TrackerConfig {
        excluded_pages: vec![100],
        pickup_label: "Loot".to_string(),
        sort_label: "Sort".to_string(),
    };
    match tli_tracker::classify_line(
        "BagMgr@:InitBagData PageId = 102 SlotId = 0 ConfigBaseId = 42 Num = 3",
        &config,
        &catalog,
    ) {
        Some(LogEvent::Bag(b)) => assert_eq!(b.item_name, "Answer"),
        _ => panic!("expected a slot event"),
    }
    let lines = [
        "ItemChange@ ProtoName=Loot start",
        "BagMgr@:Modfy BagItem PageId = 102 SlotId = 0 ConfigBaseId = 42 Num = 3",
        "ItemChange@ ProtoName=Sort end",
        "BagMgr@:Modfy BagItem PageId = 102 SlotId = 1 ConfigBaseId = 42 Num = 8",
        "ItemChange@ ProtoName=PickItems end",
        "BagMgr@:Modfy BagItem PageId = 102 SlotId = 2 ConfigBaseId = 42 Num = 1",
    ];
    assert_eq!(find_replay_start(&lines, &config), 3);
    let s = loot_summary(&lines, &config, &catalog);
    assert_eq!(s.items.len(), 0);
    let lines2 = [lines[0], lines[1], lines[3]];
    let s2 = loot_summary(&lines2, &config, &catalog);
    assert_eq!(s2.items.len(), 1);
    assert_eq!(s2.items[0].item_name, "Answer");
    assert_eq!(s2.items[0].delta, 11);
    assert_eq!(s2.items[0].current, 11);
}

#[test]
fn library_folder_paths() {
    let lines = [
        "\"libraryfolders\"",
        "{",
        "\t\"0\"",
        "\t{",
        "\t\t\"path\"\t\t\"/home/me/.local/share/Steam\"",
        "\t\t\"label\"\t\t\"\"",
        "\t}",
        "\t\t\"path\"\t\t\"/mnt/games\"  ",
        "\"path\" \"/unterminated",
        "\"path\" only",
    ];
    let paths = tli_tracker::library_paths(&lines);
    assert_eq!(paths, vec!["/home/me/.local/share/Steam", "/mnt/games", "/unterminated"]);
    assert!(tli_tracker::library_paths(&[]).is_empty());
}
