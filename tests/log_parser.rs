use tli_tracker::{item_name, parse_line, ItemDelta, LogEvent, LootSummary, FLAME_ELEMENTIUM_ID};

#[test]
fn test_item_name_lookup() {
    assert_eq!(item_name("100300"), "Flame Elementium");
}

#[test]
fn test_item_name_unknown() {
    assert_eq!(item_name("999999999"), "Unknown 999999999");
}

#[test]
fn test_parse_bag_modify() {
    let line = "GameLog: Display: [Game] BagMgr@:Modfy BagItem PageId = 102 SlotId = 0 ConfigBaseId = 100300 Num = 671";
    let ev = parse_line(line).unwrap();
    match ev {
        LogEvent::Bag(b) => {
            assert_eq!(b.page_id, 102);
            assert_eq!(b.slot_id, 0);
            assert_eq!(b.config_base_id, "100300");
            assert_eq!(b.num, 671);
            assert!(!b.is_init);
            assert_eq!(b.item_name, "Flame Elementium");
        }
        _ => panic!("expected Bag event"),
    }
}

#[test]
fn test_parse_bag_init() {
    let line = "GameLog: Display: [Game] BagMgr@:InitBagData PageId = 102 SlotId = 0 ConfigBaseId = 100300 Num = 609";
    let ev = parse_line(line).unwrap();
    match ev {
        LogEvent::Bag(b) => {
            assert!(b.is_init);
            assert_eq!(b.config_base_id, "100300");
            assert_eq!(b.num, 609);
        }
        _ => panic!("expected Bag event"),
    }
}

#[test]
fn test_parse_bag_remove() {
    let line = "GameLog: Display: [Game] BagMgr@:RemoveBagItem PageId = 103 SlotId = 39";
    let ev = parse_line(line).unwrap();
    match ev {
        LogEvent::BagRemove(r) => {
            assert_eq!(r.page_id, 103);
            assert_eq!(r.slot_id, 39);
        }
        _ => panic!("expected BagRemove event"),
    }
}

#[test]
fn test_parse_context_marker() {
    let line = "GameLog: Display: [Game] ItemChange@ ProtoName=PickItems start";
    let ev = parse_line(line).unwrap();
    match ev {
        LogEvent::Context(c) => {
            assert_eq!(c.proto_name, "PickItems");
            assert!(c.is_start);
        }
        _ => panic!("expected Context event"),
    }
}

#[test]
fn test_parse_map_event() {
    let line = "SceneLevelMgr@ OpenMainWorld END! InMainLevelPath = /Game/Art/Maps/01SD/XZ_YuJinZhiXiBiNanSuo200/test";
    let ev = parse_line(line).unwrap();
    match ev {
        LogEvent::MapChange(m) => {
            assert!(m.zone_path.contains("XZ_YuJinZhiXiBiNanSuo200"));
        }
        _ => panic!("expected Map event"),
    }
}

#[test]
fn test_excluded_page() {
    let line = "GameLog: Display: [Game] BagMgr@:Modfy BagItem PageId = 100 SlotId = 0 ConfigBaseId = 100300 Num = 1";
    assert!(parse_line(line).is_none());
}

#[test]
fn test_flame_elementium_id_constant() {
    assert_eq!(FLAME_ELEMENTIUM_ID, "100300");
    assert_eq!(item_name(FLAME_ELEMENTIUM_ID), "Flame Elementium");
}

#[test]
fn test_loot_summary_flame_elementium_delta() {
    let summary = LootSummary {
        items: vec![
            ItemDelta {
                config_base_id: FLAME_ELEMENTIUM_ID.to_string(),
                item_name: "Flame Elementium".to_string(),
                delta: 150,
                current: 500,
            },
            ItemDelta {
                config_base_id: "200100".to_string(),
                item_name: "Some Other Item".to_string(),
                delta: 20,
                current: 30,
            },
        ],
        total_events: 5,
    };
    assert_eq!(summary.flame_elementium_delta(), 150);
}

#[test]
fn test_loot_summary_flame_elementium_delta_none() {
    let summary = LootSummary {
        items: vec![ItemDelta {
            config_base_id: "200100".to_string(),
            item_name: "Some Other Item".to_string(),
            delta: 20,
            current: 30,
        }],
        total_events: 1,
    };
    assert_eq!(summary.flame_elementium_delta(), 0);
}
