use tli_tracker::{
    item_name, resolve_session_id, ItemCatalog, ItemDelta, LedgerOverflow, LootLedger,
    LootSummary, MapRun, NoActiveSession,
};

fn report(entries: &[(&str, i64)]) -> LootSummary {
    LootSummary {
        items: entries
            .iter()
            .map(|(id, d)| ItemDelta {
                config_base_id: id.to_string(),
                item_name: item_name(id),
                delta: *d,
                current: 0,
            })
            .collect(),
        total_events: entries.len(),
    }
}

#[test]
fn catalog_first_entry_wins() {
    let cat = ItemCatalog::from_entries(vec![
        ("1".to_string(), "One".to_string()),
        ("2".to_string(), "Two".to_string()),
        ("1".to_string(), "Uno".to_string()),
    ]);
    assert_eq!(cat.resolve("1"), "One");
    assert_eq!(cat.resolve("2"), "Two");
    assert_eq!(cat.resolve("3"), "Unknown 3");
    assert_eq!(cat.resolve(""), "Unknown ");
}

#[test]
fn builtin_catalog_names() {
    let cat = ItemCatalog::builtin();
    assert_eq!(cat.resolve("100300"), "Flame Elementium");
    assert_eq!(cat.resolve("1003000"), "Unknown 1003000");
}

#[test]
fn ledger_folds_differences() {
    let mut ledger = LootLedger::start(Some(&report(&[("100300", 10), ("5", 3)])));
    assert_eq!(ledger.total_items(), 0);
    assert_eq!(ledger.absorb(&report(&[("100300", 25), ("5", 3), ("6", -2)])), Ok(()));
    assert_eq!(ledger.flame_elementium(), 15);
    assert_eq!(ledger.gained("5"), 0);
    assert_eq!(ledger.gained("6"), -2);
    assert_eq!(ledger.total_items(), 13);
    // an item in both reports is diffed against the previous one
    assert_eq!(ledger.absorb(&report(&[("100300", 4)])), Ok(()));
    assert_eq!(ledger.flame_elementium(), -6);
    assert_eq!(ledger.absorb(&report(&[("100300", 9)])), Ok(()));
    assert_eq!(ledger.flame_elementium(), -1);
    // an item missing from the previous report counts in full
    assert_eq!(ledger.absorb(&report(&[("100300", 9), ("6", 1)])), Ok(()));
    assert_eq!(ledger.gained("6"), -1);
    assert_eq!(ledger.flame_elementium(), -1);
}

#[test]
fn ledger_without_report_counts_from_nothing() {
    let mut ledger = LootLedger::start(None);
    assert_eq!(ledger.absorb(&report(&[("7", 5)])), Ok(()));
    assert_eq!(ledger.gained("7"), 5);
    assert_eq!(ledger.flame_elementium(), 0);
}

#[test]
fn ledger_overflow_leaves_totals() {
    let mut ledger = LootLedger::start(None);
    assert_eq!(ledger.absorb(&report(&[("1", i64::MAX)])), Ok(()));
    assert_eq!(ledger.absorb(&report(&[])), Ok(()));
    assert_eq!(ledger.gained("1"), i64::MAX);
    assert_eq!(ledger.absorb(&report(&[("2", 1), ("1", 1)])), Err(LedgerOverflow));
    assert_eq!(ledger.gained("2"), 0);
    assert_eq!(ledger.gained("1"), i64::MAX);
    assert_eq!(ledger.absorb(&report(&[("1", 0)])), Ok(()));
    assert_eq!(ledger.gained("1"), i64::MAX);
}

#[test]
fn total_items_is_exact_beyond_i64() {
    let run = MapRun {
        map_name: "Beta".to_string(),
        loot_gained: vec![("1".to_string(), i64::MAX), ("2".to_string(), i64::MAX), ("3".to_string(), -4)],
    };
    assert_eq!(run.total_items(), 2 * (i64::MAX as i128) - 4);
    let empty = MapRun { map_name: String::new(), loot_gained: Vec::new() };
    assert_eq!(empty.total_items(), 0);
}

#[test]
fn session_resolution() {
    let sessions = vec![("a".to_string(), false), ("b".to_string(), true), ("c".to_string(), true)];
    assert_eq!(resolve_session_id(&sessions, Some("z".to_string())), Ok("z".to_string()));
    assert_eq!(resolve_session_id(&sessions, None), Ok("b".to_string()));
    assert_eq!(resolve_session_id(&sessions[..1], None), Err(NoActiveSession));
    assert_eq!(resolve_session_id(&[], None), Err(NoActiveSession));
}
