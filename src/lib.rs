//! Reconstructs a game client's inventory, and the loot gained since its last
//! inventory sort, from the client's free-form text log.
//!
//! - `parse_line` and `classify_line` turn one line into at most one event.
//! - `find_replay_start` finds the line after the last inventory sort.
//! - `loot_summary` and `inventory_snapshot` replay the events from there into
//!   per-slot state and per-item deltas (counted only inside pickups) and
//!   report loot records and live slots.
//! - `current_zone` names the zone that the log entered last.
//! - `LootLedger` folds successive loot summaries into session totals.
mod catalog;
mod classify;
mod events;
mod fields;
mod ranking;
mod replay;
mod replay_lemmas;
mod report;
mod session;
mod steam;
mod text;
mod zone;

pub use catalog::{item_name, ItemCatalog, FLAME_ELEMENTIUM_ID};
pub use classify::{classify_line, parse_line};
pub use events::{BagEvent, BagRemoveEvent, ContextMarker, LogEvent, MapEvent, TrackerConfig};
pub use fields::{extract_field, extract_field_str};
pub use replay::{find_replay_start, inventory_snapshot, loot_summary, MAX_LOG_LINES};
pub use report::{ItemDelta, LootSummary};
pub use zone::{current_zone, zone_display_name};
pub use session::{resolve_session_id, LedgerOverflow, LootLedger, MapRun, NoActiveSession};
pub use steam::library_paths;
