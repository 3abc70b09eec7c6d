//! Zone tracking: the most recent zone change in the whole log.
use vstd::prelude::*;
use crate::catalog::ItemCatalog;
use crate::classify::{classify, classify_line};
use crate::events::{EventModel, LogEvent, TrackerConfig};
use crate::fields::text_view;
use crate::replay::line_views;
use crate::text::chars_of;

verus! {

/// The path of the last zone change in `lines`, if any.
pub open spec fn last_zone(lines: Seq<Seq<char>>, excluded: Seq<u32>) -> Option<Seq<char>>
    decreases lines.len(),
{
    if lines.len() == 0 {
        None
    } else {
        match classify(lines.last(), excluded) {
            Some(EventModel::ZoneChange { path }) => Some(path),
            _ => last_zone(lines.drop_last(), excluded),
        }
    }
}

/// The index just after the last `/` in `p[..n]` (0 when there is none).
pub open spec fn segment_start(p: Seq<char>, n: int) -> int
    decreases n,
{
    if n <= 0 || n > p.len() {
        0
    } else if p[n - 1] == '/' {
        n
    } else {
        segment_start(p, n - 1)
    }
}

/// The final `/`-separated segment of `p`.
pub open spec fn zone_name(p: Seq<char>) -> Seq<char> {
    p.subrange(segment_start(p, p.len() as int), p.len() as int)
}

proof fn lemma_segment_start(p: Seq<char>, n: int)
    requires
        0 <= n <= p.len(),
    ensures
        0 <= segment_start(p, n) <= n,
    decreases n,
{
    if n > 0 && p[n - 1] != '/' {
        lemma_segment_start(p, n - 1);
    }
}

/// The final `/`-separated segment of `path`.
pub fn zone_display_name(path: &str) -> (r: String)
    ensures
        r@ == zone_name(path@),
{
    let chars = chars_of(path);
    let n = chars.len();
    let mut k = n;
    while k > 0 && chars[k - 1] != '/'
        invariant
            k <= n == path@.len(),
            chars@ == path@,
            segment_start(path@, n as int) == segment_start(path@, k as int),
        decreases k,
    {
        k = k - 1;
    }
    proof {
        lemma_segment_start(path@, k as int);
    }
    path.substring_char(k, n).to_owned()
}

/// The display name of the zone that the last zone change in `lines` entered.
pub fn current_zone(lines: &[&str], config: &TrackerConfig) -> (r: Option<String>)
    ensures
        text_view(r) == match last_zone(line_views(lines@), config.excluded_pages@) {
            Some(p) => Some(zone_name(p)),
            None => None,
        },
{
    let ghost all = line_views(lines@);
    let names = ItemCatalog::from_entries(Vec::new());
    let mut i = lines.len();
    assert(all.take(i as int) =~= all);
    while i > 0
        invariant
            i <= lines@.len(),
            all == line_views(lines@),
            last_zone(all, config.excluded_pages@) == last_zone(
                all.take(i as int),
                config.excluded_pages@,
            ),
        decreases i,
    {
        let ghost part = all.take(i as int);
        assert(part.last() == lines@[i - 1]@);
        assert(part.drop_last() =~= all.take(i - 1));
        if let Some(LogEvent::MapChange(m)) = classify_line(lines[i - 1], config, &names) {
            return Some(zone_display_name(m.zone_path.as_str()));
        }
        i = i - 1;
    }
    None
}

} // verus!
