//! Item name resolution: an immutable table from item id to display name.
use vstd::prelude::*;
use vstd::string::StringExecFns;

verus! {

/// The id of Flame Elementium, the primary tracked resource.
pub const FLAME_ELEMENTIUM_ID: &'static str = "100300";

/// The name of the first entry whose id is `id`, if any.
pub open spec fn lookup(entries: Seq<(String, String)>, id: Seq<char>) -> Option<Seq<char>>
    decreases entries.len(),
{
    if entries.len() == 0 {
        None
    } else if entries[0].0@ == id {
        Some(entries[0].1@)
    } else {
        lookup(entries.drop_first(), id)
    }
}

/// The display name of `id`: its entry's name, or `Unknown <id>`.
pub open spec fn display_name(entries: Seq<(String, String)>, id: Seq<char>) -> Seq<char> {
    match lookup(entries, id) {
        Some(n) => n,
        None => "Unknown "@ + id,
    }
}

/// The display name that the built-in table gives `id`.
pub open spec fn builtin_name(id: Seq<char>) -> Seq<char> {
    if id == FLAME_ELEMENTIUM_ID@ {
        "Flame Elementium"@
    } else {
        "Unknown "@ + id
    }
}

/// A table from item id to display name. Ids are compared as text; where an
/// id has several entries the first one counts.
pub struct ItemCatalog {
    entries: Vec<(String, String)>,
}

impl ItemCatalog {
    pub closed spec fn entries(&self) -> Seq<(String, String)> {
        self.entries@
    }

    /// The display name that this table gives `id`.
    pub open spec fn name_of(&self, id: Seq<char>) -> Seq<char> {
        display_name(self.entries(), id)
    }

    /// A table holding `entries`, in that order.
    pub fn from_entries(entries: Vec<(String, String)>) -> (r: ItemCatalog)
        ensures
            r.entries() == entries@,
    {
        ItemCatalog { entries }
    }

    /// The built-in table.
    pub fn builtin() -> (r: ItemCatalog)
        ensures
            forall|id: Seq<char>| #[trigger] r.name_of(id) == builtin_name(id),
    {
        let mut entries: Vec<(String, String)> = Vec::new();
        entries.push((FLAME_ELEMENTIUM_ID.to_owned(), "Flame Elementium".to_owned()));
        let r = ItemCatalog { entries };
        assert forall|id: Seq<char>| #[trigger] r.name_of(id) == builtin_name(id) by {
            assert(r.entries().drop_first().len() == 0);
            assert(lookup(r.entries().drop_first(), id) is None);
            assert(r.entries()[0].0@ == FLAME_ELEMENTIUM_ID@);
        }
        r
    }

    /// The display name of `id`; an id without an entry gets `Unknown <id>`.
    pub fn resolve(&self, id: &str) -> (r: String)
        ensures
            r@ == self.name_of(id@),
    {
        let key = id.to_owned();
        let mut i: usize = 0;
        assert(self.entries@.subrange(0, self.entries@.len() as int) =~= self.entries@);
        while i < self.entries.len()
            invariant
                i <= self.entries@.len(),
                lookup(self.entries@, id@) == lookup(
                    self.entries@.subrange(i as int, self.entries@.len() as int),
                    id@,
                ),
                key@ == id@,
            decreases self.entries@.len() - i,
        {
            let ghost rest = self.entries@.subrange(i as int, self.entries@.len() as int);
            assert(rest.drop_first() =~= self.entries@.subrange(i + 1, self.entries@.len() as int));
            if self.entries[i].0 == key {
                return self.entries[i].1.clone();
            }
            i = i + 1;
        }
        StringExecFns::concat("Unknown ".to_owned(), id)
    }
}

/// Resolves an item id to its display name with the built-in table, or
/// `Unknown <id>` when the table has no entry for it.
pub fn item_name(config_base_id: &str) -> (r: String)
    ensures
        r@ == builtin_name(config_base_id@),
{
    ItemCatalog::builtin().resolve(config_base_id)
}

} // verus!
