//! Reading library folders out of Steam's `libraryfolders.vdf`.
use vstd::prelude::*;
use crate::text::{chars_eq, chars_of, trim, trim_bounds};

verus! {

/// The first index at or after `i` that holds `"` (or `s.len()`).
pub open spec fn quote_after(s: Seq<char>, i: int) -> int
    decreases s.len() - i,
{
    if 0 <= i < s.len() && s[i] != '"' {
        quote_after(s, i + 1)
    } else {
        i
    }
}

/// The `k`-th piece (from 0) of `s[i..]` split at each `"`.
pub open spec fn quoted_piece(s: Seq<char>, k: nat, i: int) -> Option<Seq<char>>
    decreases k,
{
    let q = quote_after(s, i);
    if k == 0 {
        Some(s.subrange(i, q))
    } else if q >= s.len() {
        None
    } else {
        quoted_piece(s, (k - 1) as nat, q + 1)
    }
}

/// The library path that a `"path"  "<dir>"` line names: the line trimmed
/// must start with `"path"`, and the path is its fourth `"`-separated piece.
pub open spec fn library_path(line: Seq<char>) -> Option<Seq<char>> {
    let t = trim(line);
    if t.len() >= "\"path\""@.len() && t.subrange(0, "\"path\""@.len() as int) == "\"path\""@ {
        quoted_piece(t, 3, 0)
    } else {
        None
    }
}

/// The library paths that `lines` name, in order.
pub open spec fn library_paths_of(lines: Seq<Seq<char>>) -> Seq<Seq<char>>
    decreases lines.len(),
{
    if lines.len() == 0 {
        Seq::empty()
    } else {
        match library_path(lines.last()) {
            Some(p) => library_paths_of(lines.drop_last()).push(p),
            None => library_paths_of(lines.drop_last()),
        }
    }
}

proof fn lemma_quote_after(s: Seq<char>, i: int)
    requires
        0 <= i <= s.len(),
    ensures
        i <= quote_after(s, i) <= s.len(),
    decreases s.len() - i,
{
    if i < s.len() && s[i] != '"' {
        lemma_quote_after(s, i + 1);
    }
}

fn quote_after_in(s: &[char], i: usize) -> (r: usize)
    requires
        i <= s@.len(),
    ensures
        r == quote_after(s@, i as int),
{
    let mut k = i;
    while k < s.len() && s[k] != '"'
        invariant
            i <= k <= s@.len(),
            quote_after(s@, i as int) == quote_after(s@, k as int),
        decreases s@.len() - k,
    {
        k = k + 1;
    }
    k
}

/// The path that one line of the file names, if it names one.
fn library_path_in(line: &str) -> (r: Option<String>)
    ensures
        match r {
            Some(p) => library_path(line@) == Some(p@),
            None => library_path(line@) is None,
        },
{
    let chars = chars_of(line);
    let (a, e) = trim_bounds(chars.as_slice());
    let t = &chars.as_slice()[a..e];
    let key = chars_of("\"path\"");
    if t.len() < key.len() || !chars_eq(&t[0..key.len()], key.as_slice()) {
        return None;
    }
    let mut i: usize = 0;
    let mut k: usize = 0;
    while k < 3
        invariant
            k <= 3,
            i <= t@.len(),
            library_path(line@) == quoted_piece(t@, 3, 0),
            quoted_piece(t@, 3, 0) == quoted_piece(t@, (3 - k) as nat, i as int),
        decreases 3 - k,
    {
        let q = quote_after_in(t, i);
        if q >= t.len() {
            return None;
        }
        i = q + 1;
        k = k + 1;
    }
    let q = quote_after_in(t, i);
    proof {
        lemma_quote_after(t@, i as int);
        assert(t@.subrange(i as int, q as int) =~= line@.subrange(a + i, a + q)) by {
            assert(chars@ == line@);
        }
    }
    Some(line.substring_char(a + i, a + q).to_owned())
}

/// The library paths named in the lines of a `libraryfolders.vdf` file.
pub fn library_paths(lines: &[&str]) -> (r: Vec<String>)
    ensures
        r@.map_values(|p: String| p@) == library_paths_of(lines@.map_values(|l: &str| l@)),
{
    let ghost all = lines@.map_values(|l: &str| l@);
    let mut out: Vec<String> = Vec::new();
    let mut i: usize = 0;
    while i < lines.len()
        invariant
            i <= lines@.len(),
            all == lines@.map_values(|l: &str| l@),
            out@.map_values(|p: String| p@) == library_paths_of(all.take(i as int)),
        decreases lines@.len() - i,
    {
        assert(all.take(i + 1).drop_last() =~= all.take(i as int));
        assert(all.take(i + 1).last() == lines@[i as int]@);
        let ghost before = out@;
        match library_path_in(lines[i]) {
            Some(p) => {
                out.push(p);
                assert(out@.map_values(|p: String| p@) =~= before.map_values(|p: String| p@).push(
                    out@[before.len() as int]@,
                ));
            },
            None => {},
        }
        i = i + 1;
    }
    assert(all.take(i as int) =~= all);
    out
}

} // verus!
