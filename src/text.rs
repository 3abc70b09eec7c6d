//! Character-level helpers: whitespace, substring search and trimming, each
//! stated over the line's characters.
use vstd::prelude::*;
use vstd::std_specs::iter::IteratorSpec;

verus! {

/// Whether `c` has the Unicode `White_Space` property (what
/// `char::is_whitespace` tests).
pub open spec fn is_space(c: char) -> bool {
    let u = c as u32;
    ||| 0x09 <= u <= 0x0d
    ||| u == 0x20
    ||| u == 0x85
    ||| u == 0xa0
    ||| u == 0x1680
    ||| 0x2000 <= u <= 0x200a
    ||| u == 0x2028
    ||| u == 0x2029
    ||| u == 0x202f
    ||| u == 0x205f
    ||| u == 0x3000
}

/// `pat` stands in `s` starting at index `i`.
pub open spec fn occurs_at(s: Seq<char>, pat: Seq<char>, i: int) -> bool {
    &&& 0 <= i
    &&& i + pat.len() <= s.len()
    &&& s.subrange(i, i + pat.len()) == pat
}

/// The first index at or after `i` where `pat` occurs in `s`.
pub open spec fn find_from(s: Seq<char>, pat: Seq<char>, i: int) -> Option<int>
    decreases s.len() + 1 - i,
{
    if i < 0 || i + pat.len() > s.len() {
        None
    } else if occurs_at(s, pat, i) {
        Some(i)
    } else {
        find_from(s, pat, i + 1)
    }
}

/// The first index where `pat` occurs in `s`.
pub open spec fn find(s: Seq<char>, pat: Seq<char>) -> Option<int> {
    find_from(s, pat, 0)
}

pub open spec fn contains(s: Seq<char>, pat: Seq<char>) -> bool {
    find(s, pat) is Some
}

/// The first index at or after `i` that holds no whitespace (or `s.len()`).
pub open spec fn skip_spaces(s: Seq<char>, i: int) -> int
    decreases s.len() - i,
{
    if 0 <= i < s.len() && is_space(s[i]) {
        skip_spaces(s, i + 1)
    } else {
        i
    }
}

/// The first index at or after `i` that holds whitespace (or `s.len()`).
pub open spec fn token_end(s: Seq<char>, i: int) -> int
    decreases s.len() - i,
{
    if 0 <= i < s.len() && !is_space(s[i]) {
        token_end(s, i + 1)
    } else {
        i
    }
}

/// The length of the prefix `s[..n]` without its trailing whitespace.
pub open spec fn trimmed_len(s: Seq<char>, n: int) -> int
    decreases n,
{
    if 0 < n <= s.len() && is_space(s[n - 1]) {
        trimmed_len(s, n - 1)
    } else {
        n
    }
}

/// `s` without leading whitespace.
pub open spec fn trim_start(s: Seq<char>) -> Seq<char> {
    s.subrange(skip_spaces(s, 0), s.len() as int)
}

/// `s` without leading or trailing whitespace.
pub open spec fn trim(s: Seq<char>) -> Seq<char> {
    let t = trim_start(s);
    t.subrange(0, trimmed_len(t, t.len() as int))
}

pub proof fn lemma_find_from_bounds(s: Seq<char>, pat: Seq<char>, i: int)
    requires
        0 <= i,
    ensures
        find_from(s, pat, i) matches Some(k) ==> i <= k && occurs_at(s, pat, k) && forall|
            j: int,
        |
            i <= j < k ==> !occurs_at(s, pat, j),
        find_from(s, pat, i) is None ==> forall|j: int| i <= j ==> !occurs_at(s, pat, j),
    decreases s.len() + 1 - i,
{
    if i + pat.len() > s.len() {
    } else if !occurs_at(s, pat, i) {
        lemma_find_from_bounds(s, pat, i + 1);
    }
}

pub proof fn lemma_skip_spaces_bounds(s: Seq<char>, i: int)
    requires
        0 <= i <= s.len(),
    ensures
        i <= skip_spaces(s, i) <= s.len(),
        forall|j: int| i <= j < skip_spaces(s, i) ==> is_space(s[j]),
        skip_spaces(s, i) < s.len() ==> !is_space(s[skip_spaces(s, i)]),
    decreases s.len() - i,
{
    if i < s.len() && is_space(s[i]) {
        lemma_skip_spaces_bounds(s, i + 1);
    }
}

pub proof fn lemma_token_end_bounds(s: Seq<char>, i: int)
    requires
        0 <= i <= s.len(),
    ensures
        i <= token_end(s, i) <= s.len(),
        forall|j: int| i <= j < token_end(s, i) ==> !is_space(s[j]),
        token_end(s, i) < s.len() ==> is_space(s[token_end(s, i)]),
    decreases s.len() - i,
{
    if i < s.len() && !is_space(s[i]) {
        lemma_token_end_bounds(s, i + 1);
    }
}

pub proof fn lemma_trimmed_len_bounds(s: Seq<char>, n: int)
    requires
        0 <= n <= s.len(),
    ensures
        0 <= trimmed_len(s, n) <= n,
    decreases n,
{
    if 0 < n && is_space(s[n - 1]) {
        lemma_trimmed_len_bounds(s, n - 1);
    }
}

/// Tests the `White_Space` property.
pub fn is_space_char(c: char) -> (r: bool)
    ensures
        r == is_space(c),
{
    let u = c as u32;
    (0x09 <= u && u <= 0x0d) || u == 0x20 || u == 0x85 || u == 0xa0 || u == 0x1680 || (0x2000
        <= u && u <= 0x200a) || u == 0x2028 || u == 0x2029 || u == 0x202f || u == 0x205f || u
        == 0x3000
}

/// The characters of `s`, in order.
pub fn chars_of(s: &str) -> (r: Vec<char>)
    ensures
        r@ == s@,
{
    let mut out: Vec<char> = Vec::new();
    let mut it = s.chars();
    loop
        invariant
            out@ + it.remaining() == s@,
            it.decrease() is Some,
        ensures
            out@ == s@,
        decreases it.decrease()->0,
    {
        match it.next() {
            Some(c) => {
                out.push(c);
            },
            None => {
                assert(out@ =~= s@);
                break ;
            },
        }
    }
    out
}

/// Whether `pat` stands in `s` at index `i`.
fn matches_at(s: &[char], pat: &[char], i: usize) -> (r: bool)
    requires
        i + pat@.len() <= s@.len(),
    ensures
        r == occurs_at(s@, pat@, i as int),
{
    let n = s.len();
    let mut k: usize = 0;
    while k < pat.len()
        invariant
            k <= pat@.len(),
            i + pat@.len() <= s@.len(),
            n == s@.len(),
            forall|j: int| 0 <= j < k ==> s@[i + j] == pat@[j],
        decreases pat@.len() - k,
    {
        if s[i + k] != pat[k] {
            assert(s@.subrange(i as int, i + pat@.len())[k as int] != pat@[k as int]);
            return false;
        }
        k = k + 1;
    }
    assert(s@.subrange(i as int, i + pat@.len()) =~= pat@);
    true
}

/// The first index where `pat` occurs in `s`.
pub fn find_chars(s: &[char], pat: &[char]) -> (r: Option<usize>)
    ensures
        r matches Some(k) ==> find(s@, pat@) == Some(k as int),
        r is None ==> find(s@, pat@) is None,
{
    let mut i: usize = 0;
    while i <= s.len()
        invariant
            i <= s@.len() + 1,
            find(s@, pat@) == find_from(s@, pat@, i as int),
        decreases s@.len() + 1 - i,
    {
        if pat.len() > s.len() - i {
            return None;
        }
        if matches_at(s, pat, i) {
            return Some(i);
        }
        proof {
            if i == s@.len() {
                assert(s@.subrange(i as int, i as int) =~= pat@);
            }
        }
        i = i + 1;
    }
    None
}

/// Whether `pat` occurs anywhere in `s`.
pub fn contains_chars(s: &[char], pat: &[char]) -> (r: bool)
    ensures
        r == contains(s@, pat@),
{
    find_chars(s, pat).is_some()
}

/// The first index at or after `i` that holds no whitespace.
pub fn skip_spaces_from(s: &[char], i: usize) -> (r: usize)
    requires
        i <= s@.len(),
    ensures
        r == skip_spaces(s@, i as int),
{
    let mut k = i;
    while k < s.len() && is_space_char(s[k])
        invariant
            i <= k <= s@.len(),
            skip_spaces(s@, i as int) == skip_spaces(s@, k as int),
        decreases s@.len() - k,
    {
        k = k + 1;
    }
    k
}

/// The first index at or after `i` that holds whitespace.
pub fn token_end_from(s: &[char], i: usize) -> (r: usize)
    requires
        i <= s@.len(),
    ensures
        r == token_end(s@, i as int),
{
    let mut k = i;
    while k < s.len() && !is_space_char(s[k])
        invariant
            i <= k <= s@.len(),
            token_end(s@, i as int) == token_end(s@, k as int),
        decreases s@.len() - k,
    {
        k = k + 1;
    }
    k
}

/// The length of `s[..n]` without its trailing whitespace.
pub fn trimmed_len_of(s: &[char], n: usize) -> (r: usize)
    requires
        n <= s@.len(),
    ensures
        r == trimmed_len(s@, n as int),
{
    let mut k = n;
    while k > 0 && is_space_char(s[k - 1])
        invariant
            k <= n <= s@.len(),
            trimmed_len(s@, n as int) == trimmed_len(s@, k as int),
        decreases k,
    {
        k = k - 1;
    }
    k
}

/// Whether `a` and `b` hold the same characters.
pub fn chars_eq(a: &[char], b: &[char]) -> (r: bool)
    ensures
        r == (a@ == b@),
{
    if a.len() != b.len() {
        return false;
    }
    let mut i: usize = 0;
    while i < a.len()
        invariant
            i <= a@.len(),
            a@.len() == b@.len(),
            forall|j: int| 0 <= j < i ==> a@[j] == b@[j],
        decreases a@.len() - i,
    {
        if a[i] != b[i] {
            return false;
        }
        i = i + 1;
    }
    assert(a@ =~= b@);
    true
}

/// The bounds of `s` without leading and trailing whitespace.
pub fn trim_bounds(s: &[char]) -> (r: (usize, usize))
    ensures
        r.0 <= r.1 <= s@.len(),
        s@.subrange(r.0 as int, r.1 as int) == trim(s@),
{
    let a = skip_spaces_from(s, 0);
    proof {
        lemma_skip_spaces_bounds(s@, 0);
    }
    let t = &s[a..s.len()];
    let e = trimmed_len_of(t, t.len());
    proof {
        lemma_trimmed_len_bounds(t@, t@.len() as int);
        assert(t@ == trim_start(s@));
        assert(s@.subrange(a as int, a + e) =~= t@.subrange(0, e as int));
    }
    (a, a + e)
}

} // verus!
