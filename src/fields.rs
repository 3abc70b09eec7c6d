//! The field extractor: reads `name = value` tokens out of a log line.
use vstd::prelude::*;
use crate::text::{
    chars_of, find, find_chars, find_from, is_space, lemma_skip_spaces_bounds,
    lemma_token_end_bounds, occurs_at, skip_spaces, skip_spaces_from, token_end, token_end_from,
};

verus! {

/// The value of field `name` in `line`: after the first occurrence of `name`,
/// optional whitespace, a literal `=`, optional whitespace, then the run of
/// non-whitespace characters that follows. Absent when `name` does not occur,
/// no `=` follows, or the run is empty.
pub open spec fn field_text(line: Seq<char>, name: Seq<char>) -> Option<Seq<char>> {
    match find(line, name) {
        None => None,
        Some(i) => {
            let a = skip_spaces(line, i + name.len());
            if a < line.len() && line[a] == '=' {
                let b = skip_spaces(line, a + 1);
                let e = token_end(line, b);
                if b < e {
                    Some(line.subrange(b, e))
                } else {
                    None
                }
            } else {
                None
            }
        },
    }
}

pub open spec fn is_digit(c: char) -> bool {
    0x30 <= (c as u32) <= 0x39
}

pub open spec fn all_digits(s: Seq<char>) -> bool {
    forall|i: int| 0 <= i < s.len() ==> is_digit(#[trigger] s[i])
}

/// The number that the decimal digits `s` spell.
pub open spec fn decimal_value(s: Seq<char>) -> int
    decreases s.len(),
{
    if s.len() == 0 {
        0
    } else {
        10 * decimal_value(s.drop_last()) + (s.last() as u32 - 0x30)
    }
}

/// What `u32::from_str` gives for `s`: an optional `+`, then one or more
/// decimal digits whose value fits in a `u32`.
/// `s` without one leading `+`, if it has one.
pub open spec fn unsigned_digits(s: Seq<char>) -> Seq<char> {
    if s.len() > 0 && s[0] == '+' {
        s.drop_first()
    } else {
        s
    }
}

pub open spec fn parse_u32(s: Seq<char>) -> Option<u32> {
    let d = unsigned_digits(s);
    if d.len() > 0 && all_digits(d) && decimal_value(d) <= u32::MAX {
        Some(decimal_value(d) as u32)
    } else {
        None
    }
}

/// The numeric value of field `name` in `line`.
pub open spec fn field_number(line: Seq<char>, name: Seq<char>) -> Option<u32> {
    match field_text(line, name) {
        Some(t) => parse_u32(t),
        None => None,
    }
}

pub open spec fn text_view(o: Option<String>) -> Option<Seq<char>> {
    match o {
        Some(t) => Some(t@),
        None => None,
    }
}

proof fn lemma_decimal_nonneg(d: Seq<char>)
    requires
        all_digits(d),
    ensures
        decimal_value(d) >= 0,
    decreases d.len(),
{
    if d.len() > 0 {
        assert(is_digit(d[d.len() - 1]));
        lemma_decimal_nonneg(d.drop_last());
    }
}

proof fn lemma_decimal_prefix(d: Seq<char>, k: int)
    requires
        all_digits(d),
        0 <= k <= d.len(),
    ensures
        decimal_value(d.take(k)) <= decimal_value(d),
    decreases d.len(),
{
    if k < d.len() {
        let p = d.drop_last();
        assert(is_digit(d[d.len() - 1]));
        lemma_decimal_nonneg(p);
        lemma_decimal_prefix(p, k);
        assert(p.take(k) =~= d.take(k));
    } else {
        assert(d.take(k) =~= d);
    }
}

proof fn lemma_find_extend(a: Seq<char>, b: Seq<char>, pat: Seq<char>, i: int)
    requires
        0 <= i,
        find_from(a, pat, i) is Some,
    ensures
        find_from(a + b, pat, i) == find_from(a, pat, i),
    decreases a.len() + 1 - i,
{
    if i + pat.len() <= a.len() {
        assert((a + b).subrange(i, i + pat.len()) =~= a.subrange(i, i + pat.len()));
        if !occurs_at(a, pat, i) {
            lemma_find_extend(a, b, pat, i + 1);
        }
    }
}

proof fn lemma_skip_run(s: Seq<char>, i: int, n: int)
    requires
        0 <= i,
        0 <= n,
        i + n < s.len(),
        forall|j: int| i <= j < i + n ==> is_space(#[trigger] s[j]),
        !is_space(s[i + n]),
    ensures
        skip_spaces(s, i) == i + n,
    decreases n,
{
    if n > 0 {
        lemma_skip_run(s, i + 1, n - 1);
    }
}

proof fn lemma_token_run(s: Seq<char>, i: int, n: int)
    requires
        0 <= i,
        0 <= n,
        i + n <= s.len(),
        forall|j: int| i <= j < i + n ==> !is_space(#[trigger] s[j]),
        i + n == s.len() || is_space(s[i + n]),
    ensures
        token_end(s, i) == i + n,
    decreases n,
{
    if n > 0 {
        lemma_token_run(s, i + 1, n - 1);
    }
}

proof fn lemma_field_layout(
    prefix: Seq<char>,
    name: Seq<char>,
    gap1: Seq<char>,
    gap2: Seq<char>,
    value: Seq<char>,
    suffix: Seq<char>,
)
    requires
        find(prefix + name, name) == Some(prefix.len() as int),
        forall|i: int| 0 <= i < gap1.len() ==> is_space(#[trigger] gap1[i]),
        forall|i: int| 0 <= i < gap2.len() ==> is_space(#[trigger] gap2[i]),
        value.len() > 0,
        forall|i: int| 0 <= i < value.len() ==> !is_space(#[trigger] value[i]),
        suffix.len() == 0 || is_space(suffix[0]),
    ensures
        field_text(prefix + name + gap1 + seq!['='] + gap2 + value + suffix, name) == Some(value),
{
    let head = prefix + name;
    let tail = gap1 + seq!['='] + gap2 + value + suffix;
    let line = prefix + name + gap1 + seq!['='] + gap2 + value + suffix;
    assert(line =~= head + tail);
    lemma_find_extend(head, tail, name, 0);
    let p = head.len() as int;
    let a = p + gap1.len();
    let b = a + 1 + gap2.len();
    let e = b + value.len();
    assert forall|j: int| p <= j < a implies is_space(#[trigger] line[j]) by {
        assert(line[j] == gap1[j - p]);
    }
    assert(line[a] == '=');
    lemma_skip_run(line, p, gap1.len() as int);
    assert forall|j: int| a + 1 <= j < b implies is_space(#[trigger] line[j]) by {
        assert(line[j] == gap2[j - a - 1]);
    }
    assert(line[b] == value[0]);
    lemma_skip_run(line, a + 1, gap2.len() as int);
    assert forall|j: int| b <= j < e implies !is_space(#[trigger] line[j]) by {
        assert(line[j] == value[j - b]);
    }
    if suffix.len() > 0 {
        assert(line[e] == suffix[0]);
    }
    lemma_token_run(line, b, value.len() as int);
    assert(line.subrange(b, e) =~= value);
}

/// The value read for a field does not depend on the whitespace around its
/// `=`: wherever `name` first occurs right after `prefix`, runs of whitespace
/// of any length before and after the `=` give the value that the canonical
/// ` = ` spacing gives, namely the whitespace-free token that follows.
pub proof fn lemma_field_spacing(
    prefix: Seq<char>,
    name: Seq<char>,
    gap1: Seq<char>,
    gap2: Seq<char>,
    value: Seq<char>,
    suffix: Seq<char>,
)
    requires
        find(prefix + name, name) == Some(prefix.len() as int),
        forall|i: int| 0 <= i < gap1.len() ==> is_space(#[trigger] gap1[i]),
        forall|i: int| 0 <= i < gap2.len() ==> is_space(#[trigger] gap2[i]),
        value.len() > 0,
        forall|i: int| 0 <= i < value.len() ==> !is_space(#[trigger] value[i]),
        suffix.len() == 0 || is_space(suffix[0]),
    ensures
        field_text(prefix + name + gap1 + seq!['='] + gap2 + value + suffix, name) == Some(value),
        field_text(prefix + name + gap1 + seq!['='] + gap2 + value + suffix, name) == field_text(
            prefix + name + seq![' ', '=', ' '] + value + suffix,
            name,
        ),
{
    lemma_field_layout(prefix, name, gap1, gap2, value, suffix);
    let sp = seq![' '];
    assert(is_space(sp[0]));
    lemma_field_layout(prefix, name, sp, sp, value, suffix);
    assert(prefix + name + sp + seq!['='] + sp + value + suffix =~= prefix + name + seq![
        ' ',
        '=',
        ' ',
    ] + value + suffix);
}

/// Parses the characters `s[b..e]` as `u32::from_str` would.
fn parse_u32_in(s: &[char], b: usize, e: usize) -> (r: Option<u32>)
    requires
        b <= e <= s@.len(),
    ensures
        r == parse_u32(s@.subrange(b as int, e as int)),
{
    let ghost t = s@.subrange(b as int, e as int);
    let mut i = b;
    if i < e && s[i] == '+' {
        i = i + 1;
    }
    let start = i;
    let ghost d = s@.subrange(start as int, e as int);
    assert(d =~= unsigned_digits(t));
    if start == e {
        return None;
    }
    let mut v: u64 = 0;
    while i < e
        invariant
            b <= start <= i <= e <= s@.len(),
            d == s@.subrange(start as int, e as int),
            d == unsigned_digits(t),
            t == s@.subrange(b as int, e as int),
            v as int == decimal_value(s@.subrange(start as int, i as int)),
            v <= u32::MAX,
            all_digits(s@.subrange(start as int, i as int)),
        decreases e - i,
    {
        let c = s[i];
        if !((c as u32) >= 0x30 && (c as u32) <= 0x39) {
            assert(!is_digit(d[i - start]));
            return None;
        }
        let ghost prev = s@.subrange(start as int, i as int);
        let ghost next = s@.subrange(start as int, i + 1);
        assert(next.drop_last() =~= prev);
        assert(all_digits(next)) by {
            assert forall|j: int| 0 <= j < next.len() implies is_digit(#[trigger] next[j]) by {
                if j < prev.len() {
                    assert(next[j] == prev[j]);
                }
            }
        }
        v = v * 10 + ((c as u32) - 0x30) as u64;
        if v > 0xffff_ffff {
            proof {
                if all_digits(d) {
                    assert(d.take(i + 1 - start) =~= next);
                    lemma_decimal_prefix(d, i + 1 - start);
                }
            }
            return None;
        }
        i = i + 1;
    }
    Some(v as u32)
}

/// Finds the value of field `name` in `line` as a character range.
pub fn field_span(line: &[char], name: &[char]) -> (r: Option<(usize, usize)>)
    ensures
        r matches Some((b, e)) ==> b < e <= line@.len() && field_text(line@, name@) == Some(
            line@.subrange(b as int, e as int),
        ),
        r is None ==> field_text(line@, name@) is None,
{
    let i = match find_chars(line, name) {
        Some(i) => i,
        None => {
            return None;
        },
    };
    let n = line.len();
    proof {
        crate::text::lemma_find_from_bounds(line@, name@, 0);
    }
    let a = skip_spaces_from(line, i + name.len());
    proof {
        lemma_skip_spaces_bounds(line@, i + name@.len());
    }
    if a < line.len() && line[a] == '=' {
        let b = skip_spaces_from(line, a + 1);
        proof {
            lemma_skip_spaces_bounds(line@, a + 1);
        }
        let e = token_end_from(line, b);
        proof {
            lemma_token_end_bounds(line@, b as int);
        }
        if b < e {
            Some((b, e))
        } else {
            None
        }
    } else {
        None
    }
}

/// The text value of field `name` in `line`, if there is one.
pub fn extract_field_str(line: &str, name: &str) -> (r: Option<String>)
    ensures
        text_view(r) == field_text(line@, name@),
{
    let chars = chars_of(line);
    let pat = chars_of(name);
    match field_span(chars.as_slice(), pat.as_slice()) {
        Some((b, e)) => Some(line.substring_char(b, e).to_owned()),
        None => None,
    }
}

/// The numeric value of field `name` in `line`, if it is present and reads
/// as a `u32`.
pub fn extract_field(line: &str, name: &str) -> (r: Option<u32>)
    ensures
        r == field_number(line@, name@),
{
    let chars = chars_of(line);
    let pat = chars_of(name);
    field_number_in(chars.as_slice(), pat.as_slice())
}

/// The numeric value of field `name` in the characters `line`.
pub fn field_number_in(line: &[char], name: &[char]) -> (r: Option<u32>)
    ensures
        r == field_number(line@, name@),
{
    match field_span(line, name) {
        Some((b, e)) => parse_u32_in(line, b, e),
        None => None,
    }
}

} // verus!
