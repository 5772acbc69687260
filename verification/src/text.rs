//! Character-level scanning helpers for the statement grammar: whitespace
//! skipping, identifier runs, case-insensitive keywords, and substring
//! extraction.

use vstd::prelude::*;
use vstd::string::{StringExecFns, StrSliceExecFns};

verus! {

pub open spec fn is_space_char(c: char) -> bool {
    c == ' ' || c == '\t'
}

pub open spec fn is_ws_char(c: char) -> bool {
    c == ' ' || c == '\t' || c == '\r' || c == '\n'
}

pub open spec fn is_alpha_char(c: char) -> bool {
    97 <= c as u32 <= 122 || 65 <= c as u32 <= 90
}

pub open spec fn is_alnum_char(c: char) -> bool {
    is_alpha_char(c) || 48 <= c as u32 <= 57
}

fn is_space(c: char) -> (r: bool)
    ensures
        r == is_space_char(c),
{
    c == ' ' || c == '\t'
}

fn is_ws(c: char) -> (r: bool)
    ensures
        r == is_ws_char(c),
{
    c == ' ' || c == '\t' || c == '\r' || c == '\n'
}

fn is_alpha(c: char) -> (r: bool)
    ensures
        r == is_alpha_char(c),
{
    let u = c as u32;
    (97 <= u && u <= 122) || (65 <= u && u <= 90)
}

fn is_alnum(c: char) -> (r: bool)
    ensures
        r == is_alnum_char(c),
{
    let u = c as u32;
    is_alpha(c) || (48 <= u && u <= 57)
}

/// Position of the first character at or after `from` that is not a
/// space or tab.
pub fn skip_spaces(s: &str, from: usize) -> (r: usize)
    requires
        from <= s@.len(),
    ensures
        from <= r <= s@.len(),
{
    let n = s.unicode_len();
    let mut i = from;
    while i < n
        invariant
            from <= i <= n,
            n == s@.len(),
        decreases n - i,
    {
        if !is_space(s.get_char(i)) {
            return i;
        }
        i = i + 1;
    }
    i
}

/// Position of the first character at or after `from` that is not
/// whitespace.
pub fn skip_ws(s: &str, from: usize) -> (r: usize)
    requires
        from <= s@.len(),
    ensures
        from <= r <= s@.len(),
{
    let n = s.unicode_len();
    let mut i = from;
    while i < n
        invariant
            from <= i <= n,
            n == s@.len(),
        decreases n - i,
    {
        if !is_ws(s.get_char(i)) {
            return i;
        }
        i = i + 1;
    }
    i
}

/// Position of the first character at or after `from` that is not a
/// plain space.
pub fn skip_blanks(s: &str, from: usize) -> (r: usize)
    requires
        from <= s@.len(),
    ensures
        from <= r <= s@.len(),
{
    let n = s.unicode_len();
    let mut i = from;
    while i < n
        invariant
            from <= i <= n,
            n == s@.len(),
        decreases n - i,
    {
        if s.get_char(i) != ' ' {
            return i;
        }
        i = i + 1;
    }
    i
}

/// End of the run of ASCII letters and digits starting at `from`.
pub fn scan_alnum(s: &str, from: usize) -> (r: usize)
    requires
        from <= s@.len(),
    ensures
        from <= r <= s@.len(),
{
    let n = s.unicode_len();
    let mut i = from;
    while i < n
        invariant
            from <= i <= n,
            n == s@.len(),
        decreases n - i,
    {
        if !is_alnum(s.get_char(i)) {
            return i;
        }
        i = i + 1;
    }
    i
}

/// End of the run of ASCII letters starting at `from`.
pub fn scan_alpha(s: &str, from: usize) -> (r: usize)
    requires
        from <= s@.len(),
    ensures
        from <= r <= s@.len(),
{
    let n = s.unicode_len();
    let mut i = from;
    while i < n
        invariant
            from <= i <= n,
            n == s@.len(),
        decreases n - i,
    {
        if !is_alpha(s.get_char(i)) {
            return i;
        }
        i = i + 1;
    }
    i
}

/// Two characters equal up to ASCII case.
pub open spec fn char_eq_nocase(a: char, b: char) -> bool {
    ||| a == b
    ||| (65 <= a as u32 <= 90 && a as u32 + 32 == b as u32)
    ||| (65 <= b as u32 <= 90 && b as u32 + 32 == a as u32)
}

/// Two texts equal up to ASCII case, character by character.
pub open spec fn text_eq_nocase(a: Seq<char>, b: Seq<char>) -> bool {
    &&& a.len() == b.len()
    &&& forall|q: int| 0 <= q < a.len() ==> #[trigger] char_eq_nocase(a[q], b[q])
}

fn char_eq_ignore_case(a: char, b: char) -> (r: bool)
    ensures
        r == char_eq_nocase(a, b),
{
    let ua = a as u32;
    let ub = b as u32;
    ua == ub || (65 <= ua && ua <= 90 && ua + 32 == ub) || (65 <= ub && ub <= 90 && ub + 32 == ua)
}

/// Match `tag` at position `from`: succeeds precisely when the
/// characters at `from` spell the tag up to ASCII case.
pub fn tag_no_case_at(s: &str, from: usize, tag: &str) -> (r: Option<usize>)
    requires
        from <= s@.len(),
    ensures
        r is Some ==> from <= r->0 <= s@.len() && r->0 == from + tag@.len(),
        r is Some <==> (from + tag@.len() <= s@.len() && (forall|q: int|
            0 <= q < tag@.len() ==> #[trigger] char_eq_nocase(s@[from + q], tag@[q]))),
{
    let n = s.unicode_len();
    let m = tag.unicode_len();
    if n - from < m {
        return None;
    }
    let mut k: usize = 0;
    while k < m
        invariant
            0 <= k <= m,
            m == tag@.len(),
            n == s@.len(),
            from + m <= n,
            forall|q: int| 0 <= q < k ==> #[trigger] char_eq_nocase(s@[from + q], tag@[q]),
        decreases m - k,
    {
        if !char_eq_ignore_case(s.get_char(from + k), tag.get_char(k)) {
            proof {
                assert(!char_eq_nocase(s@[from + k], tag@[k as int]));
            }
            return None;
        }
        k = k + 1;
    }
    Some(from + m)
}

/// Match `tag` at position `from` exactly: succeeds precisely when the
/// characters at `from` spell the tag.
pub fn tag_at(s: &str, from: usize, tag: &str) -> (r: Option<usize>)
    requires
        from <= s@.len(),
    ensures
        r is Some ==> from <= r->0 <= s@.len() && r->0 == from + tag@.len(),
        r is Some <==> (from + tag@.len() <= s@.len() && s@.subrange(
            from as int,
            from + tag@.len(),
        ) == tag@),
{
    let n = s.unicode_len();
    let m = tag.unicode_len();
    if n - from < m {
        return None;
    }
    let mut k: usize = 0;
    while k < m
        invariant
            0 <= k <= m,
            m == tag@.len(),
            n == s@.len(),
            from + m <= n,
            forall|q: int| 0 <= q < k ==> s@[from + q] == tag@[q],
        decreases m - k,
    {
        if s.get_char(from + k) != tag.get_char(k) {
            proof {
                assert(s@.subrange(from as int, from + tag@.len()) != tag@) by {
                    let kk = k as int;
                    if s@.subrange(from as int, from + tag@.len()) == tag@ {
                        assert(s@.subrange(from as int, from + tag@.len())[kk] == tag@[kk]);
                    }
                }
            }
            return None;
        }
        k = k + 1;
    }
    proof {
        assert(s@.subrange(from as int, from + tag@.len()) =~= tag@);
    }
    Some(from + m)
}

/// Owned copy of the characters in `[from, to)`.
pub fn substring(s: &str, from: usize, to: usize) -> (r: String)
    requires
        from <= to <= s@.len(),
    ensures
        r@ == s@.subrange(from as int, to as int),
{
    <String as StringExecFns>::from_str(s.substring_char(from, to))
}

/// The input with leading and trailing whitespace removed.
pub fn trim<'a>(s: &'a str) -> (r: &'a str)
    ensures
        r@.len() <= s@.len(),
{
    let n = s.unicode_len();
    let mut a: usize = 0;
    while a < n
        invariant
            0 <= a <= n,
            n == s@.len(),
        decreases n - a,
    {
        if !is_ws(s.get_char(a)) {
            break ;
        }
        a = a + 1;
    }
    let mut b: usize = n;
    while b > a
        invariant
            a <= b <= n,
            n == s@.len(),
        decreases b,
    {
        if !is_ws(s.get_char(b - 1)) {
            break ;
        }
        b = b - 1;
    }
    s.substring_char(a, b)
}

} // verus!
