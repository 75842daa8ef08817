//! The key for the game's servers, as it is written in a file or given in the
//! environment.

use crate::invites::{lines_from, lines_of};
use crate::text::{chars_of, same_text, texts, trim_text, trimmed};
use vstd::prelude::*;
use vstd::string::StrSliceExecFns;

verus! {

/// What stands before a key in a file.
pub const KEY_PREFIX: &'static str = "API_KEY=";

/// A text without quotes at its start.
pub open spec fn unquote_front(s: Seq<char>) -> Seq<char>
    decreases s.len(),
{
    if s.len() > 0 && s[0] == '"' {
        unquote_front(s.skip(1))
    } else {
        s
    }
}

/// A text without quotes at its end.
pub open spec fn unquote_back(s: Seq<char>) -> Seq<char>
    decreases s.len(),
{
    if s.len() > 0 && s.last() == '"' {
        unquote_back(s.drop_last())
    } else {
        s
    }
}

/// A key as it is given: white space and quotes around it do not count.
pub open spec fn cleaned(s: Seq<char>) -> Seq<char> {
    unquote_back(unquote_front(trimmed(s)))
}

/// A key without what stands around it.
pub fn clean_key(text: &str) -> (res: String)
    ensures
        res@ == cleaned(text@),
{
    let inner = trim_text(text);
    let s = chars_of(inner.as_str());
    let n: usize = s.len();
    let mut a: usize = 0;
    assert(s@.subrange(0, n as int) =~= s@);
    while a < n && s[a] == '"'
        invariant
            n == s@.len(),
            a <= n,
            unquote_front(s@.subrange(a as int, n as int)) == unquote_front(s@),
        ensures
            a == n || s@[a as int] != '"',
        decreases n - a,
    {
        assert(s@.subrange(a as int, n as int).skip(1) =~= s@.subrange(a + 1, n as int));
        a = a + 1;
    }
    let ghost front = s@.subrange(a as int, n as int);
    assert(unquote_front(front) == front);
    let mut b: usize = n;
    while b > a && s[b - 1] == '"'
        invariant
            n == s@.len(),
            a <= b <= n,
            unquote_back(s@.subrange(a as int, b as int)) == unquote_back(front),
        ensures
            b == a || s@[b - 1] != '"',
        decreases b - a,
    {
        assert(s@.subrange(a as int, b as int).drop_last() =~= s@.subrange(a as int, b - 1));
        b = b - 1;
    }
    let ghost back = s@.subrange(a as int, b as int);
    assert(unquote_back(back) == back);
    inner.as_str().substring_char(a, b).to_string()
}

/// The key that a line gives, if it gives one.
pub open spec fn key_in_line(line: Seq<char>) -> Option<Seq<char>> {
    let t = trimmed(line);
    let n = KEY_PREFIX@.len() as int;
    if t.len() >= n && t.take(n) == KEY_PREFIX@ {
        Some(cleaned(t.skip(n)))
    } else {
        None
    }
}

/// The key that the first of some lines gives.
pub open spec fn first_key(lines: Seq<Seq<char>>, i: int) -> Option<Seq<char>>
    decreases lines.len() - i,
{
    if i < 0 || i >= lines.len() {
        None
    } else {
        match key_in_line(lines[i]) {
            Some(key) => Some(key),
            None => first_key(lines, i + 1),
        }
    }
}

fn line_key(line: &str) -> (res: Option<String>)
    ensures
        match res {
            Some(key) => key_in_line(line@) == Some(key@),
            None => key_in_line(line@) is None,
        },
{
    let t = trim_text(line);
    let n: usize = KEY_PREFIX.unicode_len();
    let len: usize = t.as_str().unicode_len();
    if len < n {
        return None;
    }
    let head = t.as_str().substring_char(0, n);
    assert(head@ =~= t@.take(n as int));
    if !same_text(head, KEY_PREFIX) {
        return None;
    }
    let rest = t.as_str().substring_char(n, len);
    assert(rest@ =~= t@.skip(n as int));
    Some(clean_key(rest))
}

/// The key that a file gives.
pub fn key_in_file(content: &str) -> (res: Option<String>)
    ensures
        match res {
            Some(key) => first_key(lines_from(content@, 0), 0) == Some(key@),
            None => first_key(lines_from(content@, 0), 0) is None,
        },
{
    let lines = lines_of(content);
    let ghost all = texts(lines@);
    let mut i: usize = 0;
    while i < lines.len()
        invariant
            all == texts(lines@),
            all == lines_from(content@, 0),
            i <= lines@.len(),
            first_key(all, i as int) == first_key(all, 0),
        decreases lines@.len() - i,
    {
        assert(all[i as int] == lines@[i as int]@);
        if let Some(key) = line_key(lines[i].as_str()) {
            return Some(key);
        }
        i = i + 1;
    }
    None
}

} // verus!
