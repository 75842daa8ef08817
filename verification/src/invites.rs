//! One-time invite codes for new nodes, and the tokens that nodes get.
//!
//! The codes are kept as lines of a text, each a code, a tab and a label, so
//! that they can be handed out whether or not the server runs.

use crate::text::{
    chars_of, find_char, first_index, hex, hex_text, is_white, lemma_first_index, same_text, texts,
    trim_text, trimmed,
};
use vstd::prelude::*;
use vstd::string::{StrSliceExecFns, StringExecFns};

verus! {

/// Letters and digits that are not mistaken for each other.
pub const ALPHABET: &'static str = "ABCDEFGHJKMNPQRSTUVWXYZ23456789";

pub const CODE_LEN: usize = 10;

/// `rand::Rng::random_range` on the thread's generator: an index below `n`.
/// Which one is left open.
#[verifier::external_body]
fn random_index(n: usize) -> (res: usize)
    requires
        n > 0,
    ensures
        res < n,
{
    rand::Rng::random_range(&mut rand::rng(), 0..n)
}

/// `rand::random`: 32 bytes. Which ones is left open.
#[verifier::external_body]
fn random_bytes() -> (res: [u8; 32]) {
    rand::random()
}

/// A text that can be a code.
pub open spec fn is_code(s: Seq<char>) -> bool {
    s.len() == CODE_LEN && forall|i: int| 0 <= i < s.len() ==> ALPHABET@.contains(#[trigger] s[i])
}

/// A new code, at random.
pub fn new_code() -> (res: String)
    ensures
        is_code(res@),
{
    let mut out = String::new();
    let n: usize = ALPHABET.unicode_len();
    proof {
        reveal_strlit("ABCDEFGHJKMNPQRSTUVWXYZ23456789");
    }
    let mut i: usize = 0;
    while i < CODE_LEN
        invariant
            i <= CODE_LEN,
            n == ALPHABET@.len(),
            n > 0,
            out@.len() == i,
            forall|k: int| 0 <= k < i ==> ALPHABET@.contains(#[trigger] out@[k]),
        decreases CODE_LEN - i,
    {
        let k: usize = random_index(n);
        let ghost was = out@;
        out.append(ALPHABET.substring_char(k, k + 1));
        assert(out@ =~= was.push(ALPHABET@[k as int]));
        i = i + 1;
    }
    out
}

/// A new token for a node, at random: 32 bytes in hexadecimal.
pub fn generate_token() -> (res: String)
    ensures
        exists|b: Seq<u8>| b.len() == 32 && res@ == #[trigger] hex(b),
{
    let bytes = random_bytes();
    let out = hex_text(&bytes);
    assert(bytes@.len() == 32);
    out
}

// ---- the text ----

/// A line without one carriage return at its end.
pub open spec fn without_return(s: Seq<char>) -> Seq<char> {
    if s.len() > 0 && s.last() == '\r' {
        s.drop_last()
    } else {
        s
    }
}

/// The lines of a text from position `i` on.
pub open spec fn lines_from(s: Seq<char>, i: int) -> Seq<Seq<char>>
    decreases s.len() - i,
{
    if i < 0 || i >= s.len() {
        Seq::empty()
    } else {
        match first_index(s, '\n', i) {
            Some(k) => if i <= k < s.len() {
                seq![without_return(s.subrange(i, k))] + lines_from(s, k + 1)
            } else {
                Seq::empty()
            },
            None => seq![s.skip(i)],
        }
    }
}

/// What stands before the first tab.
pub open spec fn first_field(line: Seq<char>) -> Seq<char> {
    match first_index(line, '\t', 0) {
        Some(k) => line.take(k),
        None => line,
    }
}

/// Lines one after the other, with a line end between two.
pub open spec fn joined_lines(lines: Seq<Seq<char>>) -> Seq<char>
    decreases lines.len(),
{
    if lines.len() == 0 {
        Seq::empty()
    } else if lines.len() == 1 {
        lines[0]
    } else {
        joined_lines(lines.drop_last()) + "\n"@ + lines.last()
    }
}

/// A text of lines: a line end follows unless there is nothing.
pub open spec fn text_of_lines(lines: Seq<Seq<char>>) -> Seq<char> {
    let joined = joined_lines(lines);
    if joined.len() > 0 {
        joined + "\n"@
    } else {
        joined
    }
}

/// A line that does not hold a code.
pub open spec fn spares(code: Seq<char>) -> spec_fn(Seq<char>) -> bool {
    |line: Seq<char>| first_field(line) != code
}

/// The text without the lines of a code, if there is one.
pub open spec fn consumed(content: Seq<char>, code: Seq<char>) -> Option<Seq<char>> {
    let lines = lines_from(content, 0);
    let kept = lines.filter(spares(trimmed(code)));
    if kept.len() == lines.len() {
        None
    } else {
        Some(text_of_lines(kept))
    }
}

/// The text with one more code.
pub open spec fn with_code(content: Seq<char>, code: Seq<char>, label: Seq<char>) -> Seq<char> {
    let head = if content.len() > 0 && content.last() != '\n' {
        content + "\n"@
    } else {
        content
    };
    head + code + "\t"@ + label + "\n"@
}

/// Adds a code to the text.
pub fn add_invite(content: &str, code: &str, label: &str) -> (res: String)
    ensures
        res@ == with_code(content@, code@, label@),
{
    let mut out = content.to_string();
    let n: usize = content.unicode_len();
    if n > 0 && content.get_char(n - 1) != '\n' {
        out.append("\n");
    }
    out.append(code);
    out.append("\t");
    out.append(label);
    out.append("\n");
    out
}

/// The lines of a text.
pub fn lines_of(content: &str) -> (res: Vec<String>)
    ensures
        texts(res@) == lines_from(content@, 0),
{
    let text = chars_of(content);
    let n: usize = text.len();
    let mut out: Vec<String> = Vec::new();
    let mut i: usize = 0;
    assert(texts(out@) + lines_from(content@, 0) =~= lines_from(content@, 0));
    while i < n
        invariant
            text@ == content@,
            n == text@.len(),
            i <= n,
            texts(out@) + lines_from(content@, i as int) == lines_from(content@, 0),
        decreases n - i,
    {
        let ghost was = texts(out@);
        match find_char(&text, '\n', i) {
            Some(k) => {
                let end: usize = if k > i && text[k - 1] == '\r' {
                    k - 1
                } else {
                    k
                };
                let line = content.substring_char(i, end).to_string();
                let ghost l = line@;
                out.push(line);
                proof {
                    assert(l =~= without_return(content@.subrange(i as int, k as int)));
                    assert(texts(out@) =~= was.push(l));
                    assert(was + (seq![l] + lines_from(content@, k + 1)) =~= texts(
                        out@,
                    ) + lines_from(content@, k + 1));
                }
                i = k + 1;
            },
            None => {
                let line = content.substring_char(i, n).to_string();
                let ghost l = line@;
                out.push(line);
                proof {
                    assert(l =~= content@.skip(i as int));
                    assert(texts(out@) =~= was + seq![l]);
                }
                return out;
            },
        }
    }
    assert(texts(out@) + Seq::<Seq<char>>::empty() =~= texts(out@));
    out
}

fn is_for(line: &str, code: &str) -> (res: bool)
    ensures
        res == (first_field(line@) == code@),
{
    let text = chars_of(line);
    match find_char(&text, '\t', 0) {
        Some(k) => {
            assert(line@.subrange(0, k as int) =~= line@.take(k as int));
            same_text(line.substring_char(0, k), code)
        },
        None => same_text(line, code),
    }
}

/// Uses up a code: gives the text without it, or nothing if it is not there.
pub fn consume_invite(content: &str, code: &str) -> (res: Option<String>)
    ensures
        match res {
            Some(out) => consumed(content@, code@) == Some(out@),
            None => consumed(content@, code@) is None,
        },
{
    let wanted = trim_text(code);
    let lines = lines_of(content);
    let ghost all = texts(lines@);
    let ghost keep = spares(wanted@);
    let mut kept = String::new();
    let mut count: usize = 0;
    let mut i: usize = 0;
    proof {
        reveal(Seq::filter);
        assert(all.take(0) =~= Seq::empty());
    }
    while i < lines.len()
        invariant
            all == texts(lines@),
            keep == spares(wanted@),
            i <= lines@.len(),
            count <= i,
            count == all.take(i as int).filter(keep).len(),
            kept@ == joined_lines(all.take(i as int).filter(keep)),
        decreases lines@.len() - i,
    {
        let ghost before = all.take(i as int).filter(keep);
        proof {
            reveal(Seq::filter);
            assert(all.take(i + 1).drop_last() =~= all.take(i as int));
            assert(all.take(i + 1).last() == lines@[i as int]@);
        }
        if !is_for(lines[i].as_str(), wanted.as_str()) {
            if count > 0 {
                kept.append("\n");
            }
            kept.append(lines[i].as_str());
            proof {
                let now = before.push(lines@[i as int]@);
                assert(now.drop_last() =~= before);
                assert(all.take(i + 1).filter(keep) == now);
                if count == 0 {
                    assert(before =~= Seq::empty());
                    assert(kept@ =~= lines@[i as int]@);
                }
            }
            count = count + 1;
        }
        i = i + 1;
    }
    assert(all.take(i as int) =~= all);
    if count == lines.len() {
        return None;
    }
    if !kept.as_str().is_empty() {
        kept.append("\n");
    }
    Some(kept)
}

// ---- laws ----

proof fn lemma_index_at(s: Seq<char>, c: char, i: int, k: int)
    requires
        0 <= i <= k < s.len(),
        s[k] == c,
        forall|j: int| i <= j < k ==> s[j] != c,
    ensures
        first_index(s, c, i) == Some(k),
    decreases k - i,
{
    if i < k {
        lemma_index_at(s, c, i + 1, k);
    }
}

/// A line of a text: no line end in it, and none would be cut off.
pub open spec fn is_plain_line(line: Seq<char>) -> bool {
    forall|i: int| 0 <= i < line.len() ==> #[trigger] line[i] != '\n' && line[i] != '\r'
}

proof fn lemma_lines_shift(pre: Seq<char>, s: Seq<char>, i: int)
    requires
        0 <= i,
    ensures
        lines_from(pre + s, pre.len() + i) == lines_from(s, i),
    decreases s.len() - i,
{
    let t = pre + s;
    if i < s.len() {
        lemma_index_shift(pre, s, '\n', i);
        match first_index(s, '\n', i) {
            Some(k) => {
                lemma_first_index(s, '\n', i);
                lemma_lines_shift(pre, s, k + 1);
                assert(t.subrange(pre.len() + i, pre.len() + k) =~= s.subrange(i, k));
            },
            None => {
                assert(t.skip(pre.len() + i) =~= s.skip(i));
            },
        }
    }
}

proof fn lemma_index_shift(pre: Seq<char>, s: Seq<char>, c: char, i: int)
    requires
        0 <= i,
    ensures
        first_index(pre + s, c, pre.len() + i) == (match first_index(s, c, i) {
            Some(k) => Some(pre.len() + k),
            None => None,
        }),
    decreases s.len() - i,
{
    if i < s.len() {
        assert((pre + s)[pre.len() + i] == s[i]);
        lemma_index_shift(pre, s, c, i + 1);
    }
}

/// A text that ends in a line end has the lines of both its parts.
proof fn lemma_lines_add(a: Seq<char>, b: Seq<char>, i: int)
    requires
        0 <= i <= a.len(),
        a.len() == 0 || a.last() == '\n',
    ensures
        lines_from(a + b, i) == lines_from(a, i) + lines_from(b, 0),
    decreases a.len() - i,
{
    let t = a + b;
    if i == a.len() {
        lemma_lines_shift(a, b, 0);
        assert(lines_from(a, i) + lines_from(b, 0) =~= lines_from(b, 0));
    } else {
        lemma_first_in(a, b, i);
        let k = first_index(a, '\n', i)->0;
        lemma_first_index(a, '\n', i);
        lemma_lines_add(a, b, k + 1);
        assert(t.subrange(i, k) =~= a.subrange(i, k));
        assert(lines_from(t, i) =~= lines_from(a, i) + lines_from(b, 0));
    }
}

proof fn lemma_first_in(a: Seq<char>, b: Seq<char>, i: int)
    requires
        0 <= i < a.len(),
        a.last() == '\n',
    ensures
        first_index(a, '\n', i) is Some,
        first_index(a + b, '\n', i) == first_index(a, '\n', i),
    decreases a.len() - i,
{
    assert((a + b)[i] == a[i]);
    if a[i] != '\n' {
        lemma_first_in(a, b, i + 1);
    }
}

/// No line end in it.
pub open spec fn is_line(line: Seq<char>) -> bool {
    forall|i: int| 0 <= i < line.len() ==> #[trigger] line[i] != '\n'
}

proof fn lemma_one_line(line: Seq<char>)
    requires
        is_line(line),
    ensures
        lines_from(line + "\n"@, 0) == seq![without_return(line)],
{
    reveal_strlit("\n");
    let t = line + "\n"@;
    assert forall|j: int| 0 <= j < line.len() implies t[j] != '\n' by {
        assert(t[j] == line[j]);
    }
    lemma_index_at(t, '\n', 0, line.len() as int);
    assert(t.subrange(0, line.len() as int) =~= line);
    assert(lines_from(t, line.len() as int + 1) =~= Seq::empty());
    assert(lines_from(t, 0) =~= seq![without_return(line)]);
}

/// Lines as they are read once they were written.
pub open spec fn reread(lines: Seq<Seq<char>>) -> Seq<Seq<char>> {
    lines.map_values(|line: Seq<char>| without_return(line))
}

proof fn lemma_lines_of_joined(lines: Seq<Seq<char>>)
    requires
        lines.len() > 0,
        forall|i: int| 0 <= i < lines.len() ==> is_line(#[trigger] lines[i]),
    ensures
        lines_from(joined_lines(lines) + "\n"@, 0) == reread(lines),
    decreases lines.len(),
{
    if lines.len() == 1 {
        lemma_one_line(lines[0]);
        assert(reread(lines) =~= seq![without_return(lines[0])]);
    } else {
        reveal_strlit("\n");
        let rest = lines.drop_last();
        assert forall|i: int| 0 <= i < rest.len() implies is_line(#[trigger] rest[i]) by {
            assert(rest[i] == lines[i]);
        }
        lemma_lines_of_joined(rest);
        let head = joined_lines(rest) + "\n"@;
        let tail = lines.last() + "\n"@;
        assert(is_line(lines[lines.len() - 1]));
        lemma_lines_add(head, tail, 0);
        lemma_one_line(lines.last());
        assert(joined_lines(lines) + "\n"@ =~= head + tail);
        assert(reread(rest) + seq![without_return(lines.last())] =~= reread(lines));
    }
}

proof fn lemma_are_lines(s: Seq<char>, i: int)
    requires
        0 <= i,
    ensures
        forall|k: int|
            0 <= k < lines_from(s, i).len() ==> is_line(#[trigger] lines_from(s, i)[k]),
    decreases s.len() - i,
{
    if i < s.len() {
        lemma_first_index(s, '\n', i);
        lemma_before_index(s, '\n', i);
        match first_index(s, '\n', i) {
            Some(k) => {
                lemma_are_lines(s, k + 1);
                let line = s.subrange(i, k);
                assert(is_line(without_return(line))) by {
                    assert forall|j: int| 0 <= j < line.len() implies #[trigger] line[j]
                        != '\n' by {
                        assert(line[j] == s[i + j]);
                    }
                }
                let rest = lines_from(s, k + 1);
                assert forall|m: int| 0 <= m < lines_from(s, i).len() implies is_line(
                    #[trigger] lines_from(s, i)[m],
                ) by {
                    if m > 0 {
                        assert(lines_from(s, i)[m] == rest[m - 1]);
                    }
                }
            },
            None => {
                let line = s.skip(i);
                assert forall|j: int| 0 <= j < line.len() implies #[trigger] line[j] != '\n' by {
                    assert(line[j] == s[i + j]);
                }
            },
        }
    }
}

proof fn lemma_before_index(s: Seq<char>, c: char, i: int)
    requires
        0 <= i,
    ensures
        match first_index(s, c, i) {
            Some(k) => forall|j: int| i <= j < k ==> #[trigger] s[j] != c,
            None => forall|j: int| i <= j < s.len() ==> #[trigger] s[j] != c,
        },
    decreases s.len() - i,
{
    if i < s.len() && s[i] != c {
        lemma_before_index(s, c, i + 1);
    }
}

proof fn lemma_filter_all(s: Seq<Seq<char>>, keep: spec_fn(Seq<char>) -> bool)
    requires
        forall|i: int| 0 <= i < s.len() ==> keep(#[trigger] s[i]),
    ensures
        s.filter(keep) == s,
    decreases s.len(),
{
    reveal(Seq::filter);
    if s.len() > 0 {
        let rest = s.drop_last();
        assert forall|i: int| 0 <= i < rest.len() implies keep(#[trigger] rest[i]) by {
            assert(rest[i] == s[i]);
        }
        lemma_filter_all(rest, keep);
        assert(keep(s[s.len() - 1]));
        assert(rest.push(s.last()) =~= s);
    } else {
        assert(s.filter(keep) =~= s);
    }
}

proof fn lemma_filtered(s: Seq<Seq<char>>, keep: spec_fn(Seq<char>) -> bool)
    ensures
        forall|i: int|
            0 <= i < s.filter(keep).len() ==> keep(#[trigger] s.filter(keep)[i]) && s.contains(
                s.filter(keep)[i],
            ),
        s.filter(keep).len() <= s.len(),
        (exists|i: int| 0 <= i < s.len() && !keep(#[trigger] s[i])) ==> s.filter(keep).len()
            < s.len(),
    decreases s.len(),
{
    reveal(Seq::filter);
    if s.len() > 0 {
        let rest = s.drop_last();
        lemma_filtered(rest, keep);
        let before = rest.filter(keep);
        let all = s.filter(keep);
        assert forall|i: int| 0 <= i < all.len() implies keep(#[trigger] all[i]) && s.contains(
            all[i],
        ) by {
            if i < before.len() {
                assert(all[i] == before[i]);
                let j = choose|j: int| 0 <= j < rest.len() && rest[j] == before[i];
                assert(s[j] == all[i]);
            } else {
                assert(s[s.len() - 1] == all[i]);
            }
        }
        if exists|i: int| 0 <= i < s.len() && !keep(#[trigger] s[i]) {
            let i = choose|i: int| 0 <= i < s.len() && !keep(#[trigger] s[i]);
            if i < rest.len() {
                assert(!keep(rest[i]));
            }
        }
    }
}

proof fn lemma_filter_keeps(s: Seq<Seq<char>>, keep: spec_fn(Seq<char>) -> bool, i: int)
    requires
        0 <= i < s.len(),
        keep(s[i]),
    ensures
        s.filter(keep).contains(s[i]),
    decreases s.len(),
{
    reveal(Seq::filter);
    let rest = s.drop_last();
    let before = rest.filter(keep);
    let all = s.filter(keep);
    if i < rest.len() {
        lemma_filter_keeps(rest, keep, i);
        let j = choose|j: int| 0 <= j < before.len() && before[j] == rest[i];
        assert(all[j] == s[i]);
    } else {
        assert(all[before.len() as int] == s[i]);
    }
}

/// A carriage return at the end changes the first field only where there is no
/// other one.
proof fn lemma_return_in_label(line: Seq<char>)
    ensures
        first_field(without_return(line)) == first_field(line) || line == first_field(
            without_return(line),
        ).push('\r'),
{
    let cut = without_return(line);
    if cut != line {
        assert(line =~= cut.push('\r'));
        lemma_first_index(cut, '\t', 0);
        lemma_before_index(cut, '\t', 0);
        lemma_before_index(line, '\t', 0);
        match first_index(cut, '\t', 0) {
            Some(k) => {
                assert forall|j: int| 0 <= j < k implies line[j] != '\t' by {
                    assert(line[j] == cut[j]);
                }
                lemma_index_at(line, '\t', 0, k);
                assert(line.take(k) =~= cut.take(k));
            },
            None => {},
        }
    }
}

/// What is read of the text that is left once a code was used: the lines that
/// did not hold it.
proof fn lemma_left(content: Seq<char>, code: Seq<char>)
    requires
        consumed(content, code) is Some,
    ensures
        ({
            let kept = lines_from(content, 0).filter(spares(trimmed(code)));
            let left = lines_from(consumed(content, code)->0, 0);
            left == reread(kept) || (left.len() == 0 && (kept.len() == 0 || kept == seq![
                Seq::<char>::empty(),
            ]))
        }),
{
    let lines = lines_from(content, 0);
    let keep = spares(trimmed(code));
    let kept = lines.filter(keep);
    lemma_are_lines(content, 0);
    lemma_filtered(lines, keep);
    if joined_lines(kept).len() == 0 {
        reveal_strlit("\n");
        if kept.len() == 1 {
            assert(joined_lines(kept) == kept[0]);
            assert(kept[0] =~= Seq::<char>::empty());
            assert(kept =~= seq![Seq::<char>::empty()]);
        }
    } else {
        assert(kept.len() > 0);
        assert forall|i: int| 0 <= i < kept.len() implies is_line(#[trigger] kept[i]) by {
            assert(lines.contains(kept[i]));
            let j = choose|j: int| 0 <= j < lines.len() && lines[j] == kept[i];
            assert(is_line(lines[j]));
        }
        lemma_lines_of_joined(kept);
    }
}

/// A code works once, whatever the line ends are: what is left after it was
/// used does not hold it. The exception is a text with a line that is the code
/// and a carriage return more than its line end: that line is another one, but
/// once it is written again it is the code's.
pub proof fn law_invite_works_once(content: Seq<char>, code: Seq<char>)
    requires
        consumed(content, code) is Some,
        !lines_from(content, 0).contains(trimmed(code).push('\r')),
    ensures
        consumed(consumed(content, code)->0, code) is None,
{
    let lines = lines_from(content, 0);
    let keep = spares(trimmed(code));
    let kept = lines.filter(keep);
    let left = lines_from(consumed(content, code)->0, 0);
    lemma_left(content, code);
    lemma_filtered(lines, keep);
    assert forall|i: int| 0 <= i < left.len() implies keep(#[trigger] left[i]) by {
        assert(keep(kept[i]));
        assert(lines.contains(kept[i]));
        lemma_return_in_label(kept[i]);
    }
    lemma_filter_all(left, keep);
}

/// Using a code up leaves every other code usable.
pub proof fn law_other_invites_stay(content: Seq<char>, code: Seq<char>, other: Seq<char>)
    requires
        consumed(content, code) is Some,
        consumed(content, other) is Some,
        trimmed(other) != trimmed(code),
        trimmed(other).len() > 0,
    ensures
        consumed(consumed(content, code)->0, other) is Some,
{
    let lines = lines_from(content, 0);
    let keep = spares(trimmed(code));
    let kept = lines.filter(keep);
    let sought = spares(trimmed(other));
    let left = lines_from(consumed(content, code)->0, 0);
    lemma_left(content, code);
    if forall|i: int| 0 <= i < lines.len() ==> sought(#[trigger] lines[i]) {
        lemma_filter_all(lines, sought);
    }
    let i = choose|i: int| 0 <= i < lines.len() && !sought(#[trigger] lines[i]);
    lemma_filter_keeps(lines, keep, i);
    let j = choose|j: int| 0 <= j < kept.len() && kept[j] == lines[i];
    lemma_return_in_label(kept[j]);
    lemma_trimmed_end(other);
    if kept == seq![Seq::<char>::empty()] {
        assert(kept[j] == Seq::<char>::empty());
        assert(first_index(kept[j], '\t', 0) is None);
    }
    let line = kept[j];
    assert(first_field(line) == trimmed(other));
    assert(first_field(without_return(line)) == trimmed(other)) by {
        let cut = without_return(line);
        if first_field(cut) != first_field(line) {
            assert(line == first_field(cut).push('\r'));
            lemma_first_index(line, '\t', 0);
            lemma_before_index(cut, '\t', 0);
            assert(line =~= cut.push('\r'));
            match first_index(line, '\t', 0) {
                Some(k) => {
                    lemma_before_index(line, '\t', 0);
                    assert(line[k] == '\t');
                    assert(cut[k] == '\t');
                    assert forall|e: int| 0 <= e < k implies cut[e] != '\t' by {
                        assert(line[e] == cut[e]);
                    }
                    lemma_index_at(cut, '\t', 0, k);
                    assert(cut.take(k) =~= line.take(k));
                },
                None => {
                    assert(line.last() == '\r');
                },
            }
        }
    }
    assert(!sought(left[j]));
    lemma_filtered(left, sought);
}

/// A trimmed text does not end in white space.
proof fn lemma_trimmed_end(s: Seq<char>)
    ensures
        trimmed(s).len() > 0 ==> !is_white(trimmed(s).last()),
{
    lemma_back_end(crate::text::trim_front(s));
}

proof fn lemma_back_end(s: Seq<char>)
    ensures
        crate::text::trim_back(s).len() > 0 ==> !is_white(crate::text::trim_back(s).last()),
    decreases s.len(),
{
    if s.len() > 0 && is_white(s.last()) {
        lemma_back_end(s.drop_last());
    }
}

proof fn lemma_code_is_trimmed(code: Seq<char>)
    requires
        is_code(code),
    ensures
        trimmed(code) == code,
        forall|i: int|
            0 <= i < code.len() ==> #[trigger] code[i] != '\n' && code[i] != '\r' && code[i]
                != '\t',
{
    reveal_strlit("ABCDEFGHJKMNPQRSTUVWXYZ23456789");
    assert forall|i: int| 0 <= i < code.len() implies !is_white(#[trigger] code[i]) && '2'
        <= code[i] <= 'Z' by {
        let k = choose|k: int| 0 <= k < ALPHABET@.len() && ALPHABET@[k] == code[i];
        assert('2' <= ALPHABET@[k] <= 'Z');
    }
    assert(!is_white(code[0]));
    assert(!is_white(code[code.len() - 1]));
}

/// A code that was handed out works, whatever else was handed out.
pub proof fn law_new_invite_works(content: Seq<char>, code: Seq<char>, label: Seq<char>)
    requires
        is_code(code),
        is_plain_line(label),
    ensures
        consumed(with_code(content, code, label), code) is Some,
{
    reveal_strlit("\n");
    reveal_strlit("\t");
    lemma_code_is_trimmed(code);
    let head = if content.len() > 0 && content.last() != '\n' {
        content + "\n"@
    } else {
        content
    };
    let line = code + "\t"@ + label;
    assert forall|i: int| 0 <= i < line.len() implies #[trigger] line[i] != '\n' && line[i]
        != '\r' by {
        if i < code.len() {
            assert(line[i] == code[i]);
        } else if i > code.len() {
            assert(line[i] == label[i - code.len() - 1]);
        }
    }
    lemma_one_line(line);
    assert(without_return(line) == line) by {
        assert(line[line.len() - 1] != '\r');
    }
    lemma_lines_add(head, line + "\n"@, 0);
    assert(with_code(content, code, label) =~= head + (line + "\n"@));
    let lines = lines_from(with_code(content, code, label), 0);
    assert(lines.last() == line);
    assert forall|j: int| 0 <= j < code.len() implies line[j] != '\t' by {
        assert(line[j] == code[j]);
    }
    lemma_index_at(line, '\t', 0, code.len() as int);
    assert(line.take(code.len() as int) =~= code);
    assert(first_field(line) == code);
    let keep = spares(trimmed(code));
    assert(!keep(lines[lines.len() - 1]));
    lemma_filtered(lines, keep);
}

} // verus!
