//! How texts are read and written: numbers, blanks, keys, reports.

use crate::api_key::{cleaned, first_key, key_in_line, unquote_back, unquote_front};
use crate::inspect::{summed, with_record, SummaryV};
use crate::invites::{first_field, is_code, with_code};
use crate::limit_laws::{lemma_decimal_digits, lemma_first_is, lemma_first_none};
use crate::metrics::{
    audits_text, growth, growth_line, growth_text, idle_text, key_text, next_window, node_text,
    nodes_line, two_digits, zeroed, ReporterV,
};
use crate::record::record_decoded;
use crate::registry::NodeReport;
use crate::text::{
    decimal, digits_value, first_index, hex, is_white, law_decimal_roundtrip, parsed_i64,
    parsed_unsigned, trim_back, trim_front, trimmed,
};
use crate::config::Region;
use vstd::prelude::*;

verus! {

// ---- numbers ----

/// A number is written digit by digit, the last digit last.
pub proof fn law_decimals_are_positional(a: int, d: int)
    requires
        0 <= a,
        0 <= d < 10,
    ensures
        decimal(d).len() == 1,
        decimal(d)[0] as int == '0' as int + d,
        a > 0 ==> decimal(10 * a + d) == decimal(a) + decimal(d),
{
    if a > 0 {
        assert((10 * a + d) / 10 == a && (10 * a + d) % 10 == d);
        assert(decimal(10 * a + d) =~= decimal(a) + decimal(d));
    }
}

/// A number that is written is read back, with a plus before it too, if it is
/// not too large. A text with anything else in it is no number.
pub proof fn law_numbers_read_back(v: int, max: int, s: Seq<char>, i: int)
    requires
        0 <= v,
    ensures
        parsed_unsigned(decimal(v), max) == (if v <= max {
            Some(v)
        } else {
            None
        }),
        parsed_unsigned("+"@ + decimal(v), max) == parsed_unsigned(decimal(v), max),
        parsed_unsigned(Seq::empty(), max) is None,
        parsed_unsigned("+"@, max) is None,
        0 <= i < s.len() && !('0' <= s[i] <= '9') && (i > 0 || s[i] != '+') ==> parsed_unsigned(
            s,
            max,
        ) is None,
{
    law_decimal_roundtrip(v);
    lemma_decimal_digits(v);
    let d = decimal(v);
    assert(d[0] != '+');
    reveal_strlit("+");
    assert(("+"@ + d).skip(1) =~= d);
    assert("+"@.skip(1).len() == 0);
    if 0 <= i < s.len() && !('0' <= s[i] <= '9') && (i > 0 || s[i] != '+') {
        if s[0] == '+' {
            assert(s.skip(1)[i - 1] == s[i]);
            lemma_not_digits(s.skip(1), i - 1);
        } else {
            lemma_not_digits(s, i);
        }
    }
}

proof fn lemma_not_digits(s: Seq<char>, i: int)
    requires
        0 <= i < s.len(),
        !('0' <= s[i] <= '9'),
    ensures
        digits_value(s) is None,
    decreases s.len(),
{
    if i < s.len() - 1 {
        assert(s.drop_last()[i] == s[i]);
        lemma_not_digits(s.drop_last(), i);
    }
}

/// A signed number is read back from its digits, with a minus before them if it
/// is negative, as long as it fits in sixty-four bits.
pub proof fn law_signed_numbers_read_back(v: int)
    requires
        0 <= v,
    ensures
        parsed_i64(decimal(v)) == (if v < 0x8000_0000_0000_0000 {
            Some(v)
        } else {
            None
        }),
        parsed_i64("-"@ + decimal(v)) == (if v <= 0x8000_0000_0000_0000 {
            Some(-v)
        } else {
            None
        }),
        parsed_i64("-"@) is None,
{
    law_decimal_roundtrip(v);
    lemma_decimal_digits(v);
    let d = decimal(v);
    assert(d[0] != '+' && d[0] != '-');
    reveal_strlit("-");
    assert(("-"@ + d).skip(1) =~= d);
}

/// Bytes are written as two digits each, the upper half first.
pub proof fn law_bytes_are_written_in_hex(a: Seq<u8>, b: u8)
    ensures
        hex(Seq::empty()) == Seq::<char>::empty(),
        hex(a.push(b)).len() == 2 * a.len() + 2,
        hex(a.push(b)) == hex(a) + seq![
            "0123456789abcdef"@[b as int / 16],
            "0123456789abcdef"@[b as int % 16],
        ],
{
    reveal_strlit("0123456789abcdef");
    let all = a.push(b);
    let want = hex(a) + seq![
        "0123456789abcdef"@[b as int / 16],
        "0123456789abcdef"@[b as int % 16],
    ];
    assert(hex(Seq::empty()) =~= Seq::<char>::empty());
    assert forall|i: int| 0 <= i < want.len() implies hex(all)[i] == #[trigger] want[i] by {
        if i < 2 * a.len() {
            assert(all[i / 2] == a[i / 2]);
        } else {
            assert(i / 2 == a.len());
            assert(all[i / 2] == b);
        }
    }
    assert(hex(all) =~= want);
}

// ---- blanks ----

/// Blanks, tabs and line ends are white; nothing that is printed in ASCII is.
pub proof fn law_white_characters(c: char)
    ensures
        is_white(' '),
        is_white('\t'),
        is_white('\n'),
        is_white('\r'),
        '!' <= c <= '~' ==> !is_white(c),
{
}

/// What is white at both ends of a text is cut off, and nothing else.
pub proof fn law_blanks_are_cut_off(before: Seq<char>, core: Seq<char>, after: Seq<char>)
    requires
        core.len() > 0,
        !is_white(core[0]),
        !is_white(core.last()),
        forall|i: int| 0 <= i < before.len() ==> is_white(#[trigger] before[i]),
        forall|i: int| 0 <= i < after.len() ==> is_white(#[trigger] after[i]),
    ensures
        trimmed(before + core + after) == core,
{
    let s = before + core + after;
    lemma_front(before, core + after);
    assert(s =~= before + (core + after));
    lemma_back(core, after);
}

proof fn lemma_front(before: Seq<char>, rest: Seq<char>)
    requires
        rest.len() > 0,
        !is_white(rest[0]),
        forall|i: int| 0 <= i < before.len() ==> is_white(#[trigger] before[i]),
    ensures
        trim_front(before + rest) == rest,
    decreases before.len(),
{
    let s = before + rest;
    if before.len() == 0 {
        assert(s =~= rest);
    } else {
        assert(s[0] == before[0]);
        assert(s.skip(1) =~= before.skip(1) + rest);
        assert forall|i: int| 0 <= i < before.skip(1).len() implies is_white(
            #[trigger] before.skip(1)[i],
        ) by {
            assert(is_white(before[i + 1]));
        }
        lemma_front(before.skip(1), rest);
    }
}

proof fn lemma_back(rest: Seq<char>, after: Seq<char>)
    requires
        rest.len() > 0,
        !is_white(rest.last()),
        forall|i: int| 0 <= i < after.len() ==> is_white(#[trigger] after[i]),
    ensures
        trim_back(rest + after) == rest,
    decreases after.len(),
{
    let s = rest + after;
    if after.len() == 0 {
        assert(s =~= rest);
    } else {
        assert(s.last() == after.last());
        assert(is_white(after[after.len() - 1]));
        assert(s.drop_last() =~= rest + after.drop_last());
        lemma_back(rest, after.drop_last());
    }
}

/// The place of a character is the first at which it stands.
pub proof fn law_first_place(s: Seq<char>, c: char, from: int, k: int)
    requires
        0 <= from,
    ensures
        from <= k < s.len() && s[k] == c && (forall|j: int| from <= j < k ==> #[trigger] s[j] != c)
            ==> first_index(s, c, from) == Some(k),
        (forall|j: int| from <= j < s.len() ==> #[trigger] s[j] != c) ==> first_index(
            s,
            c,
            from,
        ) is None,
{
    if from <= k < s.len() && s[k] == c && (forall|j: int| from <= j < k ==> #[trigger] s[j] != c) {
        lemma_first_is(s, c, from, k);
    }
    if forall|j: int| from <= j < s.len() ==> #[trigger] s[j] != c {
        lemma_first_none(s, c, from);
    }
}

// ---- keys and invites ----

/// A key is what is left without blanks and quotes around it.
pub proof fn law_keys_are_cleaned(key: Seq<char>)
    requires
        key.len() > 0,
        key[0] != '"' && !is_white(key[0]),
        key.last() != '"' && !is_white(key.last()),
    ensures
        cleaned(key) == key,
        cleaned("\""@ + key + "\""@) == key,
        cleaned(" "@ + key + "\n"@) == key,
        key_in_line("API_KEY="@ + key) == Some(key),
        key_in_line("API_KEY=\""@ + key + "\""@) == Some(key),
{
    reveal_strlit("\"");
    reveal_strlit(" ");
    reveal_strlit("\n");
    reveal_strlit("API_KEY=");
    reveal_strlit("API_KEY=\"");
    let none = Seq::<char>::empty();
    law_blanks_are_cut_off(none, key, none);
    assert(none + key + none =~= key);
    assert(unquote_front(key) == key && unquote_back(key) == key);
    let q = "\""@ + key + "\""@;
    law_blanks_are_cut_off(none, q, none);
    assert(none + q + none =~= q);
    lemma_unquoted(key);
    assert(q =~= seq!['"'] + key + seq!['"']);
    law_blanks_are_cut_off(" "@, key, "\n"@);
    let plain = "API_KEY="@ + key;
    law_blanks_are_cut_off(none, plain, none);
    assert(none + plain + none =~= plain);
    assert(plain.take(8) =~= "API_KEY="@);
    assert(plain.skip(8) =~= key);
    let quoted = "API_KEY=\""@ + key + "\""@;
    law_blanks_are_cut_off(none, quoted, none);
    assert(none + quoted + none =~= quoted);
    assert(quoted.take(8) =~= "API_KEY="@);
    assert(quoted.skip(8) =~= q);
}

proof fn lemma_unquoted(key: Seq<char>)
    requires
        key.len() > 0,
        key[0] != '"',
        key.last() != '"',
    ensures
        unquote_back(unquote_front(seq!['"'] + key + seq!['"'])) == key,
{
    let s = seq!['"'] + key + seq!['"'];
    reveal_with_fuel(unquote_front, 2);
    reveal_with_fuel(unquote_back, 2);
    let t = key + seq!['"'];
    assert(s.skip(1) =~= t);
    assert(t[0] == key[0]);
    assert(unquote_front(s) == t);
    assert(t.last() == '"');
    assert(t.drop_last() =~= key);
}

/// The first line of a file that has a key counts.
pub proof fn law_first_key_counts(lines: Seq<Seq<char>>, from: int, i: int)
    requires
        0 <= from <= i < lines.len(),
        forall|j: int| from <= j < i ==> key_in_line(#[trigger] lines[j]) is None,
        key_in_line(lines[i]) is Some,
    ensures
        first_key(lines, from) == key_in_line(lines[i]),
    decreases i - from,
{
    if from < i {
        assert(key_in_line(lines[from]) is None);
        law_first_key_counts(lines, from + 1, i);
    }
}

/// An invite code has ten characters, none of which is easily mistaken for
/// another.
pub proof fn law_codes_are_easily_read(s: Seq<char>, i: int)
    requires
        is_code(s),
        0 <= i < s.len(),
    ensures
        s.len() == 10,
        ('A' <= s[i] <= 'Z' || '2' <= s[i] <= '9') && s[i] != 'I' && s[i] != 'L' && s[i] != 'O',
{
    reveal_strlit("ABCDEFGHJKMNPQRSTUVWXYZ23456789");
    let a = crate::invites::ALPHABET@;
    assert(a.contains(s[i]));
    let k = choose|k: int| 0 <= k < a.len() && a[k] == s[i];
    assert(a[k] == s[i]);
}

/// An invite is a line of its own: the code, a tab and the label.
pub proof fn law_invites_are_lines(content: Seq<char>, code: Seq<char>, label: Seq<char>)
    requires
        forall|i: int| 0 <= i < code.len() ==> #[trigger] code[i] != '\t',
    ensures
        first_field(code + "\t"@ + label) == code,
        first_field(code) == code,
        content.len() == 0 || content.last() == '\n' ==> with_code(content, code, label) == content
            + (code + "\t"@ + label + "\n"@),
        content.len() > 0 && content.last() != '\n' ==> with_code(content, code, label) == content
            + "\n"@ + (code + "\t"@ + label + "\n"@),
{
    reveal_strlit("\t");
    let s = code + "\t"@ + label;
    assert forall|j: int| 0 <= j < code.len() implies #[trigger] s[j] != '\t' by {
        assert(s[j] == code[j]);
    }
    lemma_first_is(s, '\t', 0, code.len() as int);
    assert(s.take(code.len() as int) =~= code);
    lemma_first_none(code, '\t', 0);
    let line = code + "\t"@ + label + "\n"@;
    if content.len() == 0 || content.last() == '\n' {
        assert(with_code(content, code, label) =~= content + line);
    } else {
        assert(with_code(content, code, label) =~= content + "\n"@ + line);
    }
}

// ---- reports ----

/// Growth is what a count has gained since it was last noted, and all of it if
/// it never was. A count that fell has not grown.
pub proof fn law_growth_is_since_the_last_report(
    prev: Map<Seq<char>, u64>,
    name: Seq<char>,
    total: u64,
)
    ensures
        !prev.contains_key(name) ==> growth(prev, name, total) == total,
        prev.contains_key(name) && prev[name] <= total ==> growth(prev, name, total) + prev[name]
            == total,
        prev.contains_key(name) && prev[name] > total ==> growth(prev, name, total) == 0,
        growth_text(prev, name, total) == name + "=+"@ + decimal(growth(prev, name, total))
            + " (total "@ + decimal(total as int) + ")"@,
{
}

/// What a report says of a node: its requests, its audits if there were any, a
/// bad key, and how long it is away, in minutes, if that is more than two.
pub proof fn law_node_reports(prev: Map<Seq<char>, u64>, r: NodeReport)
    ensures
        node_text(prev, r) == r.name@ + "=+"@ + decimal(growth(prev, r.name@, r.completed))
            + audits_text(r) + key_text(r) + idle_text(r),
        r.audits_pass == 0 && r.audits_soft_fail == 0 && r.audits_hard_fail == 0 ==> audits_text(r)
            == Seq::<char>::empty(),
        r.audits_pass > 0 || r.audits_soft_fail > 0 || r.audits_hard_fail > 0 ==> audits_text(r)
            == " audits:"@ + decimal(r.audits_pass as int) + "ok/"@ + decimal(
            r.audits_soft_fail as int,
        ) + "soft/"@ + decimal(r.audits_hard_fail as int) + "FAIL"@,
        r.key_bad ==> key_text(r) == " KEY-BAD"@,
        !r.key_bad ==> key_text(r) == Seq::<char>::empty(),
        r.idle_secs is None ==> idle_text(r) == " offline"@,
        r.idle_secs matches Some(s) ==> (s <= 120 ==> idle_text(r) == Seq::<char>::empty()) && (s
            > 120 ==> idle_text(r) == " idle:"@ + decimal((s / 60) as int) + "m"@),
{
}

/// The parts of a line are set apart by two blanks, and the first stands alone.
pub proof fn law_report_lines(
    prev: Map<Seq<char>, u64>,
    name: String,
    total: u64,
    other: String,
    count: u64,
    r: NodeReport,
    n: int,
)
    requires
        other@ != name@,
        0 <= n,
    ensures
        growth_line(prev, seq![(name, total)]) == growth_text(prev, name@, total),
        growth_line(prev, seq![(name, total), (other, count)]) == growth_text(prev, name@, total)
            + "  "@ + growth_text(prev, other@, count),
        nodes_line(prev, seq![r]) == node_text(prev, r),
        n < 10 ==> two_digits(n) == "0"@ + decimal(n),
        n >= 10 ==> two_digits(n) == decimal(n),
{
    reveal_with_fuel(growth_line, 3);
    reveal_with_fuel(nodes_line, 2);
    reveal_with_fuel(crate::metrics::noted, 2);
    reveal_with_fuel(crate::metrics::nodes_noted, 2);
    let one = seq![(name, total)];
    let two = seq![(name, total), (other, count)];
    assert(one.drop_last() =~= Seq::empty());
    assert(two.drop_last() =~= one);
    assert(seq![r].drop_last() =~= Seq::empty());
}

/// A record that is looked at counts once: as read or as unreadable, for its
/// patch, and with a timeline if it has one. The first that is read is shown.
pub proof fn law_records_are_summed_up(s: SummaryV, bytes: Seq<u8>, other: Seq<char>)
    requires
        s.decoded < u64::MAX,
        s.decode_errors < u64::MAX,
        s.with_timeline < u64::MAX,
        s.raw_bytes + bytes.len() <= u64::MAX,
        forall|p: Seq<char>| #[trigger] s.by_patch.contains_key(p) ==> s.by_patch[p] < u64::MAX,
    ensures
        ({
            let t = with_record(s, bytes);
            &&& t.raw_bytes == s.raw_bytes + bytes.len()
            &&& record_decoded(bytes) is None ==> t.decode_errors == s.decode_errors + 1
                && t.decoded == s.decoded && t.with_timeline == s.with_timeline && t.by_patch
                == s.by_patch && t.sample == s.sample
            &&& record_decoded(bytes) matches Some(r) ==> {
                let patch = decimal(r.patch_major as int) + "."@ + decimal(r.patch_minor as int);
                &&& t.decoded == s.decoded + 1
                &&& t.decode_errors == s.decode_errors
                &&& t.with_timeline == s.with_timeline + (if r.timeline is Some {
                    1int
                } else {
                    0int
                })
                &&& t.by_patch.contains_key(patch)
                &&& s.by_patch.contains_key(patch) ==> t.by_patch[patch] == s.by_patch[patch] + 1
                &&& !s.by_patch.contains_key(patch) ==> t.by_patch[patch] == 1
                &&& other != patch && s.by_patch.contains_key(other) ==> t.by_patch[other]
                    == s.by_patch[other]
                &&& s.sample is None ==> t.sample == Some(r)
                &&& s.sample is Some ==> t.sample == s.sample
            }
        }),
{
}

/// Every crawled platform is counted from nothing, and windows are numbered from
/// one on.
pub proof fn law_counters_start_at_nothing(regions: Seq<Region>, i: int, r: ReporterV)
    requires
        r.window < u32::MAX,
    ensures
        0 <= i < regions.len() ==> zeroed(regions).contains_key(regions[i].platform@)
            && zeroed(regions)[regions[i].platform@] == 0,
        next_window(r) == r.window + 1,
{
    if 0 <= i < regions.len() {
        let p = regions[i].platform@;
        assert(regions[i].platform@ == p);
    }
}

/// What is said of many records is the sum of what is said of each.
pub proof fn law_summaries_add_up(records: Seq<Seq<u8>>, bytes: Seq<u8>)
    ensures
        summed(records.push(bytes)) == with_record(summed(records), bytes),
        summed(Seq::empty()).decoded == 0,
        summed(Seq::empty()).decode_errors == 0,
        summed(Seq::empty()).raw_bytes == 0,
        summed(Seq::empty()).sample is None,
{
    assert(records.push(bytes).drop_last() =~= records);
}

} // verus!
