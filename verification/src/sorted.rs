//! Lists in the order of their names.

use crate::text::{lemma_sorts, lemma_sorts_on, same_text, sorts_before, text_before};
use vstd::prelude::*;

verus! {

/// Every name comes before the next.
pub open spec fn name_sorted<V>(list: Seq<(String, V)>) -> bool {
    forall|i: int, j: int|
        0 <= i < j < list.len() ==> sorts_before(
            (#[trigger] list[i]).0@,
            (#[trigger] list[j]).0@,
            0,
        )
}

/// A text sorts before another or is the same.
pub open spec fn sorts_with(a: Seq<char>, b: Seq<char>) -> bool {
    a == b || sorts_before(a, b, 0)
}

/// Of two texts the one that does not sort before the other sorts with it.
pub proof fn lemma_sorts_with(a: Seq<char>, b: Seq<char>)
    ensures
        sorts_before(a, b, 0) ==> sorts_with(a, b),
        !sorts_before(b, a, 0) ==> sorts_with(a, b),
{
    assert(a.take(0) =~= b.take(0));
    lemma_sorts(a, b, 0);
}

pub proof fn lemma_sorts_with_on(a: Seq<char>, b: Seq<char>, c: Seq<char>)
    requires
        sorts_with(a, b),
        sorts_with(b, c),
    ensures
        sorts_with(a, c),
{
    if a != b && b != c {
        lemma_sorts_on(a, b, c, 0);
    }
}

/// A name is in a list, with that value.
pub open spec fn lists<V>(list: Seq<(String, V)>, name: Seq<char>, value: V) -> bool {
    exists|i: int| 0 <= i < list.len() && (#[trigger] list[i]).0@ == name && list[i].1 == value
}

/// A name is in a list.
pub open spec fn names<V>(list: Seq<(String, V)>, name: Seq<char>) -> bool {
    exists|i: int| 0 <= i < list.len() && (#[trigger] list[i]).0@ == name
}

/// Puts an entry into its place, unless its name is there already.
pub fn insert_by_name<V>(list: &mut Vec<(String, V)>, name: String, value: V)
    requires
        name_sorted(old(list)@),
    ensures
        name_sorted(final(list)@),
        forall|n: Seq<char>, v: V| #[trigger]
            lists(final(list)@, n, v) <==> lists(old(list)@, n, v) || (n == name@ && v == value
                && !names(old(list)@, name@)),
        forall|n: Seq<char>| #[trigger]
            names(final(list)@, n) <==> names(old(list)@, n) || n == name@,
{
    let ghost was = list@;
    let ghost key = name@;
    let mut k: usize = 0;
    while k < list.len() && text_before(list[k].0.as_str(), name.as_str())
        invariant
            list@ == was,
            name@ == key,
            k <= was.len(),
            forall|i: int| 0 <= i < k ==> sorts_before((#[trigger] was[i]).0@, key, 0),
        ensures
            k == was.len() || !sorts_before(was[k as int].0@, key, 0),
        decreases was.len() - k,
    {
        k = k + 1;
    }
    if k < list.len() && same_text(list[k].0.as_str(), name.as_str()) {
        assert(was[k as int].0@ == key);
        assert(names(was, key));
        return;
    }
    proof {
        assert forall|i: int| k <= i < was.len() implies sorts_before(
            key,
            (#[trigger] was[i]).0@,
            0,
        ) by {
            let a = was[k as int].0@;
            assert(a.take(0) =~= key.take(0));
            lemma_sorts(a, key, 0);
            if i > k {
                lemma_sorts_on(key, a, was[i].0@, 0);
            }
        }
        assert(!names(was, key)) by {
            if names(was, key) {
                let i = choose|i: int| 0 <= i < was.len() && (#[trigger] was[i]).0@ == key;
                assert(key.take(0) =~= key.take(0));
                lemma_sorts(key, key, 0);
            }
        }
    }
    list.insert(k, (name, value));
    proof {
        let out = list@;
        assert forall|i: int, j: int| 0 <= i < j < out.len() implies sorts_before(
            (#[trigger] out[i]).0@,
            (#[trigger] out[j]).0@,
            0,
        ) by {
            let oi = if i < k {
                i
            } else {
                i - 1
            };
            let oj = if j < k {
                j
            } else {
                j - 1
            };
            if i != k && j != k {
                assert(out[i] == was[oi] && out[j] == was[oj]);
            } else if i == k {
                assert(out[j] == was[oj]);
            } else {
                assert(out[i] == was[oi]);
            }
        }
        assert forall|n: Seq<char>, v: V| #[trigger] lists(out, n, v) <==> lists(was, n, v) || (n
            == key && v == value && !names(was, key)) by {
            if lists(out, n, v) {
                let i = choose|i: int|
                    0 <= i < out.len() && (#[trigger] out[i]).0@ == n && out[i].1 == v;
                if i != k {
                    let oi = if i < k {
                        i
                    } else {
                        i - 1
                    };
                    assert(was[oi] == out[i]);
                }
            }
            if lists(was, n, v) {
                let i = choose|i: int|
                    0 <= i < was.len() && (#[trigger] was[i]).0@ == n && was[i].1 == v;
                let at = if i < k {
                    i
                } else {
                    i + 1
                };
                assert(out[at] == was[i]);
            }
            assert(out[k as int].0@ == key && out[k as int].1 == value);
        }
        assert forall|n: Seq<char>| #[trigger] names(out, n) <==> names(was, n) || n == key by {
            if names(out, n) {
                let i = choose|i: int| 0 <= i < out.len() && (#[trigger] out[i]).0@ == n;
                assert(lists(out, n, out[i].1));
                if lists(was, n, out[i].1) {
                    let j = choose|j: int|
                        0 <= j < was.len() && (#[trigger] was[j]).0@ == n && was[j].1 == out[i].1;
                    assert(was[j].0@ == n);
                }
            }
            if names(was, n) {
                let i = choose|i: int| 0 <= i < was.len() && (#[trigger] was[i]).0@ == n;
                assert(lists(was, n, was[i].1));
                assert(lists(out, n, was[i].1));
                let j = choose|j: int|
                    0 <= j < out.len() && (#[trigger] out[j]).0@ == n && out[j].1 == was[i].1;
                assert(out[j].0@ == n);
            }
            assert(out[k as int].0@ == key);
        }
    }
}

/// The names of a list, in order, each once.
pub open spec fn sorted_names(list: Seq<String>) -> bool {
    forall|i: int, j: int|
        0 <= i < j < list.len() ==> sorts_before((#[trigger] list[i])@, (#[trigger] list[j])@, 0)
}

/// A text is in a list.
pub open spec fn has_text(list: Seq<String>, name: Seq<char>) -> bool {
    exists|i: int| 0 <= i < list.len() && (#[trigger] list[i])@ == name
}

/// The names of a list.
pub fn just_names<V>(list: &Vec<(String, V)>) -> (res: Vec<String>)
    requires
        name_sorted(list@),
    ensures
        sorted_names(res@),
        forall|n: Seq<char>| #[trigger] has_text(res@, n) <==> names(list@, n),
{
    let mut out: Vec<String> = Vec::new();
    let mut i: usize = 0;
    while i < list.len()
        invariant
            i <= list@.len(),
            out@.len() == i,
            forall|j: int| 0 <= j < i ==> (#[trigger] out@[j])@ == list@[j].0@,
        decreases list@.len() - i,
    {
        out.push(list[i].0.clone());
        i = i + 1;
    }
    proof {
        assert forall|n: Seq<char>| #[trigger] has_text(out@, n) <==> names(list@, n) by {
            if has_text(out@, n) {
                let j = choose|j: int| 0 <= j < out@.len() && (#[trigger] out@[j])@ == n;
                assert(list@[j].0@ == n);
            }
            if names(list@, n) {
                let j = choose|j: int| 0 <= j < list@.len() && (#[trigger] list@[j]).0@ == n;
                assert(out@[j]@ == n);
            }
        }
        assert forall|i: int, j: int| 0 <= i < j < out@.len() implies sorts_before(
            (#[trigger] out@[i])@,
            (#[trigger] out@[j])@,
            0,
        ) by {
            assert(sorts_before(list@[i].0@, list@[j].0@, 0));
        }
    }
    out
}

/// The order of tallies: by name, then by bucket.
pub open spec fn tally_before(a: (String, u8, u64), b: (String, u8, u64)) -> bool {
    sorts_before(a.0@, b.0@, 0) || (a.0@ == b.0@ && a.1 < b.1)
}

pub open spec fn tally_sorted(list: Seq<(String, u8, u64)>) -> bool {
    forall|i: int, j: int|
        0 <= i < j < list.len() ==> tally_before(#[trigger] list[i], #[trigger] list[j])
}

/// A name and bucket are in a list, with that count.
pub open spec fn tallies(
    list: Seq<(String, u8, u64)>,
    name: Seq<char>,
    bucket: u8,
    count: int,
) -> bool {
    exists|i: int|
        0 <= i < list.len() && (#[trigger] list[i]).0@ == name && list[i].1 == bucket && list[i].2
            == count
}

proof fn lemma_tally_once(list: Seq<(String, u8, u64)>, i: int, j: int)
    requires
        tally_sorted(list),
        0 <= i < list.len(),
        0 <= j < list.len(),
        list[i].0@ == list[j].0@,
        list[i].1 == list[j].1,
    ensures
        i == j,
{
    let n = list[i].0@;
    assert(n.take(0) =~= n.take(0));
    lemma_sorts(n, n, 0);
    if i < j {
        assert(tally_before(list[i], list[j]));
    } else if j < i {
        assert(tally_before(list[j], list[i]));
    }
}

/// Adds one to the count of a name and bucket.
pub fn tally(list: &mut Vec<(String, u8, u64)>, name: &str, bucket: u8)
    requires
        tally_sorted(old(list)@),
        forall|i: int| 0 <= i < old(list)@.len() ==> (#[trigger] old(list)@[i]).2 < u64::MAX,
    ensures
        tally_sorted(final(list)@),
        forall|n: Seq<char>, b: u8, c: int| #[trigger]
            tallies(final(list)@, n, b, c) <==> if n == name@ && b == bucket {
                tallies(old(list)@, n, b, c - 1) || (c == 1 && forall|d: int|
                    !#[trigger] tallies(old(list)@, n, b, d))
            } else {
                tallies(old(list)@, n, b, c)
            },
{
    let ghost was = list@;
    let mut k: usize = 0;
    while k < list.len() && (text_before(list[k].0.as_str(), name) || (list[k].1 < bucket
        && same_text(list[k].0.as_str(), name)))
        invariant
            list@ == was,
            k <= was.len(),
            forall|i: int|
                0 <= i < k ==> sorts_before((#[trigger] was[i]).0@, name@, 0) || (was[i].0@
                    == name@ && was[i].1 < bucket),
        ensures
            k == was.len() || !(sorts_before(was[k as int].0@, name@, 0) || (was[k as int].0@
                == name@ && was[k as int].1 < bucket)),
        decreases was.len() - k,
    {
        k = k + 1;
    }
    if k < list.len() && list[k].1 == bucket && same_text(list[k].0.as_str(), name) {
        let count: u64 = list[k].2 + 1;
        let text = list[k].0.clone();
        list.set(k, (text, bucket, count));
        proof {
            let out = list@;
            assert forall|i: int, j: int| 0 <= i < j < out.len() implies tally_before(
                #[trigger] out[i],
                #[trigger] out[j],
            ) by {
                assert(tally_before(was[i], was[j]));
            }
            assert forall|n: Seq<char>, b: u8, c: int| #[trigger] tallies(out, n, b, c) <==> if n
                == name@ && b == bucket {
                tallies(was, n, b, c - 1) || (c == 1 && forall|d: int|
                    !#[trigger] tallies(was, n, b, d))
            } else {
                tallies(was, n, b, c)
            } by {
                assert(tallies(was, name@, bucket, was[k as int].2 as int));
                if tallies(out, n, b, c) {
                    let i = choose|i: int|
                        0 <= i < out.len() && (#[trigger] out[i]).0@ == n && out[i].1 == b
                            && out[i].2 == c;
                    assert(was[i].0@ == n && was[i].1 == b);
                    if i != k && n == name@ && b == bucket {
                        lemma_tally_once(was, i, k as int);
                    }
                    if i == k {
                        assert(was[i].2 == c - 1);
                    }
                }
                if n == name@ && b == bucket && tallies(was, n, b, c - 1) {
                    let i = choose|i: int|
                        0 <= i < was.len() && (#[trigger] was[i]).0@ == n && was[i].1 == b
                            && was[i].2 == c - 1;
                    lemma_tally_once(was, i, k as int);
                    assert(out[i].2 == c);
                }
                if !(n == name@ && b == bucket) && tallies(was, n, b, c) {
                    let i = choose|i: int|
                        0 <= i < was.len() && (#[trigger] was[i]).0@ == n && was[i].1 == b
                            && was[i].2 == c;
                    assert(out[i] == was[i]);
                }
            }
        }
        return;
    }
    proof {
        assert forall|i: int| k <= i < was.len() implies sorts_before(
            name@,
            (#[trigger] was[i]).0@,
            0,
        ) || (name@ == was[i].0@ && bucket < was[i].1) by {
            let a = was[k as int].0@;
            assert(a.take(0) =~= name@.take(0));
            lemma_sorts(a, name@, 0);
            if i > k {
                assert(tally_before(was[k as int], was[i]));
                if a != name@ && sorts_before(a, was[i].0@, 0) {
                    lemma_sorts_on(name@, a, was[i].0@, 0);
                }
            }
        }
        assert forall|d: int| !#[trigger] tallies(was, name@, bucket, d) by {
            if tallies(was, name@, bucket, d) {
                let i = choose|i: int|
                    0 <= i < was.len() && (#[trigger] was[i]).0@ == name@ && was[i].1 == bucket
                        && was[i].2 == d;
                assert(name@.take(0) =~= name@.take(0));
                lemma_sorts(name@, name@, 0);
            }
        }
    }
    list.insert(k, (name.to_string(), bucket, 1));
    proof {
        let out = list@;
        assert forall|i: int, j: int| 0 <= i < j < out.len() implies tally_before(
            #[trigger] out[i],
            #[trigger] out[j],
        ) by {
            let oi = if i < k {
                i
            } else {
                i - 1
            };
            let oj = if j < k {
                j
            } else {
                j - 1
            };
            if i != k && j != k {
                assert(out[i] == was[oi] && out[j] == was[oj]);
                assert(tally_before(was[oi], was[oj]));
            } else if i == k {
                assert(out[j] == was[oj]);
            } else {
                assert(out[i] == was[oi]);
            }
        }
        assert forall|n: Seq<char>, b: u8, c: int| #[trigger] tallies(out, n, b, c) <==> if n
            == name@ && b == bucket {
            tallies(was, n, b, c - 1) || (c == 1 && forall|d: int|
                !#[trigger] tallies(was, n, b, d))
        } else {
            tallies(was, n, b, c)
        } by {
            if tallies(out, n, b, c) {
                let i = choose|i: int|
                    0 <= i < out.len() && (#[trigger] out[i]).0@ == n && out[i].1 == b && out[i].2
                        == c;
                if i != k {
                    let oi = if i < k {
                        i
                    } else {
                        i - 1
                    };
                    assert(was[oi] == out[i]);
                    assert(tallies(was, n, b, c));
                }
            }
            if tallies(was, n, b, c) {
                let i = choose|i: int|
                    0 <= i < was.len() && (#[trigger] was[i]).0@ == n && was[i].1 == b && was[i].2
                        == c;
                let at = if i < k {
                    i
                } else {
                    i + 1
                };
                assert(out[at] == was[i]);
            }
            assert(out[k as int].0@ == name@ && out[k as int].1 == bucket && out[k as int].2 == 1);
        }
    }
}

} // verus!
