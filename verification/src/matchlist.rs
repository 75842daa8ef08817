//! A player's match list: how far to page through it, and which of its matches
//! to fetch.

use crate::config::MATCHLIST_MAX_DEPTH;
use crate::crawler::PAGE_LEN;
use crate::parse::{split_id, split_match_id};
use crate::sorted::{has_text, sorted_names, sorts_with};
use crate::store::{seen_of, Store, StoreV};
use crate::text::{lemma_sorts_on, same_text, sorts_before, texts};
use vstd::prelude::*;

verus! {

/// In order, where a text may come more than once.
pub open spec fn in_text_order(list: Seq<String>) -> bool {
    forall|i: int, j: int|
        0 <= i < j < list.len() ==> sorts_with((#[trigger] list[i])@, (#[trigger] list[j])@)
}

/// The sort of std's slices, on strings: the same strings, in the order of
/// their characters.
#[verifier::external_body]
fn sort_strings(list: &mut Vec<String>)
    ensures
        final(list)@.to_multiset() == old(list)@.to_multiset(),
        in_text_order(final(list)@),
{
    list.sort();
}

/// The texts of a list in order, each once.
pub fn sorted_once(list: Vec<String>) -> (res: Vec<String>)
    ensures
        sorted_names(res@),
        forall|t: Seq<char>| #[trigger] has_text(res@, t) <==> has_text(list@, t),
{
    let mut all = list;
    let ghost given = all@;
    sort_strings(&mut all);
    proof {
        assert forall|t: Seq<char>| #[trigger] has_text(all@, t) <==> has_text(given, t) by {
            given.to_multiset_ensures();
            all@.to_multiset_ensures();
            if has_text(all@, t) {
                let i = choose|i: int| 0 <= i < all@.len() && (#[trigger] all@[i])@ == t;
                assert(all@.contains(all@[i]));
                assert(all@.to_multiset().count(all@[i]) > 0);
                assert(given.contains(all@[i]));
                let j = choose|j: int| 0 <= j < given.len() && given[j] == all@[i];
                assert(given[j]@ == t);
            }
            if has_text(given, t) {
                let i = choose|i: int| 0 <= i < given.len() && (#[trigger] given[i])@ == t;
                assert(given.contains(given[i]));
                assert(given.to_multiset().count(given[i]) > 0);
                assert(all@.contains(given[i]));
                let j = choose|j: int| 0 <= j < all@.len() && all@[j] == given[i];
                assert(all@[j]@ == t);
            }
        }
    }
    let mut out: Vec<String> = Vec::new();
    let mut i: usize = 0;
    while i < all.len()
        invariant
            in_text_order(all@),
            i <= all@.len(),
            i > 0 ==> out@.len() > 0 && out@.last()@ == all@[i - 1]@,
            i == 0 ==> out@.len() == 0,
            sorted_names(out@),
            forall|t: Seq<char>| #[trigger]
                has_text(out@, t) <==> has_text(all@.take(i as int), t),
        decreases all@.len() - i,
    {
        let ghost was = out@;
        let ghost before = all@.take(i as int);
        let ghost after = all@.take(i + 1);
        let fresh = out.len() == 0 || !same_text(out[out.len() - 1].as_str(), all[i].as_str());
        if fresh {
            out.push(all[i].clone());
        }
        proof {
            let t = all@[i as int]@;
            assert(after =~= before.push(all@[i as int]));
            assert forall|x: Seq<char>| #[trigger] has_text(after, x) <==> has_text(before, x) || x
                == t by {
                if has_text(before, x) {
                    let j = choose|j: int| 0 <= j < before.len() && (#[trigger] before[j])@ == x;
                    assert(after[j]@ == x);
                }
                if x == t {
                    assert(after[i as int]@ == x);
                }
            }
            if fresh {
                assert forall|x: Seq<char>| #[trigger] has_text(out@, x) <==> has_text(was, x) || x
                    == t by {
                    if has_text(was, x) {
                        let j = choose|j: int| 0 <= j < was.len() && (#[trigger] was[j])@ == x;
                        assert(out@[j]@ == x);
                    }
                    if x == t {
                        assert(out@[was.len() as int]@ == x);
                    }
                }
                assert forall|a: int, b: int| 0 <= a < b < out@.len() implies sorts_before(
                    (#[trigger] out@[a])@,
                    (#[trigger] out@[b])@,
                    0,
                ) by {
                    if b < was.len() {
                        assert(was[a] == out@[a] && was[b] == out@[b]);
                    } else {
                        let last = was.last()@;
                        assert(last == all@[i - 1]@);
                        assert(sorts_with(all@[i - 1]@, all@[i as int]@));
                        assert(sorts_before(last, t, 0));
                        if a < was.len() - 1 {
                            assert(sorts_before(was[a]@, was[was.len() - 1]@, 0));
                            lemma_sorts_on(was[a]@, last, t, 0);
                        }
                    }
                }
            } else {
                assert(has_text(was, t)) by {
                    assert(was[was.len() - 1]@ == t);
                }
            }
        }
        i = i + 1;
    }
    assert(all@.take(i as int) =~= all@);
    out
}

// ---- paging ----

/// A match list as far as it was fetched: its ids, how many the last page
/// held, and where the next page starts.
#[verifier::ext_equal]
pub struct MatchlistV {
    pub ids: Seq<Seq<char>>,
    pub page_len: nat,
    pub start: u32,
}

pub struct Matchlist {
    ids: Vec<String>,
    page_len: usize,
    start: u32,
}

/// A match id that names a game that was fetched.
pub open spec fn is_seen_id(s: StoreV, id: Seq<char>) -> bool {
    match split_id(id) {
        Ok((platform, num)) => seen_of(s, platform).contains(num),
        Err(_) => false,
    }
}

/// One of the ids from `i` on names a game that was fetched.
pub open spec fn any_seen_from(s: StoreV, ids: Seq<Seq<char>>, i: int) -> bool {
    exists|k: int| i <= k < ids.len() && is_seen_id(s, #[trigger] ids[k])
}

/// Another page is to be fetched: the last was full, the list is not too deep,
/// and the last page held nothing that was fetched before. A deep visit walks
/// on even then.
pub open spec fn wants_page(m: MatchlistV, s: StoreV, deep: bool, stopped: bool) -> bool {
    m.page_len == PAGE_LEN && m.start < MATCHLIST_MAX_DEPTH && !stopped && (deep || !any_seen_from(
        s,
        m.ids,
        m.ids.len() - PAGE_LEN,
    ))
}

/// A match list of which the first page was fetched.
pub open spec fn begun(page: Seq<Seq<char>>) -> MatchlistV {
    MatchlistV { ids: page, page_len: page.len(), start: PAGE_LEN as u32 }
}

/// A match list with another page.
pub open spec fn continued(m: MatchlistV, page: Seq<Seq<char>>) -> MatchlistV {
    MatchlistV {
        ids: m.ids + page,
        page_len: page.len(),
        start: (m.start + PAGE_LEN) as u32,
    }
}

impl View for Matchlist {
    type V = MatchlistV;

    closed spec fn view(&self) -> MatchlistV {
        MatchlistV {
            ids: texts(self.ids@),
            page_len: self.page_len as nat,
            start: self.start,
        }
    }
}

impl Matchlist {
    pub closed spec fn wf(&self) -> bool {
        self.page_len <= self.ids@.len() && self.start <= MATCHLIST_MAX_DEPTH + PAGE_LEN
    }

    /// A match list of which the first page was fetched.
    pub fn first(page: Vec<String>) -> (res: Self)
        ensures
            res.wf(),
            res@ == begun(texts(page@)),
    {
        let page_len: usize = page.len();
        Matchlist { ids: page, page_len, start: 100 }
    }

    /// Where the next page starts.
    pub fn start(&self) -> (res: u32)
        ensures
            res == self@.start,
    {
        self.start
    }

    fn any_seen(&self, store: &Store, from: usize) -> (res: bool)
        requires
            store.wf(),
            from <= self.ids@.len(),
        ensures
            res == any_seen_from(store@, self@.ids, from as int),
    {
        let ghost s = store@;
        let mut i: usize = from;
        while i < self.ids.len()
            invariant
                store.wf(),
                s == store@,
                from <= i <= self.ids@.len(),
                forall|k: int| from <= k < i ==> !is_seen_id(s, #[trigger] self@.ids[k]),
            decreases self.ids@.len() - i,
        {
            assert(self@.ids[i as int] == self.ids@[i as int]@);
            if let Ok((platform, num)) = split_match_id(self.ids[i].as_str()) {
                if store.is_seen(platform, num) {
                    assert(is_seen_id(s, self@.ids[i as int]));
                    return true;
                }
            }
            i = i + 1;
        }
        false
    }

    /// Whether another page is to be fetched.
    pub fn wants_more(&self, store: &Store, deep: bool, stopped: bool) -> (res: bool)
        requires
            self.wf(),
            store.wf(),
        ensures
            res == wants_page(self@, store@, deep, stopped),
    {
        if self.page_len != PAGE_LEN || self.start >= MATCHLIST_MAX_DEPTH || stopped {
            return false;
        }
        if deep {
            return true;
        }
        !self.any_seen(store, self.ids.len() - PAGE_LEN)
    }

    /// Adds a page.
    pub fn add(&mut self, page: Vec<String>)
        requires
            old(self).wf(),
            old(self)@.start < MATCHLIST_MAX_DEPTH,
        ensures
            final(self).wf(),
            final(self)@ == continued(old(self)@, texts(page@)),
    {
        self.page_len = page.len();
        self.start = self.start + 100;
        let ghost was = self.ids@;
        let mut i: usize = 0;
        while i < page.len()
            invariant
                i <= page@.len(),
                self.ids@ == was + page@.take(i as int),
                self.page_len == page@.len(),
                self.start == old(self).start + 100,
            decreases page@.len() - i,
        {
            self.ids.push(page[i].clone());
            assert(self.ids@ =~= was + page@.take(i + 1));
            i = i + 1;
        }
        assert(page@.take(i as int) =~= page@);
        assert(texts(self.ids@) =~= texts(was) + texts(page@));
    }

    /// The ids that were fetched, in order and each once: pages shift when a
    /// game ends between two fetches.
    pub fn into_ids(self) -> (res: Vec<String>)
        ensures
            sorted_names(res@),
            forall|t: Seq<char>| #[trigger] has_text(res@, t) <==> self@.ids.contains(t),
    {
        let ghost ids = self.ids@;
        let out = sorted_once(self.ids);
        proof {
            assert forall|t: Seq<char>| #[trigger] has_text(out@, t) <==> texts(ids).contains(t) by {
                if has_text(ids, t) {
                    let i = choose|i: int| 0 <= i < ids.len() && (#[trigger] ids[i])@ == t;
                    assert(texts(ids)[i] == t);
                }
                if texts(ids).contains(t) {
                    let i = choose|i: int| 0 <= i < texts(ids).len() && texts(ids)[i] == t;
                    assert(ids[i]@ == t);
                }
            }
        }
        out
    }
}

// ---- what to fetch ----

/// A match of a platform that was not fetched yet.
pub open spec fn is_new_id(s: StoreV, platform: Seq<char>, id: Seq<char>) -> bool {
    match split_id(id) {
        Ok((pf, num)) => pf == platform && !seen_of(s, platform).contains(num),
        Err(_) => false,
    }
}

/// A match of a platform.
pub open spec fn is_own_id(platform: Seq<char>, id: Seq<char>) -> bool {
    split_id(id) matches Ok((pf, _)) && pf == platform
}

/// The matches that are to be fetched, in the order of the list. Games of
/// other platforms are theirs to fetch.
pub fn new_ids(store: &Store, platform: &str, ids: &Vec<String>) -> (res: Vec<String>)
    requires
        store.wf(),
    ensures
        texts(res@) == texts(ids@).filter(
            |id: Seq<char>| is_new_id(store@, platform@, id),
        ),
        forall|i: int|
            0 <= i < res@.len() ==> has_text(ids@, (#[trigger] res@[i])@) && is_own_id(
                platform@,
                res@[i]@,
            ),
{
    let ghost s = store@;
    let ghost pf = platform@;
    let ghost wanted = |id: Seq<char>| is_new_id(s, pf, id);
    let mut out: Vec<String> = Vec::new();
    let mut i: usize = 0;
    proof {
        reveal(Seq::filter);
        assert(texts(ids@).take(0) =~= Seq::empty());
        assert(texts(out@) =~= Seq::empty());
    }
    while i < ids.len()
        invariant
            store.wf(),
            s == store@,
            pf == platform@,
            wanted == (|id: Seq<char>| is_new_id(s, pf, id)),
            i <= ids@.len(),
            texts(out@) == texts(ids@).take(i as int).filter(wanted),
            forall|k: int|
                0 <= k < out@.len() ==> has_text(ids@, (#[trigger] out@[k])@) && is_own_id(
                    pf,
                    out@[k]@,
                ),
        decreases ids@.len() - i,
    {
        let ghost was = out@;
        proof {
            reveal(Seq::filter);
            assert(texts(ids@).take(i + 1).drop_last() =~= texts(ids@).take(i as int));
            assert(texts(ids@).take(i + 1).last() == ids@[i as int]@);
        }
        if let Ok((found, num)) = split_match_id(ids[i].as_str()) {
            if same_text(found, platform) {
                if !store.is_seen(found, num) {
                    out.push(ids[i].clone());
                    proof {
                        assert(texts(out@) =~= texts(was).push(ids@[i as int]@));
                        assert(has_text(ids@, ids@[i as int]@));
                    }
                }
            }
        }
        i = i + 1;
    }
    assert(texts(ids@).take(i as int) =~= texts(ids@));
    out
}

} // verus!
