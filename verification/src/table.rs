//! A table held in memory in front of a stored one: what it knows of a row,
//! and which rows differ from what was last written out.

use std::collections::BTreeMap;
use vstd::prelude::*;
use vstd::std_specs::btree::key_obeys_cmp_spec;
use vstd::std_specs::iter::IteratorSpec;

verus! {

/// Rows by key, with the keys whose rows were touched since the last time
/// that the table was written out.
#[verifier::reject_recursive_types(K)]
pub struct Table<K, V> {
    rows: BTreeMap<K, V>,
    touched: Vec<K>,
    saved: Ghost<Map<K, V>>,
}

/// The rows of a list, by key; of two with one key, the later.
pub open spec fn rows_map<K, V>(list: Seq<(K, V)>) -> Map<K, V>
    decreases list.len(),
{
    if list.len() == 0 {
        Map::empty()
    } else {
        rows_map(list.drop_last()).insert(list.last().0, list.last().1)
    }
}

/// Two tables hold the same row, or both none, under a key.
pub open spec fn same_row<K, V>(a: Map<K, V>, b: Map<K, V>, k: K) -> bool {
    &&& a.contains_key(k) == b.contains_key(k)
    &&& a.contains_key(k) ==> a[k] == b[k]
}

impl<K, V> View for Table<K, V> {
    type V = Map<K, V>;

    closed spec fn view(&self) -> Map<K, V> {
        self.rows@
    }
}

impl<K, V> Table<K, V> {
    /// What the table held when it was last written out.
    pub closed spec fn saved(&self) -> Map<K, V> {
        self.saved@
    }

    /// The keys touched since then.
    pub closed spec fn touched(&self) -> Seq<K> {
        self.touched@
    }
}

impl<K: Ord + Copy, V> Table<K, V> {
    /// Every row that differs from what was written out is marked.
    pub closed spec fn wf(&self) -> bool {
        &&& key_obeys_cmp_spec::<K>()
        &&& self@.dom().finite()
        &&& forall|k: K| #[trigger]
            same_row(self.saved(), self@, k) || self.touched().contains(k)
    }

    /// Every row that differs from what was written out is marked.
    pub proof fn lemma_unsaved(&self, k: K)
        requires
            self.wf(),
            !self.touched().contains(k),
        ensures
            same_row(self.saved(), self@, k),
    {
        assert(same_row(self.saved(), self@, k) || self.touched().contains(k));
    }

    pub proof fn lemma_finite(&self)
        requires
            self.wf(),
        ensures
            self@.dom().finite(),
    {
    }

    pub fn new() -> (res: Self)
        requires
            key_obeys_cmp_spec::<K>(),
        ensures
            res.wf(),
            res@ == Map::<K, V>::empty(),
            res.saved() == Map::<K, V>::empty(),
            res.touched() == Seq::<K>::empty(),
    {
        let res = Table { rows: BTreeMap::new(), touched: Vec::new(), saved: Ghost(Map::empty()) };
        assert forall|k: K| #[trigger] same_row(res.saved(), res@, k) || res.touched().contains(
            k,
        ) by {}
        res
    }

    /// A table with rows that are stored already.
    pub fn from_rows(list: Vec<(K, V)>) -> (res: Self)
        requires
            key_obeys_cmp_spec::<K>(),
        ensures
            res.wf(),
            res@ == rows_map(list@),
            res.saved() == rows_map(list@),
            res.touched() == Seq::<K>::empty(),
    {
        let mut res = Self::new();
        res.fill(list);
        res
    }

    fn fill(&mut self, list: Vec<(K, V)>)
        requires
            old(self).wf(),
            old(self)@ == Map::<K, V>::empty(),
        ensures
            final(self).wf(),
            final(self)@ == rows_map(list@),
            final(self).saved() == rows_map(list@),
            final(self).touched() == Seq::<K>::empty(),
    {
        let ghost all = list@;
        let mut list = list;
        let mut back: Vec<(K, V)> = Vec::new();
        while list.len() > 0
            invariant
                list@ + back@.reverse() == all,
            decreases list@.len(),
        {
            let ghost l0 = list@;
            let ghost b0 = back@;
            match list.pop() {
                Some(row) => {
                    back.push(row);
                    assert(list@ + back@.reverse() =~= l0 + b0.reverse());
                },
                None => {},
            }
        }
        assert(back@.reverse() =~= all);
        let ghost mut n: int = 0;
        assert(all.take(0) =~= Seq::empty());
        assert(all.skip(0) =~= all);
        while back.len() > 0
            invariant
                self.wf(),
                n + back@.len() == all.len(),
                0 <= n,
                back@.reverse() == all.skip(n),
                self@ == rows_map(all.take(n)),
            decreases back@.len(),
        {
            let ghost b0 = back@;
            match back.pop() {
                Some((k, v)) => {
                    proof {
                        assert(b0.reverse()[0] == all.skip(n)[0]);
                        assert(all.take(n + 1).drop_last() =~= all.take(n));
                        assert forall|i: int| 0 <= i < back@.len() implies back@.reverse()[i]
                            == all.skip(n + 1)[i] by {
                            assert(b0.reverse()[i + 1] == all.skip(n)[i + 1]);
                        }
                        assert(back@.reverse() =~= all.skip(n + 1));
                    }
                    let _ = self.put(k, v);
                    proof {
                        n = n + 1;
                    }
                },
                None => {},
            }
        }
        assert(all.take(n) =~= all);
        let _ = self.take_touched();
    }

    pub fn len(&self) -> (res: usize)
        requires
            self.wf(),
        ensures
            res == self@.dom().len(),
    {
        self.rows.len()
    }

    pub fn get(&self, k: K) -> (res: Option<&V>)
        requires
            self.wf(),
        ensures
            match res {
                Some(v) => self@.contains_key(k) && *v == self@[k],
                None => !self@.contains_key(k),
            },
    {
        self.rows.get(&k)
    }

    pub fn contains(&self, k: K) -> (res: bool)
        requires
            self.wf(),
        ensures
            res == self@.contains_key(k),
    {
        self.rows.contains_key(&k)
    }

    fn touch(&mut self, k: K)
        ensures
            final(self)@ == old(self)@,
            final(self).rows == old(self).rows,
            final(self).saved() == old(self).saved(),
            final(self).touched() == old(self).touched().push(k),
    {
        self.touched.push(k);
    }

    /// Writes a row, and hands back the one that it replaces.
    pub fn put(&mut self, k: K, v: V) -> (res: Option<V>)
        requires
            old(self).wf(),
        ensures
            final(self).wf(),
            final(self)@ == old(self)@.insert(k, v),
            final(self).saved() == old(self).saved(),
            final(self).touched() == old(self).touched().push(k),
            match res {
                Some(was) => old(self)@.contains_key(k) && was == old(self)@[k],
                None => !old(self)@.contains_key(k),
            },
    {
        let ghost start = *self;
        self.touch(k);
        let res = self.rows.insert(k, v);
        proof {
            self.lemma_step(start, k);
        }
        res
    }

    /// Takes a row out.
    pub fn take(&mut self, k: K) -> (res: Option<V>)
        requires
            old(self).wf(),
        ensures
            final(self).wf(),
            final(self)@ == old(self)@.remove(k),
            final(self).saved() == old(self).saved(),
            final(self).touched() == old(self).touched().push(k),
            match res {
                Some(was) => old(self)@.contains_key(k) && was == old(self)@[k],
                None => !old(self)@.contains_key(k),
            },
    {
        let ghost start = *self;
        self.touch(k);
        let res = self.rows.remove(&k);
        proof {
            assert(self@ =~= start@.remove(k));
            self.lemma_step(start, k);
        }
        res
    }

    proof fn lemma_step(&self, start: Self, k: K)
        requires
            start.wf(),
            self@ == start@.remove(k) || exists|v: V| self@ == start@.insert(k, v),
            self.saved() == start.saved(),
            self.touched() == start.touched().push(k),
        ensures
            self.wf(),
    {
        assert forall|j: K| #[trigger] same_row(self.saved(), self@, j) || self.touched().contains(
            j,
        ) by {
            if j == k {
                assert(self.touched()[start.touched().len() as int] == k);
            } else {
                assert(same_row(start.saved(), start@, j) || start.touched().contains(j));
                if start.touched().contains(j) {
                    let i = choose|i: int| 0 <= i < start.touched().len() && start.touched()[i]
                        == j;
                    assert(self.touched()[i] == j);
                }
            }
        }
    }

    /// Every key of the table, once.
    pub fn keys(&self) -> (res: Vec<K>)
        requires
            self.wf(),
        ensures
            res@.to_set() == self@.dom(),
            res@.no_duplicates(),
    {
        let mut out: Vec<K> = Vec::new();
        let it = self.rows.keys();
        let ghost all = it.remaining();
        for k in iter: it
            invariant
                iter.seq() == all,
                out@ == all.unref().take(iter.index()),
        {
            assert(all.unref().take(iter.index() + 1) =~= all.unref().take(iter.index()).push(*k));
            out.push(*k);
        }
        assert(all.unref().take(all.len() as int) =~= all.unref());
        out
    }

    /// The keys whose rows are to be written out; a key may come twice. After
    /// this call they count as written.
    pub fn take_touched(&mut self) -> (res: Vec<K>)
        requires
            old(self).wf(),
        ensures
            final(self).wf(),
            final(self)@ == old(self)@,
            final(self).saved() == old(self)@,
            final(self).touched() == Seq::<K>::empty(),
            res@ == old(self).touched(),
            forall|k: K|
                !res@.contains(k) ==> #[trigger] same_row(old(self).saved(), final(self)@, k),
    {
        let mut out: Vec<K> = Vec::new();
        std::mem::swap(&mut out, &mut self.touched);
        self.saved = Ghost(self.rows@);
        proof {
            assert forall|k: K| !out@.contains(k) implies #[trigger] same_row(
                old(self).saved(),
                self@,
                k,
            ) by {
                old(self).lemma_unsaved(k);
            }
            assert forall|k: K| #[trigger] same_row(self.saved(), self@, k)
                || self.touched().contains(k) by {}
        }
        out
    }
}

/// Going through keys one by one: how many of those seen so far meet a test.
pub proof fn lemma_count<K>(keys: Seq<K>, f: spec_fn(K) -> bool, k: int)
    requires
        keys.no_duplicates(),
        0 <= k < keys.len(),
    ensures
        keys.take(k).to_set().filter(f).finite(),
        keys.take(k).to_set().filter(f).len() + (if f(keys[k]) {
            1int
        } else {
            0int
        }) == keys.take(k + 1).to_set().filter(f).len(),
        keys.take(k + 1).to_set().filter(f).len() <= k + 1,
{
    let now = keys.take(k + 1).to_set();
    let was = keys.take(k).to_set();
    assert(now =~= was.insert(keys[k])) by {
        assert forall|x: K| #[trigger] now.contains(x) == was.insert(keys[k]).contains(x) by {
            if now.contains(x) {
                let sub = keys.take(k + 1);
                let i = choose|i: int| 0 <= i < sub.len() && sub[i] == x;
                if i < k {
                    assert(keys.take(k)[i] == x);
                }
            }
            if was.contains(x) {
                let i = choose|i: int| 0 <= i < k && keys.take(k)[i] == x;
                assert(keys.take(k + 1)[i] == x);
            }
            if x == keys[k] {
                assert(keys.take(k + 1)[k] == x);
            }
        }
    }
    assert(!was.contains(keys[k])) by {
        if was.contains(keys[k]) {
            let i = choose|i: int| 0 <= i < k && keys.take(k)[i] == keys[k];
            assert(keys[i] == keys[k]);
        }
    }
    vstd::seq_lib::seq_to_set_is_finite(keys.take(k));
    vstd::seq_lib::seq_to_set_is_finite(keys.take(k + 1));
    keys.take(k + 1).lemma_cardinality_of_set();
    was.lemma_len_filter(f);
    now.lemma_len_filter(f);
    if f(keys[k]) {
        assert(now.filter(f) =~= was.filter(f).insert(keys[k]));
    } else {
        assert(now.filter(f) =~= was.filter(f));
    }
}

} // verus!
