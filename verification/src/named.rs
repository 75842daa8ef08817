//! A small map keyed by text, for the handful of platforms.

use crate::sorted::{insert_by_name, lists, name_sorted, names};
use crate::text::same_text;
use vstd::prelude::*;

verus! {

/// Values by name, each name once.
pub struct Named<V> {
    items: Vec<(String, V)>,
}

impl<V> Named<V> {
    pub closed spec fn wf(&self) -> bool {
        forall|i: int, j: int|
            0 <= i < j < self.items@.len() ==> #[trigger] self.items@[i].0@
                != #[trigger] self.items@[j].0@
    }

    spec fn holds(&self, name: Seq<char>, i: int) -> bool {
        0 <= i < self.items@.len() && self.items@[i].0@ == name
    }

    /// The names, in the order in which they are kept.
    pub closed spec fn names(&self) -> Seq<Seq<char>> {
        Seq::new(self.items@.len(), |i: int| self.items@[i].0@)
    }
}

impl<V> View for Named<V> {
    type V = Map<Seq<char>, V>;

    closed spec fn view(&self) -> Map<Seq<char>, V> {
        Map::new(
            |name: Seq<char>| exists|i: int| #[trigger] self.holds(name, i),
            |name: Seq<char>| self.items@[choose|i: int| #[trigger] self.holds(name, i)].1,
        )
    }
}

impl<V> Named<V> {
    proof fn lemma_at(&self, name: Seq<char>, i: int)
        requires
            self.wf(),
            self.holds(name, i),
        ensures
            self@.contains_key(name),
            self@[name] == self.items@[i].1,
    {
        let j = choose|j: int| #[trigger] self.holds(name, j);
        assert(self.holds(name, j));
        if i < j {
            assert(self.items@[i].0@ != self.items@[j].0@);
        } else if j < i {
            assert(self.items@[j].0@ != self.items@[i].0@);
        }
    }

    proof fn lemma_absent(&self, name: Seq<char>)
        requires
            forall|i: int| !#[trigger] self.holds(name, i),
        ensures
            !self@.contains_key(name),
    {
    }

    /// The names are the keys, each listed once.
    pub proof fn lemma_names(&self)
        requires
            self.wf(),
        ensures
            self.names().no_duplicates(),
            forall|n: Seq<char>| #[trigger] self@.contains_key(n) <==> self.names().contains(n),
    {
        assert forall|n: Seq<char>| #[trigger] self@.contains_key(n) implies
            self.names().contains(n) by {
            let i = choose|i: int| #[trigger] self.holds(n, i);
            assert(self.names()[i] == n);
        }
        assert forall|n: Seq<char>| self.names().contains(n) implies
            #[trigger] self@.contains_key(n) by {
            let i = choose|i: int| 0 <= i < self.names().len() && self.names()[i] == n;
            assert(self.holds(n, i));
        }
    }

    pub fn new() -> (res: Self)
        ensures
            res.wf(),
            res@ == Map::<Seq<char>, V>::empty(),
    {
        let res = Named { items: Vec::new() };
        assert(res@ =~= Map::empty());
        res
    }

    pub fn len(&self) -> (res: usize)
        ensures
            res == self.names().len(),
    {
        self.items.len()
    }

    /// The `i`-th name and its value.
    pub fn entry(&self, i: usize) -> (res: (&String, &V))
        requires
            self.wf(),
            i < self.names().len(),
        ensures
            res.0@ == self.names()[i as int],
            self@.contains_key(res.0@),
            *res.1 == self@[res.0@],
    {
        let (name, value) = &self.items[i];
        proof {
            self.lemma_at(name@, i as int);
        }
        (name, value)
    }

    fn find(&self, name: &str) -> (res: Option<usize>)
        requires
            self.wf(),
        ensures
            match res {
                Some(i) => self.holds(name@, i as int) && self@.contains_key(name@)
                    && self@[name@] == self.items@[i as int].1,
                None => !self@.contains_key(name@) && forall|i: int|
                    !#[trigger] self.holds(name@, i),
            },
    {
        let mut i: usize = 0;
        while i < self.items.len()
            invariant
                self.wf(),
                i <= self.items@.len(),
                forall|j: int| 0 <= j < i ==> !#[trigger] self.holds(name@, j),
            decreases self.items@.len() - i,
        {
            if same_text(self.items[i].0.as_str(), name) {
                proof {
                    assert(self.holds(name@, i as int));
                    self.lemma_at(name@, i as int);
                }
                return Some(i);
            }
            i = i + 1;
        }
        assert forall|j: int| !#[trigger] self.holds(name@, j) by {}
        proof {
            self.lemma_absent(name@);
        }
        None
    }

    pub fn get(&self, name: &str) -> (res: Option<&V>)
        requires
            self.wf(),
        ensures
            match res {
                Some(v) => self@.contains_key(name@) && *v == self@[name@],
                None => !self@.contains_key(name@),
            },
    {
        match self.find(name) {
            Some(i) => Some(&self.items[i].1),
            None => None,
        }
    }

    /// Takes a value out.
    pub fn take(&mut self, name: &str) -> (res: Option<V>)
        requires
            old(self).wf(),
        ensures
            final(self).wf(),
            final(self)@ == old(self)@.remove(name@),
            match res {
                Some(v) => old(self)@.contains_key(name@) && v == old(self)@[name@],
                None => !old(self)@.contains_key(name@),
            },
    {
        match self.find(name) {
            Some(i) => {
                let ghost was = *self;
                let (_, value) = self.items.remove(i);
                proof {
                    assert(self.items@ == was.items@.remove(i as int));
                    assert(self.wf()) by {
                        assert forall|a: int, b: int| 0 <= a < b < self.items@.len() implies
                            #[trigger] self.items@[a].0@ != #[trigger] self.items@[b].0@ by {
                            let oa = if a < i { a } else { a + 1 };
                            let ob = if b < i { b } else { b + 1 };
                            assert(was.items@[oa].0@ != was.items@[ob].0@);
                        }
                    }
                    assert forall|n: Seq<char>| #[trigger] self@.contains_key(n)
                        == was@.remove(name@).contains_key(n) && (self@.contains_key(n) ==> self@[n]
                        == was@.remove(name@)[n]) by {
                        if self@.contains_key(n) {
                            let a = choose|a: int| #[trigger] self.holds(n, a);
                            let oa = if a < i { a } else { a + 1 };
                            assert(was.holds(n, oa));
                            self.lemma_at(n, a);
                            was.lemma_at(n, oa);
                            if n == name@ {
                                assert(oa != i);
                                assert(was.items@[oa].0@ == was.items@[i as int].0@);
                                if oa < i {
                                    assert(was.items@[oa].0@ != was.items@[i as int].0@);
                                } else {
                                    assert(was.items@[i as int].0@ != was.items@[oa].0@);
                                }
                            }
                        }
                        if was@.contains_key(n) && n != name@ {
                            let oa = choose|a: int| #[trigger] was.holds(n, a);
                            let a = if oa < i { oa } else { oa - 1 };
                            assert(self.holds(n, a));
                        }
                    }
                    assert(self@ =~= was@.remove(name@));
                }
                Some(value)
            },
            None => {
                assert(self@.remove(name@) =~= self@);
                None
            },
        }
    }

    /// Adds a value, in place of the one under that name if there is one.
    pub fn put(&mut self, name: String, value: V)
        requires
            old(self).wf(),
        ensures
            final(self).wf(),
            final(self)@ == old(self)@.insert(name@, value),
    {
        let ghost start = self@;
        let _ = self.take(name.as_str());
        let ghost was = *self;
        let ghost key = name@;
        self.items.push((name, value));
        proof {
            let n0 = was.items@.len() as int;
            assert forall|i: int| !#[trigger] was.holds(key, i) by {
                if was.holds(key, i) {
                    was.lemma_at(key, i);
                }
            }
            assert(self.wf()) by {
                assert forall|a: int, b: int| 0 <= a < b < self.items@.len() implies
                    #[trigger] self.items@[a].0@ != #[trigger] self.items@[b].0@ by {
                    if b == n0 {
                        assert(!was.holds(key, a));
                    } else {
                        assert(was.items@[a].0@ != was.items@[b].0@);
                    }
                }
            }
            assert(self.holds(key, n0));
            self.lemma_at(key, n0);
            assert forall|n: Seq<char>| #[trigger] self@.contains_key(n) == start.insert(
                key,
                value,
            ).contains_key(n) && (self@.contains_key(n) ==> self@[n] == start.insert(
                key,
                value,
            )[n]) by {
                if n != key {
                    if self@.contains_key(n) {
                        let a = choose|a: int| #[trigger] self.holds(n, a);
                        assert(was.holds(n, a));
                        self.lemma_at(n, a);
                        was.lemma_at(n, a);
                    }
                    if start.contains_key(n) {
                        assert(was@.contains_key(n));
                        let a = choose|a: int| #[trigger] was.holds(n, a);
                        assert(self.holds(n, a));
                    }
                }
            }
            assert(self@ =~= start.insert(key, value));
        }
    }
}

impl<V: Copy> Named<V> {
    /// The entries in the order of their names.
    pub fn by_name(&self) -> (res: Vec<(String, V)>)
        requires
            self.wf(),
        ensures
            name_sorted(res@),
            forall|n: Seq<char>, v: V| #[trigger]
                lists(res@, n, v) <==> self@.contains_key(n) && self@[n] == v,
    {
        let mut out: Vec<(String, V)> = Vec::new();
        let mut i: usize = 0;
        proof {
            self.lemma_names();
        }
        while i < self.len()
            invariant
                self.wf(),
                self.names().no_duplicates(),
                i <= self.names().len(),
                name_sorted(out@),
                forall|n: Seq<char>, v: V| #[trigger]
                    lists(out@, n, v) <==> self.names().take(i as int).contains(n) && self@[n] == v,
                forall|n: Seq<char>| #[trigger]
                    names(out@, n) <==> self.names().take(i as int).contains(n),
            decreases self.names().len() - i,
        {
            let (name, value) = self.entry(i);
            let ghost was = out@;
            let ghost before = self.names().take(i as int);
            let ghost after = self.names().take(i + 1);
            proof {
                let key = name@;
                assert(after =~= before.push(key));
                assert(!before.contains(key)) by {
                    if before.contains(key) {
                        let j = choose|j: int| 0 <= j < before.len() && before[j] == key;
                        assert(self.names()[j] == self.names()[i as int]);
                    }
                }
                assert forall|n: Seq<char>| #[trigger] after.contains(n) <==> before.contains(n)
                    || n == key by {
                    if before.contains(n) {
                        let j = choose|j: int| 0 <= j < before.len() && before[j] == n;
                        assert(after[j] == n);
                    }
                    if n == key {
                        assert(after[i as int] == n);
                    }
                }
            }
            insert_by_name(&mut out, name.clone(), *value);
            i = i + 1;
        }
        assert(self.names().take(i as int) =~= self.names());
        out
    }
}

} // verus!
