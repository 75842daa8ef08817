//! Which games of a platform were already fetched.

use roaring::RoaringTreemap;
use vstd::prelude::*;

verus! {

/// The bitmap of `roaring` that holds 64-bit integers.
#[verifier::external_type_specification]
#[verifier::external_body]
pub struct ExRoaringTreemap(RoaringTreemap);

/// The integers in a bitmap: those that a walk over it gives.
pub uninterp spec fn treemap_set(map: RoaringTreemap) -> Set<u64>;

/// The bitmap's containers are sorted and of the right kind, as they are in
/// every bitmap that was filled value by value. Reading bytes does not check
/// this, so a bitmap read from damaged bytes may miss it.
pub uninterp spec fn treemap_sound(map: RoaringTreemap) -> bool;

/// The bytes that a bitmap with these integers is written as.
pub uninterp spec fn treemap_bytes(set: Set<u64>) -> Seq<u8>;

/// `RoaringTreemap::new`: an empty bitmap.
#[verifier::external_body]
fn treemap_new() -> (res: RoaringTreemap)
    ensures
        treemap_sound(res),
        treemap_set(res) == Set::<u64>::empty(),
{
    RoaringTreemap::new()
}

/// `RoaringTreemap::contains`: whether an integer is in the bitmap.
#[verifier::external_body]
fn treemap_contains(map: &RoaringTreemap, value: u64) -> (res: bool)
    requires
        treemap_sound(*map),
    ensures
        res == treemap_set(*map).contains(value),
{
    map.contains(value)
}

/// `RoaringTreemap::insert`: adds an integer.
#[verifier::external_body]
fn treemap_insert(map: &mut RoaringTreemap, value: u64)
    requires
        treemap_sound(*old(map)),
    ensures
        treemap_sound(*final(map)),
        treemap_set(*final(map)) == treemap_set(*old(map)).insert(value),
{
    map.insert(value);
}

/// `RoaringTreemap::len`: how many integers are in the bitmap. Nothing is said
/// of the one with every 64-bit integer.
#[verifier::external_body]
fn treemap_len(map: &RoaringTreemap) -> (res: u64)
    requires
        treemap_sound(*map),
    ensures
        treemap_set(*map).len() <= u64::MAX ==> res == treemap_set(*map).len(),
{
    map.len()
}

/// `RoaringTreemap::serialize_into`, into a vector: the bytes of the bitmap.
/// Writing to a vector does not fail. A bitmap that is not sound is kept out,
/// as an empty container cannot be written.
#[verifier::external_body]
fn treemap_write(map: &RoaringTreemap) -> (res: Vec<u8>)
    requires
        treemap_sound(*map),
    ensures
        res@ == treemap_bytes(treemap_set(*map)),
{
    let mut out = Vec::with_capacity(map.serialized_size());
    map.serialize_into(&mut out).expect("writing to a vector does not fail");
    out
}

/// The integers that are found in bytes, if they can be read as a bitmap.
pub uninterp spec fn treemap_found(bytes: Seq<u8>) -> Option<Set<u64>>;

/// `RoaringTreemap::deserialize_from`, from a slice: a bitmap with the integers
/// that are found in the bytes. In those that a bitmap is written as, these are
/// its integers. Of other bytes some are refused, and some give a bitmap that is
/// not sound.
#[verifier::external_body]
fn treemap_read(bytes: &[u8]) -> (res: Option<RoaringTreemap>)
    ensures
        match res {
            Some(map) => treemap_found(bytes@) == Some(treemap_set(map)),
            None => treemap_found(bytes@) is None,
        },
        forall|set: Set<u64>|
            bytes@ == #[trigger] treemap_bytes(set) ==> res is Some && treemap_set(res->0) == set,
{
    RoaringTreemap::deserialize_from(bytes).ok()
}

/// `RoaringTreemap::into_iter`: the integers in a bitmap, sound or not.
#[verifier::external_body]
fn treemap_values(map: RoaringTreemap) -> (res: Vec<u64>)
    ensures
        res@.to_set() == treemap_set(map),
{
    map.into_iter().collect()
}

/// The games of a platform that were already fetched.
pub struct SeenGames {
    map: RoaringTreemap,
}

impl View for SeenGames {
    type V = Set<u64>;

    closed spec fn view(&self) -> Set<u64> {
        treemap_set(self.map)
    }
}

impl SeenGames {
    #[verifier::type_invariant]
    spec fn sound(self) -> bool {
        treemap_sound(self.map)
    }

    pub fn new() -> (res: Self)
        ensures
            res@ == Set::<u64>::empty(),
    {
        SeenGames { map: treemap_new() }
    }

    /// The games that are found in bytes, if they can be read; in those written
    /// by `to_bytes`, the games that were written. The bitmap is filled anew,
    /// value by value, so that it is sound whatever the bytes are.
    pub fn from_bytes(bytes: &[u8]) -> (res: Option<Self>)
        ensures
            match res {
                Some(seen) => treemap_found(bytes@) == Some(seen@),
                None => treemap_found(bytes@) is None,
            },
            forall|games: Set<u64>|
                bytes@ == #[trigger] treemap_bytes(games) ==> treemap_found(bytes@) == Some(games),
    {
        let values = match treemap_read(bytes) {
            Some(map) => treemap_values(map),
            None => {
                return None;
            },
        };
        let mut map = treemap_new();
        let mut i: usize = 0;
        assert(values@.take(0).to_set() =~= Set::empty());
        while i < values.len()
            invariant
                i <= values@.len(),
                treemap_sound(map),
                treemap_set(map) == values@.take(i as int).to_set(),
            decreases values@.len() - i,
        {
            treemap_insert(&mut map, values[i]);
            proof {
                lemma_take_set(values@, i as int);
            }
            i = i + 1;
        }
        assert(values@.take(i as int) =~= values@);
        Some(SeenGames { map })
    }

    pub fn to_bytes(&self) -> (res: Vec<u8>)
        ensures
            res@ == treemap_bytes(self@),
    {
        proof {
            use_type_invariant(self);
        }
        treemap_write(&self.map)
    }

    pub fn contains(&self, game: u64) -> (res: bool)
        ensures
            res == self@.contains(game),
    {
        proof {
            use_type_invariant(self);
        }
        treemap_contains(&self.map, game)
    }

    pub fn insert(&mut self, game: u64)
        ensures
            final(self)@ == old(self)@.insert(game),
    {
        proof {
            use_type_invariant(&*self);
        }
        let mut map = treemap_new();
        std::mem::swap(&mut map, &mut self.map);
        treemap_insert(&mut map, game);
        self.map = map;
    }

    pub fn len(&self) -> (res: u64)
        ensures
            self@.len() <= u64::MAX ==> res == self@.len(),
    {
        proof {
            use_type_invariant(self);
        }
        treemap_len(&self.map)
    }
}

proof fn lemma_take_set(s: Seq<u64>, k: int)
    requires
        0 <= k < s.len(),
    ensures
        s.take(k + 1).to_set() == s.take(k).to_set().insert(s[k]),
{
    let t = s.take(k + 1);
    let a = s.take(k).to_set().insert(s[k]);
    let b = t.to_set();
    assert forall|x: u64| a.contains(x) <==> #[trigger] b.contains(x) by {
        if s.take(k).contains(x) {
            let i = choose|i: int| 0 <= i < k && s.take(k)[i] == x;
            assert(t[i] == x);
        }
        if x == s[k] {
            assert(t[k] == x);
        }
        if t.contains(x) {
            let i = choose|i: int| 0 <= i < t.len() && t[i] == x;
            if i < k {
                assert(s.take(k)[i] == x);
            }
        }
    }
    assert(a =~= b);
}

} // verus!
