//! Storage backends: the contract they share, and the maps behind them.
use crate::cell::SwapCell;
use crate::kvmap::KvMap;
use vstd::prelude::*;

verus! {

/// The contract of a storage backend that holds its values as plain text: a
/// map from text keys to text values, seen through `@`. `BTreeStore`
/// implements it; `SwapStore`, whose values sit in atomically swappable
/// cells, offers the same operations with the guarantees listed on each.
pub trait Store: View<V = Map<Seq<char>, Seq<char>>> {
    /// The value of `key`, if it is stored.
    fn get(&self, key: &str) -> (r: Option<String>)
        ensures
            match r {
                Some(v) => self@.contains_key(key@) && v@ == self@[key@],
                None => !self@.contains_key(key@),
            },
    ;

    /// Stores `value` under `key` unless `key` is already stored; returns
    /// whether it did.
    fn add(&mut self, key: &str, value: &str) -> (r: bool)
        ensures
            r == !old(self)@.contains_key(key@),
            final(self)@ == if r {
                old(self)@.insert(key@, value@)
            } else {
                old(self)@
            },
    ;

    /// Replaces the value of `key` if it is stored; returns whether it did.
    fn update(&mut self, key: &str, value: &str) -> (r: bool)
        ensures
            r == old(self)@.contains_key(key@),
            final(self)@ == if r {
                old(self)@.insert(key@, value@)
            } else {
                old(self)@
            },
    ;

    /// Removes `key`; returns whether it was stored.
    fn remove(&mut self, key: &str) -> (r: bool)
        ensures
            r == old(self)@.contains_key(key@),
            final(self)@ == old(self)@.remove(key@),
    ;
}

/// What the `Store` contract makes of a read after a write: after an
/// accepted `add` or `update` of `value` under `key`, `get` of `key` returns
/// `value`, and after `remove` of `key` it returns nothing; other keys keep
/// their values.
pub proof fn lemma_store_read_after_write(
    m: Map<Seq<char>, Seq<char>>,
    key: Seq<char>,
    value: Seq<char>,
    other: Seq<char>,
)
    requires
        other != key,
    ensures
        m.insert(key, value).contains_key(key),
        m.insert(key, value)[key] == value,
        !m.remove(key).contains_key(key),
        m.insert(key, value).contains_key(other) == m.contains_key(other),
        m.remove(key).contains_key(other) == m.contains_key(other),
        m.contains_key(other) ==> m.insert(key, value)[other] == m[other] && m.remove(key)[other]
            == m[other],
{
}

/// The map that adding `keys` in order, each with `value`, makes of `m`,
/// when each add is accepted.
pub open spec fn add_all(m: Map<Seq<char>, Seq<char>>, keys: Seq<Seq<char>>, value: Seq<char>) -> Map<Seq<char>, Seq<char>>
    decreases keys.len(),
{
    if keys.len() == 0 {
        m
    } else {
        add_all(m, keys.drop_last(), value).insert(keys.last(), value)
    }
}

/// Filling a new store: under the `Store` contract, adding pairwise distinct
/// keys one after another, starting from the empty map, is accepted every
/// time (no key is there yet when it is added), and afterwards each key reads
/// back `value` and no other key is stored.
pub proof fn lemma_fill_new_store(keys: Seq<Seq<char>>, value: Seq<char>)
    requires
        forall|i: int, j: int| 0 <= i < j < keys.len() ==> keys[i] != keys[j],
    ensures
        forall|i: int|
            0 <= i < keys.len() ==> !#[trigger] add_all(
                Map::empty(),
                keys.take(i),
                value,
            ).contains_key(keys[i]),
        forall|i: int|
            0 <= i < keys.len() ==> add_all(Map::empty(), keys, value).contains_key(
                #[trigger] keys[i],
            ) && add_all(Map::empty(), keys, value)[keys[i]] == value,
        forall|k: Seq<char>|
            #[trigger] add_all(Map::empty(), keys, value).contains_key(k) ==> keys.contains(k),
    decreases keys.len(),
{
    if keys.len() > 0 {
        let init = keys.drop_last();
        lemma_fill_new_store(init, value);
        assert forall|i: int| 0 <= i < keys.len() implies !#[trigger] add_all(
            Map::empty(),
            keys.take(i),
            value,
        ).contains_key(keys[i]) by {
            if i < keys.len() - 1 {
                assert(keys.take(i) =~= init.take(i));
                assert(init[i] == keys[i]);
            } else {
                assert(keys.take(i) =~= init);
                if add_all(Map::empty(), init, value).contains_key(keys[i]) {
                    let j = choose|j: int| 0 <= j < init.len() && init[j] == keys[i];
                    assert(keys[j] == keys[i]);
                }
            }
        }
        assert forall|i: int| 0 <= i < keys.len() implies add_all(
            Map::empty(),
            keys,
            value,
        ).contains_key(#[trigger] keys[i]) && add_all(Map::empty(), keys, value)[keys[i]]
            == value by {
            if i < keys.len() - 1 {
                assert(init[i] == keys[i]);
            }
        }
        assert forall|k: Seq<char>| #[trigger] add_all(Map::empty(), keys, value).contains_key(
            k,
        ) implies keys.contains(k) by {
            if k == keys.last() {
                assert(keys[keys.len() - 1] == k);
            } else {
                assert(add_all(Map::empty(), init, value).contains_key(k));
                let j = choose|j: int| 0 <= j < init.len() && init[j] == k;
                assert(keys[j] == k);
            }
        }
    }
}

/// The values of a map of strings, as text.
pub open spec fn text_values(m: Map<Seq<char>, String>) -> Map<Seq<char>, Seq<char>> {
    m.map_values(|v: String| v@)
}

/// An ordered map of strings: the storage behind the lock of the locked
/// backend.
pub struct BTreeStore {
    map: KvMap<String>,
}

impl View for BTreeStore {
    type V = Map<Seq<char>, Seq<char>>;

    closed spec fn view(&self) -> Map<Seq<char>, Seq<char>> {
        text_values(self.map@)
    }
}

impl BTreeStore {
    /// An empty store.
    pub fn new() -> (r: Self)
        ensures
            r@ == Map::<Seq<char>, Seq<char>>::empty(),
    {
        let r = BTreeStore { map: KvMap::new() };
        proof {
            assert(r@ =~= Map::<Seq<char>, Seq<char>>::empty());
        }
        r
    }
}

impl Store for BTreeStore {
    fn get(&self, key: &str) -> (r: Option<String>) {
        match self.map.get(key) {
            Some(v) => Some(v.clone()),
            None => None,
        }
    }

    fn add(&mut self, key: &str, value: &str) -> (r: bool) {
        if self.map.contains_key(key) {
            return false;
        }
        self.map.insert(key.to_owned(), value.to_owned());
        proof {
            assert(self@ =~= old(self)@.insert(key@, value@));
        }
        true
    }

    fn update(&mut self, key: &str, value: &str) -> (r: bool) {
        if !self.map.contains_key(key) {
            return false;
        }
        self.map.insert(key.to_owned(), value.to_owned());
        proof {
            assert(self@ =~= old(self)@.insert(key@, value@));
        }
        true
    }

    fn remove(&mut self, key: &str) -> (r: bool) {
        let r = self.map.remove(key).is_some();
        proof {
            assert(self@ =~= old(self)@.remove(key@));
        }
        r
    }
}

} // verus!

verus! {

/// An ordered map of swappable cells: the storage of the arc-swap backend,
/// whose updates replace a cell's contents without taking the map mutably.
/// Its view is the set of stored keys; `created` gives, for each key, the
/// text the key's cell was made holding by `add`.
pub struct SwapStore {
    map: KvMap<SwapCell>,
}

impl SwapStore {
    /// For each stored key, the text its cell's slot was made holding when
    /// `add` created it. Later updates replace the slot's contents, not this
    /// record.
    pub closed spec fn created(&self) -> Map<Seq<char>, Seq<char>> {
        self.map@.map_values(|c: SwapCell| c.created())
    }
}

impl View for SwapStore {
    type V = Set<Seq<char>>;

    closed spec fn view(&self) -> Set<Seq<char>> {
        self.map@.dom()
    }
}

impl SwapStore {
    /// An empty store.
    pub fn new() -> (r: Self)
        ensures
            r@ == Set::<Seq<char>>::empty(),
            r.created() == Map::<Seq<char>, Seq<char>>::empty(),
    {
        let r = SwapStore { map: KvMap::new() };
        proof {
            assert(r@ =~= Set::<Seq<char>>::empty());
            assert(r.created() =~= Map::<Seq<char>, Seq<char>>::empty());
        }
        r
    }

    /// The current contents of `key`'s cell, if `key` is stored.
    pub fn get(&self, key: &str) -> (r: Option<String>)
        ensures
            r is Some <==> self@.contains(key@),
    {
        match self.map.get(key) {
            Some(cell) => Some(cell.load_string()),
            None => None,
        }
    }

    /// Stores a new cell holding `value` under `key` unless `key` is already
    /// stored; returns whether it did.
    pub fn add(&mut self, key: &str, value: &str) -> (r: bool)
        ensures
            r == !old(self)@.contains(key@),
            final(self)@ == if r {
                old(self)@.insert(key@)
            } else {
                old(self)@
            },
            final(self).created() == if r {
                old(self).created().insert(key@, value@)
            } else {
                old(self).created()
            },
    {
        if self.map.contains_key(key) {
            return false;
        }
        self.map.insert(key.to_owned(), SwapCell::from_pointee(value.to_owned()));
        proof {
            assert(self@ =~= old(self)@.insert(key@));
            assert(self.created() =~= old(self).created().insert(key@, value@));
        }
        true
    }

    /// Replaces the contents of `key`'s cell, if `key` is stored, through a
    /// shared reference; returns whether it did.
    pub fn update(&self, key: &str, value: &str) -> (r: bool)
        ensures
            r == self@.contains(key@),
    {
        match self.map.get(key) {
            Some(cell) => {
                cell.store_string(value.to_owned());
                true
            },
            None => false,
        }
    }

    /// Removes `key`; returns whether it was stored.
    pub fn remove(&mut self, key: &str) -> (r: bool)
        ensures
            r == old(self)@.contains(key@),
            final(self)@ == old(self)@.remove(key@),
            final(self).created() == old(self).created().remove(key@),
    {
        let r = self.map.remove(key).is_some();
        proof {
            assert(self@ =~= old(self)@.remove(key@));
            assert(self.created() =~= old(self).created().remove(key@));
        }
        r
    }
}

} // verus!
