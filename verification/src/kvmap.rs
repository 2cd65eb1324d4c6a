//! An ordered map from text keys to values: a vector of entries kept sorted
//! by the keys' UTF-8 bytes, searched by bisection.
use crate::order::{
    compare_bytes, lemma_lex_lt_irreflexive, lemma_lex_lt_transitive, lemma_utf8_injective, lex_lt,
    Cmp,
};
use vstd::prelude::*;
use vstd::string::StringSliceAdditionalSpecFns;
use vstd::utf8::encode_utf8;

verus! {

/// The bytes by which a key is ordered.
pub open spec fn key_bytes(k: Seq<char>) -> Seq<u8> {
    encode_utf8(k)
}

/// Keys with the same bytes are the same key.
proof fn lemma_key_bytes_injective(a: Seq<char>, b: Seq<char>)
    requires
        key_bytes(a) == key_bytes(b),
    ensures
        a == b,
{
    lemma_utf8_injective(a, b);
}

/// `entries` are sorted strictly by key bytes, and they are exactly the
/// pairs of `contents`.
pub open spec fn entries_hold<V>(entries: Seq<(String, V)>, contents: Map<Seq<char>, V>) -> bool {
    &&& forall|i: int, j: int|
        0 <= i < j < entries.len() ==> lex_lt(
            key_bytes(#[trigger] entries[i].0@),
            key_bytes(#[trigger] entries[j].0@),
        )
    &&& forall|i: int|
        0 <= i < entries.len() ==> {
            &&& contents.contains_key(#[trigger] entries[i].0@)
            &&& contents[entries[i].0@] == entries[i].1
        }
    &&& forall|k: Seq<char>|
        #[trigger] contents.contains_key(k) ==> exists|i: int|
            0 <= i < entries.len() && #[trigger] entries[i].0@ == k
}

/// An ordered map from text keys to values.
pub struct KvMap<V> {
    entries: Vec<(String, V)>,
    contents: Ghost<Map<Seq<char>, V>>,
}

impl<V> View for KvMap<V> {
    type V = Map<Seq<char>, V>;

    closed spec fn view(&self) -> Map<Seq<char>, V> {
        self.contents@
    }
}

impl<V> KvMap<V> {
    /// The entries are sorted strictly by key bytes, and they are exactly the
    /// map's contents.
    #[verifier::type_invariant]
    closed spec fn inv(&self) -> bool {
        entries_hold(self.entries@, self.contents@)
    }

    /// An empty map.
    pub fn new() -> (r: Self)
        ensures
            r@ == Map::<Seq<char>, V>::empty(),
    {
        KvMap { entries: Vec::new(), contents: Ghost(Map::empty()) }
    }

    /// Where `key` is, or where it would go.
    fn find(&self, key: &str) -> (r: (bool, usize))
        ensures
            r.1 <= self.entries@.len(),
            r.0 ==> r.1 < self.entries@.len() && self.entries@[r.1 as int].0@ == key@,
            !r.0 ==> forall|i: int|
                0 <= i < self.entries@.len() ==> (i < r.1 ==> lex_lt(
                    key_bytes(#[trigger] self.entries@[i].0@),
                    key_bytes(key@),
                )) && (r.1 <= i ==> lex_lt(key_bytes(key@), key_bytes(self.entries@[i].0@))),
    {
        proof {
            use_type_invariant(self);
        }
        let kb = key.as_bytes();
        let ghost kbs = key_bytes(key@);
        let mut lo: usize = 0;
        let mut hi: usize = self.entries.len();
        while lo < hi
            invariant
                kb@ == kbs,
                kbs == key_bytes(key@),
                lo <= hi <= self.entries@.len(),
                forall|i: int, j: int|
                    0 <= i < j < self.entries@.len() ==> lex_lt(
                        key_bytes(#[trigger] self.entries@[i].0@),
                        key_bytes(#[trigger] self.entries@[j].0@),
                    ),
                forall|i: int|
                    0 <= i < lo ==> lex_lt(key_bytes(#[trigger] self.entries@[i].0@), kbs),
                forall|i: int|
                    hi <= i < self.entries@.len() ==> lex_lt(
                        kbs,
                        key_bytes(#[trigger] self.entries@[i].0@),
                    ),
            decreases hi - lo,
        {
            let mid = lo + (hi - lo) / 2;
            let ghost mk = key_bytes(self.entries@[mid as int].0@);
            let c = compare_bytes(self.entries[mid].0.as_str().as_bytes(), kb);
            match c {
                Cmp::Less => {
                    proof {
                        assert forall|i: int| 0 <= i < mid + 1 implies lex_lt(
                            key_bytes(#[trigger] self.entries@[i].0@),
                            kbs,
                        ) by {
                            if i < mid {
                                lemma_lex_lt_transitive(
                                    key_bytes(self.entries@[i].0@),
                                    mk,
                                    kbs,
                                );
                            }
                        }
                    }
                    lo = mid + 1;
                },
                Cmp::Greater => {
                    proof {
                        assert forall|i: int| mid <= i < self.entries@.len() implies lex_lt(
                            kbs,
                            key_bytes(#[trigger] self.entries@[i].0@),
                        ) by {
                            if i > mid {
                                lemma_lex_lt_transitive(
                                    kbs,
                                    mk,
                                    key_bytes(self.entries@[i].0@),
                                );
                            }
                        }
                    }
                    hi = mid;
                },
                Cmp::Equal => {
                    proof {
                        lemma_key_bytes_injective(self.entries@[mid as int].0@, key@);
                    }
                    return (true, mid);
                },
            }
        }
        (false, lo)
    }

    /// Whether a key is absent when the search did not find it.
    proof fn lemma_not_found(&self, key: Seq<char>, idx: int)
        requires
            self.inv(),
            0 <= idx <= self.entries@.len(),
            forall|i: int|
                0 <= i < self.entries@.len() ==> (i < idx ==> lex_lt(
                    key_bytes(#[trigger] self.entries@[i].0@),
                    key_bytes(key),
                )) && (idx <= i ==> lex_lt(key_bytes(key), key_bytes(self.entries@[i].0@))),
        ensures
            !self@.contains_key(key),
    {
        if self@.contains_key(key) {
            let i = choose|i: int| 0 <= i < self.entries@.len() && #[trigger] self.entries@[i].0@ == key;
            lemma_lex_lt_irreflexive(key_bytes(key));
        }
    }

    /// Whether `key` is in the map.
    pub fn contains_key(&self, key: &str) -> (r: bool)
        ensures
            r == self@.contains_key(key@),
    {
        proof {
            use_type_invariant(self);
        }
        let (found, idx) = self.find(key);
        proof {
            if !found {
                self.lemma_not_found(key@, idx as int);
            }
        }
        found
    }

    /// The value of `key`, if it is in the map.
    pub fn get(&self, key: &str) -> (r: Option<&V>)
        ensures
            match r {
                Some(v) => self@.contains_key(key@) && *v == self@[key@],
                None => !self@.contains_key(key@),
            },
    {
        proof {
            use_type_invariant(self);
        }
        let (found, idx) = self.find(key);
        if found {
            Some(&self.entries[idx].1)
        } else {
            proof {
                self.lemma_not_found(key@, idx as int);
            }
            None
        }
    }

    /// Sets the value of `key`, returning the value it replaced, if any.
    pub fn insert(&mut self, key: String, value: V) -> (r: Option<V>)
        ensures
            final(self)@ == old(self)@.insert(key@, value),
            match r {
                Some(v) => old(self)@.contains_key(key@) && v == old(self)@[key@],
                None => !old(self)@.contains_key(key@),
            },
    {
        proof {
            use_type_invariant(&*self);
        }
        let (found, idx) = self.find(key.as_str());
        proof {
            if !found {
                self.lemma_not_found(key@, idx as int);
            }
        }
        let ghost old_self = *self;
        let mut whole = KvMap::new();
        std::mem::swap(self, &mut whole);
        let KvMap { mut entries, contents } = whole;
        let ghost old_entries = entries@;
        let ghost k = key@;
        let ghost new_contents = contents@.insert(k, value);
        if found {
            let mut pair = (key, value);
            std::mem::swap(&mut entries[idx], &mut pair);
            let (_, previous) = pair;
            proof {
                assert(entries@ == old_entries.update(idx as int, (entries@[idx as int].0, value)));
                assert forall|i: int, j: int|
                    0 <= i < j < entries@.len() implies lex_lt(
                    key_bytes(#[trigger] entries@[i].0@),
                    key_bytes(#[trigger] entries@[j].0@),
                ) by {
                    assert(old_entries[i].0@ == entries@[i].0@ || i == idx);
                    assert(old_entries[j].0@ == entries@[j].0@ || j == idx);
                    assert(lex_lt(key_bytes(old_entries[i].0@), key_bytes(old_entries[j].0@)));
                }
                assert forall|i: int| 0 <= i < entries@.len() implies {
                    &&& new_contents.contains_key(#[trigger] entries@[i].0@)
                    &&& new_contents[entries@[i].0@] == entries@[i].1
                } by {
                    if i != idx && entries@[i].0@ == k {
                        if i < idx {
                            assert(lex_lt(key_bytes(old_entries[i].0@), key_bytes(old_entries[idx as int].0@)));
                        } else {
                            assert(lex_lt(key_bytes(old_entries[idx as int].0@), key_bytes(old_entries[i].0@)));
                        }
                        lemma_lex_lt_irreflexive(key_bytes(k));
                    }
                }
                assert forall|kk: Seq<char>| #[trigger] new_contents.contains_key(kk) implies exists|i: int|
                    0 <= i < entries@.len() && #[trigger] entries@[i].0@ == kk by {
                    if kk == k {
                        assert(entries@[idx as int].0@ == kk);
                    } else {
                        let i = choose|i: int| 0 <= i < old_entries.len() && #[trigger] old_entries[i].0@ == kk;
                        assert(entries@[i].0@ == kk);
                    }
                }
            }
            proof {
                assert(entries_hold(entries@, new_contents));
            }
            *self = KvMap { entries, contents: Ghost(new_contents) };
            Some(previous)
        } else {
            entries.insert(idx, (key, value));
            proof {
                assert(!contents@.contains_key(k));
                assert forall|i: int, j: int|
                    0 <= i < j < entries@.len() implies lex_lt(
                    key_bytes(#[trigger] entries@[i].0@),
                    key_bytes(#[trigger] entries@[j].0@),
                ) by {
                    if j < idx {
                        assert(lex_lt(key_bytes(old_entries[i].0@), key_bytes(old_entries[j].0@)));
                    } else if j == idx {
                        assert(entries@[i].0@ == old_entries[i].0@);
                    } else if i < idx {
                        assert(entries@[j].0@ == old_entries[j - 1].0@);
                        assert(lex_lt(key_bytes(old_entries[i].0@), key_bytes(k)));
                        assert(lex_lt(key_bytes(k), key_bytes(old_entries[j - 1].0@)));
                        lemma_lex_lt_transitive(key_bytes(old_entries[i].0@), key_bytes(k), key_bytes(old_entries[j - 1].0@));
                    } else if i == idx {
                        assert(entries@[j].0@ == old_entries[j - 1].0@);
                    } else {
                        assert(lex_lt(key_bytes(old_entries[i - 1].0@), key_bytes(old_entries[j - 1].0@)));
                    }
                }
                assert forall|i: int| 0 <= i < entries@.len() implies {
                    &&& new_contents.contains_key(#[trigger] entries@[i].0@)
                    &&& new_contents[entries@[i].0@] == entries@[i].1
                } by {
                    if i < idx {
                        assert(entries@[i] == old_entries[i]);
                        assert(contents@.contains_key(old_entries[i].0@));
                    } else if i > idx {
                        assert(entries@[i] == old_entries[i - 1]);
                        assert(contents@.contains_key(old_entries[i - 1].0@));
                    }
                }
                assert forall|kk: Seq<char>| #[trigger] new_contents.contains_key(kk) implies exists|i: int|
                    0 <= i < entries@.len() && #[trigger] entries@[i].0@ == kk by {
                    if kk == k {
                        assert(entries@[idx as int].0@ == kk);
                    } else {
                        let i = choose|i: int| 0 <= i < old_entries.len() && #[trigger] old_entries[i].0@ == kk;
                        if i < idx {
                            assert(entries@[i].0@ == kk);
                        } else {
                            assert(entries@[i + 1].0@ == kk);
                        }
                    }
                }
            }
            proof {
                assert(entries_hold(entries@, new_contents));
            }
            *self = KvMap { entries, contents: Ghost(new_contents) };
            None
        }
    }

    /// Removes `key`, returning its value, if it was in the map.
    pub fn remove(&mut self, key: &str) -> (r: Option<V>)
        ensures
            final(self)@ == old(self)@.remove(key@),
            match r {
                Some(v) => old(self)@.contains_key(key@) && v == old(self)@[key@],
                None => !old(self)@.contains_key(key@),
            },
    {
        proof {
            use_type_invariant(&*self);
        }
        let (found, idx) = self.find(key);
        if !found {
            proof {
                self.lemma_not_found(key@, idx as int);
                assert(self@.remove(key@) =~= self@);
            }
            return None;
        }
        let mut whole = KvMap::new();
        std::mem::swap(self, &mut whole);
        let KvMap { mut entries, contents } = whole;
        let ghost old_entries = entries@;
        let ghost k = key@;
        let ghost new_contents = contents@.remove(k);
        let (_, value) = entries.remove(idx);
        proof {
            assert forall|i: int| 0 <= i < old_entries.len() && i != idx implies #[trigger] old_entries[i].0@ != k by {
                if old_entries[i].0@ == k {
                    if i < idx {
                        assert(lex_lt(key_bytes(old_entries[i].0@), key_bytes(old_entries[idx as int].0@)));
                    } else {
                        assert(lex_lt(key_bytes(old_entries[idx as int].0@), key_bytes(old_entries[i].0@)));
                    }
                    lemma_lex_lt_irreflexive(key_bytes(k));
                }
            }
            assert forall|i: int, j: int|
                0 <= i < j < entries@.len() implies lex_lt(
                key_bytes(#[trigger] entries@[i].0@),
                key_bytes(#[trigger] entries@[j].0@),
            ) by {
                let oi = if i < idx { i } else { i + 1 };
                let oj = if j < idx { j } else { j + 1 };
                assert(entries@[i] == old_entries[oi]);
                assert(entries@[j] == old_entries[oj]);
                assert(lex_lt(key_bytes(old_entries[oi].0@), key_bytes(old_entries[oj].0@)));
            }
            assert forall|i: int| 0 <= i < entries@.len() implies {
                &&& new_contents.contains_key(#[trigger] entries@[i].0@)
                &&& new_contents[entries@[i].0@] == entries@[i].1
            } by {
                let oi = if i < idx { i } else { i + 1 };
                assert(entries@[i] == old_entries[oi]);
                assert(contents@.contains_key(old_entries[oi].0@));
                assert(old_entries[oi].0@ != k);
            }
            assert forall|kk: Seq<char>| #[trigger] new_contents.contains_key(kk) implies exists|i: int|
                0 <= i < entries@.len() && #[trigger] entries@[i].0@ == kk by {
                let i = choose|i: int| 0 <= i < old_entries.len() && #[trigger] old_entries[i].0@ == kk;
                assert(i != idx);
                if i < idx {
                    assert(entries@[i].0@ == kk);
                } else {
                    assert(entries@[i - 1].0@ == kk);
                }
            }
            assert(entries_hold(entries@, new_contents));
        }
        *self = KvMap { entries, contents: Ghost(new_contents) };
        Some(value)
    }
}

} // verus!
