//! The index: an ordered mapping from each live key to the offset of its
//! latest `Set` record.
//!
//! The entries are kept in a vector, in ascending order of their keys, so
//! that a key is found by bisection and the keys are walked in order.

use vstd::prelude::*;
use vstd::utf8::*;
use crate::order::{compare_bytes, lemma_lex_irreflexive, lemma_lex_transitive, lex_less, Order};

verus! {

/// One key with the offset of its record.
#[derive(Debug)]
pub struct Entry {
    pub key: String,
    pub offset: u64,
}

/// `a` comes before `b` in the order of keys.
pub open spec fn key_less(a: Seq<char>, b: Seq<char>) -> bool {
    lex_less(encode_utf8(a), encode_utf8(b))
}

/// The keys of `entries` ascend strictly.
pub open spec fn ascending(entries: Seq<Entry>) -> bool {
    forall|i: int, j: int|
        0 <= i < j < entries.len() ==> key_less(
            (#[trigger] entries[i]).key@,
            (#[trigger] entries[j]).key@,
        )
}

/// Some entry of `entries` has the key `key`.
pub open spec fn has_key(entries: Seq<Entry>, key: Seq<char>) -> bool {
    exists|i: int| 0 <= i < entries.len() && (#[trigger] entries[i]).key@ == key
}

/// The position of an entry with the key `key`.
pub open spec fn position_of(entries: Seq<Entry>, key: Seq<char>) -> int {
    choose|i: int| 0 <= i < entries.len() && (#[trigger] entries[i]).key@ == key
}

/// The mapping that `entries` stand for.
pub open spec fn entry_map(entries: Seq<Entry>) -> Map<Seq<char>, u64> {
    Map::new(
        |key: Seq<char>| has_key(entries, key),
        |key: Seq<char>| entries[position_of(entries, key)].offset,
    )
}

/// The keys of `entries`, in their order.
pub open spec fn entry_keys(entries: Seq<Entry>) -> Seq<Seq<char>> {
    Seq::new(entries.len(), |i: int| entries[i].key@)
}

/// Two keys of which one comes before the other differ.
pub proof fn lemma_key_less_differ(a: Seq<char>, b: Seq<char>)
    requires
        key_less(a, b),
    ensures
        a != b,
{
    lemma_lex_irreflexive(encode_utf8(a), 0);
}

/// Keys with the same bytes are the same key.
pub proof fn lemma_same_bytes_same_key(a: Seq<char>, b: Seq<char>)
    requires
        encode_utf8(a) == encode_utf8(b),
    ensures
        a == b,
{
    encode_utf8_decode_utf8(a);
    encode_utf8_decode_utf8(b);
}

/// In ascending entries no key stands twice, so each key maps to the offset
/// of the one entry that has it.
pub proof fn lemma_entry_map_at(entries: Seq<Entry>, i: int)
    requires
        ascending(entries),
        0 <= i < entries.len(),
    ensures
        entry_map(entries).contains_key(entries[i].key@),
        entry_map(entries)[entries[i].key@] == entries[i].offset,
        position_of(entries, entries[i].key@) == i,
{
    let j = position_of(entries, entries[i].key@);
    if j < i {
        lemma_key_less_differ(entries[j].key@, entries[i].key@);
    } else if i < j {
        lemma_key_less_differ(entries[i].key@, entries[j].key@);
    }
}

/// An ordered mapping from keys to log offsets.
#[derive(Debug)]
pub struct Index {
    entries: Vec<Entry>,
}

impl View for Index {
    type V = Map<Seq<char>, u64>;

    closed spec fn view(&self) -> Map<Seq<char>, u64> {
        entry_map(self.entries@)
    }
}

impl Index {
    /// The keys ascend strictly.
    pub closed spec fn wf(&self) -> bool {
        ascending(self.entries@)
    }

    /// The keys in ascending order.
    pub closed spec fn keys(&self) -> Seq<Seq<char>> {
        entry_keys(self.entries@)
    }

    /// The keys ascend, none stands twice, and they are the keys of the
    /// mapping: the mapping has as many keys as the index has entries.
    pub proof fn lemma_keys(&self)
        requires
            self.wf(),
        ensures
            forall|i: int, j: int|
                0 <= i < j < self.keys().len() ==> key_less(
                    #[trigger] self.keys()[i],
                    #[trigger] self.keys()[j],
                ),
            self.keys().no_duplicates(),
            self@.dom() == self.keys().to_set(),
            self@.dom().finite(),
            self@.dom().len() == self.keys().len(),
    {
        let entries = self.entries@;
        let keys = self.keys();
        assert forall|i: int, j: int| 0 <= i < j < keys.len() implies key_less(
            #[trigger] keys[i],
            #[trigger] keys[j],
        ) by {
            assert(key_less(entries[i].key@, entries[j].key@));
        }
        assert forall|i: int, j: int| 0 <= i < keys.len() && 0 <= j < keys.len() && i != j implies keys[i]
            != keys[j] by {
            if i < j {
                lemma_key_less_differ(keys[i], keys[j]);
            } else {
                lemma_key_less_differ(keys[j], keys[i]);
            }
        }
        assert forall|key: Seq<char>| self@.dom().contains(key) <==> keys.to_set().contains(
            key,
        ) by {
            if has_key(entries, key) {
                let i = position_of(entries, key);
                assert(keys[i] == key);
            }
            if keys.contains(key) {
                let i = choose|i: int| 0 <= i < keys.len() && keys[i] == key;
                assert(entries[i].key@ == key);
            }
        }
        assert(self@.dom() =~= keys.to_set());
        keys.unique_seq_to_set();
        vstd::seq_lib::seq_to_set_is_finite(keys);
    }

    /// An index without entries.
    pub fn new() -> (r: Index)
        ensures
            r.wf(),
            r@ == Map::<Seq<char>, u64>::empty(),
            r.keys().len() == 0,
    {
        let r = Index { entries: Vec::new() };
        assert(r@ =~= Map::<Seq<char>, u64>::empty());
        r
    }

    /// The number of keys.
    pub fn len(&self) -> (n: usize)
        requires
            self.wf(),
        ensures
            n == self.keys().len(),
            n == self@.dom().len(),
    {
        proof {
            self.lemma_keys();
        }
        self.entries.len()
    }

    /// The key at position `i` of the ascending order.
    pub fn key_at(&self, i: usize) -> (key: &String)
        requires
            self.wf(),
            i < self.keys().len(),
        ensures
            key@ == self.keys()[i as int],
    {
        &self.entries[i].key
    }

    /// The offset of the key at position `i` of the ascending order.
    pub fn offset_at(&self, i: usize) -> (offset: u64)
        requires
            self.wf(),
            i < self.keys().len(),
        ensures
            self@.contains_key(self.keys()[i as int]),
            offset == self@[self.keys()[i as int]],
    {
        proof {
            lemma_entry_map_at(self.entries@, i as int);
        }
        self.entries[i].offset
    }

    /// Bisects for `key`: its position where an entry has it, else the
    /// position at which it would have to be put.
    fn search(&self, key: &String) -> (r: (usize, bool))
        requires
            self.wf(),
        ensures
            r.0 <= self.entries@.len(),
            r.1 ==> r.0 < self.entries@.len() && self.entries@[r.0 as int].key@ == key@,
            !r.1 ==> !has_key(self.entries@, key@),
            !r.1 ==> forall|i: int| 0 <= i < r.0 ==> key_less((#[trigger] self.entries@[i]).key@, key@),
            !r.1 ==> forall|i: int|
                r.0 <= i < self.entries@.len() ==> key_less(key@, (#[trigger] self.entries@[i]).key@),
    {
        let wanted = key.as_str().as_bytes();
        let mut lo: usize = 0;
        let mut hi: usize = self.entries.len();
        while lo < hi
            invariant
                self.wf(),
                wanted@ == encode_utf8(key@),
                lo <= hi <= self.entries@.len(),
                forall|i: int| 0 <= i < lo ==> key_less((#[trigger] self.entries@[i]).key@, key@),
                forall|i: int|
                    hi <= i < self.entries@.len() ==> key_less(
                        key@,
                        (#[trigger] self.entries@[i]).key@,
                    ),
            decreases hi - lo,
        {
            let mid: usize = lo + (hi - lo) / 2;
            let here = self.entries[mid].key.as_str().as_bytes();
            match compare_bytes(here, wanted) {
                Order::Before => {
                    assert forall|i: int| 0 <= i < mid + 1 implies key_less(
                        (#[trigger] self.entries@[i]).key@,
                        key@,
                    ) by {
                        if i < mid {
                            assert(key_less(self.entries@[i].key@, self.entries@[mid as int].key@));
                            lemma_lex_transitive(
                                encode_utf8(self.entries@[i].key@),
                                encode_utf8(self.entries@[mid as int].key@),
                                encode_utf8(key@),
                            );
                        }
                    }
                    lo = mid + 1;
                },
                Order::Same => {
                    proof {
                        lemma_same_bytes_same_key(self.entries@[mid as int].key@, key@);
                    }
                    return (mid, true);
                },
                Order::After => {
                    assert forall|i: int| mid <= i < self.entries@.len() implies key_less(
                        key@,
                        (#[trigger] self.entries@[i]).key@,
                    ) by {
                        if mid < i {
                            assert(key_less(self.entries@[mid as int].key@, self.entries@[i].key@));
                            lemma_lex_transitive(
                                encode_utf8(key@),
                                encode_utf8(self.entries@[mid as int].key@),
                                encode_utf8(self.entries@[i].key@),
                            );
                        }
                    }
                    hi = mid;
                },
            }
        }
        proof {
            if has_key(self.entries@, key@) {
                let i = position_of(self.entries@, key@);
                if i < lo {
                    lemma_key_less_differ(self.entries@[i].key@, key@);
                } else {
                    lemma_key_less_differ(key@, self.entries@[i].key@);
                }
            }
        }
        (lo, false)
    }

    /// The offset recorded for `key`.
    pub fn get(&self, key: &String) -> (r: Option<u64>)
        requires
            self.wf(),
        ensures
            r == if self@.contains_key(key@) {
                Some(self@[key@])
            } else {
                None
            },
    {
        let (at, found) = self.search(key);
        if found {
            proof {
                lemma_entry_map_at(self.entries@, at as int);
            }
            Some(self.entries[at].offset)
        } else {
            None
        }
    }

    /// Records `offset` for `key` and returns the offset that it had before.
    pub fn insert(&mut self, key: String, offset: u64) -> (r: Option<u64>)
        requires
            old(self).wf(),
        ensures
            final(self).wf(),
            final(self)@ == old(self)@.insert(key@, offset),
            r == if old(self)@.contains_key(key@) {
                Some(old(self)@[key@])
            } else {
                None
            },
            (forall|i: int|
                0 <= i < old(self).keys().len() ==> key_less(#[trigger] old(self).keys()[i], key@))
                ==> final(self).keys() == old(self).keys().push(key@),
    {
        let (at, found) = self.search(&key);
        let ghost before = self.entries@;
        let ghost name = key@;
        let ghost last = forall|i: int|
            0 <= i < old(self).keys().len() ==> key_less(#[trigger] old(self).keys()[i], key@);
        proof {
            if last && at < before.len() {
                assert(key_less(old(self).keys()[at as int], name));
                if found {
                    lemma_key_less_differ(before[at as int].key@, name);
                } else {
                    assert(key_less(name, before[at as int].key@));
                    lemma_lex_transitive(
                        encode_utf8(name),
                        encode_utf8(before[at as int].key@),
                        encode_utf8(name),
                    );
                    lemma_lex_irreflexive(encode_utf8(name), 0);
                }
            }
        }
        if found {
            proof {
                lemma_entry_map_at(before, at as int);
            }
            let was = self.entries[at].offset;
            self.entries.set(at, Entry { key, offset });
            proof {
                let after = self.entries@;
                assert forall|i: int| 0 <= i < after.len() implies (#[trigger] after[i]).key@
                    == before[i].key@ by {}
                assert(ascending(after)) by {
                    assert forall|i: int, j: int| 0 <= i < j < after.len() implies key_less(
                        (#[trigger] after[i]).key@,
                        (#[trigger] after[j]).key@,
                    ) by {
                        assert(key_less(before[i].key@, before[j].key@));
                    }
                }
                assert forall|k: Seq<char>| has_key(after, k) <==> has_key(before, k) by {
                    if has_key(after, k) {
                        let i = position_of(after, k);
                        assert(before[i].key@ == k);
                    }
                    if has_key(before, k) {
                        let i = position_of(before, k);
                        assert(after[i].key@ == k);
                    }
                }
                assert forall|k: Seq<char>| has_key(after, k) implies #[trigger] entry_map(after)[k]
                    == entry_map(before).insert(name, offset)[k] by {
                    let i = position_of(after, k);
                    lemma_entry_map_at(after, i);
                    lemma_entry_map_at(before, i);
                }
                assert(entry_map(after) =~= entry_map(before).insert(name, offset));
            }
            Some(was)
        } else {
            self.entries.insert(at, Entry { key, offset });
            proof {
                let after = self.entries@;
                assert(ascending(after)) by {
                    assert forall|i: int, j: int| 0 <= i < j < after.len() implies key_less(
                        (#[trigger] after[i]).key@,
                        (#[trigger] after[j]).key@,
                    ) by {
                        let bi = if i < at { i } else { i - 1 };
                        let bj = if j < at { j } else { j - 1 };
                        if i != at && j != at {
                            assert(key_less(before[bi].key@, before[bj].key@));
                        } else if i == at {
                            assert(key_less(name, before[bj].key@));
                        } else {
                            assert(key_less(before[bi].key@, name));
                        }
                    }
                }
                assert forall|k: Seq<char>| has_key(after, k) <==> (k == name || has_key(before, k)) by {
                    if has_key(after, k) {
                        let i = position_of(after, k);
                        if i < at {
                            assert(before[i].key@ == k);
                        } else if i > at {
                            assert(before[i - 1].key@ == k);
                        }
                    }
                    if has_key(before, k) {
                        let i = position_of(before, k);
                        if i < at {
                            assert(after[i].key@ == k);
                        } else {
                            assert(after[i + 1].key@ == k);
                        }
                    }
                    if k == name {
                        assert(after[at as int].key@ == k);
                    }
                }
                assert forall|k: Seq<char>| has_key(after, k) implies #[trigger] entry_map(after)[k]
                    == entry_map(before).insert(name, offset)[k] by {
                    let i = position_of(after, k);
                    lemma_entry_map_at(after, i);
                    if i < at {
                        lemma_entry_map_at(before, i);
                    } else if i > at {
                        lemma_entry_map_at(before, i - 1);
                    }
                }
                assert(entry_map(after) =~= entry_map(before).insert(name, offset));
                if last {
                    assert(entry_keys(after) =~= entry_keys(before).push(name));
                }
            }
            None
        }
    }

    /// Drops `key` and returns the offset that it had.
    pub fn remove(&mut self, key: &String) -> (r: Option<u64>)
        requires
            old(self).wf(),
        ensures
            final(self).wf(),
            final(self)@ == old(self)@.remove(key@),
            r == if old(self)@.contains_key(key@) {
                Some(old(self)@[key@])
            } else {
                None
            },
    {
        let (at, found) = self.search(key);
        let ghost before = self.entries@;
        let ghost name = key@;
        if found {
            proof {
                lemma_entry_map_at(before, at as int);
            }
            let gone = self.entries.remove(at);
            proof {
                let after = self.entries@;
                assert(ascending(after)) by {
                    assert forall|i: int, j: int| 0 <= i < j < after.len() implies key_less(
                        (#[trigger] after[i]).key@,
                        (#[trigger] after[j]).key@,
                    ) by {
                        let bi = if i < at { i } else { i + 1 };
                        let bj = if j < at { j } else { j + 1 };
                        assert(key_less(before[bi].key@, before[bj].key@));
                    }
                }
                assert forall|k: Seq<char>| has_key(after, k) <==> (k != name && has_key(before, k)) by {
                    if has_key(after, k) {
                        let i = position_of(after, k);
                        let bi = if i < at { i } else { i + 1 };
                        assert(before[bi].key@ == k);
                        lemma_entry_map_at(before, bi);
                    }
                    if k != name && has_key(before, k) {
                        let i = position_of(before, k);
                        if i < at {
                            assert(after[i].key@ == k);
                        } else {
                            assert(after[i - 1].key@ == k);
                        }
                    }
                }
                assert forall|k: Seq<char>| has_key(after, k) implies #[trigger] entry_map(after)[k]
                    == entry_map(before)[k] by {
                    let i = position_of(after, k);
                    lemma_entry_map_at(after, i);
                    let bi = if i < at { i } else { i + 1 };
                    lemma_entry_map_at(before, bi);
                }
                assert(entry_map(after) =~= entry_map(before).remove(name));
            }
            Some(gone.offset)
        } else {
            assert(self@.remove(name) =~= self@);
            None
        }
    }
}

} // verus!
