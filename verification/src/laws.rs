//! What holds of the store across its operations.
//!
//! Each law speaks of the states and results that the operations' contracts
//! relate, so it holds of every run of the store.

use vstd::prelude::*;
use crate::error::KvsError;
use crate::log::records;
use crate::compaction::{compaction_due, live_log, rewrites};
use crate::replay::offsets_of;
use crate::store::{lookup, KvStore};

verus! {

/// After `set(key, value)` has succeeded, `get(key)` returns `value`.
pub proof fn law_set_then_get(
    s0: KvStore,
    key: Seq<char>,
    value: Seq<char>,
    s1: KvStore,
    r1: Result<(), KvsError>,
    s2: KvStore,
    r2: Result<Option<String>, KvsError>,
)
    requires
        s0.wf(),
        KvStore::set_post(s0, key, value, s1, r1),
        r1 is Ok,
        KvStore::get_post(s1, key, s2, r2),
    ensures
        r2 is Ok,
        r2->Ok_0 is Some,
        r2->Ok_0->Some_0@ == value,
{
}

/// The last write wins: after `set(key, first)` and `set(key, second)` have
/// succeeded, `get(key)` returns `second`. The second `set` makes exactly one
/// key dead, unless it brings compaction about, after which none is dead.
pub proof fn law_last_write_wins(
    s0: KvStore,
    key: Seq<char>,
    first: Seq<char>,
    s1: KvStore,
    r1: Result<(), KvsError>,
    second: Seq<char>,
    s2: KvStore,
    r2: Result<(), KvsError>,
    s3: KvStore,
    r3: Result<Option<String>, KvsError>,
)
    requires
        s0.wf(),
        KvStore::set_post(s0, key, first, s1, r1),
        r1 is Ok,
        KvStore::set_post(s1, key, second, s2, r2),
        r2 is Ok,
        KvStore::get_post(s2, key, s3, r3),
    ensures
        r3 is Ok,
        r3->Ok_0 is Some,
        r3->Ok_0->Some_0@ == second,
        s2.dead() == if compaction_due(s1.dead() + 1, s1@.dom().len()) {
            0
        } else {
            s1.dead() + 1
        },
{
}

/// `remove(key)` of a key without a value fails with `KeyNotFound` and
/// leaves the log, and all of the store, unchanged.
pub proof fn law_remove_absent(s0: KvStore, key: Seq<char>, s1: KvStore, r: Result<(), KvsError>)
    requires
        s0.wf(),
        !s0@.contains_key(key),
        KvStore::remove_post(s0, key, s1, r),
    ensures
        r is Err,
        r->Err_0 is KeyNotFound,
        s1.log() == s0.log(),
        s1 == s0,
{
}

/// After `set(key, value)` and `remove(key)` have succeeded, `get(key)`
/// finds nothing, and a second `remove(key)` fails with `KeyNotFound`.
pub proof fn law_set_remove_get(
    s0: KvStore,
    key: Seq<char>,
    value: Seq<char>,
    s1: KvStore,
    r1: Result<(), KvsError>,
    s2: KvStore,
    r2: Result<(), KvsError>,
    s3: KvStore,
    r3: Result<Option<String>, KvsError>,
    s4: KvStore,
    r4: Result<(), KvsError>,
)
    requires
        s0.wf(),
        KvStore::set_post(s0, key, value, s1, r1),
        r1 is Ok,
        KvStore::remove_post(s1, key, s2, r2),
        r2 is Ok,
        KvStore::get_post(s2, key, s3, r3),
        KvStore::remove_post(s3, key, s4, r4),
    ensures
        r3 is Ok,
        r3->Ok_0 is None,
        r4 is Err,
        r4->Err_0 is KeyNotFound,
{
}

/// Reopening: a store opened on the log of a well-formed store has the same
/// index, and the same value for every key, as the store that wrote the log.
pub proof fn law_reopen(s: KvStore, r: Result<KvStore, KvsError>)
    requires
        s.wf(),
        KvStore::open_post(s.log(), r),
    ensures
        r is Ok,
        r->Ok_0@ == s@,
        r->Ok_0.index() == s.index(),
        forall|key: Seq<char>| lookup(r->Ok_0@, key) == lookup(s@, key),
{
    s.lemma_wf();
    let t = r->Ok_0;
    t.lemma_wf();
    assert forall|key: Seq<char>| t.index().contains_key(key) implies t.index()[key] == s.index()[key] by {
        assert(offsets_of(t.index())[key] == offsets_of(s.index())[key]);
    }
    assert(t.index() =~= s.index());
}

/// Compaction: where it is due and succeeds, every key has the value it had,
/// no key is counted dead, and the log is the live records and nothing else:
/// one `Set` record for each live key, in ascending order of the keys.
pub proof fn law_compaction(s0: KvStore, s1: KvStore, r: Result<(), KvsError>)
    requires
        s0.wf(),
        compaction_due(s0.dead(), s0@.dom().len()),
        KvStore::compact_post(s0, s1, r),
        r is Ok,
    ensures
        forall|key: Seq<char>| lookup(s1@, key) == lookup(s0@, key),
        s1.dead() == 0,
        s1.log() == live_log(s1.keys(), s1@),
        records(s1.log()) is Some,
        records(s1.log()).unwrap().len() == s1@.dom().len(),
        rewrites(records(s1.log()).unwrap(), s1.keys(), s1@),
{
}

} // verus!
