//! Compaction: when the log is rewritten, and what a rewritten log holds.

use vstd::prelude::*;
use crate::log::Record;
use crate::record::{encoded, CommandView};
use crate::replay::{contents, offsets_of, replay};

verus! {

/// The policy of compaction: with `live` keys in the index and `dead` keys
/// counted, the log is rewritten when there is a live key and the ratio of
/// dead keys to live keys exceeds two fifths.
pub open spec fn compaction_due(dead: nat, live: nat) -> bool {
    live > 0 && 5 * dead > 2 * live
}

/// Every live key can be written again as a `Set` record with its value.
pub open spec fn compactable(m: Map<Seq<char>, Seq<char>>) -> bool {
    forall|key: Seq<char>| #[trigger]
        m.contains_key(key) ==> encoded(CommandView::Put { key, value: m[key] }) is Some
}

/// The log that holds one `Set` record for each of `keys`, in their order,
/// with the value that `m` has for it, and nothing else.
pub open spec fn live_log(keys: Seq<Seq<char>>, m: Map<Seq<char>, Seq<char>>) -> Seq<u8>
    decreases keys.len(),
{
    if keys.len() == 0 {
        Seq::empty()
    } else {
        live_log(keys.drop_last(), m) + encoded(
            CommandView::Put { key: keys.last(), value: m[keys.last()] },
        ).unwrap()
    }
}

/// `done` are the records of a rewritten log as far as it has got: the
/// record at each position sets the key at that position of `keys` to its
/// value in `m`, and is a record that can be stored.
pub open spec fn rewrites(done: Seq<Record>, keys: Seq<Seq<char>>, m: Map<Seq<char>, Seq<char>>)
    -> bool {
    &&& done.len() <= keys.len()
    &&& forall|j: int|
        0 <= j < done.len() ==> {
            &&& (#[trigger] done[j]).command == (CommandView::Put {
                key: keys[j],
                value: m[keys[j]],
            })
            &&& encoded(done[j].command) is Some
        }
}

/// `k` is one of the first `n` of `keys`.
pub open spec fn among(keys: Seq<Seq<char>>, n: int, k: Seq<char>) -> bool {
    exists|j: int| 0 <= j < n && j < keys.len() && #[trigger] keys[j] == k
}

/// One more key: the first `n + 1` keys are the first `n` and the key at `n`.
pub proof fn lemma_among_step(keys: Seq<Seq<char>>, n: int, k: Seq<char>)
    requires
        0 <= n < keys.len(),
    ensures
        among(keys, n + 1, k) <==> (among(keys, n, k) || keys[n] == k),
{
    if among(keys, n + 1, k) {
        let j = choose|j: int| 0 <= j < n + 1 && j < keys.len() && #[trigger] keys[j] == k;
        if j < n {
            assert(among(keys, n, k));
        }
    }
    if among(keys, n, k) {
        let j = choose|j: int| 0 <= j < n && j < keys.len() && #[trigger] keys[j] == k;
        assert(among(keys, n + 1, k));
    }
    if keys[n] == k {
        assert(among(keys, n + 1, k));
    }
}

/// The records of a rewritten log leave behind the keys that were written,
/// each with its value in `m`.
pub proof fn lemma_rewrites_contents(
    done: Seq<Record>,
    keys: Seq<Seq<char>>,
    m: Map<Seq<char>, Seq<char>>,
    k: Seq<char>,
)
    requires
        rewrites(done, keys, m),
    ensures
        contents(done).contains_key(k) <==> among(keys, done.len() as int, k),
        contents(done).contains_key(k) ==> contents(done)[k] == m[k],
    decreases done.len(),
{
    if done.len() > 0 {
        let n = done.len() as int;
        let before = done.drop_last();
        assert(rewrites(before, keys, m)) by {
            assert forall|j: int| 0 <= j < before.len() implies {
                &&& (#[trigger] before[j]).command == (CommandView::Put {
                    key: keys[j],
                    value: m[keys[j]],
                })
                &&& encoded(before[j].command) is Some
            } by {
                assert(before[j] == done[j]);
            }
        }
        lemma_rewrites_contents(before, keys, m, k);
        assert(done[n - 1].command == (CommandView::Put { key: keys[n - 1], value: m[keys[n - 1]] }));
        lemma_among_step(keys, n - 1, k);
    }
}

/// When every key of `m` has been written, the rewritten log leaves behind
/// `m` itself, and every live key could be stored again.
pub proof fn lemma_rewritten(done: Seq<Record>, keys: Seq<Seq<char>>, m: Map<Seq<char>, Seq<char>>)
    requires
        rewrites(done, keys, m),
        done.len() == keys.len(),
        keys.to_set() == m.dom(),
    ensures
        contents(done) == m,
        compactable(m),
{
    assert forall|k: Seq<char>| contents(done).contains_key(k) <==> m.contains_key(k) by {
        lemma_rewrites_contents(done, keys, m, k);
        assert(keys.to_set().contains(k) <==> keys.contains(k));
        if keys.contains(k) {
            let j = choose|j: int| 0 <= j < keys.len() && #[trigger] keys[j] == k;
            assert(among(keys, keys.len() as int, k));
        }
    }
    assert forall|k: Seq<char>| contents(done).contains_key(k) implies contents(done)[k] == m[k] by {
        lemma_rewrites_contents(done, keys, m, k);
    }
    assert(contents(done) =~= m);
    assert forall|k: Seq<char>| #[trigger] m.contains_key(k) implies encoded(
        CommandView::Put { key: k, value: m[k] },
    ) is Some by {
        assert(keys.to_set().contains(k));
        let j = choose|j: int| 0 <= j < keys.len() && #[trigger] keys[j] == k;
        assert(encoded(done[j].command) is Some);
    }
}

/// One more record of a rewritten log: the invariants of the rewriting hold
/// again when the record for the next key is appended.
pub proof fn lemma_rewrite_step(
    done: Seq<Record>,
    keys: Seq<Seq<char>>,
    m: Map<Seq<char>, Seq<char>>,
    offset: int,
    built: Map<Seq<char>, u64>,
    at: u64,
)
    requires
        rewrites(done, keys, m),
        done.len() < keys.len(),
        encoded(CommandView::Put { key: keys[done.len() as int], value: m[keys[done.len() as int]] })
            is Some,
        offsets_of(built) == replay(done).index,
        at == offset,
    ensures
        ({
            let i = done.len() as int;
            let command = CommandView::Put { key: keys[i], value: m[keys[i]] };
            let next = done.push(Record { offset, command });
            &&& rewrites(next, keys, m)
            &&& offsets_of(built.insert(keys[i], at)) == replay(next).index
            &&& live_log(keys.subrange(0, i + 1), m) == live_log(keys.subrange(0, i), m)
                + encoded(command).unwrap()
            &&& keys.subrange(0, i + 1) == keys.subrange(0, i).push(keys[i])
        }),
{
    let i = done.len() as int;
    let command = CommandView::Put { key: keys[i], value: m[keys[i]] };
    let next = done.push(Record { offset, command });
    assert(next.drop_last() =~= done);
    assert(offsets_of(built.insert(keys[i], at)) =~= replay(next).index);
    assert(keys.subrange(0, i + 1).drop_last() =~= keys.subrange(0, i));
    assert(keys.subrange(0, i + 1) =~= keys.subrange(0, i).push(keys[i]));
}

} // verus!
