//! Replay: what a sequence of records leaves behind.
//!
//! Replaying the records of a log in order yields the mapping from each live
//! key to its value, the index from each live key to the offset of the record
//! that set it, and the count of dead keys.

use vstd::prelude::*;
use crate::error::KvsError;
use crate::index::Index;
use crate::log::{lemma_records_faithful, records, records_from, Record};
use crate::record::{decode_at, decode_record, Command, CommandView};

verus! {

/// What replay has gathered: the offset of the live record of each key, and
/// the number of dead keys.
pub struct Replayed {
    pub index: Map<Seq<char>, int>,
    pub dead: nat,
}

/// Replays one record. A `Set` makes the key's earlier record dead, where it
/// had one. A `Remove` makes the key's record dead, where it had one, and is
/// itself counted as dead whether it had one or not.
pub open spec fn replay_step(state: Replayed, record: Record) -> Replayed {
    match record.command {
        CommandView::Put { key, value } => Replayed {
            index: state.index.insert(key, record.offset),
            dead: if state.index.contains_key(key) {
                state.dead + 1
            } else {
                state.dead
            },
        },
        CommandView::Remove { key } => Replayed {
            index: state.index.remove(key),
            dead: if state.index.contains_key(key) {
                state.dead + 2
            } else {
                state.dead + 1
            },
        },
    }
}

/// Replays records in their order, from nothing.
pub open spec fn replay(rs: Seq<Record>) -> Replayed
    decreases rs.len(),
{
    if rs.len() == 0 {
        Replayed { index: Map::empty(), dead: 0 }
    } else {
        replay_step(replay(rs.drop_last()), rs.last())
    }
}

/// What one command does to the mapping from keys to values.
pub open spec fn contents_step(m: Map<Seq<char>, Seq<char>>, command: CommandView) -> Map<
    Seq<char>,
    Seq<char>,
> {
    match command {
        CommandView::Put { key, value } => m.insert(key, value),
        CommandView::Remove { key } => m.remove(key),
    }
}

/// The mapping from each live key to its value that records leave behind.
pub open spec fn contents(rs: Seq<Record>) -> Map<Seq<char>, Seq<char>>
    decreases rs.len(),
{
    if rs.len() == 0 {
        Map::empty()
    } else {
        contents_step(contents(rs.drop_last()), rs.last().command)
    }
}

/// An index as a mapping to mathematical offsets.
pub open spec fn offsets_of(m: Map<Seq<char>, u64>) -> Map<Seq<char>, int> {
    Map::new(|key: Seq<char>| m.contains_key(key), |key: Seq<char>| m[key] as int)
}

/// Some record of `rs` begins at `offset` and sets `key` to `value`.
pub open spec fn sets_at(rs: Seq<Record>, offset: int, key: Seq<char>, value: Seq<char>) -> bool {
    exists|i: int|
        0 <= i < rs.len() && #[trigger] rs[i] == (Record {
            offset,
            command: CommandView::Put { key, value },
        })
}

/// The replayed index has exactly the live keys, and leads each of them to a
/// record that sets it to its live value.
pub proof fn lemma_replay_sets(rs: Seq<Record>)
    ensures
        replay(rs).index.dom() == contents(rs).dom(),
        forall|key: Seq<char>| #[trigger]
            contents(rs).contains_key(key) ==> sets_at(
                rs,
                replay(rs).index[key],
                key,
                contents(rs)[key],
            ),
    decreases rs.len(),
{
    if rs.len() == 0 {
        assert(replay(rs).index.dom() =~= contents(rs).dom());
    } else {
        let before = rs.drop_last();
        lemma_replay_sets(before);
        assert(replay(rs).index.dom() =~= contents(rs).dom());
        assert forall|key: Seq<char>| #[trigger] contents(rs).contains_key(key) implies sets_at(
            rs,
            replay(rs).index[key],
            key,
            contents(rs)[key],
        ) by {
            let last = rs.last();
            let fresh = match last.command {
                CommandView::Put { key: k, value } => k == key,
                CommandView::Remove { key: k } => false,
            };
            if fresh {
                assert(rs[rs.len() - 1] == last);
            } else {
                assert(contents(before).contains_key(key));
                let i = choose|i: int|
                    0 <= i < before.len() && #[trigger] before[i] == (Record {
                        offset: replay(before).index[key],
                        command: CommandView::Put { key, value: contents(before)[key] },
                    });
                assert(rs[i] == before[i]);
            }
        }
    }
}

/// In a log, the replayed index leads each live key to bytes that read as
/// the record setting that key to its live value.
pub proof fn lemma_index_reads(bytes: Seq<u8>, key: Seq<char>)
    requires
        records(bytes) is Some,
        contents(records(bytes).unwrap()).contains_key(key),
    ensures
        replay(records(bytes).unwrap()).index.contains_key(key),
        0 <= replay(records(bytes).unwrap()).index[key] < bytes.len(),
        decode_at(bytes, replay(records(bytes).unwrap()).index[key]) is Some,
        decode_at(bytes, replay(records(bytes).unwrap()).index[key]).unwrap().0
            == (CommandView::Put { key, value: contents(records(bytes).unwrap())[key] }),
{
    let rs = records(bytes).unwrap();
    lemma_replay_sets(rs);
    lemma_records_faithful(bytes);
    let offset = replay(rs).index[key];
    let i = choose|i: int|
        0 <= i < rs.len() && #[trigger] rs[i] == (Record {
            offset,
            command: CommandView::Put { key, value: contents(rs)[key] },
        });
    assert(rs[i].offset == offset);
}

/// Rebuilds the index and the count of dead keys by scanning every record of
/// the log from its first byte to its last, in file order. A `Remove` whose
/// key has no live record is replayed like any other. Bytes that are not a
/// log give a serialization error.
pub fn build_index(datafile: &[u8]) -> (r: Result<(Index, u64), KvsError>)
    ensures
        match r {
            Ok((index, dead)) => {
                &&& records(datafile@) is Some
                &&& index.wf()
                &&& offsets_of(index@) == replay(records(datafile@).unwrap()).index
                &&& dead == replay(records(datafile@).unwrap()).dead
                &&& dead <= datafile@.len()
            },
            Err(e) => records(datafile@) is None && e is Serde,
        },
{
    let mut index = Index::new();
    let mut num_dead_keys: u64 = 0;
    let mut offset: usize = 0;
    let ghost mut done: Seq<Record> = Seq::empty();
    assert(offsets_of(index@) =~= replay(done).index);
    while offset < datafile.len()
        invariant
            offset <= datafile.len(),
            index.wf(),
            offsets_of(index@) == replay(done).index,
            num_dead_keys == replay(done).dead,
            num_dead_keys <= offset,
            records(datafile@) == match records_from(datafile@, offset as int) {
                Some(rest) => Some(done + rest),
                None => None,
            },
        decreases datafile.len() - offset,
    {
        let (command, next) = match decode_record(datafile, offset) {
            Ok(read) => read,
            Err(e) => { return Err(e); },
        };
        let ghost record = Record { offset: offset as int, command: command@ };
        let ghost before = index@;
        proof {
            assert(done.push(record).drop_last() =~= done);
            assert forall|rest: Seq<Record>| done + (seq![record] + rest) == done.push(record)
                + rest by {
                assert(done + (seq![record] + rest) =~= done.push(record) + rest);
            }
        }
        match command {
            Command::Put { key, value } => {
                if index.insert(key, offset as u64).is_some() {
                    num_dead_keys += 1;
                }
            },
            Command::Remove { key } => {
                if index.remove(&key).is_some() {
                    num_dead_keys += 1;
                }
                num_dead_keys += 1;
            },
        }
        proof {
            done = done.push(record);
            assert(offsets_of(index@) =~= replay(done).index);
        }
        offset = next;
    }
    proof {
        assert(done + Seq::<Record>::empty() =~= done);
    }
    Ok((index, num_dead_keys))
}

} // verus!
