//! The command log as a sequence of records.
//!
//! The log is the concatenation of its records, with nothing before, between
//! or behind them. What a log says is the sequence of its records, each with
//! the offset at which it begins.

use vstd::prelude::*;
use crate::record::{
    decode_at, lemma_decode_bounds, lemma_decode_local, reads_as, same_stretch, CommandView,
};

verus! {

/// One record of a log: where it begins and what it says.
pub struct Record {
    pub offset: int,
    pub command: CommandView,
}

/// The records that `bytes` hold from `pos` to their end, or `None` where
/// some stretch of them is not a record.
pub open spec fn records_from(bytes: Seq<u8>, pos: int) -> Option<Seq<Record>>
    decreases bytes.len() - pos,
{
    if pos == bytes.len() {
        Some(Seq::empty())
    } else {
        match decode_at(bytes, pos) {
            Some((command, next)) => if pos < next <= bytes.len() {
                match records_from(bytes, next) {
                    Some(rest) => Some(seq![Record { offset: pos, command }] + rest),
                    None => None,
                }
            } else {
                None
            },
            None => None,
        }
    }
}

/// The records of a log, or `None` where the bytes are not a log.
pub open spec fn records(bytes: Seq<u8>) -> Option<Seq<Record>> {
    records_from(bytes, 0)
}

/// Each record of a log begins inside the log, and the bytes at its offset
/// read as its command.
pub open spec fn faithful(bytes: Seq<u8>, rs: Seq<Record>) -> bool {
    forall|i: int|
        0 <= i < rs.len() ==> {
            &&& 0 <= (#[trigger] rs[i]).offset < bytes.len()
            &&& decode_at(bytes, rs[i].offset) is Some
            &&& decode_at(bytes, rs[i].offset).unwrap().0 == rs[i].command
        }
}

/// The records read from a position on are faithful, and there are no more
/// of them than bytes.
pub proof fn lemma_records_from_faithful(bytes: Seq<u8>, pos: int)
    requires
        0 <= pos,
        records_from(bytes, pos) is Some,
    ensures
        faithful(bytes, records_from(bytes, pos).unwrap()),
        records_from(bytes, pos).unwrap().len() <= bytes.len() - pos,
    decreases bytes.len() - pos,
{
    if pos != bytes.len() {
        let (command, next) = decode_at(bytes, pos).unwrap();
        lemma_records_from_faithful(bytes, next);
        let rest = records_from(bytes, next).unwrap();
        let rs = records_from(bytes, pos).unwrap();
        assert forall|i: int| 0 <= i < rs.len() implies {
            &&& 0 <= (#[trigger] rs[i]).offset < bytes.len()
            &&& decode_at(bytes, rs[i].offset) is Some
            &&& decode_at(bytes, rs[i].offset).unwrap().0 == rs[i].command
        } by {
            if i > 0 {
                assert(rs[i] == rest[i - 1]);
            }
        }
    }
}

/// The records of a log are faithful.
pub proof fn lemma_records_faithful(bytes: Seq<u8>)
    requires
        records(bytes) is Some,
    ensures
        faithful(bytes, records(bytes).unwrap()),
        records(bytes).unwrap().len() <= bytes.len(),
{
    lemma_records_from_faithful(bytes, 0);
}

/// Appending one record to a log appends it to the log's records, at the
/// offset where the log ended.
pub proof fn lemma_records_from_append(bytes: Seq<u8>, pos: int, more: Seq<u8>, command: CommandView)
    requires
        0 <= pos <= bytes.len(),
        records_from(bytes, pos) is Some,
        reads_as(more, command),
    ensures
        records_from(bytes + more, pos) == Some(
            records_from(bytes, pos).unwrap().push(
                Record { offset: bytes.len() as int, command },
            ),
        ),
    decreases bytes.len() - pos,
{
    let all = bytes + more;
    let last = Record { offset: bytes.len() as int, command };
    lemma_decode_bounds(more, 0);
    if pos == bytes.len() {
        assert(same_stretch(more, 0, all, pos, more.len() as int));
        lemma_decode_local(more, 0, all, pos);
        assert(records_from(all, all.len() as int) == Some(Seq::<Record>::empty()));
        assert(seq![last] + Seq::<Record>::empty() =~= Seq::<Record>::empty().push(last));
    } else {
        let (first, next) = decode_at(bytes, pos).unwrap();
        assert(same_stretch(bytes, pos, all, pos, next - pos));
        lemma_decode_local(bytes, pos, all, pos);
        lemma_records_from_append(bytes, next, more, command);
        let rest = records_from(bytes, next).unwrap();
        assert(seq![Record { offset: pos, command: first }] + rest.push(last) =~= (seq![
            Record { offset: pos, command: first },
        ] + rest).push(last));
    }
}

/// Appending one record to a log appends it to the log's records.
pub proof fn lemma_records_append(bytes: Seq<u8>, more: Seq<u8>, command: CommandView)
    requires
        records(bytes) is Some,
        reads_as(more, command),
    ensures
        records(bytes + more) == Some(
            records(bytes).unwrap().push(Record { offset: bytes.len() as int, command }),
        ),
{
    lemma_records_from_append(bytes, 0, more, command);
}

} // verus!
