//! The store: the log, the index over it and the count of dead keys, kept
//! consistent by every operation.

use vstd::prelude::*;
use crate::error::KvsError;
use crate::compaction::{
    compactable, compaction_due, lemma_rewrite_step, lemma_rewritten, live_log, rewrites,
};
use crate::index::{key_less, Index};
use crate::log::{lemma_records_append, records, Record};
use crate::record::{
    decode_at, decode_record, encode_record, encoded, frame, is_unreadable,
    lemma_encoded, Command, CommandView,
};
use crate::replay::{
    build_index, contents, lemma_index_reads, lemma_replay_sets, offsets_of, replay,
};
use crate::writer::PositionedWriter;

verus! {

/// The value that a mapping holds for `key`, if any.
pub open spec fn lookup(m: Map<Seq<char>, Seq<char>>, key: Seq<char>) -> Option<Seq<char>> {
    if m.contains_key(key) {
        Some(m[key])
    } else {
        None
    }
}

/// What a point read yields: the value of the `Set` record for `key` that
/// begins at the offset which the index holds for `key`.
pub enum PointRead {
    /// The index has no entry for the key.
    Absent,
    /// The record at the offset sets the key to this value.
    Value(Seq<char>),
    /// The offset lies at or behind the end of the log.
    Beyond,
    /// The bytes at the offset are not a record.
    Garbled,
    /// The record at the offset is a `Remove`, or sets another key.
    Mismatch,
}

/// The outcome of a point read of `key` through `index` in `datafile`.
pub open spec fn point_read(index: Map<Seq<char>, u64>, datafile: Seq<u8>, key: Seq<char>)
    -> PointRead {
    if !index.contains_key(key) {
        PointRead::Absent
    } else if index[key] >= datafile.len() {
        PointRead::Beyond
    } else {
        match decode_at(datafile, index[key] as int) {
            None => PointRead::Garbled,
            Some((CommandView::Put { key: k, value }, _)) => if k == key {
                PointRead::Value(value)
            } else {
                PointRead::Mismatch
            },
            Some((CommandView::Remove { key: k }, _)) => PointRead::Mismatch,
        }
    }
}

/// The error for an index entry that leads to no `Set` record of its key.
pub open spec fn is_inconsistent(e: KvsError) -> bool {
    e is UnexpectedError && e->UnexpectedError_0@ == "no matching Set record at the indexed offset"@
}

/// Makes the error for an index entry that leads to no `Set` record of its
/// key.
pub fn inconsistent() -> (e: KvsError)
    ensures
        is_inconsistent(e),
{
    KvsError::UnexpectedError("no matching Set record at the indexed offset".to_string())
}

/// Reads the value of `key` by a point read: looks up the offset of its
/// record in `index` and decodes exactly one record there. A key without an
/// entry has no value. An entry that leads behind the log's end, to a
/// `Remove` or to a record of another key is an inconsistency; bytes that
/// are not a record are a serialization error.
pub fn do_get(index: &Index, datafile: &[u8], key: String) -> (r: Result<Option<String>, KvsError>)
    requires
        index.wf(),
    ensures
        match point_read(index@, datafile@, key@) {
            PointRead::Absent => r is Ok && r->Ok_0 is None,
            PointRead::Value(value) => r is Ok && r->Ok_0 is Some && r->Ok_0->Some_0@ == value,
            PointRead::Beyond => r is Err && is_inconsistent(r->Err_0),
            PointRead::Garbled => r is Err && r->Err_0 is Serde,
            PointRead::Mismatch => r is Err && is_inconsistent(r->Err_0),
        },
{
    let p: u64 = match index.get(&key) {
        Some(p) => p,
        None => { return Ok(None); },
    };
    if p >= datafile.len() as u64 {
        return Err(inconsistent());
    }
    let (command, _) = match decode_record(datafile, p as usize) {
        Ok(read) => read,
        Err(e) => { return Err(e); },
    };
    match command {
        Command::Put { key: k, value: v } => {
            if k == key {
                Ok(Some(v))
            } else {
                Err(inconsistent())
            }
        },
        Command::Remove { key: _ } => Err(inconsistent()),
    }
}

/// What the backing file lacks, as [`KvStore::flush`] hands it out.
#[derive(Debug)]
pub enum LogUpdate {
    /// Bytes to append to the file.
    Append(Vec<u8>),
    /// The whole log, to replace the file's contents with.
    Replace(Vec<u8>),
}

/// KvStore is a key-value store over a command log.
#[derive(Debug)]
pub struct KvStore {
    writer: PositionedWriter,
    /// a map from key to log pointer, which is the offset of a record.
    index: Index,
    num_dead_keys: u64,
    /// the backing file holds bytes that are no prefix of the log.
    truncated: bool,
}

impl View for KvStore {
    type V = Map<Seq<char>, Seq<char>>;

    /// The mapping from each live key to its value: what the log's records
    /// leave behind.
    open spec fn view(&self) -> Map<Seq<char>, Seq<char>> {
        match records(self.log()) {
            Some(rs) => contents(rs),
            None => Map::empty(),
        }
    }
}

impl KvStore {
    /// The bytes of the log.
    pub closed spec fn log(&self) -> Seq<u8> {
        self.writer.bytes()
    }

    /// The index: the offset of the live record of each key.
    pub closed spec fn index(&self) -> Map<Seq<char>, u64> {
        self.index@
    }

    /// The live keys in ascending order.
    pub closed spec fn keys(&self) -> Seq<Seq<char>> {
        self.index.keys()
    }

    /// The count of dead keys.
    pub closed spec fn dead(&self) -> nat {
        self.num_dead_keys as nat
    }

    /// The number of leading bytes of the log that the backing file holds.
    pub closed spec fn flushed(&self) -> nat {
        self.writer.flushed()
    }

    /// The backing file holds bytes that are no prefix of the log, and is to
    /// be replaced as a whole.
    pub closed spec fn truncated(&self) -> bool {
        self.truncated
    }

    /// The bytes are a log, the index is what replaying the log yields, and
    /// no more keys are counted dead than the log has bytes.
    pub closed spec fn wf(&self) -> bool {
        &&& self.writer.wf()
        &&& self.index.wf()
        &&& records(self.log()) is Some
        &&& offsets_of(self.index@) == replay(records(self.log()).unwrap()).index
        &&& self.num_dead_keys <= self.log().len()
        &&& self.truncated ==> self.writer.flushed() == 0
    }

    /// What well-formedness means to a caller: the bytes are a log; the index
    /// is what replaying the log yields, so it has exactly the live keys; and
    /// the keys ascend strictly and are the live keys.
    pub proof fn lemma_wf(&self)
        requires
            self.wf(),
        ensures
            records(self.log()) is Some,
            offsets_of(self.index()) == replay(records(self.log()).unwrap()).index,
            self.index().dom() == self@.dom(),
            self@.dom().finite(),
            self.keys().len() == self@.dom().len(),
            self.keys().to_set() == self@.dom(),
            self.keys().no_duplicates(),
            forall|i: int, j: int|
                0 <= i < j < self.keys().len() ==> key_less(
                    #[trigger] self.keys()[i],
                    #[trigger] self.keys()[j],
                ),
            self.dead() <= self.log().len(),
            self.flushed() <= self.log().len(),
            self.truncated() ==> self.flushed() == 0,
    {
        let rs = records(self.log()).unwrap();
        lemma_replay_sets(rs);
        self.index.lemma_keys();
        self.writer.lemma_position();
        assert(self.index@.dom() =~= offsets_of(self.index@).dom());
    }

    /// The index and the log agree: a point read of a live key yields its
    /// value, and a key without a value has no entry in the index.
    pub proof fn lemma_point_read(&self, key: Seq<char>)
        requires
            self.wf(),
        ensures
            point_read(self.index(), self.log(), key) == if self@.contains_key(key) {
                PointRead::Value(self@[key])
            } else {
                PointRead::Absent
            },
    {
        self.lemma_wf();
        if self@.contains_key(key) {
            lemma_index_reads(self.log(), key);
        }
    }

    /// The key at a position of the ascending order is live, and the keys
    /// before it come before it in the order.
    pub proof fn lemma_live_key(&self, i: int)
        requires
            self.wf(),
            0 <= i < self.keys().len(),
        ensures
            self@.contains_key(self.keys()[i]),
            forall|j: int| 0 <= j < i ==> key_less(#[trigger] self.keys()[j], self.keys()[i]),
    {
        self.lemma_wf();
        assert(self.keys().to_set().contains(self.keys()[i]));
    }

    /// What [`KvStore::open`] returns on the contents of a data file: a
    /// store over exactly these bytes where they are a log, with the dead
    /// keys that replay counts and nothing to flush; else a serialization
    /// error.
    pub open spec fn open_post(datafile: Seq<u8>, r: Result<KvStore, KvsError>) -> bool {
        match r {
            Ok(store) => {
                &&& store.wf()
                &&& store.log() == datafile
                &&& records(datafile) is Some
                &&& store.dead() == replay(records(datafile).unwrap()).dead
                &&& store.flushed() == datafile.len()
                &&& !store.truncated()
            },
            Err(e) => records(datafile) is None && e is Serde,
        }
    }

    /// What [`KvStore::get`] does: it leaves the store as it is and returns
    /// the value of the key, or `None` for a key without a value. It does
    /// not fail.
    pub open spec fn get_post(
        pre: KvStore,
        key: Seq<char>,
        post: KvStore,
        r: Result<Option<String>, KvsError>,
    ) -> bool {
        &&& post == pre
        &&& r is Ok
        &&& match r->Ok_0 {
            Some(value) => lookup(pre@, key) == Some(value@),
            None => lookup(pre@, key) is None,
        }
    }

    /// The store after a rewrite of its log: one that is compact, with the
    /// whole backing file to replace.
    pub open spec fn rewritten(&self) -> bool {
        &&& self.is_compact()
        &&& self.truncated()
        &&& self.flushed() == 0
    }

    /// What [`KvStore::_compact`] does: it succeeds exactly where every live
    /// key can be stored again, and then leaves a compact log with the same
    /// keys and values; where it fails the store stays as it was.
    pub open spec fn rewrite_post(pre: KvStore, post: KvStore, r: Result<(), KvsError>) -> bool {
        &&& post.wf()
        &&& post@ == pre@
        &&& post.keys() == pre.keys()
        &&& r is Ok <==> compactable(pre@)
        &&& match r {
            Ok(_) => post.rewritten(),
            Err(e) => post == pre && (e is Serde || e is UnexpectedError),
        }
    }

    /// What [`KvStore::compact`] does: where compaction is due it does what
    /// [`KvStore::_compact`] does, and otherwise nothing.
    pub open spec fn compact_post(pre: KvStore, post: KvStore, r: Result<(), KvsError>) -> bool {
        if compaction_due(pre.dead(), pre@.dom().len()) {
            KvStore::rewrite_post(pre, post, r)
        } else {
            post.wf() && r is Ok && post == pre
        }
    }

    /// How an operation ends that has appended `record`, left `dead` keys
    /// counted and `index` as the index, and then applied the policy of
    /// compaction with `due` as its verdict. It fails only where compaction
    /// is due and some live key cannot be stored again; the record then
    /// stays appended.
    pub open spec fn appended_post(
        pre: KvStore,
        record: Seq<u8>,
        index: Map<Seq<char>, u64>,
        dead: nat,
        due: bool,
        post: KvStore,
        r: Result<(), KvsError>,
    ) -> bool {
        &&& r is Ok <==> !due || compactable(post@)
        &&& r is Err ==> r->Err_0 is Serde || r->Err_0 is UnexpectedError
        &&& if due && compactable(post@) {
            post.rewritten()
        } else {
            &&& post.log() == pre.log() + record
            &&& post.index() == index
            &&& post.dead() == dead
            &&& post.flushed() == pre.flushed()
            &&& post.truncated() == pre.truncated()
        }
    }

    /// How an operation ends whose record cannot be stored: with an error,
    /// and the store as it was. The error is a serialization error where a
    /// string of the command has no JSON text, and an inconsistency where the
    /// bytes written do not read back as the command.
    pub open spec fn refused_post(
        pre: KvStore,
        command: CommandView,
        post: KvStore,
        r: Result<(), KvsError>,
    ) -> bool {
        &&& r is Err
        &&& post == pre
        &&& r->Err_0 is Serde <==> frame(command) is None
        &&& is_unreadable(r->Err_0) <==> frame(command) is Some
    }

    /// What [`KvStore::set`] does. A command that cannot be stored is
    /// refused. Otherwise the key has the value afterwards; the record is
    /// appended at the end of the log and the index leads the key there; a
    /// key that had a value adds one to the dead keys, and only then is
    /// compaction considered.
    pub open spec fn set_post(
        pre: KvStore,
        key: Seq<char>,
        value: Seq<char>,
        post: KvStore,
        r: Result<(), KvsError>,
    ) -> bool {
        let command = CommandView::Put { key, value };
        &&& post.wf()
        &&& match encoded(command) {
            None => KvStore::refused_post(pre, command, post, r),
            Some(record) => {
                let overwrote = pre@.contains_key(key);
                let dead = if overwrote {
                    pre.dead() + 1
                } else {
                    pre.dead()
                };
                &&& post@ == pre@.insert(key, value)
                &&& KvStore::appended_post(
                    pre,
                    record,
                    pre.index().insert(key, pre.log().len() as u64),
                    dead,
                    overwrote && compaction_due(dead, pre@.dom().len()),
                    post,
                    r,
                )
            },
        }
    }

    /// What [`KvStore::remove`] does. A key without a value gives
    /// `KeyNotFound` and the store stays as it was. A command that cannot be
    /// stored is refused. Otherwise the key has no value afterwards; the
    /// record is appended at the end of the log, the key leaves the index and
    /// adds one to the dead keys, and compaction is considered.
    pub open spec fn remove_post(
        pre: KvStore,
        key: Seq<char>,
        post: KvStore,
        r: Result<(), KvsError>,
    ) -> bool {
        let command = CommandView::Remove { key };
        &&& post.wf()
        &&& if !pre@.contains_key(key) {
            r is Err && r->Err_0 is KeyNotFound && post == pre
        } else {
            match encoded(command) {
                None => KvStore::refused_post(pre, command, post, r),
                Some(record) => {
                    let dead = pre.dead() + 1;
                    &&& post@ == pre@.remove(key)
                    &&& KvStore::appended_post(
                        pre,
                        record,
                        pre.index().remove(key),
                        dead,
                        compaction_due(dead, (pre@.dom().len() - 1) as nat),
                        post,
                        r,
                    )
                },
            }
        }
    }

    /// Opens a `KvStore` on the contents of a data file, replaying every
    /// record in it. Bytes that are not a log give a serialization error.
    pub fn open(datafile: Vec<u8>) -> (r: Result<KvStore, KvsError>)
        ensures
            KvStore::open_post(datafile@, r),
    {
        let (index, num_dead_keys) = match build_index(datafile.as_slice()) {
            Ok(built) => built,
            Err(e) => { return Err(e); },
        };
        Ok(KvStore { writer: PositionedWriter::resume(datafile), index, num_dead_keys, truncated: false })
    }

    /// Get a value by key. The index of a well-formed store leads every live
    /// key to its record, so the read cannot fail.
    pub fn get(&mut self, key: String) -> (r: Result<Option<String>, KvsError>)
        requires
            old(self).wf(),
        ensures
            KvStore::get_post(*old(self), key@, *final(self), r),
    {
        proof {
            self.lemma_point_read(key@);
        }
        do_get(&self.index, self.writer.as_slice(), key)
    }

    /// The number of live keys.
    pub fn len(&self) -> (n: usize)
        requires
            self.wf(),
        ensures
            n == self@.dom().len(),
    {
        proof {
            self.lemma_wf();
        }
        self.index.len()
    }

    /// The offset of the record that holds the value of `key`.
    pub fn offset_of(&self, key: &String) -> (r: Option<u64>)
        requires
            self.wf(),
        ensures
            r == if self@.contains_key(key@) {
                Some(self.index()[key@])
            } else {
                None
            },
    {
        proof {
            self.lemma_wf();
        }
        self.index.get(key)
    }

    /// The count of dead keys.
    pub fn dead_keys(&self) -> (n: u64)
        ensures
            n == self.dead(),
    {
        self.num_dead_keys
    }

    /// The bytes of the log.
    pub fn log_bytes(&self) -> (bytes: &[u8])
        ensures
            bytes@ == self.log(),
    {
        self.writer.as_slice()
    }

    /// The log holds one `Set` record for each live key, in ascending order
    /// of the keys, and nothing else: it has as many records as there are
    /// live keys, and the record at each position sets the key at that
    /// position to its value. No key is counted dead.
    pub open spec fn is_compact(&self) -> bool {
        &&& self.log() == live_log(self.keys(), self@)
        &&& records(self.log()) is Some
        &&& records(self.log()).unwrap().len() == self@.dom().len()
        &&& rewrites(records(self.log()).unwrap(), self.keys(), self@)
        &&& self.dead() == 0
    }

    /// Rewrites the log so that it holds the live records only: for every key
    /// of the index, in ascending order, the value is read by a point read and
    /// written as a fresh `Set` record to a new log, with a new index beside
    /// it; then the new log and index take the place of the old ones and the
    /// count of dead keys starts again at zero. The backing file is to be
    /// replaced as a whole. If a record cannot be written, the error is
    /// returned and the store stays as it was.
    pub fn _compact(&mut self) -> (r: Result<(), KvsError>)
        requires
            old(self).wf(),
        ensures
            KvStore::rewrite_post(*old(self), *final(self), r),
    {
        let mut writer = PositionedWriter::new();
        let mut index = Index::new();
        let count = self.index.len();
        let ghost keys = self.keys();
        let ghost m = self@;
        let ghost mut done: Seq<Record> = Seq::empty();
        let mut i: usize = 0;
        proof {
            assert(offsets_of(index@) =~= replay(done).index);
            assert(index.keys() =~= keys.subrange(0, 0));
        }
        while i < count
            invariant
                *self == *old(self),
                self.wf(),
                keys == self.keys(),
                m == self@,
                count == keys.len(),
                i <= count,
                writer.wf(),
                index.wf(),
                writer.flushed() == 0,
                records(writer.bytes()) == Some(done),
                done.len() == i,
                offsets_of(index@) == replay(done).index,
                index.keys() == keys.subrange(0, i as int),
                writer.bytes() == live_log(keys.subrange(0, i as int), m),
                rewrites(done, keys, m),
            decreases count - i,
        {
            let key = self.index.key_at(i).clone();
            proof {
                self.lemma_live_key(i as int);
                self.lemma_point_read(key@);
            }
            let value = match do_get(&self.index, self.writer.as_slice(), key.clone()) {
                Ok(Some(value)) => value,
                Ok(None) => { return Err(inconsistent()); },
                Err(e) => { return Err(e); },
            };
            let command = Command::Put { key: key.clone(), value };
            let record = match encode_record(&command) {
                Ok(record) => record,
                Err(e) => { return Err(e); },
            };
            let offset = writer.offset();
            let ghost before = writer.bytes();
            let ghost built = index@;
            writer.write(record.as_slice());
            proof {
                lemma_records_append(before, record@, command@);
                lemma_rewrite_step(done, keys, m, before.len() as int, built, offset);
                assert forall|j: int| 0 <= j < index.keys().len() implies key_less(
                    #[trigger] index.keys()[j],
                    key@,
                ) by {
                    assert(index.keys()[j] == keys[j]);
                }
                done = done.push(Record { offset: before.len() as int, command: command@ });
            }
            index.insert(key, offset);
            i += 1;
        }
        proof {
            self.lemma_wf();
            lemma_rewritten(done, keys, m);
            assert(keys.subrange(0, i as int) =~= keys);
        }
        self.index = index;
        self.writer = writer;
        self.num_dead_keys = 0;
        self.truncated = true;
        Ok(())
    }

    /// Applies the policy of compaction: rewrites the log if the index is
    /// not empty and the dead keys exceed two fifths of the live keys, and
    /// leaves the store as it is otherwise.
    pub fn compact(&mut self) -> (r: Result<(), KvsError>)
        requires
            old(self).wf(),
        ensures
            KvStore::compact_post(*old(self), *final(self), r),
    {
        let live = self.len();
        if live > 0 && (self.num_dead_keys as u128) * 5 > (live as u128) * 2 {
            self._compact()
        } else {
            Ok(())
        }
    }

    /// Set a value associated with key: appends a `Set` record to the log
    /// and leads the index to it. If the key had a value, its old record is
    /// counted dead and the policy of compaction is applied. A record that
    /// cannot be stored leaves the store as it was.
    pub fn set(&mut self, key: String, value: String) -> (r: Result<(), KvsError>)
        requires
            old(self).wf(),
        ensures
            KvStore::set_post(*old(self), key@, value@, *final(self), r),
    {
        let command = Command::Put { key, value };
        let record = match encode_record(&command) {
            Ok(record) => record,
            Err(e) => { return Err(e); },
        };
        let offset = self.writer.offset();
        proof {
            self.lemma_wf();
            lemma_records_append(self.log(), record@, command@);
            lemma_encoded(command@);
            let rs = records(self.log()).unwrap();
            let next = rs.push(Record { offset: self.log().len() as int, command: command@ });
            assert(next.drop_last() =~= rs);
        }
        self.writer.write(record.as_slice());
        if let Command::Put { key, value: _ } = command {
            let ghost before = self.index@;
            let ghost live = old(self)@.dom();
            let was = self.index.insert(key, offset);
            proof {
                assert(offsets_of(self.index@) =~= offsets_of(before).insert(key@, offset as int));
            }
            if was.is_some() {
                self.num_dead_keys += 1;
                proof {
                    assert(live.insert(key@) =~= live);
                }
                return self.compact();
            }
        }
        Ok(())
    }

    /// Remove a value by key. A key without a value is refused before
    /// anything is written, so that the log never holds a tombstone for a key
    /// that was absent. Otherwise a `Remove` record is appended, the key
    /// leaves the index, its old record is counted dead and the policy of
    /// compaction is applied. A record that cannot be stored leaves the store
    /// as it was.
    pub fn remove(&mut self, key: String) -> (r: Result<(), KvsError>)
        requires
            old(self).wf(),
        ensures
            KvStore::remove_post(*old(self), key@, *final(self), r),
    {
        proof {
            self.lemma_wf();
        }
        match self.index.get(&key) {
            Some(_) => {
                let command = Command::Remove { key };
                let record = match encode_record(&command) {
                    Ok(record) => record,
                    Err(e) => { return Err(e); },
                };
                proof {
                    lemma_records_append(self.log(), record@, command@);
                    lemma_encoded(command@);
                    let rs = records(self.log()).unwrap();
                    let next = rs.push(
                        Record { offset: self.log().len() as int, command: command@ },
                    );
                    assert(next.drop_last() =~= rs);
                }
                let _ = self.writer.offset();
                self.writer.write(record.as_slice());
                if let Command::Remove { key } = command {
                    let ghost before = self.index@;
                    let was = self.index.remove(&key);
                    proof {
                        assert(offsets_of(self.index@) =~= offsets_of(before).remove(key@));
                    }
                    if was.is_some() {
                        self.num_dead_keys += 1;
                        return self.compact();
                    }
                }
                Ok(())
            },
            None => Err(KvsError::KeyNotFound),
        }
    }

    /// Hands out what the backing file lacks: the bytes written since the
    /// last flush, to append to it, or, where the log was rewritten since,
    /// the whole log to replace its contents with.
    pub fn flush(&mut self) -> (update: LogUpdate)
        requires
            old(self).wf(),
        ensures
            final(self).wf(),
            final(self).log() == old(self).log(),
            final(self).index() == old(self).index(),
            final(self).keys() == old(self).keys(),
            final(self).dead() == old(self).dead(),
            final(self).flushed() == old(self).log().len(),
            !final(self).truncated(),
            match update {
                LogUpdate::Append(bytes) => !old(self).truncated() && bytes@ == old(
                    self,
                ).log().subrange(old(self).flushed() as int, old(self).log().len() as int),
                LogUpdate::Replace(bytes) => old(self).truncated() && bytes@ == old(self).log(),
            },
    {
        let pending = self.writer.flush();
        if self.truncated {
            self.truncated = false;
            assert(pending@ =~= self.log());
            LogUpdate::Replace(pending)
        } else {
            LogUpdate::Append(pending)
        }
    }
}

} // verus!
