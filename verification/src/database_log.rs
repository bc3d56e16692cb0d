//! The write-ahead log: fixed-width records mirroring every write, in
//! order, so a crashed store can be replayed.
//!
//! A record is 266 bytes: a liveness byte, 8 key bytes, a delete flag,
//! and 256 value bytes. Short keys and values are padded with NULs.

use vstd::prelude::*;

use crate::error::{DatabaseResult, StorageError, StorageResult};
use crate::mem_database::replay_map;
use crate::request::{Command, DeleteCommand, PutCommand};
use crate::slice::Slice;
use crate::sstable::pad_bytes;

verus! {

/// A record that knows whether it has really been written.
pub trait JudgeReal {
    /// Whether this record counts as written.
    spec fn real_view(&self) -> bool;

    fn is_real(&self) -> (r: bool)
        ensures
            r == self.real_view(),
    ;

    fn set_real(&mut self, written: bool)
        ensures
            final(self).real_view() == written,
    ;
}

/// One log record: live flag, fixed-width key, delete flag, and
/// fixed-width value.
pub struct RawRecord {
    pub real_flag: u8,
    pub key: Vec<u8>,
    pub delete_flag: u8,
    pub value: Vec<u8>,
}

impl JudgeReal for RawRecord {
    open spec fn real_view(&self) -> bool {
        self.real_flag == 1
    }

    fn is_real(&self) -> (r: bool)
        ensures
            r == self.real_view(),
    {
        self.real_flag == 1
    }

    fn set_real(&mut self, written: bool)
        ensures
            final(self).real_view() == written,
    {
        if written {
            self.real_flag = 1;
        } else {
            self.real_flag = 0;
        }
    }
}

pub open spec fn record_wf(r: RawRecord) -> bool {
    r.real_flag == 1 && r.key@.len() == 8 && (r.delete_flag == 0 || r.delete_flag == 1)
        && r.value@.len() == 256
}

/// The 266 bytes of one record.
pub open spec fn record_bytes(r: RawRecord) -> Seq<u8> {
    seq![r.real_flag] + r.key@ + seq![r.delete_flag] + r.value@
}

/// The memtable a record sequence replays to: a PUT record binds its
/// key, a DELETE record leaves a tombstone.
pub open spec fn records_replay_map(records: Seq<RawRecord>) -> Map<Seq<u8>, Option<Seq<u8>>>
    decreases records.len(),
{
    if records.len() == 0 {
        Map::empty()
    } else {
        let m = records_replay_map(records.drop_last());
        if records.last().delete_flag == 1 {
            m.insert(records.last().key@, None)
        } else {
            m.insert(records.last().key@, Some(records.last().value@))
        }
    }
}

/// One write-ahead log segment, in record order.
pub struct DatabaseLog {
    records: Vec<RawRecord>,
}

impl DatabaseLog {
    pub closed spec fn spec_records(self) -> Seq<RawRecord> {
        self.records@
    }

    pub open spec fn wf(self) -> bool {
        forall|i: int| 0 <= i < self.spec_records().len() ==> record_wf(
            #[trigger] self.spec_records()[i],
        )
    }

    /// The map this segment replays to.
    pub open spec fn replay(self) -> Map<Seq<u8>, Option<Seq<u8>>> {
        records_replay_map(self.spec_records())
    }

    /// A fresh, empty segment.
    pub fn create_new() -> (r: DatabaseLog)
        ensures
            r.wf(),
            r.spec_records().len() == 0,
            r.replay() == Map::<Seq<u8>, Option<Seq<u8>>>::empty(),
    {
        DatabaseLog { records: Vec::new() }
    }

    /// The number of records held.
    pub fn len(&self) -> (r: usize)
        ensures
            r == self.spec_records().len(),
    {
        self.records.len()
    }

    /// Appends a PUT record, the key padded to 8 bytes and the value to
    /// 256.
    pub fn put_sync(&mut self, key: &Slice, value: &Slice) -> (r: DatabaseResult<()>)
        requires
            old(self).wf(),
            key@.len() <= 8,
            value@.len() <= 256,
        ensures
            final(self).wf(),
            r is Ok,
            final(self).spec_records().len() == old(self).spec_records().len() + 1,
            final(self).spec_records().drop_last() == old(self).spec_records(),
            ({
                let rec = final(self).spec_records().last();
                rec.real_flag == 1 && rec.delete_flag == 0 && rec.key@ == pad_bytes(key@, 8)
                    && rec.value@ == pad_bytes(value@, 256)
            }),
            final(self).replay() == old(self).replay().insert(
                pad_bytes(key@, 8),
                Some(pad_bytes(value@, 256)),
            ),
    {
        let mut key_buf: Vec<u8> = Vec::new();
        crate::sstable::append_padded(&mut key_buf, key, 8);
        let mut value_buf: Vec<u8> = Vec::new();
        crate::sstable::append_padded(&mut value_buf, value, 256);
        proof {
            assert(key_buf@ =~= pad_bytes(key@, 8));
            assert(value_buf@ =~= pad_bytes(value@, 256));
        }
        let rec = RawRecord { real_flag: 1, key: key_buf, delete_flag: 0, value: value_buf };
        self.records.push(rec);
        proof {
            assert(final(self).spec_records().drop_last() =~= old(self).spec_records());
        }
        Ok(())
    }

    /// Appends a DELETE record: a tombstone for the padded key, with an
    /// unused all-NUL value field.
    pub fn delete_sync(&mut self, key: &Slice) -> (r: DatabaseResult<()>)
        requires
            old(self).wf(),
            key@.len() <= 8,
        ensures
            final(self).wf(),
            r is Ok,
            final(self).spec_records().len() == old(self).spec_records().len() + 1,
            final(self).spec_records().drop_last() == old(self).spec_records(),
            ({
                let rec = final(self).spec_records().last();
                rec.real_flag == 1 && rec.delete_flag == 1 && rec.key@ == pad_bytes(key@, 8)
            }),
            final(self).replay() == old(self).replay().insert(pad_bytes(key@, 8), None),
    {
        let mut key_buf: Vec<u8> = Vec::new();
        crate::sstable::append_padded(&mut key_buf, key, 8);
        let empty = Slice::empty();
        let mut value_buf: Vec<u8> = Vec::new();
        crate::sstable::append_padded(&mut value_buf, &empty, 256);
        proof {
            assert(key_buf@ =~= pad_bytes(key@, 8));
        }
        let rec = RawRecord { real_flag: 1, key: key_buf, delete_flag: 1, value: value_buf };
        self.records.push(rec);
        proof {
            assert(final(self).spec_records().drop_last() =~= old(self).spec_records());
        }
        Ok(())
    }

    /// Replays the segment as a command stream: one PUT or DELETE per
    /// record, in order.
    pub fn iter(&self) -> (r: Vec<Command>)
        requires
            self.wf(),
        ensures
            r@.len() == self.spec_records().len(),
            forall|i: int| #![trigger r@[i]] 0 <= i < r@.len() ==> {
                let rec = self.spec_records()[i];
                if rec.delete_flag == 1 {
                    r@[i] matches Command::DELETE(c) && c.key@ == rec.key@
                } else {
                    r@[i] matches Command::PUT(c) && c.key@ == rec.key@ && c.value@ == rec.value@
                }
            },
            forall|i: int| 0 <= i < r@.len() ==> ((#[trigger] r@[i]) is PUT || r@[i] is DELETE),
            replay_map(r@) == self.replay(),
    {
        let mut out: Vec<Command> = Vec::new();
        let mut i: usize = 0;
        while i < self.records.len()
            invariant
                self.wf(),
                i <= self.records@.len(),
                out@.len() == i,
                forall|j: int| #![trigger out@[j]] 0 <= j < i ==> {
                    let rec = self.spec_records()[j];
                    if rec.delete_flag == 1 {
                        out@[j] matches Command::DELETE(c) && c.key@ == rec.key@
                    } else {
                        out@[j] matches Command::PUT(c) && c.key@ == rec.key@ && c.value@
                            == rec.value@
                    }
                },
                forall|j: int| 0 <= j < i ==> ((#[trigger] out@[j]) is PUT || out@[j] is DELETE),
                replay_map(out@) == records_replay_map(self.records@.take(i as int)),
            decreases self.records@.len() - i,
        {
            let rec = &self.records[i];
            let key = Slice(crate::request::copy_range(&rec.key, 0, rec.key.len()));
            proof {
                assert(key@ =~= rec.key@);
            }
            let cmd = if rec.delete_flag == 1 {
                Command::DELETE(DeleteCommand { key })
            } else {
                let value = Slice(crate::request::copy_range(&rec.value, 0, rec.value.len()));
                proof {
                    assert(value@ =~= rec.value@);
                }
                Command::PUT(PutCommand { key, value })
            };
            let ghost prev = out@;
            out.push(cmd);
            proof {
                assert(out@.drop_last() =~= prev);
                assert(out@.last() == cmd);
                assert(self.records@.take(i + 1).drop_last() =~= self.records@.take(i as int));
                assert(self.records@.take(i + 1).last() == self.records@[i as int]);
            }
            i = i + 1;
        }
        proof {
            assert(self.records@.take(self.records@.len() as int) =~= self.records@);
        }
        out
    }

    /// Serializes the whole segment as flat record bytes.
    pub fn to_bytes(&self) -> (r: Vec<u8>)
        requires
            self.wf(),
        ensures
            r@ == wal_bytes(self.spec_records()),
    {
        let ghost s = self.records@;
        let mut out: Vec<u8> = Vec::new();
        let mut i: usize = 0;
        proof {
            assert(s.skip(0) =~= s);
        }
        while i < self.records.len()
            invariant
                self.wf(),
                s == self.records@,
                i <= s.len(),
                out@ + wal_bytes(s.skip(i as int)) == wal_bytes(s),
            decreases s.len() - i,
        {
            let ghost before = out@;
            let rec = &self.records[i];
            out.push(rec.real_flag);
            let mut key = crate::request::copy_range(&rec.key, 0, rec.key.len());
            out.append(&mut key);
            out.push(rec.delete_flag);
            let mut value = crate::request::copy_range(&rec.value, 0, rec.value.len());
            out.append(&mut value);
            proof {
                assert(s.skip(i as int).first() == s[i as int]);
                assert(s.skip(i as int).drop_first() =~= s.skip(i + 1));
                assert(wal_bytes(s.skip(i as int)) == record_bytes(s[i as int]) + wal_bytes(
                    s.skip(i + 1),
                ));
                assert(rec.key@.subrange(0, rec.key@.len() as int) =~= rec.key@);
                assert(rec.value@.subrange(0, rec.value@.len() as int) =~= rec.value@);
                assert(out@ =~= before + record_bytes(s[i as int]));
                assert(out@ + wal_bytes(s.skip(i + 1)) =~= before + wal_bytes(s.skip(i as int)));
            }
            i = i + 1;
        }
        proof {
            assert(s.skip(s.len() as int) =~= Seq::<RawRecord>::empty());
            assert(out@ =~= out@ + wal_bytes(s.skip(s.len() as int)));
        }
        out
    }

    /// Reads a segment back from flat bytes: exactly the whole records
    /// up to the first one whose live flag is clear, field for field.
    /// A live record whose delete flag is neither 0 nor 1 is
    /// corruption.
    pub fn from_bytes(buf: &Vec<u8>) -> (r: StorageResult<DatabaseLog>)
        ensures
            match r {
                Ok(log) => {
                    &&& log.wf()
                    &&& log.spec_records().len() == wal_live_count(buf@, 0)
                    &&& forall|j: int| #![trigger log.spec_records()[j]] 0 <= j
                        < log.spec_records().len() ==> {
                        let rec = log.spec_records()[j];
                        &&& rec.real_flag == 1
                        &&& rec.key@ == buf@.subrange(266 * j + 1, 266 * j + 9)
                        &&& rec.delete_flag == buf@[266 * j + 9]
                        &&& rec.value@ == buf@.subrange(266 * j + 10, 266 * j + 266)
                    }
                },
                Err(e) => e is LogFormatError && exists|j: int| 0 <= j < wal_live_count(buf@, 0)
                    && (#[trigger] buf@[266 * j + 9]) != 0 && buf@[266 * j + 9] != 1,
            },
    {
        let n = buf.len() / 266;
        proof {
            assert(266 * n <= buf@.len()) by (nonlinear_arith)
                requires n == buf@.len() / 266;
        }
        let mut records: Vec<RawRecord> = Vec::new();
        let mut i: usize = 0;
        while i < n
            invariant
                n == buf@.len() / 266,
                buf@.len() <= usize::MAX,
                266 * n <= buf@.len(),
                i <= n,
                records@.len() == i,
                wal_live_count(buf@, 0) == wal_live_count(buf@, i as int),
                forall|j: int| #![trigger records@[j]] 0 <= j < i ==> {
                    let rec = records@[j];
                    &&& record_wf(rec)
                    &&& rec.real_flag == 1
                    &&& rec.key@ == buf@.subrange(266 * j + 1, 266 * j + 9)
                    &&& rec.delete_flag == buf@[266 * j + 9]
                    &&& rec.value@ == buf@.subrange(266 * j + 10, 266 * j + 266)
                },
            ensures
                records@.len() == wal_live_count(buf@, 0),
                forall|j: int| #![trigger records@[j]] 0 <= j < records@.len() ==> {
                    let rec = records@[j];
                    &&& record_wf(rec)
                    &&& rec.real_flag == 1
                    &&& rec.key@ == buf@.subrange(266 * j + 1, 266 * j + 9)
                    &&& rec.delete_flag == buf@[266 * j + 9]
                    &&& rec.value@ == buf@.subrange(266 * j + 10, 266 * j + 266)
                },
            decreases n - i,
        {
            proof {
                assert(266 * (i + 1) <= 266 * n) by (nonlinear_arith)
                    requires i + 1 <= n;
                assert(266 * i + 266 <= buf@.len());
            }
            let base = 266 * i;
            if buf[base] != 1 {
                proof {
                    assert(wal_live_count(buf@, i as int) == i);
                }
                break;
            }
            let delete_flag = buf[base + 9];
            if delete_flag != 0 && delete_flag != 1 {
                proof {
                    assert(wal_live_count(buf@, i as int) == wal_live_count(buf@, i + 1));
                    lemma_wal_live_count_ge(buf@, i + 1);
                    assert(buf@[266 * (i as int) + 9] == delete_flag);
                }
                return Err(StorageError::LogFormatError);
            }
            let key = crate::request::copy_range(buf, base + 1, base + 9);
            let value = crate::request::copy_range(buf, base + 10, base + 266);
            records.push(RawRecord { real_flag: 1, key, delete_flag, value });
            proof {
                assert(wal_live_count(buf@, i as int) == wal_live_count(buf@, i + 1));
            }
            i = i + 1;
        }
        Ok(DatabaseLog { records })
    }
}

/// How many whole 266-byte records from position `i` on are live
/// before the first one whose live flag is clear (or the bytes run
/// out).
pub open spec fn wal_live_count(s: Seq<u8>, i: int) -> int
    decreases s.len() / 266 - i,
{
    if i < 0 || i >= s.len() / 266 {
        i
    } else if s[266 * i] != 1 {
        i
    } else {
        wal_live_count(s, i + 1)
    }
}

proof fn lemma_wal_live_count_ge(s: Seq<u8>, i: int)
    requires
        0 <= i,
    ensures
        wal_live_count(s, i) >= i,
    decreases s.len() / 266 - i,
{
    if i < s.len() / 266 && s[266 * i] == 1 {
        lemma_wal_live_count_ge(s, i + 1);
    }
}

/// The flat bytes of a record sequence.
pub open spec fn wal_bytes(records: Seq<RawRecord>) -> Seq<u8>
    decreases records.len(),
{
    if records.len() == 0 {
        Seq::empty()
    } else {
        record_bytes(records.first()) + wal_bytes(records.drop_first())
    }
}

/// The bytes of one PUT record, ready to append to a segment file.
pub fn put_record_bytes(key: &Slice, value: &Slice) -> (r: Vec<u8>)
    requires
        key@.len() <= 8,
        value@.len() <= 256,
    ensures
        r@ == seq![1u8] + pad_bytes(key@, 8) + seq![0u8] + pad_bytes(value@, 256),
{
    let mut out: Vec<u8> = Vec::new();
    out.push(1);
    crate::sstable::append_padded(&mut out, key, 8);
    out.push(0);
    crate::sstable::append_padded(&mut out, value, 256);
    proof {
        assert(out@ =~= seq![1u8] + pad_bytes(key@, 8) + seq![0u8] + pad_bytes(value@, 256));
    }
    out
}

/// The bytes of one DELETE record: a tombstone with an all-NUL value.
pub fn delete_record_bytes(key: &Slice) -> (r: Vec<u8>)
    requires
        key@.len() <= 8,
    ensures
        r@ == seq![1u8] + pad_bytes(key@, 8) + seq![1u8] + pad_bytes(Seq::<u8>::empty(), 256),
{
    let mut out: Vec<u8> = Vec::new();
    out.push(1);
    crate::sstable::append_padded(&mut out, key, 8);
    out.push(1);
    let empty = Slice::empty();
    crate::sstable::append_padded(&mut out, &empty, 256);
    proof {
        assert(out@ =~= seq![1u8] + pad_bytes(key@, 8) + seq![1u8] + pad_bytes(
            Seq::<u8>::empty(),
            256,
        ));
    }
    out
}

/// Replaying the commands a segment hands out leaves exactly the map
/// the segment's records denote: the two replay readings agree. This
/// holds by the record-to-command correspondence that `iter` ensures.
pub proof fn lemma_commands_match_records(cmds: Seq<Command>, records: Seq<RawRecord>)
    requires
        cmds.len() == records.len(),
        forall|i: int| #![trigger cmds[i]] 0 <= i < cmds.len() ==> {
            let rec = records[i];
            if rec.delete_flag == 1 {
                cmds[i] matches Command::DELETE(c) && c.key@ == rec.key@
            } else {
                cmds[i] matches Command::PUT(c) && c.key@ == rec.key@ && c.value@ == rec.value@
            }
        },
    ensures
        replay_map(cmds) == records_replay_map(records),
    decreases cmds.len(),
{
    if cmds.len() > 0 {
        lemma_commands_match_records(cmds.drop_last(), records.drop_last());
        assert(cmds[cmds.len() - 1] == cmds.last());
    }
}

} // verus!
