//! The storage engine: the write-ahead log, the active memtable, the
//! frozen memtables awaiting a flush, and the table registry, glued
//! into one key-value store.
//!
//! Reads probe the sources newest first: the active memtable, then the
//! frozen ones front to back, then the tables level by level. A
//! tombstone anywhere on that path hides everything older.

use vstd::prelude::*;

use crate::database_log::DatabaseLog;
use crate::error::{DatabaseError, DatabaseResult, StorageError, StorageResult};
use crate::manifest_manager::{lift_table, maps_chain, ManifestManager};
use crate::mem_database::{MemDatabase, Value, MEM_DATABASE_THRESHOLD};
use crate::merge::input_views;
use crate::slice::{key_le, key_lt, Slice};
use crate::sstable::SSTable;

verus! {

/// How many frozen memtables may queue before a write flushes one
/// inline instead of waiting for the background worker.
pub const MAX_FROZEN: usize = 64;

/// What a completed flush leaves for the caller to persist: the new
/// level-0 table's id and bytes, and the id of the retired log
/// segment.
pub struct FlushOutcome {
    pub table_id: u8,
    pub table_bytes: Vec<u8>,
    pub log_id: u64,
}

/// Chooses how a store is put together.
pub struct DatabaseBuilder {
    base_dir: Vec<u8>,
    restore: bool,
}

impl DatabaseBuilder {
    /// The stock builder: recovery on, the conventional directory.
    pub fn new() -> (r: DatabaseBuilder)
        ensures
            r.spec_restore(),
    {
        DatabaseBuilder { base_dir: Vec::new(), restore: true }
    }

    pub closed spec fn spec_restore(self) -> bool {
        self.restore
    }

    pub closed spec fn spec_base_dir(self) -> Seq<u8> {
        self.base_dir@
    }

    /// Whether an existing directory should be replayed on start.
    pub fn restore(&mut self, restore: bool)
        ensures
            final(self).spec_restore() == restore,
            final(self).spec_base_dir() == old(self).spec_base_dir(),
    {
        self.restore = restore;
    }

    /// Where the store keeps its files; the caller does the I/O.
    pub fn base_dir(&mut self, base_dir: Vec<u8>)
        ensures
            final(self).spec_base_dir() == base_dir@,
            final(self).spec_restore() == old(self).spec_restore(),
    {
        self.base_dir = base_dir;
    }

    pub fn should_restore(&self) -> (r: bool)
        ensures
            r == self.spec_restore(),
    {
        self.restore
    }

    /// Builds a fresh, empty store. Replaying an existing directory is
    /// the caller's I/O: it parses the files and hands them to
    /// `Database::from_recovery`.
    pub fn build(&self) -> (r: StorageResult<Database>)
        ensures
            r matches Ok(db) && db.wf() && !db.write_stuck() && db.spec_mem().op_count() == 0
                && db.spec_log_counter() == 0 && db.spec_pending().len() == 0 && forall|k: Seq<u8>|
                db.lookup(k) is None,
    {
        Ok(Database::new())
    }
}

/// The payload maps of a frozen-memtable queue, front (newest) first.
pub open spec fn frozen_maps(fr: Seq<MemDatabase>) -> Seq<Map<Seq<u8>, Option<Seq<u8>>>> {
    Seq::new(fr.len(), |i: int| fr[i]@)
}

/// Keys and values a memtable may hold: the record widths of the log.
pub open spec fn mem_bounded(m: Map<Seq<u8>, Option<Seq<u8>>>) -> bool {
    forall|k: Seq<u8>| #[trigger] m.contains_key(k) ==> k.len() <= 8 && (m[k] matches Some(v)
        ==> v.len() <= 256)
}

/// The engine.
pub struct Database {
    mem_database: MemDatabase,
    database_log: DatabaseLog,
    frozen_databases: Vec<MemDatabase>,
    frozen_logs: Vec<(u64, DatabaseLog)>,
    log_counter: u64,
    manifest_manager: ManifestManager,
    pending_outcomes: Vec<FlushOutcome>,
}

impl Database {
    pub closed spec fn spec_mem(self) -> MemDatabase {
        self.mem_database
    }

    pub closed spec fn spec_log(self) -> DatabaseLog {
        self.database_log
    }

    pub closed spec fn spec_frozen(self) -> Seq<MemDatabase> {
        self.frozen_databases@
    }

    pub closed spec fn spec_frozen_logs(self) -> Seq<(u64, DatabaseLog)> {
        self.frozen_logs@
    }

    pub closed spec fn spec_manifest(self) -> ManifestManager {
        self.manifest_manager
    }

    pub closed spec fn spec_log_counter(self) -> u64 {
        self.log_counter
    }

    /// The persistence jobs finished flushes have queued for the
    /// caller, oldest first.
    pub closed spec fn spec_pending(self) -> Seq<FlushOutcome> {
        self.pending_outcomes@
    }

    /// Every source of values, in probe order: the active memtable,
    /// the frozen queue front to back, then the tables.
    pub open spec fn source_maps(self) -> Seq<Map<Seq<u8>, Option<Seq<u8>>>> {
        seq![self.spec_mem()@] + frozen_maps(self.spec_frozen())
            + self.spec_manifest().table_maps()
    }

    /// What the store as a whole holds for a key: nothing, a
    /// tombstone, or a value.
    pub open spec fn lookup(self, k: Seq<u8>) -> Option<Option<Seq<u8>>> {
        maps_chain(self.source_maps(), 0, k)
    }

    /// Everything well-formedness asks for apart from the two size
    /// caps the write path enforces.
    pub open spec fn wf_base(self) -> bool {
        &&& self.spec_mem().wf()
        &&& self.spec_log().wf()
        &&& self.spec_mem()@ == self.spec_log().replay()
        &&& mem_bounded(self.spec_mem()@)
        &&& self.spec_frozen().len() == self.spec_frozen_logs().len()
        &&& forall|i: int| 0 <= i < self.spec_frozen().len() ==> {
            &&& (#[trigger] self.spec_frozen()[i]).wf()
            &&& self.spec_frozen_logs()[i].1.wf()
            &&& self.spec_frozen()[i]@ == self.spec_frozen_logs()[i].1.replay()
            &&& self.spec_frozen()[i].op_count() <= MEM_DATABASE_THRESHOLD + 1
            &&& mem_bounded(self.spec_frozen()[i]@)
        }
        &&& self.spec_manifest().wf()
    }

    pub open spec fn wf(self) -> bool {
        &&& self.wf_base()
        &&& self.spec_mem().op_count() <= MEM_DATABASE_THRESHOLD
        &&& self.spec_frozen().len() <= MAX_FROZEN
    }

    /// An empty store.
    pub fn new() -> (r: Database)
        ensures
            r.wf(),
            forall|k: Seq<u8>| r.lookup(k) is None,
            r.spec_frozen().len() == 0,
            r.spec_log().spec_records().len() == 0,
            r.spec_manifest().spec_log().len() == 0,
            r.spec_mem().op_count() == 0,
            r.spec_log_counter() == 0,
            r.spec_manifest().spec_counter(0) == 0,
            r.spec_pending().len() == 0,
            !r.write_stuck(),
    {
        let db = Database {
            mem_database: MemDatabase::new(),
            database_log: DatabaseLog::create_new(),
            frozen_databases: Vec::new(),
            frozen_logs: Vec::new(),
            log_counter: 0,
            manifest_manager: ManifestManager::create_new(),
            pending_outcomes: Vec::new(),
        };
        proof {
            assert forall|k: Seq<u8>| db.lookup(k) is None by {
                let all = db.source_maps();
                assert(all.len() == 1);
                assert(all[0] == db.spec_mem()@);
                assert(!db.spec_mem()@.contains_key(k));
                assert(maps_chain(all, 1, k) is None);
                assert(maps_chain(all, 0, k) is None);
            }
        }
        db
    }

    /// Rebuilds a store from recovered pieces: the active log, the
    /// rotated logs newest first, and the recovered table registry.
    /// The memtables are replayed from the logs, so the rebuilt store
    /// holds exactly what the logs and tables say.
    pub fn from_recovery(
        active_log: DatabaseLog,
        rotated: Vec<(u64, DatabaseLog)>,
        manifest: ManifestManager,
        log_counter: u64,
    ) -> (r: StorageResult<Database>)
        requires
            active_log.wf(),
            manifest.wf(),
            forall|i: int| 0 <= i < rotated@.len() ==> (#[trigger] rotated@[i]).1.wf(),
        ensures
            match r {
                Ok(db) => {
                    &&& db.wf()
                    &&& db.spec_mem()@ == active_log.replay()
                    &&& db.spec_mem().op_count() == active_log.spec_records().len()
                    &&& db.spec_log() == active_log
                    &&& db.spec_log_counter() == log_counter
                    &&& db.spec_frozen().len() == rotated@.len()
                    &&& forall|i: int| 0 <= i < rotated@.len() ==> (#[trigger] db.spec_frozen()[i])@
                        == rotated@[i].1.replay()
                    &&& db.spec_manifest() == manifest
                    &&& db.spec_pending().len() == 0
                },
                Err(e) => e is LogFormatError && (rotated@.len() > MAX_FROZEN
                    || active_log.spec_records().len() > 4096 || exists|i: int|
                    0 <= i < rotated@.len() && (#[trigger] rotated@[i]).1.spec_records().len()
                    > 4097),
            },
    {
        if rotated.len() > MAX_FROZEN {
            return Err(StorageError::LogFormatError);
        }
        let active_cmds = active_log.iter();
        if active_cmds.len() > 4096 {
            proof {
                assert(active_log.spec_records().len() > 4096);
            }
            return Err(StorageError::LogFormatError);
        }
        let mem = MemDatabase::restore_from_iterator(&active_cmds);
        proof {
            assert(mem@ == active_log.replay());
            lemma_replay_bounded(active_log.spec_records());
        }
        let mut frozen: Vec<MemDatabase> = Vec::new();
        let mut i: usize = 0;
        while i < rotated.len()
            invariant
                i <= rotated@.len(),
                forall|j: int| 0 <= j < rotated@.len() ==> (#[trigger] rotated@[j]).1.wf(),
                frozen@.len() == i,
                forall|j: int| 0 <= j < i ==> {
                    &&& (#[trigger] frozen@[j]).wf()
                    &&& frozen@[j]@ == rotated@[j].1.replay()
                    &&& frozen@[j].op_count() <= MEM_DATABASE_THRESHOLD + 1
                    &&& mem_bounded(frozen@[j]@)
                },
            decreases rotated@.len() - i,
        {
            let cmds = rotated[i].1.iter();
            if cmds.len() > 4097 {
                proof {
                    assert(rotated@[i as int].1.spec_records().len() > 4097);
                }
                return Err(StorageError::LogFormatError);
            }
            let m = MemDatabase::restore_from_iterator(&cmds);
            proof {
                assert(m@ == rotated@[i as int].1.replay());
                lemma_replay_bounded(rotated@[i as int].1.spec_records());
            }
            frozen.push(m);
            i = i + 1;
        }
        Ok(
            Database {
                mem_database: mem,
                database_log: active_log,
                frozen_databases: frozen,
                frozen_logs: rotated,
                log_counter,
                manifest_manager: manifest,
                pending_outcomes: Vec::new(),
            },
        )
    }

    /// The value of `key`: the freshest write anywhere in the store,
    /// with a tombstone reported as "key not found".
    pub fn get(&self, key: Slice) -> (r: DatabaseResult<Slice>)
        requires
            self.wf(),
        ensures
            match r {
                Ok(v) => self.lookup(key@) == Some(Some(v@)),
                Err(e) => e is KeyNotFound && (self.lookup(key@) is None || self.lookup(key@)
                    == Some(None::<Seq<u8>>)),
            },
    {
        let ghost all = self.source_maps();
        match self.mem_database.lookup(&key) {
            Some(v) => {
                proof {
                    assert(all[0] == self.spec_mem()@);
                }
                match v {
                    Value::Slice(s) => Ok(s.clone()),
                    Value::NotExist => Err(DatabaseError::KeyNotFound),
                }
            },
            None => {
                proof {
                    assert(all[0] == self.spec_mem()@);
                }
                let mut i: usize = 0;
                let n = self.frozen_databases.len();
                while i < n
                    invariant
                        self.wf(),
                        i <= n,
                        n == self.spec_frozen().len(),
                        all == self.source_maps(),
                        maps_chain(all, 0, key@) == maps_chain(all, 1 + i, key@),
                        1 + i <= all.len(),
                    decreases n - i,
                {
                    proof {
                        assert(all[1 + i] == frozen_maps(self.spec_frozen())[i as int]);
                        assert(all[1 + i] == self.spec_frozen()[i as int]@);
                    }
                    match self.frozen_databases[i].lookup(&key) {
                        Some(v) => {
                            match v {
                                Value::Slice(s) => {
                                    return Ok(s.clone());
                                },
                                Value::NotExist => {
                                    return Err(DatabaseError::KeyNotFound);
                                },
                            }
                        },
                        None => {
                            i = i + 1;
                        },
                    }
                }
                proof {
                    crate::manifest_manager::lemma_maps_chain_shift(
                        seq![self.spec_mem()@] + frozen_maps(self.spec_frozen()),
                        self.spec_manifest().table_maps(),
                        0,
                        key@,
                    );
                    assert((seq![self.spec_mem()@] + frozen_maps(self.spec_frozen()))
                        + self.spec_manifest().table_maps() =~= all);
                }
                match self.manifest_manager.find_key(&key) {
                    Some(v) => Ok(v),
                    None => Err(DatabaseError::KeyNotFound),
                }
            },
        }
    }

    /// Whether a write can be taken at all: only a store whose table
    /// ids, rotation counters and frozen queue are all exhausted at
    /// once must refuse.
    pub open spec fn write_stuck(self) -> bool {
        self.spec_mem().op_count() == MEM_DATABASE_THRESHOLD && (self.spec_frozen().len()
            == MAX_FROZEN && self.spec_manifest().spec_counter(0) == 255
            || self.spec_log_counter() == u64::MAX)
    }

    /// Binds `key` to `value`: the write is logged, applied to the
    /// memtable, and the memtable is rotated once it is full.
    pub fn put(&mut self, key: Slice, value: Slice) -> (r: DatabaseResult<()>)
        requires
            old(self).wf(),
            key@.len() == 8,
            value@.len() == 256,
        ensures
            final(self).wf(),
            match r {
                Ok(_) => {
                    &&& !old(self).write_stuck()
                    &&& final(self).lookup(key@) == Some(Some(value@))
                    &&& forall|k: Seq<u8>| k != key@ ==> (final(self).lookup(k) == old(self).lookup(k) || old(self).lookup(k) == Some(None::<Seq<u8>>))
                    &&& (old(self).spec_mem().op_count() < MEM_DATABASE_THRESHOLD || old(self).spec_frozen().len() < MAX_FROZEN) ==> forall|k: Seq<u8>| k != key@
                        ==> final(self).lookup(k) == old(self).lookup(k)
                    &&& (old(self).spec_mem().op_count() == MEM_DATABASE_THRESHOLD ==> final(self).spec_frozen().len() >= 1)
                    &&& old(self).spec_pending().is_prefix_of(final(self).spec_pending())
                    &&& ({
                        let appended = if final(self).spec_log().spec_records().len() > 0 {
                            final(self).spec_log().spec_records()
                        } else {
                            final(self).spec_frozen_logs()[0].1.spec_records()
                        };
                        &&& (final(self).spec_log().spec_records().len() == 0 ==> final(self).spec_frozen_logs().len() > 0)
                        &&& appended.len() == old(self).spec_log().spec_records().len() + 1
                        &&& appended.drop_last() == old(self).spec_log().spec_records()
                        &&& appended.last().real_flag == 1
                        &&& appended.last().delete_flag == 0
                        &&& appended.last().key@ == key@
                        &&& appended.last().value@ == value@
                    })
                },
                Err(e) => e is InternalError && old(self).write_stuck() && *final(self) == *old(
                    self
                ),
            },
    {
        if self.mem_database.len() >= MEM_DATABASE_THRESHOLD && (self.frozen_databases.len()
            >= MAX_FROZEN && self.manifest_manager.next_table_id(0) >= 255 || self.log_counter
            == u64::MAX) {
            return Err(DatabaseError::InternalError);
        }
        if self.mem_database.len() >= MEM_DATABASE_THRESHOLD && self.frozen_databases.len()
            >= MAX_FROZEN {
            let _ = self.flush_one();
        }
        let ghost pre = *self;
        let ghost kv = key@;
        let ghost vv = value@;
        let _ = self.database_log.put_sync(&key, &value);
        let _ = self.mem_database.put_sync(key, value);
        proof {
            assert(crate::sstable::pad_bytes(kv, 8) =~= kv);
            assert(crate::sstable::pad_bytes(vv, 256) =~= vv);
            assert(self.spec_mem()@ == self.spec_log().replay());
            lemma_lookup_after_mem_update(pre, *self, kv, Some(vv));
            assert(self.spec_frozen().len() < MAX_FROZEN || old(self).spec_mem().op_count()
                < MEM_DATABASE_THRESHOLD);
        }
        self.check_mem_database();
        Ok(())
    }

    /// Writes a tombstone for `key`: logged and applied like any other
    /// write, also when the key was never bound.
    pub fn delete(&mut self, key: Slice) -> (r: DatabaseResult<()>)
        requires
            old(self).wf(),
            key@.len() == 8,
        ensures
            final(self).wf(),
            match r {
                Ok(_) => {
                    &&& !old(self).write_stuck()
                    &&& final(self).lookup(key@) == Some(None::<Seq<u8>>)
                    &&& forall|k: Seq<u8>| k != key@ ==> (final(self).lookup(k) == old(self).lookup(k) || old(self).lookup(k) == Some(None::<Seq<u8>>))
                    &&& (old(self).spec_mem().op_count() == MEM_DATABASE_THRESHOLD ==> final(self).spec_frozen().len() >= 1)
                    &&& old(self).spec_pending().is_prefix_of(final(self).spec_pending())
                    &&& ({
                        let appended = if final(self).spec_log().spec_records().len() > 0 {
                            final(self).spec_log().spec_records()
                        } else {
                            final(self).spec_frozen_logs()[0].1.spec_records()
                        };
                        &&& (final(self).spec_log().spec_records().len() == 0 ==> final(self).spec_frozen_logs().len() > 0)
                        &&& appended.len() == old(self).spec_log().spec_records().len() + 1
                        &&& appended.drop_last() == old(self).spec_log().spec_records()
                        &&& appended.last().real_flag == 1
                        &&& appended.last().delete_flag == 1
                        &&& appended.last().key@ == key@
                    })
                },
                Err(e) => e is InternalError && old(self).write_stuck() && *final(self) == *old(
                    self
                ),
            },
    {
        if self.mem_database.len() >= MEM_DATABASE_THRESHOLD && (self.frozen_databases.len()
            >= MAX_FROZEN && self.manifest_manager.next_table_id(0) >= 255 || self.log_counter
            == u64::MAX) {
            return Err(DatabaseError::InternalError);
        }
        if self.mem_database.len() >= MEM_DATABASE_THRESHOLD && self.frozen_databases.len()
            >= MAX_FROZEN {
            let _ = self.flush_one();
        }
        let ghost pre = *self;
        let ghost kv = key@;
        let _ = self.database_log.delete_sync(&key);
        let _ = self.mem_database.delete_sync(key);
        proof {
            assert(crate::sstable::pad_bytes(kv, 8) =~= kv);
            assert(self.spec_mem()@ == self.spec_log().replay());
            lemma_lookup_after_mem_update(pre, *self, kv, None);
            assert(self.spec_frozen().len() < MAX_FROZEN || old(self).spec_mem().op_count()
                < MEM_DATABASE_THRESHOLD);
        }
        self.check_mem_database();
        Ok(())
    }

    /// Rotates a full memtable: the log is retired under a fresh
    /// segment id, the memtable joins the frozen queue, and an
    /// overfull queue flushes its oldest member inline.
    fn check_mem_database(&mut self)
        requires
            old(self).wf_base(),
            old(self).spec_frozen().len() <= MAX_FROZEN,
            old(self).spec_mem().op_count() <= MEM_DATABASE_THRESHOLD + 1,
            old(self).spec_mem().op_count() > MEM_DATABASE_THRESHOLD ==> (old(self).spec_frozen().len() < MAX_FROZEN && old(self).spec_log_counter() < u64::MAX),
        ensures
            final(self).wf(),
            forall|k: Seq<u8>| final(self).lookup(k) == old(self).lookup(k),
            old(self).spec_mem().op_count() <= MEM_DATABASE_THRESHOLD ==> *final(self) == *old(
                self
            ),
            old(self).spec_mem().op_count() > MEM_DATABASE_THRESHOLD ==> {
                &&& final(self).spec_log().spec_records().len() == 0
                &&& final(self).spec_frozen_logs() == seq![
                    (old(self).spec_log_counter(), old(self).spec_log()),
                ] + old(self).spec_frozen_logs()
                &&& final(self).spec_frozen().len() == old(self).spec_frozen().len() + 1
                &&& final(self).spec_pending() == old(self).spec_pending()
                &&& final(self).spec_manifest() == old(self).spec_manifest()
            },
    {
        if !self.mem_database.large_enough() {
            return;
        }
        let ghost pre = *self;
        let mut fresh_mem = MemDatabase::new();
        core::mem::swap(&mut self.mem_database, &mut fresh_mem);
        let mut fresh_log = DatabaseLog::create_new();
        core::mem::swap(&mut self.database_log, &mut fresh_log);
        let log_id = self.log_counter;
        self.log_counter = self.log_counter + 1;
        self.frozen_databases.insert(0, fresh_mem);
        self.frozen_logs.insert(0, (log_id, fresh_log));
        proof {
            assert(self.spec_frozen_logs() =~= seq![(pre.spec_log_counter(), pre.spec_log())]
                + pre.spec_frozen_logs());
            assert forall|k: Seq<u8>| self.lookup(k) == pre.lookup(k) by {
                let old_all = pre.source_maps();
                let new_all = self.source_maps();
                assert(new_all =~= seq![self.spec_mem()@] + old_all);
                assert(!self.spec_mem()@.contains_key(k));
                assert(maps_chain(new_all, 0, k) == maps_chain(new_all, 1, k));
                crate::manifest_manager::lemma_maps_chain_shift(
                    seq![self.spec_mem()@],
                    old_all,
                    0,
                    k,
                );
            }
            assert forall|i: int| 0 <= i < self.spec_frozen().len() implies {
                &&& (#[trigger] self.spec_frozen()[i]).wf()
                &&& self.spec_frozen_logs()[i].1.wf()
                &&& self.spec_frozen()[i]@ == self.spec_frozen_logs()[i].1.replay()
                &&& self.spec_frozen()[i].op_count() <= MEM_DATABASE_THRESHOLD + 1
                &&& mem_bounded(self.spec_frozen()[i]@)
            } by {
                if i > 0 {
                    assert(self.spec_frozen()[i] == pre.spec_frozen()[i - 1]);
                    assert(self.spec_frozen_logs()[i] == pre.spec_frozen_logs()[i - 1]);
                }
            }
        }
    }

    /// All live keys in `[start, end)` with the store's value for each,
    /// ascending: the per-source scans merged newest-first, tombstones
    /// shadowing and then dropped.
    pub fn scan(&self, start: Slice, end: Slice) -> (r: Vec<(Slice, Slice)>)
        requires
            self.wf(),
        ensures
            forall|p: int| #![trigger r@[p]] 0 <= p < r@.len() ==> ((self.lookup(r@[p].0@)
                == Some(Some(r@[p].1@))) && key_le(start@, r@[p].0@) && key_lt(r@[p].0@, end@)),
            forall|p: int, q: int| 0 <= p < q < r@.len() ==> key_lt(
                (#[trigger] r@[p]).0@,
                (#[trigger] r@[q]).0@,
            ),
            forall|k: Seq<u8>| #![trigger self.lookup(k)] key_le(start@, k) && key_lt(k, end@)
                && (self.lookup(k) matches Some(pv) && pv is Some) ==> exists|q: int|
                0 <= q < r@.len() && (#[trigger] r@[q]).0@ == k,
    {
        let ghost all = self.source_maps();
        let mut inputs: Vec<Vec<(Slice, Value)>> = Vec::new();
        inputs.push(self.mem_database.scan_with_tombstones(&start, &end));
        proof {
            assert(all[0] == self.spec_mem()@);
            assert(inputs@[0]@.len() <= 0x1_0000_0000);
        }
        let n = self.frozen_databases.len();
        let mut i: usize = 0;
        while i < n
            invariant
                self.wf(),
                i <= n,
                n == self.spec_frozen().len(),
                all == self.source_maps(),
                inputs@.len() == 1 + i,
                forall|j: int, p: int| #![trigger inputs@[j]@[p]] 0 <= j < inputs@.len() && 0 <= p
                    < inputs@[j]@.len() ==> (all[j].contains_key(inputs@[j]@[p].0@)
                    && inputs@[j]@[p].1@ == all[j][inputs@[j]@[p].0@] && key_le(
                    start@,
                    inputs@[j]@[p].0@,
                ) && key_lt(inputs@[j]@[p].0@, end@)),
                forall|j: int, p: int, q: int| #![trigger inputs@[j]@[p], inputs@[j]@[q]]
                    0 <= j < inputs@.len() && 0 <= p < q < inputs@[j]@.len() ==> key_lt(
                    inputs@[j]@[p].0@,
                    inputs@[j]@[q].0@,
                ),
                forall|j: int, k: Seq<u8>| #![trigger all[j].contains_key(k)]
                    0 <= j < inputs@.len() && all[j].contains_key(k) && key_le(start@, k)
                    && key_lt(k, end@) ==> exists|p: int| 0 <= p < inputs@[j]@.len() && (
                #[trigger] inputs@[j]@[p]).0@ == k,
                forall|j: int| 0 <= j < inputs@.len() ==> (#[trigger] inputs@[j])@.len()
                    <= 0x1_0000_0000,
            decreases n - i,
        {
            proof {
                assert(all[1 + i] == frozen_maps(self.spec_frozen())[i as int]);
                assert(all[1 + i] == self.spec_frozen()[i as int]@);
            }
            let listing = self.frozen_databases[i].scan_with_tombstones(&start, &end);
            let ghost lv = listing@;
            let ghost old_inputs = inputs@;
            inputs.push(listing);
            proof {
                assert(inputs@[inputs@.len() - 1]@ == lv);
                assert(lv.len() <= 0x1_0000_0000);
                assert forall|j: int, k: Seq<u8>| #![trigger all[j].contains_key(k)]
                    0 <= j < inputs@.len() && all[j].contains_key(k) && key_le(start@, k)
                    && key_lt(k, end@) implies exists|p: int| 0 <= p < inputs@[j]@.len() && (
                #[trigger] inputs@[j]@[p]).0@ == k by {
                    if j < inputs@.len() - 1 {
                        assert(inputs@[j] == old_inputs[j]);
                        let p = choose|p: int| 0 <= p < old_inputs[j]@.len() && (
                        #[trigger] old_inputs[j]@[p]).0@ == k;
                        assert(inputs@[j]@[p].0@ == k);
                    } else {
                        assert(all[j] == self.spec_frozen()[i as int]@);
                        let p = choose|p: int| 0 <= p < lv.len() && (#[trigger] lv[p]).0@ == k;
                        assert(inputs@[j]@[p].0@ == k);
                    }
                }
            }
            i = i + 1;
        }
        let mut tail = self.manifest_manager.scan_inputs(&start, &end);
        let ghost tail_v = tail@;
        let ghost head_v = inputs@;
        inputs.append(&mut tail);
        proof {
            assert(inputs@ == head_v + tail_v);
            assert(all.len() == 1 + n + self.spec_manifest().table_maps().len());
            assert(inputs@.len() == all.len());
            self.spec_manifest().lemma_table_count();
            assert(inputs@.len() <= 2048);
            assert forall|j: int| 1 + n <= j < all.len() implies #[trigger] all[j]
                == self.spec_manifest().table_maps()[j - (1 + n)] by {}
            assert forall|j: int, p: int| #![trigger inputs@[j]@[p]] 0 <= j < inputs@.len()
                && 0 <= p < inputs@[j]@.len() implies (all[j].contains_key(inputs@[j]@[p].0@)
                && inputs@[j]@[p].1@ == all[j][inputs@[j]@[p].0@] && key_le(
                start@,
                inputs@[j]@[p].0@,
            ) && key_lt(inputs@[j]@[p].0@, end@)) by {
                if j < 1 + n {
                    assert(inputs@[j] == head_v[j]);
                } else {
                    assert(inputs@[j] == tail_v[j - (1 + n)]);
                    assert(tail_v[j - (1 + n)]@[p] == inputs@[j]@[p]);
                }
            }
            assert forall|j: int, p: int, q: int| #![trigger inputs@[j]@[p], inputs@[j]@[q]]
                0 <= j < inputs@.len() && 0 <= p < q < inputs@[j]@.len() implies key_lt(
                inputs@[j]@[p].0@,
                inputs@[j]@[q].0@,
            ) by {
                if j < 1 + n {
                    assert(inputs@[j] == head_v[j]);
                } else {
                    assert(inputs@[j] == tail_v[j - (1 + n)]);
                }
            }
            assert forall|j: int, k: Seq<u8>| #![trigger all[j].contains_key(k)]
                0 <= j < inputs@.len() && all[j].contains_key(k) && key_le(start@, k) && key_lt(
                k,
                end@,
            ) implies exists|p: int| 0 <= p < inputs@[j]@.len() && (#[trigger] inputs@[j]@[p]).0@
                == k by {
                if j < 1 + n {
                    assert(inputs@[j] == head_v[j]);
                    let p = choose|p: int| 0 <= p < head_v[j]@.len() && (
                    #[trigger] head_v[j]@[p]).0@ == k;
                    assert(inputs@[j]@[p].0@ == k);
                } else {
                    assert(inputs@[j] == tail_v[j - (1 + n)]);
                    let jj = j - (1 + n);
                    assert(self.spec_manifest().table_maps()[jj].contains_key(k));
                    let p = choose|p: int| 0 <= p < tail_v[jj]@.len() && (
                    #[trigger] tail_v[jj]@[p]).0@ == k;
                    assert(inputs@[j]@[p].0@ == k);
                }
            }
            assert forall|j: int| 0 <= j < inputs@.len() implies (#[trigger] inputs@[j])@.len()
                <= 0x1_0000_0000 by {
                if j < 1 + n {
                    assert(inputs@[j] == head_v[j]);
                } else {
                    assert(inputs@[j] == tail_v[j - (1 + n)]);
                }
            }
            assert(input_views(inputs@).len() == all.len());
        }
        crate::merge::merge_sources(inputs, Ghost(all), Ghost(start@), Ghost(end@))
    }

    /// How many frozen memtables wait for a flush.
    pub fn pending_flush(&self) -> (r: usize)
        ensures
            r == self.spec_frozen().len(),
    {
        self.frozen_databases.len()
    }

    /// Takes the next persistence job a finished flush left behind:
    /// the queued outcomes come out in order, and `None` only when the
    /// queue is empty. Nothing else of the store changes.
    pub fn take_flush_outcome(&mut self) -> (r: Option<FlushOutcome>)
        requires
            old(self).wf(),
        ensures
            final(self).wf(),
            final(self).spec_mem() == old(self).spec_mem(),
            final(self).spec_log() == old(self).spec_log(),
            final(self).spec_frozen() == old(self).spec_frozen(),
            final(self).spec_frozen_logs() == old(self).spec_frozen_logs(),
            final(self).spec_manifest() == old(self).spec_manifest(),
            final(self).spec_log_counter() == old(self).spec_log_counter(),
            forall|k: Seq<u8>| final(self).lookup(k) == old(self).lookup(k),
            match r {
                Some(outcome) => old(self).spec_pending().len() > 0 && outcome == old(
                    self
                ).spec_pending().first() && final(self).spec_pending() == old(
                    self
                ).spec_pending().drop_first(),
                None => old(self).spec_pending().len() == 0 && final(self).spec_pending() == old(
                    self
                ).spec_pending(),
            },
    {
        if self.pending_outcomes.len() > 0 {
            Some(self.pending_outcomes.remove(0))
        } else {
            None
        }
    }

    /// Flushes the oldest frozen memtable into a fresh level-0 table
    /// and retires its log segment. Only a key whose freshest write
    /// was the flushed tombstone can change its answer: the dropped
    /// tombstone no longer hides older tables.
    pub fn flush_one(&mut self) -> (r: StorageResult<bool>)
        requires
            old(self).wf(),
        ensures
            final(self).wf(),
            match r {
                Ok(flushed) => {
                    &&& flushed == (old(self).spec_frozen().len() > 0)
                    &&& final(self).spec_mem() == old(self).spec_mem()
                    &&& final(self).spec_log() == old(self).spec_log()
                    &&& final(self).spec_log_counter() == old(self).spec_log_counter()
                    &&& final(self).spec_frozen().len() == (if flushed {
                        old(self).spec_frozen().len() - 1
                    } else {
                        old(self).spec_frozen().len() as int
                    })
                    &&& forall|k: Seq<u8>| final(self).lookup(k) == old(self).lookup(k) || old(self).lookup(k) == Some(None::<Seq<u8>>)
                    &&& (!flushed ==> *final(self) == *old(self))
                    &&& (flushed ==> final(self).spec_manifest().spec_log() == old(self).spec_manifest().spec_log() + seq![
                        crate::manifest_manager::RawManifestLogEntry {
                            real_flag: 1,
                            add_flag: 1,
                            level: 0,
                            id: old(self).spec_manifest().spec_counter(0),
                        },
                    ])
                    &&& (flushed ==> {
                        &&& final(self).spec_frozen() == old(self).spec_frozen().drop_last()
                        &&& final(self).spec_frozen_logs() == old(
                            self
                        ).spec_frozen_logs().drop_last()
                        &&& final(self).spec_pending().len() == old(self).spec_pending().len() + 1
                        &&& final(self).spec_pending().drop_last() == old(self).spec_pending()
                        &&& ({
                            let outcome = final(self).spec_pending().last();
                            let table = final(self).spec_manifest().spec_levels()[0][0].1;
                            let oldest = old(self).spec_frozen().last();
                            &&& outcome.table_id == old(self).spec_manifest().spec_counter(0)
                            &&& outcome.log_id == old(self).spec_frozen_logs().last().0
                            &&& outcome.table_bytes@ == crate::sstable::freeze_bytes(
                                table.spec_pairs(),
                            )
                            &&& table.wf()
                            &&& (forall|k: Seq<u8>| #[trigger] table@.contains_key(k) <==> (
                            oldest@.contains_key(k) && oldest@[k] is Some))
                            &&& (forall|k: Seq<u8>| #[trigger] table@.contains_key(k)
                                ==> oldest@[k] == Some(table@[k]))
                        })
                    })
                },
                Err(e) => e is LevelCounterExhausted && old(self).spec_frozen().len() > 0 && old(
                    self
                ).spec_manifest().spec_counter(0) == 255 && *final(self) == *old(self),
            },
    {
        let flen = self.frozen_databases.len();
        if flen == 0 {
            return Ok(false);
        }
        let table_id = self.manifest_manager.next_table_id(0);
        if table_id >= 255 {
            return Err(StorageError::LevelCounterExhausted);
        }
        let ghost pre = *self;
        let oldest = self.frozen_databases.pop().unwrap();
        let (log_id, _old_log) = self.frozen_logs.pop().unwrap();
        let table = SSTable::from_mem(&oldest);
        let table_bytes = table.freeze();
        proof {
            assert(oldest == pre.spec_frozen()[pre.spec_frozen().len() - 1]);
            assert(table.spec_pairs().len() <= 0x1_0000_0000);
        }
        let ghost table_spec = table;
        self.manifest_manager.add_table(0, table_id, table);
        self.manifest_manager.log_add(0, table_id);
        self.pending_outcomes.push(FlushOutcome { table_id, table_bytes, log_id });
        proof {
            assert(self.spec_manifest().spec_levels()[0][0].1 == table_spec);
            assert(self.spec_frozen() =~= pre.spec_frozen().drop_last());
            assert(self.spec_frozen_logs() =~= pre.spec_frozen_logs().drop_last());
            assert(self.spec_pending().drop_last() =~= pre.spec_pending());
            assert(log_id == pre.spec_frozen_logs().last().0);
            let ghost om = oldest@;
            assert forall|k: Seq<u8>| final(self).lookup(k) == pre.lookup(k) || pre.lookup(k)
                == Some(None::<Seq<u8>>) by {
                lemma_flush_lookup(pre, *self, oldest, table@, k);
            }
            assert forall|i: int| 0 <= i < self.spec_frozen().len() implies {
                &&& (#[trigger] self.spec_frozen()[i]).wf()
                &&& self.spec_frozen_logs()[i].1.wf()
                &&& self.spec_frozen()[i]@ == self.spec_frozen_logs()[i].1.replay()
                &&& self.spec_frozen()[i].op_count() <= MEM_DATABASE_THRESHOLD + 1
                &&& mem_bounded(self.spec_frozen()[i]@)
            } by {
                assert(self.spec_frozen()[i] == pre.spec_frozen()[i]);
                assert(self.spec_frozen_logs()[i] == pre.spec_frozen_logs()[i]);
            }
        }
        Ok(true)
    }
}

/// Applying the same write twice leaves the same observable map as
/// applying it once.
pub proof fn lemma_put_idempotent(
    m: Map<Seq<u8>, Option<Seq<u8>>>,
    k: Seq<u8>,
    v: Option<Seq<u8>>,
)
    ensures
        m.insert(k, v).insert(k, v) == m.insert(k, v),
{
    assert(m.insert(k, v).insert(k, v) =~= m.insert(k, v));
}

/// Replaying the write-ahead log of a well-formed store yields, as a
/// map, exactly the memtable beside it: the active segment matches the
/// active memtable, and each rotated segment its frozen memtable.
pub proof fn lemma_wal_replay_matches_memtable(db: Database)
    requires
        db.wf(),
    ensures
        db.spec_log().replay() == db.spec_mem()@,
        forall|i: int| 0 <= i < db.spec_frozen().len() ==> db.spec_frozen_logs()[i].1.replay() == (
        #[trigger] db.spec_frozen()[i])@,
{
}

/// No scan result carries its upper bound: the range is half open.
pub proof fn lemma_scan_excludes_upper(r: Seq<(Slice, Slice)>, start: Seq<u8>, end: Seq<u8>)
    requires
        forall|p: int| 0 <= p < r.len() ==> key_lt((#[trigger] r[p]).0@, end),
    ensures
        forall|p: int| 0 <= p < r.len() ==> (#[trigger] r[p]).0@ != end,
{
    assert forall|p: int| 0 <= p < r.len() implies (#[trigger] r[p]).0@ != end by {
        if r[p].0@ == end {
            crate::slice::lemma_key_lt_irrefl(end);
        }
    }
}

/// A zero-length range holds nothing: no key is at or above the bound
/// and strictly below it at once.
pub proof fn lemma_scan_empty_range(r: Seq<(Slice, Slice)>, bound: Seq<u8>)
    requires
        forall|p: int| 0 <= p < r.len() ==> key_le(bound, (#[trigger] r[p]).0@) && key_lt(
            r[p].0@,
            bound,
        ),
    ensures
        r.len() == 0,
{
    if r.len() > 0 {
        assert(key_le(bound, r[0].0@) && key_lt(r[0].0@, bound));
        crate::slice::lemma_key_lt_le_trans(r[0].0@, bound, r[0].0@);
        crate::slice::lemma_key_lt_irrefl(r[0].0@);
    }
}

/// A replayed log only holds keys and values of record width.
proof fn lemma_replay_bounded(records: Seq<crate::database_log::RawRecord>)
    requires
        forall|i: int| 0 <= i < records.len() ==> crate::database_log::record_wf(
            #[trigger] records[i],
        ),
    ensures
        mem_bounded(crate::database_log::records_replay_map(records)),
    decreases records.len(),
{
    if records.len() > 0 {
        lemma_replay_bounded(records.drop_last());
        assert(crate::database_log::record_wf(records[records.len() - 1]));
    }
}

/// A completed write is what reads see: binding a key in the active
/// memtable makes the store answer that binding for the key, and
/// leaves every other key's answer untouched until something rebinds
/// it.
pub proof fn lemma_lookup_after_mem_update(
    pre: Database,
    post: Database,
    key: Seq<u8>,
    payload: Option<Seq<u8>>,
)
    requires
        post.spec_mem()@ == pre.spec_mem()@.insert(key, payload),
        post.spec_frozen() == pre.spec_frozen(),
        post.spec_manifest() == pre.spec_manifest(),
    ensures
        post.lookup(key) == Some(payload),
        forall|k: Seq<u8>| k != key ==> post.lookup(k) == pre.lookup(k),
{
    let old_all = pre.source_maps();
    let new_all = post.source_maps();
    assert(new_all.len() == old_all.len());
    assert(new_all[0] == post.spec_mem()@);
    assert(post.spec_mem()@.contains_key(key));
    assert(post.lookup(key) == Some(payload));
    assert forall|k: Seq<u8>| k != key implies post.lookup(k) == pre.lookup(k) by {
        assert(forall|j: int| 1 <= j < new_all.len() ==> #[trigger] new_all[j] == old_all[j]);
        lemma_chain_tail_equal(old_all, new_all, 1, k);
        assert(new_all[0].contains_key(k) == old_all[0].contains_key(k));
        if old_all[0].contains_key(k) {
            assert(new_all[0][k] == old_all[0][k]);
        }
    }
}

/// Two chains over maps that agree from a position on agree there.
proof fn lemma_chain_tail_equal(
    a: Seq<Map<Seq<u8>, Option<Seq<u8>>>>,
    b: Seq<Map<Seq<u8>, Option<Seq<u8>>>>,
    j: int,
    k: Seq<u8>,
)
    requires
        a.len() == b.len(),
        0 <= j,
        forall|u: int| j <= u < a.len() ==> #[trigger] a[u] == b[u],
    ensures
        maps_chain(a, j, k) == maps_chain(b, j, k),
    decreases a.len() - j,
{
    if j < a.len() {
        lemma_chain_tail_equal(a, b, j + 1, k);
    }
}

/// What a flush does to the probe chain: the oldest frozen map is
/// replaced by its live submap, so only a key whose first hit was that
/// map's tombstone changes, and it falls through to the older tables.
proof fn lemma_flush_lookup(
    pre: Database,
    post: Database,
    oldest: MemDatabase,
    tm: Map<Seq<u8>, Seq<u8>>,
    k: Seq<u8>,
)
    requires
        pre.spec_frozen().len() > 0,
        oldest == pre.spec_frozen()[pre.spec_frozen().len() - 1],
        post.spec_mem() == pre.spec_mem(),
        post.spec_frozen() == pre.spec_frozen().drop_last(),
        post.spec_manifest().table_maps() == seq![lift_table(tm)]
            + pre.spec_manifest().table_maps(),
        forall|kk: Seq<u8>| #[trigger] lift_table(tm).contains_key(kk) <==> (oldest@.contains_key(
            kk,
        ) && oldest@[kk] is Some),
        forall|kk: Seq<u8>| #[trigger] lift_table(tm).contains_key(kk) ==> lift_table(tm)[kk]
            == oldest@[kk],
    ensures
        post.lookup(k) == pre.lookup(k) || pre.lookup(k) == Some(None::<Seq<u8>>),
{
    let pre_head = seq![pre.spec_mem()@] + frozen_maps(pre.spec_frozen().drop_last());
    let pre_all = pre.source_maps();
    let post_all = post.source_maps();
    assert(pre_all =~= pre_head + (seq![oldest@] + pre.spec_manifest().table_maps()));
    assert(post_all =~= pre_head + (seq![lift_table(tm)] + pre.spec_manifest().table_maps()));
    crate::manifest_manager::lemma_maps_chain_concat(
        pre_head,
        seq![oldest@] + pre.spec_manifest().table_maps(),
        k,
    );
    crate::manifest_manager::lemma_maps_chain_concat(
        pre_head,
        seq![lift_table(tm)] + pre.spec_manifest().table_maps(),
        k,
    );
    crate::manifest_manager::lemma_maps_chain_concat(
        seq![oldest@],
        pre.spec_manifest().table_maps(),
        k,
    );
    crate::manifest_manager::lemma_maps_chain_concat(
        seq![lift_table(tm)],
        pre.spec_manifest().table_maps(),
        k,
    );
    assert(pre.lookup(k) == (match maps_chain(pre_head, 0, k) {
        Some(v) => Some(v),
        None => maps_chain(seq![oldest@] + pre.spec_manifest().table_maps(), 0, k),
    }));
    assert(post.lookup(k) == (match maps_chain(pre_head, 0, k) {
        Some(v) => Some(v),
        None => maps_chain(seq![lift_table(tm)] + pre.spec_manifest().table_maps(), 0, k),
    }));
    if maps_chain(pre_head, 0, k) is Some {
    } else {
        assert(maps_chain(seq![oldest@], 0, k) == (if oldest@.contains_key(k) {
            Some(oldest@[k])
        } else {
            Option::<Option<Seq<u8>>>::None
        })) by {
            if !oldest@.contains_key(k) {
                assert(maps_chain(seq![oldest@], 1, k) is None);
            }
        }
        assert(maps_chain(seq![lift_table(tm)], 0, k) == (if lift_table(tm).contains_key(k) {
            Some(lift_table(tm)[k])
        } else {
            Option::<Option<Seq<u8>>>::None
        })) by {
            if !lift_table(tm).contains_key(k) {
                assert(maps_chain(seq![lift_table(tm)], 1, k) is None);
            }
        }
        if oldest@.contains_key(k) {
            match oldest@[k] {
                Some(v) => {
                    assert(lift_table(tm).contains_key(k));
                    assert(lift_table(tm)[k] == Some(v));
                },
                None => {
                    assert(pre.lookup(k) == Some(None::<Seq<u8>>));
                },
            }
        } else {
            assert(!lift_table(tm).contains_key(k));
        }
    }
}

} // verus!
