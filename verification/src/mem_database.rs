//! The in-memory store: the ordered write buffer with tombstones.
//!
//! A delete is recorded as a tombstone write, so the buffer denotes a
//! map from keys to either a value or a tombstone. Reads report a
//! tombstone as "key not found"; scans skip tombstones.

use vstd::prelude::*;

use crate::error::{DatabaseError, DatabaseResult};
use crate::request::Command;
use crate::skipmap::SkipMap;
use crate::slice::{key_le, key_lt, Slice};

verus! {

/// The payload of one write: a proper value, or the tombstone left by
/// a delete.
pub enum Value {
    NotExist,
    Slice(Slice),
}

impl View for Value {
    type V = Option<Seq<u8>>;

    open spec fn view(&self) -> Option<Seq<u8>> {
        match self {
            Value::NotExist => None,
            Value::Slice(s) => Some(s@),
        }
    }
}

impl Clone for Value {
    fn clone(&self) -> (r: Self)
        ensures
            r@ == self@,
    {
        match self {
            Value::NotExist => Value::NotExist,
            Value::Slice(s) => Value::Slice(s.clone()),
        }
    }
}

/// The threshold above which a memtable is frozen and queued for a
/// flush, counted in writes applied.
pub const MEM_DATABASE_THRESHOLD: u64 = 4 * 1024;

/// The map a sequence of replayed commands leaves behind: a PUT binds
/// its key to the value, a DELETE binds its key to a tombstone.
pub open spec fn replay_map(cmds: Seq<Command>) -> Map<Seq<u8>, Option<Seq<u8>>>
    decreases cmds.len(),
{
    if cmds.len() == 0 {
        Map::empty()
    } else {
        let m = replay_map(cmds.drop_last());
        match cmds.last() {
            Command::PUT(c) => m.insert(c.key@, Some(c.value@)),
            Command::DELETE(c) => m.insert(c.key@, None),
            _ => m,
        }
    }
}

/// The in-memory store backing the engine's write path.
pub struct MemDatabase {
    inner: SkipMap<Value>,
}

impl View for MemDatabase {
    type V = Map<Seq<u8>, Option<Seq<u8>>>;

    closed spec fn view(&self) -> Map<Seq<u8>, Option<Seq<u8>>> {
        Map::new(
            |k: Seq<u8>| self.inner@.contains_key(k),
            |k: Seq<u8>| self.inner@[k]@,
        )
    }
}

impl MemDatabase {
    pub closed spec fn wf(self) -> bool {
        self.inner.wf()
    }

    /// How many writes this store has taken.
    pub closed spec fn op_count(self) -> u64 {
        self.inner.op_count()
    }

    /// An empty store.
    pub fn new() -> (r: MemDatabase)
        ensures
            r.wf(),
            r@ == Map::<Seq<u8>, Option<Seq<u8>>>::empty(),
            r.op_count() == 0,
    {
        let r = MemDatabase { inner: SkipMap::new(0) };
        proof {
            assert(r@ =~= Map::<Seq<u8>, Option<Seq<u8>>>::empty());
        }
        r
    }

    /// The freshest payload written for `key`, if any write happened.
    pub fn lookup(&self, key: &Slice) -> (r: Option<&Value>)
        requires
            self.wf(),
        ensures
            match r {
                Some(v) => self@.contains_key(key@) && v@ == self@[key@],
                None => !self@.contains_key(key@),
            },
    {
        self.inner.find(key)
    }

    /// The value of `key`, or `KeyNotFound` when it was never written
    /// or its last write was a delete.
    pub fn get_sync(&self, key: Slice) -> (r: DatabaseResult<Slice>)
        requires
            self.wf(),
        ensures
            match r {
                Ok(v) => self@.contains_key(key@) && self@[key@] == Some(v@),
                Err(e) => e is KeyNotFound && (!self@.contains_key(key@) || self@[key@] is None),
            },
    {
        match self.inner.find(&key) {
            Some(v) => match v {
                Value::Slice(s) => Ok(s.clone()),
                Value::NotExist => Err(DatabaseError::KeyNotFound),
            },
            None => Err(DatabaseError::KeyNotFound),
        }
    }

    /// Binds `key` to `value`; always succeeds.
    pub fn put_sync(&mut self, key: Slice, value: Slice) -> (r: DatabaseResult<()>)
        requires
            old(self).wf(),
            old(self).op_count() < u64::MAX,
        ensures
            final(self).wf(),
            final(self)@ == old(self)@.insert(key@, Some(value@)),
            final(self).op_count() == old(self).op_count() + 1,
            r is Ok,
    {
        self.inner.insert(&key, Value::Slice(value));
        proof {
            assert(final(self)@ =~= old(self)@.insert(key@, Some(value@)));
        }
        Ok(())
    }

    /// Writes a tombstone for `key`; always succeeds, also when the key
    /// was never written.
    pub fn delete_sync(&mut self, key: Slice) -> (r: DatabaseResult<()>)
        requires
            old(self).wf(),
            old(self).op_count() < u64::MAX,
        ensures
            final(self).wf(),
            final(self)@ == old(self)@.insert(key@, None),
            final(self).op_count() == old(self).op_count() + 1,
            r is Ok,
    {
        self.inner.insert(&key, Value::NotExist);
        proof {
            assert(final(self)@ =~= old(self)@.insert(key@, None));
        }
        Ok(())
    }

    /// All live keys in `[start, end)` with their values, ascending,
    /// tombstones skipped.
    pub fn scan_sync(&self, start: Slice, end: Slice) -> (r: Vec<(Slice, Slice)>)
        requires
            self.wf(),
        ensures
            forall|p: int| 0 <= p < r@.len() ==> {
                &&& self@.contains_key((#[trigger] r@[p]).0@)
                &&& self@[r@[p].0@] == Some(r@[p].1@)
                &&& key_le(start@, r@[p].0@)
                &&& key_lt(r@[p].0@, end@)
            },
            forall|p: int, q: int| 0 <= p < q < r@.len() ==> key_lt(
                (#[trigger] r@[p]).0@,
                (#[trigger] r@[q]).0@,
            ),
            forall|k: Seq<u8>| #![trigger self@.contains_key(k)] self@.contains_key(k)
                && self@[k] is Some && key_le(start@, k) && key_lt(k, end@)
                ==> exists|p: int| 0 <= p < r@.len() && (#[trigger] r@[p]).0@ == k,
    {
        let pairs = self.inner.scan(&start, &end);
        let (out, idxs) = filter_live(&pairs);
        proof {
            assert forall|p: int| 0 <= p < out@.len() implies {
                &&& self@.contains_key((#[trigger] out@[p]).0@)
                &&& self@[out@[p].0@] == Some(out@[p].1@)
                &&& key_le(start@, out@[p].0@)
                &&& key_lt(out@[p].0@, end@)
            } by {
                let src = idxs@[p];
                assert(pairs@[src].0@ == out@[p].0@);
                assert(pairs@[src].1@ == Some(out@[p].1@));
                assert(self.inner@.contains_key(pairs@[src].0@));
                assert(pairs@[src].1 == self.inner@[pairs@[src].0@]);
            }
            assert forall|k: Seq<u8>| self@.contains_key(k) && self@[k] is Some
                && key_le(start@, k) && key_lt(k, end@) implies exists|p: int|
                0 <= p < out@.len() && (#[trigger] out@[p]).0@ == k by {
                assert(self.inner@.contains_key(k));
                let pp = choose|pp: int| 0 <= pp < pairs@.len() && (#[trigger] pairs@[pp]).0@ == k;
                assert(pairs@[pp].1 == self.inner@[k]);
                assert(pairs@[pp].1@ is Some);
                let q = choose|q: int| 0 <= q < out@.len() && idxs@[q] == pp;
                assert(out@[q].0@ == pairs@[pp].0@);
                assert(out@[q].0@ == k);
            }
        }
        out
    }

    /// All keys in `[start, end)` with their freshest payloads,
    /// tombstones included — the engine's merged scans need to see
    /// deletions so they can shadow older sources.
    pub fn scan_with_tombstones(&self, start: &Slice, end: &Slice) -> (r: Vec<(Slice, Value)>)
        requires
            self.wf(),
        ensures
            forall|p: int| 0 <= p < r@.len() ==> {
                &&& self@.contains_key((#[trigger] r@[p]).0@)
                &&& self@[r@[p].0@] == r@[p].1@
                &&& key_le(start@, r@[p].0@)
                &&& key_lt(r@[p].0@, end@)
            },
            forall|p: int, q: int| 0 <= p < q < r@.len() ==> key_lt(
                (#[trigger] r@[p]).0@,
                (#[trigger] r@[q]).0@,
            ),
            forall|k: Seq<u8>| #![trigger self@.contains_key(k)] self@.contains_key(k)
                && key_le(start@, k) && key_lt(k, end@)
                ==> exists|p: int| 0 <= p < r@.len() && (#[trigger] r@[p]).0@ == k,
            r@.len() <= self.op_count(),
    {
        let pairs = self.inner.scan(start, end);
        let mut out: Vec<(Slice, Value)> = Vec::new();
        let mut i: usize = 0;
        while i < pairs.len()
            invariant
                i <= pairs@.len(),
                out@.len() == i,
                forall|p: int| 0 <= p < i ==> (#[trigger] out@[p]).0@ == pairs@[p].0@
                    && out@[p].1@ == pairs@[p].1@,
                forall|p: int| 0 <= p < pairs@.len() ==> {
                    &&& self@.contains_key((#[trigger] pairs@[p]).0@)
                    &&& pairs@[p].1@ == self@[pairs@[p].0@]
                    &&& key_le(start@, pairs@[p].0@)
                    &&& key_lt(pairs@[p].0@, end@)
                },
            decreases pairs@.len() - i,
        {
            let pair = (pairs[i].0.clone(), pairs[i].1.clone());
            out.push(pair);
            i = i + 1;
        }
        proof {
            assert forall|k: Seq<u8>| self@.contains_key(k) && key_le(start@, k) && key_lt(k, end@)
                implies exists|p: int| 0 <= p < out@.len() && (#[trigger] out@[p]).0@ == k by {
                let p = choose|p: int| 0 <= p < pairs@.len() && (#[trigger] pairs@[p]).0@ == k;
                assert(out@[p].0@ == k);
            }
        }
        out
    }

    /// Every live pair of the store, ascending by key — what a flush
    /// writes out.
    pub fn all_live_pairs(&self) -> (r: Vec<(Slice, Slice)>)
        requires
            self.wf(),
        ensures
            forall|p: int| 0 <= p < r@.len() ==> {
                &&& self@.contains_key((#[trigger] r@[p]).0@)
                &&& self@[r@[p].0@] == Some(r@[p].1@)
            },
            forall|p: int, q: int| 0 <= p < q < r@.len() ==> key_lt(
                (#[trigger] r@[p]).0@,
                (#[trigger] r@[q]).0@,
            ),
            forall|k: Seq<u8>| #![trigger self@.contains_key(k)] self@.contains_key(k)
                && self@[k] is Some
                ==> exists|p: int| 0 <= p < r@.len() && (#[trigger] r@[p]).0@ == k,
            r@.len() <= self.op_count(),
    {
        let pairs = self.inner.scan_all();
        let (out, idxs) = filter_live(&pairs);
        proof {
            assert forall|p: int| 0 <= p < out@.len() implies {
                &&& self@.contains_key((#[trigger] out@[p]).0@)
                &&& self@[out@[p].0@] == Some(out@[p].1@)
            } by {
                let src = idxs@[p];
                assert(pairs@[src].0@ == out@[p].0@);
                assert(pairs@[src].1@ == Some(out@[p].1@));
                assert(self.inner@.contains_key(pairs@[src].0@));
                assert(pairs@[src].1 == self.inner@[pairs@[src].0@]);
            }
            assert forall|k: Seq<u8>| self@.contains_key(k) && self@[k] is Some implies
                exists|p: int| 0 <= p < out@.len() && (#[trigger] out@[p]).0@ == k by {
                assert(self.inner@.contains_key(k));
                let pp = choose|pp: int| 0 <= pp < pairs@.len() && (#[trigger] pairs@[pp]).0@ == k;
                assert(pairs@[pp].1 == self.inner@[k]);
                assert(pairs@[pp].1@ is Some);
                let q = choose|q: int| 0 <= q < out@.len() && idxs@[q] == pp;
                assert(out@[q].0@ == pairs@[pp].0@);
                assert(out@[q].0@ == k);
            }
        }
        out
    }

    /// Rebuilds a store by replaying a recovered command sequence in
    /// order. Only writes can be replayed: a log holds no reads.
    pub fn restore_from_iterator(commands: &Vec<Command>) -> (r: MemDatabase)
        requires
            forall|i: int| 0 <= i < commands@.len() ==> ((#[trigger] commands@[i]) is PUT
                || commands@[i] is DELETE),
            commands@.len() < u64::MAX,
        ensures
            r.wf(),
            r@ == replay_map(commands@),
            r.op_count() == commands@.len(),
    {
        let mut db = MemDatabase::new();
        let mut i: usize = 0;
        while i < commands.len()
            invariant
                i <= commands@.len(),
                commands@.len() < u64::MAX,
                forall|j: int| 0 <= j < commands@.len() ==> ((#[trigger] commands@[j]) is PUT
                    || commands@[j] is DELETE),
                db.wf(),
                db@ == replay_map(commands@.take(i as int)),
                db.op_count() == i,
            decreases commands@.len() - i,
        {
            proof {
                assert(commands@.take(i + 1).drop_last() =~= commands@.take(i as int));
                assert(commands@.take(i + 1).last() == commands@[i as int]);
            }
            match &commands[i] {
                Command::PUT(c) => {
                    let _ = db.put_sync(c.key.clone(), c.value.clone());
                },
                Command::DELETE(c) => {
                    let _ = db.delete_sync(c.key.clone());
                },
                Command::GET(_) => {
                    proof {
                        assert(false);
                    }
                },
                Command::SCAN(_) => {
                    proof {
                        assert(false);
                    }
                },
            }
            i = i + 1;
        }
        proof {
            assert(commands@.take(commands@.len() as int) =~= commands@);
        }
        db
    }

    /// How many writes this store has taken.
    pub fn len(&self) -> (r: u64)
        ensures
            r == self.op_count(),
    {
        self.inner.len()
    }

    /// Whether this memtable has seen enough writes to be frozen.
    pub fn large_enough(&self) -> (r: bool)
        ensures
            r == (self.op_count() > MEM_DATABASE_THRESHOLD),
    {
        self.inner.len() > MEM_DATABASE_THRESHOLD
    }
}

/// Keeps the live pairs of a strictly key-sorted payload listing,
/// dropping the tombstones. Beside the pairs it returns, for the
/// proofs' sake, the position each kept pair came from.
fn filter_live(pairs: &Vec<(Slice, &Value)>) -> (r: (Vec<(Slice, Slice)>, Ghost<Seq<int>>))
    requires
        forall|p: int, q: int| 0 <= p < q < pairs@.len() ==> key_lt(
            (#[trigger] pairs@[p]).0@,
            (#[trigger] pairs@[q]).0@,
        ),
    ensures
        r.1@.len() == r.0@.len(),
        r.0@.len() <= pairs@.len(),
        forall|q: int| #![trigger r.0@[q]] 0 <= q < r.0@.len() ==> {
            &&& 0 <= r.1@[q] < pairs@.len()
            &&& pairs@[r.1@[q]].0@ == r.0@[q].0@
            &&& pairs@[r.1@[q]].1@ == Some(r.0@[q].1@)
        },
        forall|p: int, q: int| 0 <= p < q < r.0@.len() ==> key_lt(
            (#[trigger] r.0@[p]).0@,
            (#[trigger] r.0@[q]).0@,
        ),
        forall|p: int| 0 <= p < pairs@.len() && (#[trigger] pairs@[p]).1@ is Some
            ==> exists|q: int| 0 <= q < r.0@.len() && r.1@[q] == p,
{
    let mut out: Vec<(Slice, Slice)> = Vec::new();
    let ghost mut idxs: Seq<int> = Seq::empty();
    let mut i: usize = 0;
    while i < pairs.len()
        invariant
            i <= pairs@.len(),
            out@.len() <= i,
            idxs.len() == out@.len(),
            forall|q: int| 0 <= q < idxs.len() ==> 0 <= #[trigger] idxs[q] < i,
            forall|q: int| #![trigger out@[q]] 0 <= q < idxs.len() ==> pairs@[idxs[q]].0@
                == out@[q].0@ && pairs@[idxs[q]].1@ == Some(out@[q].1@),
            forall|q1: int, q2: int| 0 <= q1 < q2 < idxs.len() ==> #[trigger] idxs[q1]
                < #[trigger] idxs[q2],
            forall|p: int| 0 <= p < i && (#[trigger] pairs@[p]).1@ is Some ==> exists|q: int|
                0 <= q < idxs.len() && #[trigger] idxs[q] == p,
        decreases pairs@.len() - i,
    {
        let ghost old_idxs = idxs;
        match pairs[i].1 {
            Value::Slice(s) => {
                let pair = (pairs[i].0.clone(), s.clone());
                out.push(pair);
                proof {
                    idxs = idxs.push(i as int);
                    assert(idxs[idxs.len() - 1] == i as int);
                    assert forall|p: int| 0 <= p < i + 1 && (#[trigger] pairs@[p]).1@ is Some
                        implies exists|q: int| 0 <= q < idxs.len() && #[trigger] idxs[q] == p by {
                        if p < i {
                            let q = choose|q: int| 0 <= q < old_idxs.len() && #[trigger] old_idxs[q]
                                == p;
                            assert(idxs[q] == p);
                        } else {
                            assert(idxs[idxs.len() - 1] == p);
                        }
                    }
                }
            },
            Value::NotExist => {
                proof {
                    assert(pairs@[i as int].1@ is None);
                }
            },
        }
        i = i + 1;
    }
    proof {
        assert forall|p: int, q: int| 0 <= p < q < out@.len() implies key_lt(
            (#[trigger] out@[p]).0@,
            (#[trigger] out@[q]).0@,
        ) by {
            assert(idxs[p] < idxs[q]);
            assert(key_lt(pairs@[idxs[p]].0@, pairs@[idxs[q]].0@));
        }
    }
    (out, Ghost(idxs))
}

} // verus!
