//! Immutable sorted tables: the on-disk form of a flushed memtable.
//!
//! A table is a flat array of fixed-width records, 8 key bytes and 256
//! value bytes each, sorted by key with one record per key. Lookups
//! binary-search; scans walk a key range.

use vstd::prelude::*;

use crate::error::{DatabaseError, DatabaseResult, StorageError, StorageResult};
use crate::mem_database::{MemDatabase, Value};
use crate::slice::{
    key_le, key_lt, lemma_key_le_lt_trans, lemma_key_lt_irrefl, lemma_key_lt_le_trans,
    lemma_key_lt_total, lemma_key_lt_trans, slice_key_eq, slice_key_le, slice_key_lt, Slice,
};

verus! {

/// The fixed record width: 8 key bytes and 256 value bytes.
pub const PART_LENGTH: usize = 256 + 8;

pub open spec fn pairs_sorted(s: Seq<(Slice, Slice)>) -> bool {
    forall|i: int, j: int| 0 <= i < j < s.len() ==> key_lt(
        (#[trigger] s[i]).0@,
        (#[trigger] s[j]).0@,
    )
}

pub open spec fn pairs_bounded(s: Seq<(Slice, Slice)>) -> bool {
    forall|i: int| 0 <= i < s.len() ==> (#[trigger] s[i]).0@.len() <= 8 && s[i].1@.len() <= 256
}

/// The map denoted by a listing of pairs; with sorted keys each key
/// occurs once, so the first occurrence wins harmlessly.
pub open spec fn pairs_map(s: Seq<(Slice, Slice)>) -> Map<Seq<u8>, Seq<u8>>
    decreases s.len(),
{
    if s.len() == 0 {
        Map::empty()
    } else {
        pairs_map(s.drop_first()).insert(s[0].0@, s[0].1@)
    }
}

pub proof fn lemma_pairs_map_contains(s: Seq<(Slice, Slice)>, k: Seq<u8>)
    ensures
        pairs_map(s).contains_key(k) <==> exists|j: int| 0 <= j < s.len() && (#[trigger] s[j]).0@
            == k,
    decreases s.len(),
{
    if s.len() > 0 {
        lemma_pairs_map_contains(s.drop_first(), k);
        if s[0].0@ == k {
        } else if pairs_map(s).contains_key(k) {
            let j = choose|j: int| 0 <= j < s.drop_first().len() && (#[trigger] s.drop_first()[j]).0@
                == k;
            assert(s[j + 1].0@ == k);
        } else if exists|j: int| 0 <= j < s.len() && (#[trigger] s[j]).0@ == k {
            let j = choose|j: int| 0 <= j < s.len() && (#[trigger] s[j]).0@ == k;
            assert(s.drop_first()[j - 1].0@ == k);
        }
    }
}

pub proof fn lemma_pairs_map_value(s: Seq<(Slice, Slice)>, k: Seq<u8>, i: int)
    requires
        0 <= i < s.len(),
        s[i].0@ == k,
        forall|j: int| 0 <= j < i ==> (#[trigger] s[j]).0@ != k,
    ensures
        pairs_map(s).contains_key(k),
        pairs_map(s)[k] == s[i].1@,
    decreases i,
{
    if i > 0 {
        lemma_pairs_map_value(s.drop_first(), k, i - 1);
    }
}

/// With strictly sorted keys, an entry's value is the denoted value of
/// its key.
pub proof fn lemma_pairs_map_value_sorted(s: Seq<(Slice, Slice)>, i: int)
    requires
        pairs_sorted(s),
        0 <= i < s.len(),
    ensures
        pairs_map(s).contains_key(s[i].0@),
        pairs_map(s)[s[i].0@] == s[i].1@,
{
    assert forall|j: int| 0 <= j < i implies (#[trigger] s[j]).0@ != s[i].0@ by {
        if s[j].0@ == s[i].0@ {
            lemma_key_lt_irrefl(s[i].0@);
        }
    }
    lemma_pairs_map_value(s, s[i].0@, i);
}

/// What a table answers is exactly the map its pair listing denotes;
/// with `spec_pairs` this ties the query contracts to the records a
/// table was built or reopened from.
pub proof fn lemma_table_view(t: SSTable)
    ensures
        t@ == pairs_map(t.spec_pairs()),
{
}

/// An immutable sorted table of fixed-width pairs.
pub struct SSTable {
    kv_pairs: Vec<(Slice, Slice)>,
}

impl View for SSTable {
    type V = Map<Seq<u8>, Seq<u8>>;

    closed spec fn view(&self) -> Map<Seq<u8>, Seq<u8>> {
        pairs_map(self.kv_pairs@)
    }
}

impl SSTable {
    pub closed spec fn wf(self) -> bool {
        pairs_sorted(self.kv_pairs@) && pairs_bounded(self.kv_pairs@)
    }

    pub closed spec fn spec_pairs(self) -> Seq<(Slice, Slice)> {
        self.kv_pairs@
    }

    /// The number of records held.
    pub fn len(&self) -> (r: usize)
        ensures
            r == self.spec_pairs().len(),
    {
        self.kv_pairs.len()
    }

    /// Builds a table from a strictly key-sorted pair listing.
    pub fn from_sorted_pairs(pairs: Vec<(Slice, Slice)>) -> (r: SSTable)
        requires
            pairs_sorted(pairs@),
            pairs_bounded(pairs@),
        ensures
            r.wf(),
            r.spec_pairs() == pairs@,
            r@ == pairs_map(pairs@),
    {
        SSTable { kv_pairs: pairs }
    }

    /// Freezes the live contents of a memtable into a table: one record
    /// per live key, tombstoned keys dropped, keys ascending.
    pub fn from_mem(mem: &MemDatabase) -> (r: SSTable)
        requires
            mem.wf(),
            forall|k: Seq<u8>| #[trigger] mem@.contains_key(k) ==> k.len() <= 8 && (mem@[k] matches
                Some(v) ==> v.len() <= 256),
        ensures
            r.wf(),
            forall|k: Seq<u8>| #[trigger] r@.contains_key(k) <==> (mem@.contains_key(k) && mem@[k]
                is Some),
            forall|k: Seq<u8>| #[trigger] r@.contains_key(k) ==> mem@[k] == Some(r@[k]),
            r.spec_pairs().len() <= mem.op_count(),
    {
        let pairs = mem.all_live_pairs();
        let table = SSTable { kv_pairs: pairs };
        proof {
            let s = table.kv_pairs@;
            assert forall|k: Seq<u8>| #[trigger] table@.contains_key(k) implies mem@.contains_key(
                k,
            ) && mem@[k] == Some(table@[k]) by {
                lemma_pairs_map_contains(s, k);
                let j = choose|j: int| 0 <= j < s.len() && (#[trigger] s[j]).0@ == k;
                lemma_pairs_map_value_sorted(s, j);
            }
            assert forall|k: Seq<u8>| mem@.contains_key(k) && mem@[k] is Some implies
                #[trigger] table@.contains_key(k) by {
                let p = choose|p: int| 0 <= p < s.len() && (#[trigger] s[p]).0@ == k;
                lemma_pairs_map_contains(s, k);
            }
            assert forall|i: int| 0 <= i < s.len() implies (#[trigger] s[i]).0@.len() <= 8
                && s[i].1@.len() <= 256 by {
                assert(mem@.contains_key(s[i].0@) && mem@[s[i].0@] == Some(s[i].1@));
            }
        }
        table
    }

    /// The rightmost position whose key is at or below `key`, or the
    /// first position when every key lies above it.
    pub fn binary_search_by_key(&self, key: &Slice) -> (r: usize)
        requires
            self.wf(),
            self.spec_pairs().len() > 0,
        ensures
            r < self.spec_pairs().len(),
            forall|j: int| r < j < self.spec_pairs().len() ==> key_lt(
                key@,
                (#[trigger] self.spec_pairs()[j]).0@,
            ),
            key_le(self.spec_pairs()[r as int].0@, key@) || (r == 0 && key_lt(
                key@,
                self.spec_pairs()[0].0@,
            )),
    {
        let mut base: usize = 0;
        let mut size: usize = self.kv_pairs.len();
        while size > 1
            invariant
                self.wf(),
                size >= 1,
                self.kv_pairs@.len() <= usize::MAX,
                base + size <= self.kv_pairs@.len(),
                forall|j: int| base + size <= j < self.kv_pairs@.len() ==> key_lt(
                    key@,
                    (#[trigger] self.kv_pairs@[j]).0@,
                ),
                key_le(self.kv_pairs@[base as int].0@, key@) || base == 0,
            decreases size,
        {
            let half = size / 2;
            proof {
                assert(base + half <= self.kv_pairs@.len());
            }
            let mid = base + half;
            if slice_key_lt(key, &self.kv_pairs[mid].0) {
                proof {
                    assert forall|j: int| mid <= j < self.kv_pairs@.len() implies key_lt(
                        key@,
                        (#[trigger] self.kv_pairs@[j]).0@,
                    ) by {
                        if j > mid {
                            assert(key_lt(self.kv_pairs@[mid as int].0@, self.kv_pairs@[j].0@));
                            lemma_key_lt_trans(
                                key@,
                                self.kv_pairs@[mid as int].0@,
                                self.kv_pairs@[j].0@,
                            );
                        }
                    }
                }
                size = half;
            } else {
                proof {
                    if !key_lt(self.kv_pairs@[mid as int].0@, key@) {
                        lemma_key_lt_total(key@, self.kv_pairs@[mid as int].0@);
                    }
                }
                base = mid;
                size = size - half;
            }
        }
        proof {
            let p = self.kv_pairs@[base as int].0@;
            if !key_le(p, key@) && !key_lt(key@, p) {
                lemma_key_lt_total(p, key@);
            }
        }
        base
    }

    /// The value of `key`, or `KeyNotFound` when the table has no
    /// record for it.
    pub fn get_sync(&self, key: Slice) -> (r: DatabaseResult<Slice>)
        requires
            self.wf(),
        ensures
            match r {
                Ok(v) => self@.contains_key(key@) && self@[key@] == v@,
                Err(e) => e is KeyNotFound && !self@.contains_key(key@),
            },
    {
        let ghost s = self.kv_pairs@;
        if self.kv_pairs.len() == 0 {
            proof {
                lemma_pairs_map_contains(s, key@);
            }
            return Err(DatabaseError::KeyNotFound);
        }
        let index = self.binary_search_by_key(&key);
        if slice_key_eq(&self.kv_pairs[index].0, &key) {
            proof {
                lemma_pairs_map_value_sorted(s, index as int);
            }
            Ok(self.kv_pairs[index].1.clone())
        } else {
            proof {
                assert forall|j: int| 0 <= j < s.len() implies (#[trigger] s[j]).0@ != key@ by {
                    if s[j].0@ == key@ {
                        if j > index {
                            lemma_key_lt_irrefl(key@);
                        } else if j < index {
                            assert(key_lt(s[j].0@, s[index as int].0@));
                            if key_le(s[index as int].0@, key@) {
                                lemma_key_lt_le_trans(s[j].0@, s[index as int].0@, key@);
                                lemma_key_lt_irrefl(key@);
                            } else {
                                lemma_key_lt_irrefl(key@);
                            }
                        }
                    }
                }
                lemma_pairs_map_contains(s, key@);
            }
            Err(DatabaseError::KeyNotFound)
        }
    }

    /// All records with keys in `[start, end)`, ascending.
    pub fn scan_sync(&self, start: Slice, end: Slice) -> (r: Vec<(Slice, Slice)>)
        requires
            self.wf(),
        ensures
            forall|p: int| 0 <= p < r@.len() ==> {
                &&& self@.contains_key((#[trigger] r@[p]).0@)
                &&& self@[r@[p].0@] == r@[p].1@
                &&& key_le(start@, r@[p].0@)
                &&& key_lt(r@[p].0@, end@)
            },
            forall|p: int, q: int| 0 <= p < q < r@.len() ==> key_lt(
                (#[trigger] r@[p]).0@,
                (#[trigger] r@[q]).0@,
            ),
            forall|k: Seq<u8>| #![trigger self@.contains_key(k)] self@.contains_key(k)
                && key_le(start@, k) && key_lt(k, end@)
                ==> exists|p: int| 0 <= p < r@.len() && (#[trigger] r@[p]).0@ == k,
            r@.len() <= self.spec_pairs().len(),
    {
        let ghost s = self.kv_pairs@;
        let mut out: Vec<(Slice, Slice)> = Vec::new();
        let ghost mut idxs: Seq<int> = Seq::empty();
        let mut j: usize = 0;
        while j < self.kv_pairs.len()
            invariant
                self.wf(),
                s == self.kv_pairs@,
                j <= s.len(),
                idxs.len() == out@.len(),
                forall|q: int| 0 <= q < idxs.len() ==> 0 <= #[trigger] idxs[q] < j,
                forall|q: int| #![trigger out@[q]] 0 <= q < idxs.len() ==> (s[idxs[q]].0@
                    == out@[q].0@ && s[idxs[q]].1@ == out@[q].1@),
                forall|q1: int, q2: int| 0 <= q1 < q2 < idxs.len() ==> #[trigger] idxs[q1]
                    < #[trigger] idxs[q2],
                out@.len() <= j,
                forall|m: int| #![trigger s[m]] 0 <= m < j && key_le(start@, s[m].0@) && key_lt(
                    s[m].0@,
                    end@,
                ) ==> exists|q: int| 0 <= q < idxs.len() && #[trigger] idxs[q] == m,
                forall|q: int| 0 <= q < idxs.len() ==> (key_le(start@, (#[trigger] out@[q]).0@)
                    && key_lt(out@[q].0@, end@)),
            decreases s.len() - j,
        {
            let ghost old_idxs = idxs;
            let in_range = slice_key_le(&start, &self.kv_pairs[j].0) && slice_key_lt(
                &self.kv_pairs[j].0,
                &end,
            );
            if in_range {
                let pair = (self.kv_pairs[j].0.clone(), self.kv_pairs[j].1.clone());
                out.push(pair);
                proof {
                    idxs = idxs.push(j as int);
                    assert(idxs[idxs.len() - 1] == j as int);
                    assert forall|m: int| #![trigger s[m]] 0 <= m < j + 1 && key_le(
                        start@,
                        s[m].0@,
                    ) && key_lt(s[m].0@, end@) implies exists|q: int| 0 <= q < idxs.len()
                        && #[trigger] idxs[q] == m by {
                        if m < j {
                            let q = choose|q: int| 0 <= q < old_idxs.len() && #[trigger] old_idxs[q]
                                == m;
                            assert(idxs[q] == m);
                        } else {
                            assert(idxs[idxs.len() - 1] == m);
                        }
                    }
                }
            }
            j = j + 1;
        }
        proof {
            assert forall|p: int, q: int| 0 <= p < q < out@.len() implies key_lt(
                (#[trigger] out@[p]).0@,
                (#[trigger] out@[q]).0@,
            ) by {
                assert(idxs[p] < idxs[q]);
                assert(key_lt(s[idxs[p]].0@, s[idxs[q]].0@));
            }
            assert forall|p: int| 0 <= p < out@.len() implies self@.contains_key(
                (#[trigger] out@[p]).0@,
            ) && self@[out@[p].0@] == out@[p].1@ by {
                lemma_pairs_map_value_sorted(s, idxs[p]);
            }
            assert forall|k: Seq<u8>| self@.contains_key(k) && key_le(start@, k) && key_lt(
                k,
                end@,
            ) implies exists|p: int| 0 <= p < out@.len() && (#[trigger] out@[p]).0@ == k by {
                lemma_pairs_map_contains(s, k);
                let m = choose|m: int| 0 <= m < s.len() && (#[trigger] s[m]).0@ == k;
                let q = choose|q: int| 0 <= q < idxs.len() && #[trigger] idxs[q] == m;
                assert(out@[q].0@ == k);
            }
        }
        out
    }

    /// The scan result with its values wrapped as live payloads, the
    /// shape the engine's merged scans consume.
    pub fn scan_payloads(&self, start: &Slice, end: &Slice) -> (r: Vec<(Slice, Value)>)
        requires
            self.wf(),
        ensures
            forall|p: int| 0 <= p < r@.len() ==> {
                &&& self@.contains_key((#[trigger] r@[p]).0@)
                &&& r@[p].1@ == Some(self@[r@[p].0@])
                &&& key_le(start@, r@[p].0@)
                &&& key_lt(r@[p].0@, end@)
            },
            forall|p: int, q: int| 0 <= p < q < r@.len() ==> key_lt(
                (#[trigger] r@[p]).0@,
                (#[trigger] r@[q]).0@,
            ),
            forall|k: Seq<u8>| #![trigger self@.contains_key(k)] self@.contains_key(k)
                && key_le(start@, k) && key_lt(k, end@)
                ==> exists|p: int| 0 <= p < r@.len() && (#[trigger] r@[p]).0@ == k,
            r@.len() <= self.spec_pairs().len(),
    {
        let pairs = self.scan_sync(start.clone(), end.clone());
        let mut out: Vec<(Slice, Value)> = Vec::new();
        let mut i: usize = 0;
        while i < pairs.len()
            invariant
                i <= pairs@.len(),
                out@.len() == i,
                forall|p: int| 0 <= p < i ==> ((#[trigger] out@[p]).0@ == pairs@[p].0@ && out@[p].1@
                    == Some(pairs@[p].1@)),
                forall|p: int| 0 <= p < pairs@.len() ==> {
                    &&& self@.contains_key((#[trigger] pairs@[p]).0@)
                    &&& self@[pairs@[p].0@] == pairs@[p].1@
                    &&& key_le(start@, pairs@[p].0@)
                    &&& key_lt(pairs@[p].0@, end@)
                },
            decreases pairs@.len() - i,
        {
            let pair = (pairs[i].0.clone(), Value::Slice(pairs[i].1.clone()));
            out.push(pair);
            i = i + 1;
        }
        proof {
            assert forall|k: Seq<u8>| self@.contains_key(k) && key_le(start@, k) && key_lt(
                k,
                end@,
            ) implies exists|p: int| 0 <= p < out@.len() && (#[trigger] out@[p]).0@ == k by {
                let p = choose|p: int| 0 <= p < pairs@.len() && (#[trigger] pairs@[p]).0@ == k;
                assert(out@[p].0@ == k);
            }
        }
        out
    }
}

/// A byte string padded with NULs up to a record field's width.
pub open spec fn pad_bytes(s: Seq<u8>, width: nat) -> Seq<u8> {
    s + Seq::new((width - s.len()) as nat, |i: int| 0u8)
}

/// The flat record bytes of a pair listing.
pub open spec fn freeze_bytes(s: Seq<(Slice, Slice)>) -> Seq<u8>
    decreases s.len(),
{
    if s.len() == 0 {
        Seq::empty()
    } else {
        pad_bytes(s.first().0@, 8) + pad_bytes(s.first().1@, 256) + freeze_bytes(s.drop_first())
    }
}

impl SSTable {
    /// Serializes the table as flat fixed-width records: each key
    /// padded to 8 bytes, each value to 256.
    pub fn freeze(&self) -> (r: Vec<u8>)
        requires
            self.wf(),
        ensures
            r@ == freeze_bytes(self.spec_pairs()),
    {
        let ghost s = self.kv_pairs@;
        let mut out: Vec<u8> = Vec::new();
        let mut i: usize = 0;
        proof {
            assert(s.skip(0) =~= s);
        }
        while i < self.kv_pairs.len()
            invariant
                self.wf(),
                s == self.kv_pairs@,
                i <= s.len(),
                out@ + freeze_bytes(s.skip(i as int)) == freeze_bytes(s),
            decreases s.len() - i,
        {
            let ghost before = out@;
            append_padded(&mut out, &self.kv_pairs[i].0, 8);
            append_padded(&mut out, &self.kv_pairs[i].1, 256);
            proof {
                assert(s.skip(i as int).first() == s[i as int]);
                assert(s.skip(i as int).drop_first() =~= s.skip(i + 1));
                assert(freeze_bytes(s.skip(i as int)) == pad_bytes(s[i as int].0@, 8) + pad_bytes(
                    s[i as int].1@,
                    256,
                ) + freeze_bytes(s.skip(i + 1)));
                assert(out@ + freeze_bytes(s.skip(i + 1)) =~= before + freeze_bytes(
                    s.skip(i as int),
                ));
            }
            i = i + 1;
        }
        proof {
            assert(s.skip(s.len() as int) =~= Seq::<(Slice, Slice)>::empty());
            assert(freeze_bytes(s.skip(s.len() as int)) =~= Seq::<u8>::empty());
            assert(out@ =~= out@ + Seq::<u8>::empty());
        }
        out
    }
}

/// Appends a byte string padded with NULs to `width` bytes.
pub fn append_padded(out: &mut Vec<u8>, s: &Slice, width: usize)
    requires
        s@.len() <= width,
    ensures
        final(out)@ == old(out)@ + pad_bytes(s@, width as nat),
{
    let ghost before = out@;
    let mut i: usize = 0;
    while i < s.0.len()
        invariant
            i <= s.0@.len() <= width,
            out@ == before + s.0@.subrange(0, i as int),
        decreases s.0@.len() - i,
    {
        out.push(s.0[i]);
        proof {
            assert(out@ =~= before + s.0@.subrange(0, i + 1));
        }
        i = i + 1;
    }
    proof {
        assert(s.0@.subrange(0, s.0@.len() as int) =~= s.0@);
    }
    let mut k = s.0.len();
    while k < width
        invariant
            s.0@.len() <= k <= width,
            out@ == before + s@ + Seq::new((k - s.0@.len()) as nat, |i: int| 0u8),
        decreases width - k,
    {
        out.push(0);
        proof {
            assert(out@ =~= before + s@ + Seq::new((k + 1 - s.0@.len()) as nat, |i: int| 0u8));
        }
        k = k + 1;
    }
}

proof fn lemma_freeze_bytes_len(s: Seq<(Slice, Slice)>)
    requires
        pairs_bounded(s),
    ensures
        freeze_bytes(s).len() == 264 * s.len(),
    decreases s.len(),
{
    if s.len() > 0 {
        assert(pairs_bounded(s.drop_first())) by {
            assert(forall|i: int| 0 <= i < s.drop_first().len() ==> #[trigger] s.drop_first()[i]
                == s[i + 1]);
        }
        lemma_freeze_bytes_len(s.drop_first());
        assert(pad_bytes(s.first().0@, 8).len() == 8);
        assert(pad_bytes(s.first().1@, 256).len() == 256);
    }
}

proof fn lemma_freeze_bytes_at(s: Seq<(Slice, Slice)>, i: int)
    requires
        pairs_bounded(s),
        0 <= i < s.len(),
    ensures
        freeze_bytes(s).len() == 264 * s.len(),
        freeze_bytes(s).subrange(264 * i, 264 * i + 8) == pad_bytes(s[i].0@, 8),
        freeze_bytes(s).subrange(264 * i + 8, 264 * i + 264) == pad_bytes(s[i].1@, 256),
    decreases i,
{
    lemma_freeze_bytes_len(s);
    let fb = freeze_bytes(s);
    let k0 = pad_bytes(s.first().0@, 8);
    let v0 = pad_bytes(s.first().1@, 256);
    assert(k0.len() == 8 && v0.len() == 256);
    if i == 0 {
        assert(fb.subrange(0, 8) =~= k0);
        assert(fb.subrange(8, 264) =~= v0);
    } else {
        assert(pairs_bounded(s.drop_first())) by {
            assert(forall|j: int| 0 <= j < s.drop_first().len() ==> #[trigger] s.drop_first()[j]
                == s[j + 1]);
        }
        lemma_freeze_bytes_at(s.drop_first(), i - 1);
        let rest = freeze_bytes(s.drop_first());
        assert(s.drop_first()[i - 1] == s[i]);
        assert(fb.subrange(264 * i, 264 * i + 8) =~= rest.subrange(
            264 * (i - 1),
            264 * (i - 1) + 8,
        ));
        assert(fb.subrange(264 * i + 8, 264 * i + 264) =~= rest.subrange(
            264 * (i - 1) + 8,
            264 * (i - 1) + 264,
        ));
    }
}

/// Serializing a table of full-width records and reading the bytes
/// back yields the same records in the same order: a saved table
/// reopens as itself.
pub proof fn lemma_freeze_round_trip(t: SSTable)
    requires
        t.wf(),
        forall|i: int| 0 <= i < t.spec_pairs().len() ==> ((#[trigger] t.spec_pairs()[i]).0@.len()
            == 8 && t.spec_pairs()[i].1@.len() == 256),
    ensures
        ({
            let recs = table_records(freeze_bytes(t.spec_pairs()));
            &&& recs.len() == t.spec_pairs().len()
            &&& records_sorted(recs)
            &&& forall|i: int| 0 <= i < recs.len() ==> ((#[trigger] recs[i]).0
                == t.spec_pairs()[i].0@ && recs[i].1 == t.spec_pairs()[i].1@)
        }),
{
    let s = t.spec_pairs();
    let fb = freeze_bytes(s);
    lemma_freeze_bytes_len(s);
    assert(fb.len() == 264 * s.len());
    assert(264 * s.len() / 264 == s.len()) by (nonlinear_arith);
    let recs = table_records(fb);
    assert(recs.len() == s.len());
    assert forall|i: int| 0 <= i < recs.len() implies ((#[trigger] recs[i]).0 == s[i].0@
        && recs[i].1 == s[i].1@) by {
        lemma_freeze_bytes_at(s, i);
        assert(pad_bytes(s[i].0@, 8) =~= s[i].0@);
        assert(pad_bytes(s[i].1@, 256) =~= s[i].1@);
        assert(recs[i].0 == fb.subrange(264 * i, 264 * i + 8));
        assert(recs[i].1 == fb.subrange(264 * i + 8, 264 * i + 264));
    }
    assert forall|i: int| 0 <= i < recs.len() - 1 implies key_lt(
        (#[trigger] recs[i]).0,
        recs[i + 1].0,
    ) by {
        assert(recs[i].0 == s[i].0@ && recs[i + 1].0 == s[i + 1].0@);
        assert(key_lt(s[i].0@, s[i + 1].0@));
    }
}

/// The fixed-width records held in a flat byte string; a trailing
/// fragment shorter than one record is ignored.
pub open spec fn table_records(s: Seq<u8>) -> Seq<(Seq<u8>, Seq<u8>)> {
    Seq::new(s.len() / 264, |i: int| (s.subrange(264 * i, 264 * i + 8), s.subrange(
        264 * i + 8,
        264 * i + 264,
    )))
}

pub open spec fn records_sorted(s: Seq<(Seq<u8>, Seq<u8>)>) -> bool {
    forall|i: int| 0 <= i < s.len() - 1 ==> key_lt((#[trigger] s[i]).0, s[i + 1].0)
}

impl SSTable {
    /// Reads a table back from its flat record bytes. The keys must
    /// come strictly ascending: anything else is a corrupt table.
    pub fn from_bytes(buf: &Vec<u8>) -> (r: StorageResult<SSTable>)
        ensures
            match r {
                Ok(t) => {
                    &&& t.wf()
                    &&& records_sorted(table_records(buf@))
                    &&& t.spec_pairs().len() == table_records(buf@).len()
                    &&& forall|i: int| 0 <= i < t.spec_pairs().len() ==> ((
                    #[trigger] t.spec_pairs()[i]).0@ == table_records(buf@)[i].0
                        && t.spec_pairs()[i].1@ == table_records(buf@)[i].1)
                    &&& forall|i: int| 0 <= i < table_records(buf@).len() ==> (t@.contains_key(
                        (#[trigger] table_records(buf@)[i]).0,
                    ) && t@[table_records(buf@)[i].0] == table_records(buf@)[i].1)
                    &&& forall|k: Seq<u8>| #[trigger] t@.contains_key(k) ==> exists|i: int|
                        0 <= i < table_records(buf@).len() && (
                    #[trigger] table_records(buf@)[i]).0 == k
                },
                Err(e) => e is LogFormatError && !records_sorted(table_records(buf@)),
            },
    {
        let ghost recs = table_records(buf@);
        let n = buf.len() / 264;
        proof {
            assert(264 * n <= buf@.len()) by (nonlinear_arith)
                requires n == buf@.len() / 264;
        }
        let mut pairs: Vec<(Slice, Slice)> = Vec::new();
        let mut i: usize = 0;
        while i < n
            invariant
                n == buf@.len() / 264,
                buf@.len() <= usize::MAX,
                264 * n <= buf@.len(),
                recs == table_records(buf@),
                i <= n,
                pairs@.len() == i,
                forall|j: int| 0 <= j < i ==> ((#[trigger] pairs@[j]).0@ == recs[j].0
                    && pairs@[j].1@ == recs[j].1),
                forall|j: int, l: int| 0 <= j < l < i ==> key_lt(
                    (#[trigger] pairs@[j]).0@,
                    (#[trigger] pairs@[l]).0@,
                ),
            decreases n - i,
        {
            proof {
                assert(264 * (i + 1) <= 264 * n) by (nonlinear_arith)
                    requires i + 1 <= n;
                assert(264 * i + 264 <= buf@.len());
            }
            let base = 264 * i;
            let key = Slice(crate::request::copy_range(buf, base, base + 8));
            let value = Slice(crate::request::copy_range(buf, base + 8, base + 264));
            proof {
                assert(recs[i as int].0 == buf@.subrange(264 * i, 264 * i + 8));
                assert(recs[i as int].1 == buf@.subrange(264 * i + 8, 264 * i + 264));
            }
            if i > 0 {
                if !slice_key_lt(&pairs[i - 1].0, &key) {
                    proof {
                        assert(recs[i - 1].0 == pairs@[i - 1].0@);
                        assert(!key_lt(recs[i - 1].0, recs[i - 1 + 1].0));
                    }
                    return Err(StorageError::LogFormatError);
                }
            }
            pairs.push((key, value));
            proof {
                assert forall|j: int, l: int| 0 <= j < l < i + 1 implies key_lt(
                    (#[trigger] pairs@[j]).0@,
                    (#[trigger] pairs@[l]).0@,
                ) by {
                    if l == i {
                        if j < i - 1 {
                            assert(key_lt(pairs@[j].0@, pairs@[i - 1].0@));
                            lemma_key_lt_trans(pairs@[j].0@, pairs@[i - 1].0@, pairs@[l].0@);
                        }
                    }
                }
            }
            i = i + 1;
        }
        proof {
            assert forall|j: int| 0 <= j < pairs@.len() implies (#[trigger] pairs@[j]).0@.len()
                <= 8 && pairs@[j].1@.len() <= 256 by {
                assert(pairs@[j].0@ == recs[j].0);
            }
            assert forall|j: int| 0 <= j < recs.len() - 1 implies key_lt(
                (#[trigger] recs[j]).0,
                recs[j + 1].0,
            ) by {
                assert(pairs@[j].0@ == recs[j].0);
                assert(pairs@[j + 1].0@ == recs[j + 1].0);
            }
            assert forall|j: int| 0 <= j < recs.len() implies (pairs_map(pairs@).contains_key(
                (#[trigger] recs[j]).0,
            ) && pairs_map(pairs@)[recs[j].0] == recs[j].1) by {
                assert(pairs@[j].0@ == recs[j].0 && pairs@[j].1@ == recs[j].1);
                lemma_pairs_map_value_sorted(pairs@, j);
            }
            assert forall|k: Seq<u8>| #[trigger] pairs_map(pairs@).contains_key(k) implies
                exists|i2: int| 0 <= i2 < recs.len() && (#[trigger] recs[i2]).0 == k by {
                lemma_pairs_map_contains(pairs@, k);
                let j = choose|j: int| 0 <= j < pairs@.len() && (#[trigger] pairs@[j]).0@ == k;
                assert(recs[j].0 == k);
            }
        }
        Ok(SSTable { kv_pairs: pairs })
    }
}

} // verus!
