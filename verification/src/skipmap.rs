//! The ordered write buffer: a sorted, insert-only multi-version map.
//!
//! Each insert records a fresh serial number; entries are kept sorted by
//! key, with the entries of one key ordered newest first. Reads and
//! scans therefore see the freshest write for every key, which is the
//! map this structure denotes.

use vstd::prelude::*;

use crate::slice::{
    key_le, key_lt, lemma_key_le_antisym, lemma_key_le_lt_trans, lemma_key_le_trans,
    lemma_key_lt_irrefl, lemma_key_lt_le_trans, lemma_key_lt_total, lemma_key_lt_trans,
    slice_key_eq, slice_key_lt, Slice,
};

verus! {

/// One versioned entry: a key, the serial number of the insert that
/// produced it, and the stored value.
pub struct SkipEntry<T> {
    pub key: Slice,
    pub serial: u64,
    pub value: T,
}

/// The order entries are kept in: keys ascending, and for one key the
/// larger (newer) serial first.
pub open spec fn entry_below<T>(a: SkipEntry<T>, b: SkipEntry<T>) -> bool {
    key_lt(a.key@, b.key@) || (a.key@ == b.key@ && a.serial > b.serial)
}

pub open spec fn entries_sorted<T>(s: Seq<SkipEntry<T>>) -> bool {
    forall|i: int, j: int| 0 <= i < j < s.len() ==> entry_below(#[trigger] s[i], #[trigger] s[j])
}

pub open spec fn serials_below<T>(s: Seq<SkipEntry<T>>, bound: u64) -> bool {
    forall|i: int| 0 <= i < s.len() ==> (#[trigger] s[i]).serial < bound
}

/// The map denoted by a sequence of versioned entries: for every key,
/// its earliest entry in the sequence wins.
pub open spec fn map_of<T>(s: Seq<SkipEntry<T>>) -> Map<Seq<u8>, T>
    decreases s.len(),
{
    if s.len() == 0 {
        Map::empty()
    } else {
        map_of(s.drop_first()).insert(s[0].key@, s[0].value)
    }
}

/// A key is in the denoted map exactly when some entry carries it.
pub proof fn lemma_map_of_contains<T>(s: Seq<SkipEntry<T>>, k: Seq<u8>)
    ensures
        map_of(s).contains_key(k) <==> exists|j: int| 0 <= j < s.len() && (#[trigger] s[j]).key@ == k,
    decreases s.len(),
{
    if s.len() > 0 {
        lemma_map_of_contains(s.drop_first(), k);
        if s[0].key@ == k {
            assert(s[0].key@ == k);
        } else if map_of(s).contains_key(k) {
            let j = choose|j: int| 0 <= j < s.drop_first().len() && (#[trigger] s.drop_first()[j]).key@ == k;
            assert(s[j + 1].key@ == k);
        } else if exists|j: int| 0 <= j < s.len() && (#[trigger] s[j]).key@ == k {
            let j = choose|j: int| 0 <= j < s.len() && (#[trigger] s[j]).key@ == k;
            assert(s.drop_first()[j - 1].key@ == k);
        }
    }
}

/// The denoted value of a key is the value of its first entry.
pub proof fn lemma_map_of_value<T>(s: Seq<SkipEntry<T>>, k: Seq<u8>, i: int)
    requires
        0 <= i < s.len(),
        s[i].key@ == k,
        forall|j: int| 0 <= j < i ==> (#[trigger] s[j]).key@ != k,
    ensures
        map_of(s).contains_key(k),
        map_of(s)[k] == s[i].value,
    decreases i,
{
    if i > 0 {
        lemma_map_of_value(s.drop_first(), k, i - 1);
    }
}

/// Inserting an entry before every other entry of its key inserts its
/// binding into the denoted map.
pub proof fn lemma_map_of_insert<T>(s: Seq<SkipEntry<T>>, i: int, e: SkipEntry<T>)
    requires
        0 <= i <= s.len(),
        forall|j: int| 0 <= j < i ==> (#[trigger] s[j]).key@ != e.key@,
    ensures
        map_of(s.insert(i, e)) == map_of(s).insert(e.key@, e.value),
    decreases i,
{
    let t = s.insert(i, e);
    if i == 0 {
        assert(t.drop_first() =~= s);
        assert(t[0] == e);
    } else {
        assert(t[0] == s[0]);
        assert(t.drop_first() =~= s.drop_first().insert(i - 1, e));
        lemma_map_of_insert(s.drop_first(), i - 1, e);
        assert(map_of(t) == map_of(s.drop_first()).insert(e.key@, e.value).insert(
            s[0].key@,
            s[0].value,
        ));
        assert(map_of(s.drop_first()).insert(e.key@, e.value).insert(s[0].key@, s[0].value)
            =~= map_of(s.drop_first()).insert(s[0].key@, s[0].value).insert(e.key@, e.value));
    }
}

/// The buffer is insert-only: after a write its key is present, and
/// every key that was present stays present.
pub proof fn lemma_insert_only<T>(m: Map<Seq<u8>, T>, k: Seq<u8>, v: T, k2: Seq<u8>)
    ensures
        m.insert(k, v).contains_key(k),
        m.contains_key(k2) ==> m.insert(k, v).contains_key(k2),
{
}

/// The ordered write buffer. Inserts never remove anything: a newer
/// write for a key shadows the older entries.
pub struct SkipMap<T> {
    entries: Vec<SkipEntry<T>>,
    serial_number: u64,
}

impl<T> View for SkipMap<T> {
    type V = Map<Seq<u8>, T>;

    closed spec fn view(&self) -> Map<Seq<u8>, T> {
        map_of(self.entries@)
    }
}

impl<T> SkipMap<T> {
    /// Entries are sorted as `entry_below` demands and every serial is
    /// below the counter of the next insert.
    pub closed spec fn wf(self) -> bool {
        entries_sorted(self.entries@) && serials_below(self.entries@, self.serial_number)
            && self.entries@.len() <= self.serial_number
    }

    /// How many inserts this map has seen (the next serial number).
    pub closed spec fn op_count(self) -> u64 {
        self.serial_number
    }

    pub closed spec fn spec_entries(self) -> Seq<SkipEntry<T>> {
        self.entries@
    }

    /// An empty map whose serial counter starts at `serial_number`.
    pub fn new(serial_number: u64) -> (r: SkipMap<T>)
        ensures
            r.wf(),
            r@ == Map::<Seq<u8>, T>::empty(),
            r.op_count() == serial_number,
            r.spec_entries().len() == 0,
    {
        SkipMap { entries: Vec::new(), serial_number }
    }

    /// The number of inserts ever applied to this map.
    pub fn len(&self) -> (r: u64)
        ensures
            r == self.op_count(),
    {
        self.serial_number
    }

    /// The number of entries held.
    pub fn entry_count(&self) -> (r: usize)
        ensures
            r == self.spec_entries().len(),
    {
        self.entries.len()
    }

    /// The first position whose key is at or above `key`; every earlier
    /// entry has a strictly smaller key.
    fn lower_bound(&self, key: &Slice) -> (r: usize)
        requires
            self.wf(),
        ensures
            r <= self.entries@.len(),
            forall|j: int| 0 <= j < r ==> key_lt((#[trigger] self.entries@[j]).key@, key@),
            forall|j: int| r <= j < self.entries@.len() ==> key_le(
                key@,
                (#[trigger] self.entries@[j]).key@,
            ),
    {
        let mut lo: usize = 0;
        let mut hi: usize = self.entries.len();
        while lo < hi
            invariant
                lo <= hi <= self.entries@.len(),
                self.wf(),
                forall|j: int| 0 <= j < lo ==> key_lt((#[trigger] self.entries@[j]).key@, key@),
                forall|j: int| hi <= j < self.entries@.len() ==> key_le(
                    key@,
                    (#[trigger] self.entries@[j]).key@,
                ),
            decreases hi - lo,
        {
            let mid = lo + (hi - lo) / 2;
            if slice_key_lt(&self.entries[mid].key, key) {
                proof {
                    assert forall|j: int| 0 <= j < mid + 1 implies key_lt(
                        (#[trigger] self.entries@[j]).key@,
                        key@,
                    ) by {
                        if j < mid {
                            assert(entry_below(self.entries@[j], self.entries@[mid as int]));
                            if self.entries@[j].key@ == self.entries@[mid as int].key@ {
                            } else {
                                lemma_key_lt_trans(
                                    self.entries@[j].key@,
                                    self.entries@[mid as int].key@,
                                    key@,
                                );
                            }
                        }
                    }
                }
                lo = mid + 1;
            } else {
                proof {
                    if !key_lt(key@, self.entries@[mid as int].key@) {
                        lemma_key_lt_total(self.entries@[mid as int].key@, key@);
                    }
                    assert forall|j: int| mid <= j < self.entries@.len() implies key_le(
                        key@,
                        (#[trigger] self.entries@[j]).key@,
                    ) by {
                        if j > mid {
                            assert(entry_below(self.entries@[mid as int], self.entries@[j]));
                            lemma_key_le_trans(
                                key@,
                                self.entries@[mid as int].key@,
                                self.entries@[j].key@,
                            );
                        }
                    }
                }
                hi = mid;
            }
        }
        lo
    }

    /// Records a write: a fresh serial is drawn and the entry is placed
    /// ahead of every older entry of the same key, so the denoted map
    /// gains (or replaces) the binding of `key`.
    pub fn insert(&mut self, key: &Slice, value: T)
        requires
            old(self).wf(),
            old(self).op_count() < u64::MAX,
        ensures
            final(self).wf(),
            final(self)@ == old(self)@.insert(key@, value),
            final(self).op_count() == old(self).op_count() + 1,
            final(self).spec_entries().len() == old(self).spec_entries().len() + 1,
    {
        let i = self.lower_bound(key);
        let entry = SkipEntry { key: key.clone(), serial: self.serial_number, value };
        let ghost e = entry;
        let ghost s = self.entries@;
        self.entries.insert(i, entry);
        self.serial_number = self.serial_number + 1;
        proof {
            assert forall|j: int| 0 <= j < i implies (#[trigger] s[j]).key@ != e.key@ by {
                if s[j].key@ == e.key@ {
                    lemma_key_lt_irrefl(key@);
                }
            }
            lemma_map_of_insert(s, i as int, e);
            let t = self.entries@;
            assert(t == s.insert(i as int, e));
            assert forall|p: int, q: int| 0 <= p < q < t.len() implies entry_below(
                #[trigger] t[p],
                #[trigger] t[q],
            ) by {
                if p < i && q < i {
                    assert(t[p] == s[p] && t[q] == s[q]);
                    assert(entry_below(s[p], s[q]));
                } else if p < i && q == i {
                    assert(t[p] == s[p]);
                } else if p < i && q > i {
                    assert(t[p] == s[p] && t[q] == s[q - 1]);
                    assert(entry_below(s[p], s[q - 1]));
                } else if p == i && q > i {
                    assert(t[q] == s[q - 1]);
                    assert(key_le(key@, s[q - 1].key@));
                    assert(s[q - 1].serial < old(self).serial_number);
                } else {
                    assert(t[p] == s[p - 1] && t[q] == s[q - 1]);
                    assert(entry_below(s[p - 1], s[q - 1]));
                }
            }
        }
    }

    /// Looks a key up: the freshest value written for it, if any write
    /// for it has happened.
    pub fn find(&self, key: &Slice) -> (r: Option<&T>)
        requires
            self.wf(),
        ensures
            match r {
                Some(v) => self@.contains_key(key@) && *v == self@[key@],
                None => !self@.contains_key(key@),
            },
    {
        let i = self.lower_bound(key);
        proof {
            assert forall|j: int| 0 <= j < i implies (#[trigger] self.entries@[j]).key@ != key@ by {
                if self.entries@[j].key@ == key@ {
                    lemma_key_lt_irrefl(key@);
                }
            }
        }
        if i < self.entries.len() && slice_key_eq(&self.entries[i].key, key) {
            proof {
                lemma_map_of_value(self.entries@, key@, i as int);
            }
            Some(&self.entries[i].value)
        } else {
            proof {
                assert forall|j: int| 0 <= j < self.entries@.len() implies (
                #[trigger] self.entries@[j]).key@ != key@ by {
                    if j >= i {
                        if i < self.entries@.len() {
                            assert(key_le(key@, self.entries@[i as int].key@));
                            assert(self.entries@[i as int].key@ != key@);
                            assert(key_lt(key@, self.entries@[i as int].key@));
                            if j > i {
                                assert(entry_below(self.entries@[i as int], self.entries@[j]));
                                lemma_key_lt_le_trans(
                                    key@,
                                    self.entries@[i as int].key@,
                                    self.entries@[j].key@,
                                );
                            }
                            if self.entries@[j].key@ == key@ {
                                lemma_key_lt_irrefl(key@);
                            }
                        }
                    } else {
                        if self.entries@[j].key@ == key@ {
                            lemma_key_lt_irrefl(key@);
                        }
                    }
                }
                lemma_map_of_contains(self.entries@, key@);
            }
            None
        }
    }

    /// All keys in `[start, end)` with their freshest values, in
    /// ascending key order, one pair per key.
    pub fn scan(&self, start: &Slice, end: &Slice) -> (r: Vec<(Slice, &T)>)
        requires
            self.wf(),
        ensures
            forall|p: int| 0 <= p < r@.len() ==> {
                &&& self@.contains_key((#[trigger] r@[p]).0@)
                &&& r@[p].1 == self@[r@[p].0@]
                &&& key_le(start@, r@[p].0@)
                &&& key_lt(r@[p].0@, end@)
            },
            forall|p: int, q: int| 0 <= p < q < r@.len() ==> key_lt(
                (#[trigger] r@[p]).0@,
                (#[trigger] r@[q]).0@,
            ),
            forall|k: Seq<u8>| #![trigger self@.contains_key(k)] self@.contains_key(k)
                && key_le(start@, k) && key_lt(k, end@)
                ==> exists|p: int| 0 <= p < r@.len() && (#[trigger] r@[p]).0@ == k,
            r@.len() <= self.op_count(),
    {
        let i0 = self.lower_bound(start);
        let mut out: Vec<(Slice, &T)> = Vec::new();
        let mut j = i0;
        while j < self.entries.len()
            invariant
                self.wf(),
                i0 <= j <= self.entries@.len(),
                forall|m: int| 0 <= m < i0 ==> key_lt((#[trigger] self.entries@[m]).key@, start@),
                forall|m: int| i0 <= m < self.entries@.len() ==> key_le(
                    start@,
                    (#[trigger] self.entries@[m]).key@,
                ),
                forall|p: int| 0 <= p < out@.len() ==> {
                    &&& self@.contains_key((#[trigger] out@[p]).0@)
                    &&& out@[p].1 == self@[out@[p].0@]
                    &&& key_le(start@, out@[p].0@)
                    &&& key_lt(out@[p].0@, end@)
                },
                forall|p: int, q: int| 0 <= p < q < out@.len() ==> key_lt(
                    (#[trigger] out@[p]).0@,
                    (#[trigger] out@[q]).0@,
                ),
                forall|m: int| i0 <= m < j ==> key_lt((#[trigger] self.entries@[m]).key@, end@),
                forall|m: int| #![trigger self.entries@[m]] i0 <= m < j ==> exists|p: int|
                    0 <= p < out@.len() && (#[trigger] out@[p]).0@ == self.entries@[m].key@,
                j == i0 ==> out@.len() == 0,
                j > i0 ==> out@.len() > 0 && out@[out@.len() - 1].0@ == self.entries@[j - 1].key@,
                out@.len() <= j - i0,
                self.entries@.len() <= self.op_count(),
            ensures
                i0 <= j <= self.entries@.len(),
                j == self.entries@.len() || key_le(end@, self.entries@[j as int].key@),
                forall|p: int| 0 <= p < out@.len() ==> {
                    &&& self@.contains_key((#[trigger] out@[p]).0@)
                    &&& out@[p].1 == self@[out@[p].0@]
                    &&& key_le(start@, out@[p].0@)
                    &&& key_lt(out@[p].0@, end@)
                },
                forall|p: int, q: int| 0 <= p < q < out@.len() ==> key_lt(
                    (#[trigger] out@[p]).0@,
                    (#[trigger] out@[q]).0@,
                ),
                forall|m: int| #![trigger self.entries@[m]] i0 <= m < j ==> exists|p: int|
                    0 <= p < out@.len() && (#[trigger] out@[p]).0@ == self.entries@[m].key@,
            decreases self.entries@.len() - j,
        {
            if !slice_key_lt(&self.entries[j].key, end) {
                proof {
                    if !key_lt(end@, self.entries@[j as int].key@) {
                        lemma_key_lt_total(self.entries@[j as int].key@, end@);
                    }
                }
                break;
            }
            let is_dup = j > i0 && slice_key_eq(&self.entries[j].key, &self.entries[j - 1].key);
            if is_dup {
                proof {
                    assert(out@[out@.len() - 1].0@ == self.entries@[j as int].key@);
                }
            } else {
                let ghost s = self.entries@;
                let ghost cur = s[j as int].key@;
                proof {
                    assert forall|m: int| 0 <= m < j implies (#[trigger] s[m]).key@ != cur by {
                        if s[m].key@ == cur {
                            if m < i0 {
                                lemma_key_lt_le_trans(cur, start@, cur);
                                lemma_key_lt_irrefl(cur);
                            } else {
                                let prev = s[j - 1].key@;
                                if m < j - 1 {
                                    assert(entry_below(s[m], s[j - 1]));
                                }
                                assert(entry_below(s[j - 1], s[j as int]));
                                lemma_key_le_antisym(cur, prev);
                            }
                        }
                    }
                    lemma_map_of_value(s, cur, j as int);
                    if j > i0 {
                        assert(entry_below(s[j - 1], s[j as int]));
                        assert(key_lt(out@[out@.len() - 1].0@, cur));
                        assert forall|p: int| 0 <= p < out@.len() implies key_lt(
                            (#[trigger] out@[p]).0@,
                            cur,
                        ) by {
                            if p < out@.len() - 1 {
                                lemma_key_lt_trans(out@[p].0@, out@[out@.len() - 1].0@, cur);
                            }
                        }
                    }
                }
                let ghost old_out = out@;
                let pair = (self.entries[j].key.clone(), &self.entries[j].value);
                out.push(pair);
                proof {
                    assert(out@[out@.len() - 1].0@ == cur);
                    assert forall|m: int| #![trigger self.entries@[m]] i0 <= m < j implies exists|p: int|
                        0 <= p < out@.len() && (#[trigger] out@[p]).0@ == self.entries@[m].key@ by {
                        let p = choose|p: int| 0 <= p < old_out.len() && (#[trigger] old_out[p]).0@
                            == self.entries@[m].key@;
                        assert(out@[p].0@ == self.entries@[m].key@);
                    }
                }
            }
            j = j + 1;
        }
        proof {
            assert forall|k: Seq<u8>| self@.contains_key(k) && key_le(start@, k) && key_lt(k, end@)
                implies exists|p: int| 0 <= p < out@.len() && (#[trigger] out@[p]).0@ == k by {
                lemma_map_of_contains(self.entries@, k);
                let m = choose|m: int| 0 <= m < self.entries@.len() && (
                #[trigger] self.entries@[m]).key@ == k;
                if m < i0 {
                    lemma_key_lt_le_trans(k, start@, k);
                    lemma_key_lt_irrefl(k);
                } else if m >= j {
                    if j < self.entries@.len() {
                        if m > j {
                            assert(entry_below(self.entries@[j as int], self.entries@[m]));
                        }
                        assert(key_le(self.entries@[j as int].key@, k));
                        lemma_key_le_trans(end@, self.entries@[j as int].key@, k);
                        lemma_key_lt_le_trans(k, end@, k);
                        lemma_key_lt_irrefl(k);
                    }
                } else {
                    assert(exists|p: int| 0 <= p < out@.len() && (#[trigger] out@[p]).0@
                        == self.entries@[m].key@);
                }
            }
        }
        out
    }

    /// Every key with its freshest value, in ascending key order.
    pub fn scan_all(&self) -> (r: Vec<(Slice, &T)>)
        requires
            self.wf(),
        ensures
            forall|p: int| 0 <= p < r@.len() ==> {
                &&& self@.contains_key((#[trigger] r@[p]).0@)
                &&& r@[p].1 == self@[r@[p].0@]
            },
            forall|p: int, q: int| 0 <= p < q < r@.len() ==> key_lt(
                (#[trigger] r@[p]).0@,
                (#[trigger] r@[q]).0@,
            ),
            forall|k: Seq<u8>| #![trigger self@.contains_key(k)] self@.contains_key(k)
                ==> exists|p: int| 0 <= p < r@.len() && (#[trigger] r@[p]).0@ == k,
            r@.len() <= self.op_count(),
    {
        let mut out: Vec<(Slice, &T)> = Vec::new();
        let mut j: usize = 0;
        while j < self.entries.len()
            invariant
                self.wf(),
                j <= self.entries@.len(),
                forall|p: int| 0 <= p < out@.len() ==> {
                    &&& self@.contains_key((#[trigger] out@[p]).0@)
                    &&& out@[p].1 == self@[out@[p].0@]
                },
                forall|p: int, q: int| 0 <= p < q < out@.len() ==> key_lt(
                    (#[trigger] out@[p]).0@,
                    (#[trigger] out@[q]).0@,
                ),
                forall|m: int| #![trigger self.entries@[m]] 0 <= m < j ==> exists|p: int|
                    0 <= p < out@.len() && (#[trigger] out@[p]).0@ == self.entries@[m].key@,
                j == 0 ==> out@.len() == 0,
                j > 0 ==> out@.len() > 0 && out@[out@.len() - 1].0@ == self.entries@[j - 1].key@,
                out@.len() <= j,
                self.entries@.len() <= self.op_count(),
            decreases self.entries@.len() - j,
        {
            let is_dup = j > 0 && slice_key_eq(&self.entries[j].key, &self.entries[j - 1].key);
            if is_dup {
                proof {
                    assert(out@[out@.len() - 1].0@ == self.entries@[j as int].key@);
                }
            } else {
                let ghost s = self.entries@;
                let ghost cur = s[j as int].key@;
                proof {
                    assert forall|m: int| 0 <= m < j implies (#[trigger] s[m]).key@ != cur by {
                        if s[m].key@ == cur {
                            let prev = s[j - 1].key@;
                            if m < j - 1 {
                                assert(entry_below(s[m], s[j - 1]));
                            }
                            assert(entry_below(s[j - 1], s[j as int]));
                            lemma_key_le_antisym(cur, prev);
                        }
                    }
                    lemma_map_of_value(s, cur, j as int);
                    if j > 0 {
                        assert(entry_below(s[j - 1], s[j as int]));
                        assert(key_lt(out@[out@.len() - 1].0@, cur));
                        assert forall|p: int| 0 <= p < out@.len() implies key_lt(
                            (#[trigger] out@[p]).0@,
                            cur,
                        ) by {
                            if p < out@.len() - 1 {
                                lemma_key_lt_trans(out@[p].0@, out@[out@.len() - 1].0@, cur);
                            }
                        }
                    }
                }
                let ghost old_out = out@;
                let pair = (self.entries[j].key.clone(), &self.entries[j].value);
                out.push(pair);
                proof {
                    assert(out@[out@.len() - 1].0@ == cur);
                    assert forall|m: int| #![trigger self.entries@[m]] 0 <= m < j implies exists|p: int|
                        0 <= p < out@.len() && (#[trigger] out@[p]).0@ == self.entries@[m].key@ by {
                        let p = choose|p: int| 0 <= p < old_out.len() && (#[trigger] old_out[p]).0@
                            == self.entries@[m].key@;
                        assert(out@[p].0@ == self.entries@[m].key@);
                    }
                }
            }
            j = j + 1;
        }
        proof {
            assert forall|k: Seq<u8>| self@.contains_key(k) implies exists|p: int|
                0 <= p < out@.len() && (#[trigger] out@[p]).0@ == k by {
                lemma_map_of_contains(self.entries@, k);
                let m = choose|m: int| 0 <= m < self.entries@.len() && (
                #[trigger] self.entries@[m]).key@ == k;
                assert(exists|p: int| 0 <= p < out@.len() && (#[trigger] out@[p]).0@
                    == self.entries@[m].key@);
            }
        }
        out
    }
}

} // verus!
