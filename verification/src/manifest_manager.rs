//! The manifest: which sorted tables exist, per level, and the
//! append-only log that records their comings and goings.

use vstd::prelude::*;

use crate::database_log::JudgeReal;
use crate::error::{StorageError, StorageResult};
use crate::slice::{key_le, key_lt, Slice};
use crate::sstable::SSTable;

verus! {

/// One manifest log record: live flag, add-or-remove flag, level, and
/// table id.
pub struct RawManifestLogEntry {
    pub real_flag: u8,
    pub add_flag: u8,
    pub level: u8,
    pub id: u8,
}

impl JudgeReal for RawManifestLogEntry {
    open spec fn real_view(&self) -> bool {
        self.real_flag == 1
    }

    fn is_real(&self) -> (r: bool)
        ensures
            r == self.real_view(),
    {
        self.real_flag == 1
    }

    fn set_real(&mut self, written: bool)
        ensures
            final(self).real_view() == written,
    {
        if written {
            self.real_flag = 1;
        } else {
            self.real_flag = 0;
        }
    }
}

/// Whether every entry is one the store writes: an add or remove flag
/// and a level inside the hierarchy.
pub open spec fn entries_ok(entries: Seq<RawManifestLogEntry>) -> bool {
    forall|i: int| 0 <= i < entries.len() ==> ((#[trigger] entries[i]).add_flag == 0
        || entries[i].add_flag == 1) && entries[i].level < 6
}

/// The set of tables a manifest log leaves live: adds register a
/// `(level, id)` pair and removes take it away, in order.
pub open spec fn live_set(entries: Seq<RawManifestLogEntry>) -> Set<(u8, u8)>
    decreases entries.len(),
{
    if entries.len() == 0 {
        Set::empty()
    } else {
        let rest = live_set(entries.drop_last());
        let e = entries.last();
        if e.add_flag == 1 {
            rest.insert((e.level, e.id))
        } else {
            rest.remove((e.level, e.id))
        }
    }
}

/// A log of only adds with pairwise distinct `(level, id)` pairs
/// leaves exactly those tables live.
pub proof fn lemma_live_only_adds(entries: Seq<RawManifestLogEntry>)
    requires
        forall|i: int| 0 <= i < entries.len() ==> (#[trigger] entries[i]).add_flag == 1,
    ensures
        forall|i: int| 0 <= i < entries.len() ==> live_set(entries).contains(
            ((#[trigger] entries[i]).level, entries[i].id),
        ),
        forall|p: (u8, u8)| live_set(entries).contains(p) ==> exists|i: int|
            0 <= i < entries.len() && ((#[trigger] entries[i]).level, entries[i].id) == p,
    decreases entries.len(),
{
    if entries.len() > 0 {
        lemma_live_only_adds(entries.drop_last());
        assert forall|i: int| 0 <= i < entries.len() implies live_set(entries).contains(
            ((#[trigger] entries[i]).level, entries[i].id),
        ) by {
            if i < entries.len() - 1 {
                assert(entries.drop_last()[i] == entries[i]);
            } else {
                assert(entries[i] == entries.last());
            }
        }
        assert(entries[entries.len() - 1].add_flag == 1);
        assert forall|p: (u8, u8)| live_set(entries).contains(p) implies exists|i: int|
            0 <= i < entries.len() && ((#[trigger] entries[i]).level, entries[i].id) == p by {
            if p == (entries.last().level, entries.last().id) {
                assert((entries[entries.len() - 1].level, entries[entries.len() - 1].id) == p);
            } else {
                assert(live_set(entries) == live_set(entries.drop_last()).insert(
                    (entries.last().level, entries.last().id),
                ));
                assert(live_set(entries.drop_last()).contains(p));
                let i = choose|i: int| 0 <= i < entries.drop_last().len() && ((
                #[trigger] entries.drop_last()[i]).level, entries.drop_last()[i].id) == p;
                assert(entries.drop_last()[i] == entries[i]);
                assert((entries[i].level, entries[i].id) == p);
            }
        }
    }
}

/// An add directly followed by its remove cancels out.
pub proof fn lemma_add_remove_cancel(
    entries: Seq<RawManifestLogEntry>,
    add: RawManifestLogEntry,
    remove: RawManifestLogEntry,
)
    requires
        add.add_flag == 1,
        remove.add_flag == 0,
        add.level == remove.level,
        add.id == remove.id,
    ensures
        live_set(entries + seq![add, remove]) == live_set(entries).remove((add.level, add.id)),
{
    let all = entries + seq![add, remove];
    assert(all.len() == entries.len() + 2);
    assert(all.last() == remove);
    assert(all.drop_last() =~= entries + seq![add]);
    assert(live_set(all) == live_set(entries + seq![add]).remove((add.level, add.id)));
    assert((entries + seq![add]).len() == entries.len() + 1);
    assert((entries + seq![add]).last() == add);
    assert((entries + seq![add]).drop_last() =~= entries);
    assert(live_set(entries + seq![add]) == live_set(entries).insert((add.level, add.id)));
    assert(live_set(entries).insert((add.level, add.id)).remove((add.level, add.id))
        =~= live_set(entries).remove((add.level, add.id)));
}

/// Replays a manifest log into the listing of live tables, in first-
/// registration order without duplicates. Fails on a record the store
/// never writes.
pub fn live_tables(entries: &Vec<RawManifestLogEntry>) -> (r: StorageResult<Vec<(u8, u8)>>)
    ensures
        match r {
            Ok(v) => {
                &&& entries_ok(entries@)
                &&& forall|p: int, q: int| 0 <= p < q < v@.len() ==> #[trigger] v@[p]
                    != #[trigger] v@[q]
                &&& forall|p: int| 0 <= p < v@.len() ==> live_set(entries@).contains(
                    #[trigger] v@[p],
                )
                &&& forall|pair: (u8, u8)| live_set(entries@).contains(pair) ==> exists|p: int|
                    0 <= p < v@.len() && #[trigger] v@[p] == pair
            },
            Err(e) => e is ManifestLogFormatError && !entries_ok(entries@),
        },
{
    let mut out: Vec<(u8, u8)> = Vec::new();
    let mut i: usize = 0;
    while i < entries.len()
        invariant
            i <= entries@.len(),
            forall|j: int| 0 <= j < i ==> ((#[trigger] entries@[j]).add_flag == 0
                || entries@[j].add_flag == 1) && entries@[j].level < 6,
            forall|p: int, q: int| 0 <= p < q < out@.len() ==> #[trigger] out@[p]
                != #[trigger] out@[q],
            forall|p: int| 0 <= p < out@.len() ==> live_set(entries@.take(i as int)).contains(
                #[trigger] out@[p],
            ),
            forall|pair: (u8, u8)| live_set(entries@.take(i as int)).contains(pair)
                ==> exists|p: int| 0 <= p < out@.len() && #[trigger] out@[p] == pair,
        decreases entries@.len() - i,
    {
        let e = &entries[i];
        if e.level >= 6 || (e.add_flag != 0 && e.add_flag != 1) {
            proof {
                assert(!entries_ok(entries@));
            }
            return Err(StorageError::ManifestLogFormatError);
        }
        let pair = (e.level, e.id);
        proof {
            assert(entries@.take(i + 1).drop_last() =~= entries@.take(i as int));
            assert(entries@.take(i + 1).last() == entries@[i as int]);
        }
        if e.add_flag == 1 {
            // register the pair once; a re-add of a live pair is a no-op
            let mut present = false;
            let mut p: usize = 0;
            while p < out.len()
                invariant
                    p <= out@.len(),
                    present ==> exists|q: int| 0 <= q < out@.len() && #[trigger] out@[q] == pair,
                    !present ==> forall|q: int| 0 <= q < p ==> #[trigger] out@[q] != pair,
                ensures
                    present ==> exists|q: int| 0 <= q < out@.len() && #[trigger] out@[q] == pair,
                    !present ==> forall|q: int| 0 <= q < out@.len() ==> #[trigger] out@[q] != pair,
                decreases out@.len() - p,
            {
                if out[p].0 == pair.0 && out[p].1 == pair.1 {
                    present = true;
                    proof {
                        assert(out@[p as int] == pair);
                    }
                    break;
                }
                p = p + 1;
            }
            let ghost before = out@;
            if !present {
                out.push(pair);
            }
            proof {
                let live = live_set(entries@.take(i + 1));
                assert(live == live_set(entries@.take(i as int)).insert(pair));
                if !present {
                    assert(out@[out@.len() - 1] == pair);
                    assert forall|q1: int, q2: int| 0 <= q1 < q2 < out@.len() implies #[trigger] out@[q1]
                        != #[trigger] out@[q2] by {
                        if q2 == out@.len() - 1 {
                            assert(out@[q1] == before[q1]);
                            assert(before[q1] != pair);
                        } else {
                            assert(out@[q1] == before[q1] && out@[q2] == before[q2]);
                        }
                    }
                }
                assert forall|q: int| 0 <= q < out@.len() implies live.contains(
                    #[trigger] out@[q],
                ) by {
                    if q < before.len() {
                        assert(out@[q] == before[q]);
                    } else {
                        assert(out@[q] == pair);
                    }
                }
                assert forall|pr: (u8, u8)| #[trigger] live.contains(pr) implies exists|q: int|
                    0 <= q < out@.len() && #[trigger] out@[q] == pr by {
                    if pr == pair {
                        if present {
                            let q = choose|q: int| 0 <= q < before.len() && #[trigger] before[q]
                                == pair;
                            assert(out@[q] == pr);
                        } else {
                            assert(out@[out@.len() - 1] == pr);
                        }
                    } else {
                        assert(live_set(entries@.take(i as int)).contains(pr));
                        let q = choose|q: int| 0 <= q < before.len() && #[trigger] before[q] == pr;
                        assert(out@[q] == pr);
                    }
                }
            }
        } else {
            // drop the pair wherever it is registered
            let mut found: Option<usize> = None;
            let mut p: usize = 0;
            while p < out.len()
                invariant
                    p <= out@.len(),
                    match found {
                        Some(fp) => fp < out@.len() && out@[fp as int] == pair,
                        None => forall|q: int| 0 <= q < p ==> #[trigger] out@[q] != pair,
                    },
                ensures
                    match found {
                        Some(fp) => fp < out@.len() && out@[fp as int] == pair,
                        None => forall|q: int| 0 <= q < out@.len() ==> #[trigger] out@[q] != pair,
                    },
                decreases out@.len() - p,
            {
                if out[p].0 == pair.0 && out[p].1 == pair.1 {
                    found = Some(p);
                    proof {
                        assert(out@[p as int] == pair);
                    }
                    break;
                }
                p = p + 1;
            }
            let ghost before = out@;
            let ghost removed = live_set(entries@.take(i + 1));
            proof {
                assert(removed == live_set(entries@.take(i as int)).remove(pair));
            }
            match found {
                Some(fp) => {
                    out.remove(fp);
                    proof {
                        assert forall|q1: int, q2: int| 0 <= q1 < q2 < out@.len() implies
                            #[trigger] out@[q1] != #[trigger] out@[q2] by {
                            let o1: int = if q1 < fp { q1 } else { q1 + 1 };
                            let o2: int = if q2 < fp { q2 } else { q2 + 1 };
                            assert(out@[q1] == before[o1] && out@[q2] == before[o2]);
                        }
                        assert forall|q: int| 0 <= q < out@.len() implies removed.contains(
                            #[trigger] out@[q],
                        ) by {
                            let o: int = if q < fp { q } else { q + 1 };
                            assert(out@[q] == before[o]);
                            assert(o != fp);
                            assert(before[o] != pair);
                        }
                        assert forall|pr: (u8, u8)| #[trigger] removed.contains(pr) implies
                            exists|q: int| 0 <= q < out@.len() && #[trigger] out@[q] == pr by {
                            let q = choose|q: int| 0 <= q < before.len() && #[trigger] before[q]
                                == pr;
                            if q < fp {
                                assert(out@[q] == pr);
                            } else {
                                assert(before[q] != pair);
                                assert(q != fp);
                                assert(out@[q - 1] == pr);
                            }
                        }
                    }
                },
                None => {
                    proof {
                        assert forall|q: int| 0 <= q < out@.len() implies removed.contains(
                            #[trigger] out@[q],
                        ) by {
                            assert(out@[q] != pair);
                        }
                        assert forall|pr: (u8, u8)| #[trigger] removed.contains(pr) implies
                            exists|q: int| 0 <= q < out@.len() && #[trigger] out@[q] == pr by {
                            let q = choose|q: int| 0 <= q < out@.len() && #[trigger] out@[q] == pr;
                        }
                    }
                },
            }
        }
        i = i + 1;
    }
    proof {
        assert(entries@.take(entries@.len() as int) =~= entries@);
    }
    Ok(out)
}

/// The four bytes of one manifest record.
pub open spec fn entry_bytes(e: RawManifestLogEntry) -> Seq<u8> {
    seq![e.real_flag, e.add_flag, e.level, e.id]
}

/// Serializes manifest records as flat four-byte entries.
pub fn entries_to_bytes(entries: &Vec<RawManifestLogEntry>) -> (r: Vec<u8>)
    ensures
        r@.len() == 4 * entries@.len(),
        forall|i: int| #![trigger entries@[i]] 0 <= i < entries@.len() ==> r@.subrange(
            4 * i,
            4 * i + 4,
        ) == entry_bytes(entries@[i]),
{
    let mut out: Vec<u8> = Vec::new();
    let mut i: usize = 0;
    while i < entries.len()
        invariant
            i <= entries@.len(),
            out@.len() == 4 * i,
            forall|j: int| #![trigger entries@[j]] 0 <= j < i ==> out@.subrange(4 * j, 4 * j + 4)
                == entry_bytes(entries@[j]),
        decreases entries@.len() - i,
    {
        let ghost before = out@;
        let e = &entries[i];
        out.push(e.real_flag);
        out.push(e.add_flag);
        out.push(e.level);
        out.push(e.id);
        proof {
            assert forall|j: int| #![trigger entries@[j]] 0 <= j < i + 1 implies out@.subrange(
                4 * j,
                4 * j + 4,
            ) == entry_bytes(entries@[j]) by {
                if j < i {
                    assert(out@.subrange(4 * j, 4 * j + 4) =~= before.subrange(4 * j, 4 * j + 4));
                } else {
                    assert(out@.subrange(4 * j, 4 * j + 4) =~= entry_bytes(entries@[j]));
                }
            }
        }
        i = i + 1;
    }
    out
}

/// How many whole 4-byte records from position `i` on are live before
/// the first one whose live flag is clear (or the bytes run out).
pub open spec fn manifest_live_count(s: Seq<u8>, i: int) -> int
    decreases s.len() / 4 - i,
{
    if i < 0 || i >= s.len() / 4 {
        i
    } else if s[4 * i] != 1 {
        i
    } else {
        manifest_live_count(s, i + 1)
    }
}

/// Reads manifest records back from flat bytes: exactly the whole
/// entries up to the first one whose live flag is clear, field for
/// field.
pub fn entries_from_bytes(buf: &Vec<u8>) -> (r: Vec<RawManifestLogEntry>)
    ensures
        r@.len() == manifest_live_count(buf@, 0),
        forall|j: int| #![trigger r@[j]] 0 <= j < r@.len() ==> (r@[j].real_flag == 1
            && r@[j].add_flag == buf@[4 * j + 1] && r@[j].level == buf@[4 * j + 2] && r@[j].id
            == buf@[4 * j + 3]),
{
    let n = buf.len() / 4;
    proof {
        assert(4 * n <= buf@.len()) by (nonlinear_arith)
            requires n == buf@.len() / 4;
    }
    let mut out: Vec<RawManifestLogEntry> = Vec::new();
    let mut i: usize = 0;
    while i < n
        invariant
            n == buf@.len() / 4,
            buf@.len() <= usize::MAX,
            4 * n <= buf@.len(),
            i <= n,
            out@.len() == i,
            manifest_live_count(buf@, 0) == manifest_live_count(buf@, i as int),
            forall|j: int| #![trigger out@[j]] 0 <= j < i ==> (out@[j].real_flag == 1
                && out@[j].add_flag == buf@[4 * j + 1] && out@[j].level == buf@[4 * j + 2]
                && out@[j].id == buf@[4 * j + 3]),
        ensures
            out@.len() == manifest_live_count(buf@, 0),
            forall|j: int| #![trigger out@[j]] 0 <= j < out@.len() ==> (out@[j].real_flag == 1
                && out@[j].add_flag == buf@[4 * j + 1] && out@[j].level == buf@[4 * j + 2]
                && out@[j].id == buf@[4 * j + 3]),
        decreases n - i,
    {
        proof {
            assert(4 * (i + 1) <= 4 * n) by (nonlinear_arith)
                requires i + 1 <= n;
            assert(4 * i + 4 <= buf@.len());
        }
        let base = 4 * i;
        if buf[base] != 1 {
            proof {
                assert(manifest_live_count(buf@, i as int) == i);
            }
            break;
        }
        out.push(
            RawManifestLogEntry {
                real_flag: 1,
                add_flag: buf[base + 1],
                level: buf[base + 2],
                id: buf[base + 3],
            },
        );
        proof {
            assert(manifest_live_count(buf@, i as int) == manifest_live_count(buf@, i + 1));
        }
        i = i + 1;
    }
    out
}

/// A table map lifted to payloads: every held value is a live one.
pub open spec fn lift_table(m: Map<Seq<u8>, Seq<u8>>) -> Map<Seq<u8>, Option<Seq<u8>>> {
    Map::new(|k: Seq<u8>| m.contains_key(k), |k: Seq<u8>| Some(m[k]))
}

/// The first map in probe order that holds the key decides.
pub open spec fn maps_chain(ms: Seq<Map<Seq<u8>, Option<Seq<u8>>>>, j: int, k: Seq<u8>) -> Option<
    Option<Seq<u8>>,
>
    decreases ms.len() - j,
{
    if j < 0 || j >= ms.len() {
        None
    } else if ms[j].contains_key(k) {
        Some(ms[j][k])
    } else {
        maps_chain(ms, j + 1, k)
    }
}

/// A probe chain that starts behind maps lacking the key behaves as if
/// they were not there.
pub proof fn lemma_maps_chain_skip_absent(
    ms: Seq<Map<Seq<u8>, Option<Seq<u8>>>>,
    j: int,
    m: int,
    k: Seq<u8>,
)
    requires
        0 <= j <= m <= ms.len(),
        forall|u: int| j <= u < m ==> !(#[trigger] ms[u]).contains_key(k),
    ensures
        maps_chain(ms, j, k) == maps_chain(ms, m, k),
    decreases m - j,
{
    if j < m {
        lemma_maps_chain_skip_absent(ms, j + 1, m, k);
    }
}

/// Appending probe chains: the front chain decides first.
pub proof fn lemma_maps_chain_concat(
    a: Seq<Map<Seq<u8>, Option<Seq<u8>>>>,
    b: Seq<Map<Seq<u8>, Option<Seq<u8>>>>,
    k: Seq<u8>,
)
    ensures
        maps_chain(a + b, 0, k) == (match maps_chain(a, 0, k) {
            Some(v) => Some(v),
            None => maps_chain(b, 0, k),
        }),
{
    lemma_maps_chain_concat_from(a, b, 0, k);
}

proof fn lemma_maps_chain_concat_from(
    a: Seq<Map<Seq<u8>, Option<Seq<u8>>>>,
    b: Seq<Map<Seq<u8>, Option<Seq<u8>>>>,
    j: int,
    k: Seq<u8>,
)
    requires
        0 <= j <= a.len(),
    ensures
        maps_chain(a + b, j, k) == (match maps_chain(a, j, k) {
            Some(v) => Some(v),
            None => maps_chain(b, 0, k),
        }),
    decreases a.len() + b.len() - j,
{
    let all = a + b;
    if j < a.len() {
        assert(all[j] == a[j]);
        lemma_maps_chain_concat_from(a, b, j + 1, k);
    } else {
        lemma_maps_chain_shift(a, b, j - a.len(), k);
    }
}

pub proof fn lemma_maps_chain_shift(
    a: Seq<Map<Seq<u8>, Option<Seq<u8>>>>,
    b: Seq<Map<Seq<u8>, Option<Seq<u8>>>>,
    j: int,
    k: Seq<u8>,
)
    requires
        0 <= j <= b.len(),
    ensures
        maps_chain(a + b, a.len() + j, k) == maps_chain(b, j, k),
    decreases b.len() - j,
{
    let all = a + b;
    if j < b.len() {
        assert(all[a.len() + j] == b[j]);
        lemma_maps_chain_shift(a, b, j + 1, k);
    }
}

/// The probe-ordered payload maps of one level: newest table first.
pub open spec fn level_maps(tables: Seq<(u8, SSTable)>) -> Seq<Map<Seq<u8>, Option<Seq<u8>>>> {
    Seq::new(tables.len(), |t: int| lift_table(tables[t].1@))
}

/// The per-level table registry and the manifest log records appended
/// by this run.
pub struct ManifestManager {
    levels: Vec<Vec<(u8, SSTable)>>,
    level_counter: Vec<u8>,
    manifest_log: Vec<RawManifestLogEntry>,
}

impl ManifestManager {
    pub closed spec fn spec_levels(self) -> Seq<Seq<(u8, SSTable)>> {
        Seq::new(self.levels@.len(), |l: int| self.levels@[l]@)
    }

    pub closed spec fn spec_log(self) -> Seq<RawManifestLogEntry> {
        self.manifest_log@
    }

    pub closed spec fn spec_counter(self, level: int) -> u8 {
        self.level_counter@[level]
    }

    pub closed spec fn wf(self) -> bool {
        &&& self.levels@.len() == 6
        &&& self.level_counter@.len() == 6
        &&& forall|l: int, t: int| 0 <= l < 6 && 0 <= t < self.levels@[l]@.len() ==> ((
        #[trigger] self.levels@[l]@[t]).1.wf() && self.levels@[l]@[t].1.spec_pairs().len()
            <= 0x1_0000_0000)
        &&& forall|l: int, t1: int, t2: int| 0 <= l < 6 && 0 <= t1 < t2 < self.levels@[l]@.len()
            ==> (#[trigger] self.levels@[l]@[t1]).0 > (#[trigger] self.levels@[l]@[t2]).0
        &&& forall|l: int, t: int| 0 <= l < 6 && 0 <= t < self.levels@[l]@.len() ==> (
        #[trigger] self.levels@[l]@[t]).0 < self.level_counter@[l]
    }

    /// The payload maps of every table in probe order: level by level,
    /// newest table of a level first.
    pub open spec fn table_maps(self) -> Seq<Map<Seq<u8>, Option<Seq<u8>>>> {
        all_table_maps(self.spec_levels())
    }

    /// What the registry as a whole holds for a key.
    pub open spec fn lookup(self, k: Seq<u8>) -> Option<Seq<u8>> {
        match maps_chain(self.table_maps(), 0, k) {
            Some(p) => p,
            None => None,
        }
    }

    /// An empty registry: no tables, no log records, counters at zero.
    pub fn create_new() -> (r: ManifestManager)
        ensures
            r.wf(),
            r.spec_log().len() == 0,
            r.table_maps().len() == 0,
            forall|l: int| 0 <= l < 6 ==> r.spec_counter(l) == 0,
            forall|l: int| 0 <= l < 6 ==> (#[trigger] r.spec_levels()[l]).len() == 0,
    {
        let mut levels: Vec<Vec<(u8, SSTable)>> = Vec::new();
        let mut counters: Vec<u8> = Vec::new();
        let mut l: usize = 0;
        while l < 6
            invariant
                l <= 6,
                levels@.len() == l,
                counters@.len() == l,
                forall|i: int| 0 <= i < l ==> (#[trigger] levels@[i])@.len() == 0,
                forall|i: int| 0 <= i < l ==> #[trigger] counters@[i] == 0,
            decreases 6 - l,
        {
            levels.push(Vec::new());
            counters.push(0);
            l = l + 1;
        }
        let r = ManifestManager { levels, level_counter: counters, manifest_log: Vec::new() };
        proof {
            assert(r.table_maps() =~= Seq::<Map<Seq<u8>, Option<Seq<u8>>>>::empty());
        }
        r
    }

    /// The id the next table of a level will get.
    pub fn next_table_id(&self, level: usize) -> (r: u8)
        requires
            level < 6,
            self.wf(),
        ensures
            r == self.spec_counter(level as int),
    {
        self.level_counter[level]
    }

    /// Registers a table under `(level, table_id)`. The id must lie
    /// above every id the level already holds; the level's counter
    /// moves past it.
    pub fn add_table(&mut self, level: usize, table_id: u8, table: SSTable)
        requires
            old(self).wf(),
            level < 6,
            table.wf(),
            table.spec_pairs().len() <= 0x1_0000_0000,
            table_id < 255,
            old(self).spec_counter(level as int) <= table_id,
        ensures
            final(self).wf(),
            final(self).spec_log() == old(self).spec_log(),
            final(self).spec_levels()[level as int] == seq![(table_id, table)] + old(self).spec_levels()[level as int],
            forall|l: int| 0 <= l < 6 && l != level ==> final(self).spec_levels()[l] == old(self).spec_levels()[l],
            final(self).spec_counter(level as int) == table_id + 1,
            level == 0 ==> final(self).table_maps() == seq![lift_table(table@)] + old(self).table_maps(),
    {
        let pair = (table_id, table);
        self.levels[level].insert(0, pair);
        self.level_counter[level] = table_id + 1;
        proof {
            assert(final(self).spec_levels()[level as int] =~= seq![(table_id, pair.1)] + old(self).spec_levels()[level as int]);
            assert forall|l: int| 0 <= l < 6 && l != level implies final(self).spec_levels()[l]
                == old(self).spec_levels()[l] by {
                assert(final(self).levels@[l] == old(self).levels@[l]);
            }
            assert forall|l: int, t1: int, t2: int|
                0 <= l < 6 && 0 <= t1 < t2 < final(self).levels@[l]@.len() implies (
            #[trigger] final(self).levels@[l]@[t1]).0 > (#[trigger] final(self).levels@[l]@[t2]).0 by {
                if l == level {
                    assert(final(self).levels@[l]@[t2] == old(self).levels@[l]@[t2 - 1]);
                    if t1 > 0 {
                        assert(final(self).levels@[l]@[t1] == old(self).levels@[l]@[t1 - 1]);
                    } else {
                        assert(old(self).levels@[l]@[t2 - 1].0 < old(self).spec_counter(l));
                    }
                }
            }
            if level == 0 {
                assert(level_maps(final(self).spec_levels()[0]) =~= seq![lift_table(table@)]
                    + level_maps(old(self).spec_levels()[0]));
                assert(final(self).table_maps() =~= seq![lift_table(table@)] + old(self).table_maps());
            }
        }
    }

    /// Records an add into the manifest log mirror.
    pub fn log_add(&mut self, level: u8, id: u8)
        ensures
            final(self).spec_log() == old(self).spec_log() + seq![
                RawManifestLogEntry { real_flag: 1, add_flag: 1, level, id },
            ],
            final(self).spec_levels() == old(self).spec_levels(),
            final(self).wf() == old(self).wf(),
            final(self).table_maps() == old(self).table_maps(),
            forall|l: int| 0 <= l < 6 ==> final(self).spec_counter(l) == old(self).spec_counter(l),
    {
        let entry = RawManifestLogEntry { real_flag: 1, add_flag: 1, level, id };
        self.manifest_log.push(entry);
        proof {
            assert(final(self).spec_log() =~= old(self).spec_log() + seq![
                RawManifestLogEntry { real_flag: 1, add_flag: 1, level, id },
            ]);
            assert(final(self).spec_levels() =~= old(self).spec_levels());
        }
    }

    /// Probes the registry: level by level, newest table of a level
    /// first; the first table holding the key decides.
    pub fn find_key(&self, key: &Slice) -> (r: Option<Slice>)
        requires
            self.wf(),
        ensures
            match r {
                Some(v) => self.lookup(key@) == Some(v@) && maps_chain(self.table_maps(), 0, key@)
                    == Some(Some(v@)),
                None => self.lookup(key@) is None && maps_chain(self.table_maps(), 0, key@)
                    is None,
            },
    {
        let ghost all = self.table_maps();
        let mut l: usize = 0;
        while l < 6
            invariant
                self.wf(),
                l <= 6,
                all == self.table_maps(),
                maps_chain(all, 0, key@) == maps_chain(all, chain_offset(self.spec_levels(), l as int), key@),
                chain_offset(self.spec_levels(), 6) == all.len(),
                chain_offset(self.spec_levels(), l as int) <= all.len(),
            decreases 6 - l,
        {
            let ghost base = chain_offset(self.spec_levels(), l as int);
            let tables = &self.levels[l];
            let mut t: usize = 0;
            proof {
                lemma_chain_offset_step(self.spec_levels(), l as int);
            }
            while t < tables.len()
                invariant
                    self.wf(),
                    l < 6,
                    tables@ == self.spec_levels()[l as int],
                    all == self.table_maps(),
                    t <= tables@.len(),
                    base == chain_offset(self.spec_levels(), l as int),
                    base + tables@.len() == chain_offset(self.spec_levels(), l + 1),
                    chain_offset(self.spec_levels(), 6) == all.len(),
                    base + tables@.len() <= all.len(),
                    maps_chain(all, 0, key@) == maps_chain(all, base + t, key@),
                decreases tables@.len() - t,
            {
                proof {
                    lemma_all_maps_index(self.spec_levels(), l as int, t as int);
                }
                match tables[t].1.get_sync(key.clone()) {
                    Ok(v) => {
                        proof {
                            let m = all[base + t];
                            assert(m == lift_table(self.spec_levels()[l as int][t as int].1@));
                            assert(m.contains_key(key@));
                            assert(m[key@] == Some(v@));
                        }
                        return Some(v);
                    },
                    Err(_) => {
                        proof {
                            let m = all[base + t];
                            assert(m == lift_table(self.spec_levels()[l as int][t as int].1@));
                            assert(!m.contains_key(key@));
                        }
                        t = t + 1;
                    },
                }
            }
            l = l + 1;
        }
        proof {
            lemma_chain_offset_full(self.spec_levels());
        }
        None
    }

    /// The per-table scans of every table in probe order, each clipped
    /// to `[start, end)` and lifted to payload pairs.
    pub fn scan_inputs(&self, start: &Slice, end: &Slice) -> (r: Vec<
        Vec<(Slice, crate::mem_database::Value)>,
    >)
        requires
            self.wf(),
        ensures
            r@.len() == self.table_maps().len(),
            forall|j: int, p: int| #![trigger r@[j]@[p]] 0 <= j < r@.len() && 0 <= p
                < r@[j]@.len() ==> (self.table_maps()[j].contains_key(r@[j]@[p].0@)
                && r@[j]@[p].1@ == self.table_maps()[j][r@[j]@[p].0@] && key_le(
                start@,
                r@[j]@[p].0@,
            ) && key_lt(r@[j]@[p].0@, end@)),
            forall|j: int, p: int, q: int| #![trigger r@[j]@[p], r@[j]@[q]] 0 <= j < r@.len()
                && 0 <= p < q < r@[j]@.len() ==> key_lt(r@[j]@[p].0@, r@[j]@[q].0@),
            forall|j: int, k: Seq<u8>| #![trigger self.table_maps()[j].contains_key(k)]
                0 <= j < r@.len() && self.table_maps()[j].contains_key(k) && key_le(start@, k)
                && key_lt(k, end@) ==> exists|p: int| 0 <= p < r@[j]@.len() && (
            #[trigger] r@[j]@[p]).0@ == k,
            forall|j: int| 0 <= j < r@.len() ==> (#[trigger] r@[j])@.len() <= 0x1_0000_0000,
            forall|j: int, p: int, q: int| #![trigger r@[j]@[p], r@[j]@[q]] 0 <= j < r@.len()
                && 0 <= p < r@[j]@.len() && 0 <= q < r@[j]@.len() && p != q ==> r@[j]@[p].0@
                != r@[j]@[q].0@,
    {
        let ghost all = self.table_maps();
        let mut out: Vec<Vec<(Slice, crate::mem_database::Value)>> = Vec::new();
        let mut l: usize = 0;
        while l < 6
            invariant
                self.wf(),
                l <= 6,
                all == self.table_maps(),
                out@.len() == chain_offset(self.spec_levels(), l as int),
                chain_offset(self.spec_levels(), 6) == all.len(),
                out@.len() <= all.len(),
                forall|j: int, p: int| #![trigger out@[j]@[p]] 0 <= j < out@.len() && 0 <= p
                    < out@[j]@.len() ==> (all[j].contains_key(out@[j]@[p].0@) && out@[j]@[p].1@
                    == all[j][out@[j]@[p].0@] && key_le(start@, out@[j]@[p].0@) && key_lt(
                    out@[j]@[p].0@,
                    end@,
                )),
                forall|j: int, p: int, q: int| #![trigger out@[j]@[p], out@[j]@[q]]
                    0 <= j < out@.len() && 0 <= p < q < out@[j]@.len() ==> key_lt(
                    out@[j]@[p].0@,
                    out@[j]@[q].0@,
                ),
                forall|j: int, k: Seq<u8>| #![trigger all[j].contains_key(k)]
                    0 <= j < out@.len() && all[j].contains_key(k) && key_le(start@, k) && key_lt(
                    k,
                    end@,
                ) ==> exists|p: int| 0 <= p < out@[j]@.len() && (#[trigger] out@[j]@[p]).0@ == k,
                forall|j: int| 0 <= j < out@.len() ==> (#[trigger] out@[j])@.len()
                    <= 0x1_0000_0000,
            decreases 6 - l,
        {
            let ghost base = chain_offset(self.spec_levels(), l as int);
            let tables = &self.levels[l];
            let mut t: usize = 0;
            proof {
                lemma_chain_offset_step(self.spec_levels(), l as int);
            }
            while t < tables.len()
                invariant
                    self.wf(),
                    l < 6,
                    tables@ == self.spec_levels()[l as int],
                    all == self.table_maps(),
                    t <= tables@.len(),
                    base == chain_offset(self.spec_levels(), l as int),
                    base + tables@.len() == chain_offset(self.spec_levels(), l + 1),
                    chain_offset(self.spec_levels(), 6) == all.len(),
                    base + tables@.len() <= all.len(),
                    out@.len() == base + t,
                    forall|j: int, p: int| #![trigger out@[j]@[p]] 0 <= j < out@.len() && 0 <= p
                        < out@[j]@.len() ==> (all[j].contains_key(out@[j]@[p].0@) && out@[j]@[p].1@
                        == all[j][out@[j]@[p].0@] && key_le(start@, out@[j]@[p].0@) && key_lt(
                        out@[j]@[p].0@,
                        end@,
                    )),
                    forall|j: int, p: int, q: int| #![trigger out@[j]@[p], out@[j]@[q]]
                        0 <= j < out@.len() && 0 <= p < q < out@[j]@.len() ==> key_lt(
                        out@[j]@[p].0@,
                        out@[j]@[q].0@,
                    ),
                    forall|j: int, k: Seq<u8>| #![trigger all[j].contains_key(k)]
                        0 <= j < out@.len() && all[j].contains_key(k) && key_le(start@, k)
                        && key_lt(k, end@) ==> exists|p: int| 0 <= p < out@[j]@.len() && (
                    #[trigger] out@[j]@[p]).0@ == k,
                    forall|j: int| 0 <= j < out@.len() ==> (#[trigger] out@[j])@.len()
                        <= 0x1_0000_0000,
                decreases tables@.len() - t,
            {
                proof {
                    lemma_all_maps_index(self.spec_levels(), l as int, t as int);
                }
                let listing = tables[t].1.scan_payloads(start, end);
                let ghost lv = listing@;
                let ghost tm = tables@[t as int].1@;
                let ghost m = all[base + t];
                let ghost old_out = out@;
                out.push(listing);
                proof {
                    assert(m == lift_table(tm));
                    assert(out@[out@.len() - 1]@ == lv);
                    assert(self.levels@[l as int]@[t as int].1.spec_pairs().len()
                        <= 0x1_0000_0000);
                    assert(lv.len() <= 0x1_0000_0000);
                    assert forall|p: int| 0 <= p < lv.len() implies (#[trigger] m.contains_key(
                        lv[p].0@,
                    ) && lv[p].1@ == m[lv[p].0@] && key_le(start@, lv[p].0@) && key_lt(
                        lv[p].0@,
                        end@,
                    )) by {
                        assert(tm.contains_key(lv[p].0@));
                        assert(lv[p].1@ == Some(tm[lv[p].0@]));
                        assert(m[lv[p].0@] == Some(tm[lv[p].0@]));
                    }
                    assert forall|k: Seq<u8>| #[trigger] m.contains_key(k) && key_le(start@, k)
                        && key_lt(k, end@) implies exists|p: int| 0 <= p < lv.len() && (
                    #[trigger] lv[p]).0@ == k by {
                        assert(tm.contains_key(k));
                    }
                    assert forall|j: int, p: int| #![trigger out@[j]@[p]] 0 <= j < out@.len()
                        && 0 <= p < out@[j]@.len() implies (all[j].contains_key(out@[j]@[p].0@)
                        && out@[j]@[p].1@ == all[j][out@[j]@[p].0@] && key_le(
                        start@,
                        out@[j]@[p].0@,
                    ) && key_lt(out@[j]@[p].0@, end@)) by {
                        if j < out@.len() - 1 {
                            assert(out@[j] == old_out[j]);
                        } else {
                            assert(out@[j]@ == lv);
                            assert(all[j] == m);
                        }
                    }
                    assert forall|j: int, p: int, q: int| #![trigger out@[j]@[p], out@[j]@[q]]
                        0 <= j < out@.len() && 0 <= p < q < out@[j]@.len() implies key_lt(
                        out@[j]@[p].0@,
                        out@[j]@[q].0@,
                    ) by {
                        if j < out@.len() - 1 {
                            assert(out@[j] == old_out[j]);
                        } else {
                            assert(out@[j]@ == lv);
                        }
                    }
                    assert forall|j: int, k: Seq<u8>| #![trigger all[j].contains_key(k)]
                        0 <= j < out@.len() && all[j].contains_key(k) && key_le(start@, k)
                        && key_lt(k, end@) implies exists|p: int| 0 <= p < out@[j]@.len() && (
                    #[trigger] out@[j]@[p]).0@ == k by {
                        if j < out@.len() - 1 {
                            assert(out@[j] == old_out[j]);
                            let p = choose|p: int| 0 <= p < old_out[j]@.len() && (
                            #[trigger] old_out[j]@[p]).0@ == k;
                            assert(out@[j]@[p].0@ == k);
                        } else {
                            assert(all[j] == m);
                            let p = choose|p: int| 0 <= p < lv.len() && (#[trigger] lv[p]).0@
                                == k;
                            assert(out@[j]@[p].0@ == k);
                        }
                    }
                }
                t = t + 1;
            }
            l = l + 1;
        }
        proof {
            lemma_chain_offset_full(self.spec_levels());
            assert forall|j: int, p: int, q: int| #![trigger out@[j]@[p], out@[j]@[q]]
                0 <= j < out@.len() && 0 <= p < out@[j]@.len() && 0 <= q < out@[j]@.len() && p != q
                implies out@[j]@[p].0@ != out@[j]@[q].0@ by {
                if p < q {
                    assert(key_lt(out@[j]@[p].0@, out@[j]@[q].0@));
                    if out@[j]@[p].0@ == out@[j]@[q].0@ {
                        crate::slice::lemma_key_lt_irrefl(out@[j]@[p].0@);
                    }
                } else {
                    assert(key_lt(out@[j]@[q].0@, out@[j]@[p].0@));
                    if out@[j]@[p].0@ == out@[j]@[q].0@ {
                        crate::slice::lemma_key_lt_irrefl(out@[j]@[p].0@);
                    }
                }
            }
        }
        out
    }

    /// The merged scan of every table: each key of the range once, the
    /// newest table of the shallowest level deciding its value.
    pub fn scan(&self, start: Slice, end: Slice) -> (r: Vec<(Slice, Slice)>)
        requires
            self.wf(),
        ensures
            forall|p: int| #![trigger r@[p]] 0 <= p < r@.len() ==> ((self.lookup(r@[p].0@)
                == Some(r@[p].1@)) && key_le(start@, r@[p].0@) && key_lt(r@[p].0@, end@)),
            forall|p: int, q: int| 0 <= p < q < r@.len() ==> key_lt(
                (#[trigger] r@[p]).0@,
                (#[trigger] r@[q]).0@,
            ),
            forall|k: Seq<u8>| #![trigger self.lookup(k)] key_le(start@, k) && key_lt(k, end@)
                && (maps_chain(self.table_maps(), 0, k) matches Some(pv) && pv is Some)
                ==> exists|q: int| 0 <= q < r@.len() && (#[trigger] r@[q]).0@ == k,
    {
        let ghost all = self.table_maps();
        let inputs = self.scan_inputs(&start, &end);
        proof {
            self.lemma_table_count();
        }
        let out = crate::merge::merge_sources(inputs, Ghost(all), Ghost(start@), Ghost(end@));
        proof {
            assert forall|p: int| #![trigger out@[p]] 0 <= p < out@.len() implies self.lookup(
                out@[p].0@,
            ) == Some(out@[p].1@) by {
                assert(maps_chain(all, 0, out@[p].0@) == Some(Some(out@[p].1@)));
            }
        }
        out
    }

    /// The listing-length invariant of scan comes from each table's
    /// bound; similarly the registry never holds more tables than the
    /// id space of its six levels allows.
    pub proof fn lemma_table_count(self)
        requires
            self.wf(),
        ensures
            self.table_maps().len() <= 1536,
    {
        assert forall|l: int| 0 <= l < 6 implies (#[trigger] self.spec_levels()[l]).len()
            <= 256 by {
            let tables = self.spec_levels()[l];
            if tables.len() > 256 {
                lemma_ids_descend(tables, 256);
                assert(tables[256].0 + 256 <= tables[0].0);
            }
        }
        assert(self.table_maps().len() == self.spec_levels()[0].len() + self.spec_levels()[1].len()
            + self.spec_levels()[2].len() + self.spec_levels()[3].len()
            + self.spec_levels()[4].len() + self.spec_levels()[5].len());
    }
}

/// In a level the table ids fall by at least one per step.
proof fn lemma_ids_descend(tables: Seq<(u8, SSTable)>, t: int)
    requires
        0 <= t < tables.len(),
        forall|t1: int, t2: int| 0 <= t1 < t2 < tables.len() ==> (#[trigger] tables[t1]).0 > (
        #[trigger] tables[t2]).0,
    ensures
        tables[t].0 + t <= tables[0].0,
    decreases t,
{
    if t > 0 {
        lemma_ids_descend(tables, t - 1);
        assert(tables[t - 1].0 > tables[t].0);
    }
}

/// The probe-ordered payload maps of a six-level registry.
pub open spec fn all_table_maps(levels: Seq<Seq<(u8, SSTable)>>) -> Seq<
    Map<Seq<u8>, Option<Seq<u8>>>,
> {
    level_maps(levels[0]) + level_maps(levels[1]) + level_maps(levels[2]) + level_maps(levels[3])
        + level_maps(levels[4]) + level_maps(levels[5])
}

/// Where each level's tables sit inside the probe order.
pub proof fn lemma_all_maps_index(levels: Seq<Seq<(u8, SSTable)>>, l: int, t: int)
    requires
        levels.len() == 6,
        0 <= l < 6,
        0 <= t < levels[l].len(),
    ensures
        all_table_maps(levels).len() == chain_offset(levels, 6),
        all_table_maps(levels)[chain_offset(levels, l) + t] == lift_table(levels[l][t].1@),
{
    let a0 = level_maps(levels[0]);
    let a1 = level_maps(levels[1]);
    let a2 = level_maps(levels[2]);
    let a3 = level_maps(levels[3]);
    let a4 = level_maps(levels[4]);
    let a5 = level_maps(levels[5]);
    let all = all_table_maps(levels);
    assert(all.len() == a0.len() + a1.len() + a2.len() + a3.len() + a4.len() + a5.len());
    let u = chain_offset(levels, l) + t;
    if l == 0 {
        assert(all[u] == a0[t]);
    } else if l == 1 {
        assert(all[u] == a1[t]);
    } else if l == 2 {
        assert(all[u] == a2[t]);
    } else if l == 3 {
        assert(all[u] == a3[t]);
    } else if l == 4 {
        assert(all[u] == a4[t]);
    } else {
        assert(all[u] == a5[t]);
    }
}

/// How many tables precede level `l` in probe order.
pub open spec fn chain_offset(levels: Seq<Seq<(u8, SSTable)>>, l: int) -> int {
    if l <= 0 {
        0
    } else if l == 1 {
        levels[0].len() as int
    } else if l == 2 {
        levels[0].len() + levels[1].len() as int
    } else if l == 3 {
        levels[0].len() + levels[1].len() + levels[2].len() as int
    } else if l == 4 {
        levels[0].len() + levels[1].len() + levels[2].len() + levels[3].len() as int
    } else if l == 5 {
        levels[0].len() + levels[1].len() + levels[2].len() + levels[3].len() + levels[4].len()
            as int
    } else {
        levels[0].len() + levels[1].len() + levels[2].len() + levels[3].len() + levels[4].len()
            + levels[5].len() as int
    }
}

proof fn lemma_chain_offset_step(levels: Seq<Seq<(u8, SSTable)>>, l: int)
    requires
        levels.len() == 6,
        0 <= l < 6,
    ensures
        chain_offset(levels, l + 1) == chain_offset(levels, l) + levels[l].len(),
{
}

proof fn lemma_chain_offset_full(levels: Seq<Seq<(u8, SSTable)>>)
    requires
        levels.len() == 6,
    ensures
        chain_offset(levels, 6) == level_maps(levels[0]).len() + level_maps(levels[1]).len()
            + level_maps(levels[2]).len() + level_maps(levels[3]).len() + level_maps(
            levels[4],
        ).len() + level_maps(levels[5]).len(),
{
}

} // verus!
