//! Merging several key-sorted listings into one, with priority: for a
//! key held by several inputs, the earliest input's value wins.

use vstd::prelude::*;

use crate::manifest_manager::maps_chain;
use crate::mem_database::Value;
use crate::skipmap::SkipMap;
use crate::slice::{key_le, key_lt, lemma_key_lt_irrefl, Slice};

verus! {

/// A merge payload: a value with a view that duplication preserves.
pub trait MergePayload: View + Sized {
    /// An owned copy with the same view.
    fn dup(&self) -> (r: Self)
        ensures
            r@ == self@,
    ;
}

impl MergePayload for Slice {
    fn dup(&self) -> (r: Self)
        ensures
            r@ == self@,
    {
        self.clone()
    }
}

impl MergePayload for Value {
    fn dup(&self) -> (r: Self)
        ensures
            r@ == self@,
    {
        self.clone()
    }
}

/// The map one input denotes: its first entry for a key wins.
pub open spec fn seq_map<T>(s: Seq<(Slice, T)>) -> Map<Seq<u8>, T>
    decreases s.len(),
{
    if s.len() == 0 {
        Map::empty()
    } else {
        seq_map(s.drop_first()).insert(s[0].0@, s[0].1)
    }
}

/// The merged map of the inputs from position `v` on, earlier inputs
/// overriding later ones.
pub open spec fn priority_map<T>(inputs: Seq<Seq<(Slice, T)>>, v: int) -> Map<Seq<u8>, T>
    decreases inputs.len() - v,
{
    if v < 0 || v >= inputs.len() {
        Map::empty()
    } else {
        priority_map(inputs, v + 1).union_prefer_right(seq_map(inputs[v]))
    }
}

pub open spec fn seq_has_key<T>(s: Seq<(Slice, T)>, k: Seq<u8>) -> bool {
    exists|i: int| 0 <= i < s.len() && (#[trigger] s[i]).0@ == k
}

pub proof fn lemma_seq_map_contains<T>(s: Seq<(Slice, T)>, k: Seq<u8>)
    ensures
        seq_map(s).contains_key(k) <==> seq_has_key(s, k),
    decreases s.len(),
{
    if s.len() > 0 {
        lemma_seq_map_contains(s.drop_first(), k);
        if s[0].0@ == k {
        } else if seq_map(s).contains_key(k) {
            let j = choose|j: int| 0 <= j < s.drop_first().len() && (#[trigger] s.drop_first()[j]).0@
                == k;
            assert(s[j + 1].0@ == k);
        } else if seq_has_key(s, k) {
            let j = choose|j: int| 0 <= j < s.len() && (#[trigger] s[j]).0@ == k;
            assert(s.drop_first()[j - 1].0@ == k);
        }
    }
}

pub proof fn lemma_seq_map_value<T>(s: Seq<(Slice, T)>, k: Seq<u8>, i: int)
    requires
        0 <= i < s.len(),
        s[i].0@ == k,
        forall|j: int| 0 <= j < i ==> (#[trigger] s[j]).0@ != k,
    ensures
        seq_map(s).contains_key(k),
        seq_map(s)[k] == s[i].1,
    decreases i,
{
    if i > 0 {
        lemma_seq_map_value(s.drop_first(), k, i - 1);
    }
}

/// The merged map holds a key exactly when some input from `v` on
/// holds it, and takes the value of the earliest such input.
pub proof fn lemma_priority_map_first<T>(inputs: Seq<Seq<(Slice, T)>>, v: int, k: Seq<u8>)
    requires
        0 <= v,
    ensures
        priority_map(inputs, v).contains_key(k) <==> exists|w: int| v <= w < inputs.len()
            && seq_has_key(#[trigger] inputs[w], k),
        forall|w: int| #![trigger inputs[w]] v <= w < inputs.len() && seq_has_key(inputs[w], k)
            && (forall|u: int| v <= u < w ==> !seq_has_key(#[trigger] inputs[u], k))
            ==> priority_map(inputs, v).contains_key(k) && priority_map(inputs, v)[k] == seq_map(
            inputs[w],
        )[k],
    decreases inputs.len() - v,
{
    if v < inputs.len() {
        lemma_priority_map_first(inputs, v + 1, k);
        lemma_seq_map_contains(inputs[v], k);
        if priority_map(inputs, v).contains_key(k) && !seq_map(inputs[v]).contains_key(k) {
            let w = choose|w: int| v + 1 <= w < inputs.len() && seq_has_key(#[trigger] inputs[w], k);
            assert(seq_has_key(inputs[w], k));
        }
        if exists|w: int| v <= w < inputs.len() && seq_has_key(#[trigger] inputs[w], k) {
            let w = choose|w: int| v <= w < inputs.len() && seq_has_key(#[trigger] inputs[w], k);
            if w == v {
                assert(seq_map(inputs[v]).contains_key(k));
            }
        }
        assert forall|w: int| #![trigger inputs[w]] v <= w < inputs.len() && seq_has_key(
            inputs[w],
            k,
        ) && (forall|u: int| v <= u < w ==> !seq_has_key(#[trigger] inputs[u], k)) implies
            priority_map(inputs, v).contains_key(k) && priority_map(inputs, v)[k] == seq_map(
            inputs[w],
        )[k] by {
            if w == v {
                lemma_seq_map_contains(inputs[v], k);
            } else {
                assert(!seq_has_key(inputs[v], k));
                assert(forall|u: int| v + 1 <= u < w ==> !seq_has_key(#[trigger] inputs[u], k));
                assert(priority_map(inputs, v + 1)[k] == seq_map(inputs[w])[k]);
            }
        }
    }
}

/// The views of the input listings.
pub open spec fn input_views<T>(inputs: Seq<Vec<(Slice, T)>>) -> Seq<Seq<(Slice, T)>> {
    Seq::new(inputs.len(), |v: int| inputs[v]@)
}

/// Merges key-sorted inputs into one ascending listing with one pair
/// per key, the earliest input winning each key.
pub fn merge_entries<T: MergePayload>(inputs: Vec<Vec<(Slice, T)>>) -> (r: Vec<(Slice, T)>)
    requires
        seq_total_len(input_views(inputs@)) < u64::MAX,
    ensures
        ({
            let pm = priority_map(input_views(inputs@), 0);
            &&& forall|p: int| 0 <= p < r@.len() ==> (#[trigger] pm.contains_key(r@[p].0@)
                && r@[p].1@ == pm[r@[p].0@]@)
            &&& forall|p: int, q: int| 0 <= p < q < r@.len() ==> key_lt(
                (#[trigger] r@[p]).0@,
                (#[trigger] r@[q]).0@,
            )
            &&& forall|k: Seq<u8>| #[trigger] pm.contains_key(k) ==> exists|p: int|
                0 <= p < r@.len() && (#[trigger] r@[p]).0@ == k
        }),
{
    let ghost views = input_views(inputs@);
    let mut inputs = inputs;
    let mut map: SkipMap<T> = SkipMap::new(0);
    let mut v = inputs.len();
    proof {
        assert(inputs@.len() == views.len());
        assert(priority_map(views, v as int) =~= Map::<Seq<u8>, T>::empty());
    }
    while v > 0
        invariant
            inputs@.len() == v,
            v <= views.len(),
            forall|w: int| 0 <= w < v ==> (#[trigger] inputs@[w])@ == views[w],
            map.wf(),
            map@ == priority_map(views, v as int),
            map.op_count() == seq_total_len(views.skip(v as int)),
            seq_total_len(views) < u64::MAX,
        decreases v,
    {
        v = v - 1;
        let mut input = inputs.pop().unwrap();
        proof {
            assert(input@ == views[v as int]);
            lemma_seq_total_len_skip(views, v as int);
        }
        let ghost s = input@;
        while input.len() > 0
            invariant
                map.wf(),
                input@ == s.take(input@.len() as int),
                input@.len() <= s.len(),
                map@ == priority_map(views, v + 1).union_prefer_right(
                    seq_map(s.skip(input@.len() as int)),
                ),
                map.op_count() == seq_total_len(views.skip(v + 1)) + s.len() - input@.len(),
                seq_total_len(views.skip(v + 1)) + s.len() <= seq_total_len(views.skip(v as int)),
                seq_total_len(views) < u64::MAX,
                seq_total_len(views.skip(v as int)) <= seq_total_len(views),
            decreases input@.len(),
        {
            let ghost r = input@.len() as int;
            let (key, val) = input.pop().unwrap();
            proof {
                assert(key@ == s[r - 1].0@ && val == s[r - 1].1);
                assert(input@ =~= s.take(r - 1));
                assert(s.skip(r - 1).drop_first() =~= s.skip(r));
                assert(s.skip(r - 1)[0] == s[r - 1]);
                assert(seq_map(s.skip(r - 1)) == seq_map(s.skip(r)).insert(s[r - 1].0@, s[r - 1].1));
            }
            map.insert(&key, val);
            proof {
                assert(map@ =~= priority_map(views, v + 1).union_prefer_right(
                    seq_map(s.skip(r - 1)),
                ));
            }
        }
        proof {
            assert(s.skip(0) =~= s);
            assert(map@ == priority_map(views, v + 1).union_prefer_right(seq_map(s)));
            assert(map@ == priority_map(views, v as int));
        }
    }
    let ghost pm = priority_map(views, 0);
    let pairs = map.scan_all();
    let mut out: Vec<(Slice, T)> = Vec::new();
    let mut i: usize = 0;
    while i < pairs.len()
        invariant
            i <= pairs@.len(),
            out@.len() == i,
            forall|p: int| 0 <= p < i ==> ((#[trigger] out@[p]).0@ == pairs@[p].0@ && out@[p].1@
                == pairs@[p].1@),
            forall|p: int| 0 <= p < pairs@.len() ==> (#[trigger] pm.contains_key(pairs@[p].0@)
                && pairs@[p].1 == pm[pairs@[p].0@]),
            forall|p: int, q: int| 0 <= p < q < pairs@.len() ==> key_lt(
                (#[trigger] pairs@[p]).0@,
                (#[trigger] pairs@[q]).0@,
            ),
            forall|k: Seq<u8>| #[trigger] pm.contains_key(k) ==> exists|p: int|
                0 <= p < pairs@.len() && (#[trigger] pairs@[p]).0@ == k,
        decreases pairs@.len() - i,
    {
        let pair = (pairs[i].0.clone(), pairs[i].1.dup());
        out.push(pair);
        i = i + 1;
    }
    proof {
        assert forall|k: Seq<u8>| #[trigger] pm.contains_key(k) implies exists|p: int|
            0 <= p < out@.len() && (#[trigger] out@[p]).0@ == k by {
            let p = choose|p: int| 0 <= p < pairs@.len() && (#[trigger] pairs@[p]).0@ == k;
            assert(out@[p].0@ == k);
        }
    }
    out
}

/// The total number of pairs across the inputs.
pub open spec fn seq_total_len<T>(inputs: Seq<Seq<(Slice, T)>>) -> int
    decreases inputs.len(),
{
    if inputs.len() == 0 {
        0
    } else {
        inputs.first().len() + seq_total_len(inputs.drop_first())
    }
}

proof fn lemma_seq_total_len_skip<T>(views: Seq<Seq<(Slice, T)>>, v: int)
    requires
        0 <= v < views.len(),
    ensures
        seq_total_len(views.skip(v)) == views[v].len() + seq_total_len(views.skip(v + 1)),
        seq_total_len(views.skip(v)) >= 0,
        seq_total_len(views.skip(v)) <= seq_total_len(views),
    decreases views.len(),
{
    lemma_seq_total_len_nonneg(views.skip(v + 1));
    assert(views.skip(v).drop_first() =~= views.skip(v + 1));
    assert(views.skip(v).first() == views[v]);
    lemma_seq_total_len_prefix(views, v);
}

proof fn lemma_seq_total_len_nonneg<T>(views: Seq<Seq<(Slice, T)>>)
    ensures
        seq_total_len(views) >= 0,
    decreases views.len(),
{
    if views.len() > 0 {
        lemma_seq_total_len_nonneg(views.drop_first());
    }
}

proof fn lemma_seq_total_len_prefix<T>(views: Seq<Seq<(Slice, T)>>, v: int)
    requires
        0 <= v <= views.len(),
    ensures
        seq_total_len(views.skip(v)) <= seq_total_len(views),
    decreases v,
{
    if v > 0 {
        lemma_seq_total_len_prefix(views.drop_first(), v - 1);
        assert(views.skip(v) =~= views.drop_first().skip(v - 1));
        lemma_seq_total_len_nonneg(views);
    } else {
        assert(views.skip(0) =~= views);
    }
}

/// A uniform bound on every input bounds the total.
pub proof fn lemma_seq_total_len_bounded<T>(views: Seq<Seq<(Slice, T)>>, c: int)
    requires
        c >= 0,
        forall|v: int| 0 <= v < views.len() ==> (#[trigger] views[v]).len() <= c,
    ensures
        seq_total_len(views) <= views.len() * c,
    decreases views.len(),
{
    if views.len() == 0 {
    } else {
        lemma_seq_total_len_bounded(views.drop_first(), c);
        assert(views.first().len() <= c);
        assert(seq_total_len(views) <= c + (views.len() - 1) * c);
        assert(c + (views.len() - 1) * c == views.len() * c) by (nonlinear_arith);
    }
}

/// For a key in range, the priority-merged listings and the probe
/// chain over the corresponding source maps agree: both are decided by
/// the first source holding the key.
pub proof fn lemma_priority_vs_chain(
    listings: Seq<Seq<(Slice, Value)>>,
    maps: Seq<Map<Seq<u8>, Option<Seq<u8>>>>,
    j: int,
    k: Seq<u8>,
)
    requires
        0 <= j,
        listings.len() == maps.len(),
        forall|w: int| 0 <= w < listings.len() ==> (seq_has_key(#[trigger] listings[w], k) <==> (
        #[trigger] maps[w]).contains_key(k)),
        forall|w: int, i: int| 0 <= w < listings.len() && 0 <= i < listings[w].len() && (
        #[trigger] listings[w][i]).0@ == k ==> listings[w][i].1@ == maps[w][k],
        forall|w: int, i1: int, i2: int| 0 <= w < listings.len() && 0 <= i1 < i2
            < listings[w].len() ==> (#[trigger] listings[w][i1]).0@ != (
        #[trigger] listings[w][i2]).0@,
    ensures
        priority_map(listings, j).contains_key(k) <==> !(maps_chain(maps, j, k) is None),
        priority_map(listings, j).contains_key(k) ==> Some(priority_map(listings, j)[k]@)
            == maps_chain(maps, j, k),
    decreases listings.len() - j,
{
    if j < listings.len() {
        lemma_priority_vs_chain(listings, maps, j + 1, k);
        lemma_seq_map_contains(listings[j], k);
        if maps[j].contains_key(k) {
            let i = choose|i: int| 0 <= i < listings[j].len() && (#[trigger] listings[j][i]).0@
                == k;
            assert forall|i2: int| 0 <= i2 < i implies (#[trigger] listings[j][i2]).0@ != k by {
                assert(listings[j][i2].0@ != listings[j][i].0@);
            }
            lemma_seq_map_value(listings[j], k, i);
            assert(seq_map(listings[j])[k] == listings[j][i].1);
            assert(listings[j][i].1@ == maps[j][k]);
            assert(priority_map(listings, j)[k] == seq_map(listings[j])[k]);
        } else {
            assert(!seq_map(listings[j]).contains_key(k));
            assert(priority_map(listings, j).contains_key(k) == priority_map(
                listings,
                j + 1,
            ).contains_key(k));
            if priority_map(listings, j).contains_key(k) {
                assert(priority_map(listings, j)[k] == priority_map(listings, j + 1)[k]);
            }
        }
    }
}

/// Merges per-source listings that mirror a probe chain's maps, then
/// drops the tombstones: the result is exactly what the chain answers
/// with a value, for every key of the range.
pub fn merge_sources(
    inputs: Vec<Vec<(Slice, Value)>>,
    Ghost(maps): Ghost<Seq<Map<Seq<u8>, Option<Seq<u8>>>>>,
    Ghost(start): Ghost<Seq<u8>>,
    Ghost(end): Ghost<Seq<u8>>,
) -> (r: Vec<(Slice, Slice)>)
    requires
        input_views(inputs@).len() == maps.len(),
        inputs@.len() <= 2048,
        forall|j: int| 0 <= j < inputs@.len() ==> (#[trigger] inputs@[j])@.len()
            <= 0x1_0000_0000,
        forall|j: int, p: int| #![trigger inputs@[j]@[p]] 0 <= j < inputs@.len() && 0 <= p
            < inputs@[j]@.len() ==> (maps[j].contains_key(inputs@[j]@[p].0@) && inputs@[j]@[p].1@
            == maps[j][inputs@[j]@[p].0@] && key_le(start, inputs@[j]@[p].0@) && key_lt(
            inputs@[j]@[p].0@,
            end,
        )),
        forall|j: int, p: int, q: int| #![trigger inputs@[j]@[p], inputs@[j]@[q]]
            0 <= j < inputs@.len() && 0 <= p < q < inputs@[j]@.len() ==> key_lt(
            inputs@[j]@[p].0@,
            inputs@[j]@[q].0@,
        ),
        forall|j: int, k: Seq<u8>| #![trigger maps[j].contains_key(k)] 0 <= j < inputs@.len()
            && maps[j].contains_key(k) && key_le(start, k) && key_lt(k, end) ==> exists|p: int|
            0 <= p < inputs@[j]@.len() && (#[trigger] inputs@[j]@[p]).0@ == k,
    ensures
        forall|p: int| #![trigger r@[p]] 0 <= p < r@.len() ==> ((maps_chain(maps, 0, r@[p].0@)
            == Some(Some(r@[p].1@))) && key_le(start, r@[p].0@) && key_lt(r@[p].0@, end)),
        forall|p: int, q: int| 0 <= p < q < r@.len() ==> key_lt(
            (#[trigger] r@[p]).0@,
            (#[trigger] r@[q]).0@,
        ),
        forall|k: Seq<u8>| #![trigger maps_chain(maps, 0, k)] key_le(start, k) && key_lt(k, end)
            && (maps_chain(maps, 0, k) matches Some(p) && p is Some) ==> exists|q: int|
            0 <= q < r@.len() && (#[trigger] r@[q]).0@ == k,
{
    let ghost views = input_views(inputs@);
    proof {
        lemma_seq_total_len_bounded(views, 0x1_0000_0000);
        assert(seq_total_len(views) <= 2048 * 0x1_0000_0000);
        assert forall|w: int, i1: int, i2: int|
            0 <= w < views.len() && 0 <= i1 < i2 < views[w].len() implies (
        #[trigger] views[w][i1]).0@ != (#[trigger] views[w][i2]).0@ by {
            assert(views[w][i1] == inputs@[w]@[i1]);
            assert(views[w][i2] == inputs@[w]@[i2]);
            assert(key_lt(inputs@[w]@[i1].0@, inputs@[w]@[i2].0@));
            if inputs@[w]@[i1].0@ == inputs@[w]@[i2].0@ {
                lemma_key_lt_irrefl(inputs@[w]@[i1].0@);
            }
        }
    }
    let merged = merge_entries(inputs);
    let ghost pm = priority_map(views, 0);
    proof {
        assert forall|k: Seq<u8>| true implies (#[trigger] pm.contains_key(k) && key_le(start, k)
            && key_lt(k, end) ==> (!(maps_chain(maps, 0, k) is None) && Some(pm[k]@) == maps_chain(
            maps,
            0,
            k,
        ))) && (key_le(start, k) && key_lt(k, end) && !(maps_chain(maps, 0, k) is None)
            ==> pm.contains_key(k)) by {
            if key_le(start, k) && key_lt(k, end) {
                assert forall|w: int| 0 <= w < views.len() implies (seq_has_key(
                    #[trigger] views[w],
                    k,
                ) <==> maps[w].contains_key(k)) by {
                    if seq_has_key(views[w], k) {
                        let i = choose|i: int| 0 <= i < views[w].len() && (#[trigger] views[w][i]).0@
                            == k;
                        assert(views[w][i] == inputs@[w]@[i]);
                    }
                    if maps[w].contains_key(k) {
                        let p = choose|p: int| 0 <= p < inputs@[w]@.len() && (
                        #[trigger] inputs@[w]@[p]).0@ == k;
                        assert(views[w][p].0@ == k);
                    }
                }
                assert forall|w: int, i: int| 0 <= w < views.len() && 0 <= i < views[w].len() && (
                #[trigger] views[w][i]).0@ == k implies views[w][i].1@ == maps[w][k] by {
                    assert(views[w][i] == inputs@[w]@[i]);
                }
                lemma_priority_vs_chain(views, maps, 0, k);
            }
        }
    }
    // drop the tombstones, keeping the live values
    let mut out: Vec<(Slice, Slice)> = Vec::new();
    let ghost mut idxs: Seq<int> = Seq::empty();
    let mut i: usize = 0;
    while i < merged.len()
        invariant
            i <= merged@.len(),
            idxs.len() == out@.len(),
            forall|q: int| 0 <= q < idxs.len() ==> 0 <= #[trigger] idxs[q] < i,
            forall|q: int| #![trigger out@[q]] 0 <= q < idxs.len() ==> (merged@[idxs[q]].0@
                == out@[q].0@ && merged@[idxs[q]].1@ == Some(out@[q].1@)),
            forall|q1: int, q2: int| 0 <= q1 < q2 < idxs.len() ==> #[trigger] idxs[q1]
                < #[trigger] idxs[q2],
            forall|p: int| 0 <= p < i && (#[trigger] merged@[p]).1@ is Some ==> exists|q: int|
                0 <= q < idxs.len() && #[trigger] idxs[q] == p,
        decreases merged@.len() - i,
    {
        let ghost old_idxs = idxs;
        match &merged[i].1 {
            Value::Slice(v) => {
                let pair = (merged[i].0.clone(), v.clone());
                out.push(pair);
                proof {
                    idxs = idxs.push(i as int);
                    assert(idxs[idxs.len() - 1] == i as int);
                    assert forall|p: int| 0 <= p < i + 1 && (#[trigger] merged@[p]).1@ is Some
                        implies exists|q: int| 0 <= q < idxs.len() && #[trigger] idxs[q] == p by {
                        if p < i {
                            let q = choose|q: int| 0 <= q < old_idxs.len() && #[trigger] old_idxs[q]
                                == p;
                            assert(idxs[q] == p);
                        } else {
                            assert(idxs[idxs.len() - 1] == p);
                        }
                    }
                }
            },
            Value::NotExist => {
                proof {
                    assert(merged@[i as int].1@ is None);
                }
            },
        }
        i = i + 1;
    }
    proof {
        assert forall|p: int| #![trigger out@[p]] 0 <= p < out@.len() implies ((maps_chain(
            maps,
            0,
            out@[p].0@,
        ) == Some(Some(out@[p].1@))) && key_le(start, out@[p].0@) && key_lt(
            out@[p].0@,
            end,
        )) by {
            let src = idxs[p];
            assert(merged@[src].0@ == out@[p].0@ && merged@[src].1@ == Some(out@[p].1@));
            assert(pm.contains_key(merged@[src].0@) && merged@[src].1@ == pm[merged@[src].0@]@);
            let k = merged@[src].0@;
            lemma_priority_map_first(views, 0, k);
            let w = choose|w: int| 0 <= w < views.len() && seq_has_key(#[trigger] views[w], k);
            let wi = choose|wi: int| 0 <= wi < views[w].len() && (#[trigger] views[w][wi]).0@ == k;
            assert(views[w][wi] == inputs@[w]@[wi]);
            assert(key_le(start, k) && key_lt(k, end));
            assert(Some(pm[k]@) == maps_chain(maps, 0, k));
            assert(pm[k]@ == Some(out@[p].1@));
        }
        assert forall|p: int, q: int| 0 <= p < q < out@.len() implies key_lt(
            (#[trigger] out@[p]).0@,
            (#[trigger] out@[q]).0@,
        ) by {
            assert(idxs[p] < idxs[q]);
            assert(key_lt(merged@[idxs[p]].0@, merged@[idxs[q]].0@));
        }
        assert forall|k: Seq<u8>| key_le(start, k) && key_lt(k, end) && (maps_chain(maps, 0, k)
            matches Some(pv) && pv is Some) implies exists|q: int| 0 <= q < out@.len() && (
        #[trigger] out@[q]).0@ == k by {
            assert(pm.contains_key(k));
            let p = choose|p: int| 0 <= p < merged@.len() && (#[trigger] merged@[p]).0@ == k;
            assert(merged@[p].1@ == pm[k]@);
            assert(merged@[p].1@ is Some);
            let q = choose|q: int| 0 <= q < idxs.len() && #[trigger] idxs[q] == p;
            assert(out@[q].0@ == k);
        }
    }
    out
}

/// A merged scan, handed out pair by pair from the front.
pub struct MergeIter {
    merged: Vec<(Slice, Slice)>,
    pos: usize,
}

impl MergeIter {
    /// What is still to be handed out.
    pub closed spec fn remaining(self) -> Seq<(Slice, Slice)> {
        self.merged@.skip(self.pos as int)
    }

    pub closed spec fn wf(self) -> bool {
        self.pos <= self.merged@.len()
    }

    /// Hands out the next merged pair, front first.
    pub fn next(&mut self) -> (r: Option<(Slice, Slice)>)
        requires
            old(self).wf(),
        ensures
            final(self).wf(),
            match r {
                Some(pair) => old(self).remaining().len() > 0 && pair.0@ == old(self).remaining().first().0@ && pair.1@ == old(self).remaining().first().1@ && final(self).remaining() == old(self).remaining().drop_first(),
                None => old(self).remaining().len() == 0 && final(self).remaining() == old(self).remaining(),
            },
    {
        if self.pos < self.merged.len() {
            let pair = (self.merged[self.pos].0.clone(), self.merged[self.pos].1.clone());
            self.pos = self.pos + 1;
            proof {
                assert(old(self).remaining().first() == old(self).merged@[old(self).pos as int]);
                assert(final(self).remaining() =~= old(self).remaining().drop_first());
            }
            Some(pair)
        } else {
            None
        }
    }

    /// Hands out everything still remaining, in order.
    pub fn collect_remaining(&mut self) -> (r: Vec<(Slice, Slice)>)
        requires
            old(self).wf(),
        ensures
            final(self).wf(),
            r@.len() == old(self).remaining().len(),
            forall|p: int| 0 <= p < r@.len() ==> ((#[trigger] r@[p]).0@ == old(self).remaining()[p].0@ && r@[p].1@ == old(self).remaining()[p].1@),
            final(self).remaining().len() == 0,
    {
        let mut out: Vec<(Slice, Slice)> = Vec::new();
        while self.pos < self.merged.len()
            invariant
                self.wf(),
                self.merged@ == old(self).merged@,
                self.pos >= old(self).pos,
                out@.len() == self.pos - old(self).pos,
                forall|p: int| 0 <= p < out@.len() ==> ((#[trigger] out@[p]).0@ == old(self).remaining()[p].0@ && out@[p].1@ == old(self).remaining()[p].1@),
            decreases self.merged@.len() - self.pos,
        {
            let pair = (self.merged[self.pos].0.clone(), self.merged[self.pos].1.clone());
            out.push(pair);
            proof {
                assert(old(self).remaining()[self.pos - old(self).pos] == self.merged@[
                    self.pos as int
                ]);
            }
            self.pos = self.pos + 1;
        }
        out
    }
}

/// Builds the merged iterator of several key-sorted scans; for a key
/// held by several inputs the earliest input's pair wins.
pub fn merge_iter(iters: Vec<Vec<(Slice, Slice)>>) -> (r: MergeIter)
    requires
        seq_total_len(input_views(iters@)) < u64::MAX,
    ensures
        r.wf(),
        ({
            let pm = priority_map(input_views(iters@), 0);
            &&& forall|p: int| 0 <= p < r.remaining().len() ==> (#[trigger] pm.contains_key(
                r.remaining()[p].0@,
            ) && r.remaining()[p].1@ == pm[r.remaining()[p].0@]@)
            &&& forall|p: int, q: int| 0 <= p < q < r.remaining().len() ==> key_lt(
                (#[trigger] r.remaining()[p]).0@,
                (#[trigger] r.remaining()[q]).0@,
            )
            &&& forall|k: Seq<u8>| #[trigger] pm.contains_key(k) ==> exists|p: int|
                0 <= p < r.remaining().len() && (#[trigger] r.remaining()[p]).0@ == k
        }),
{
    let merged = merge_entries(iters);
    let r = MergeIter { merged, pos: 0 };
    proof {
        assert(r.remaining() =~= r.merged@);
    }
    r
}

} // verus!
