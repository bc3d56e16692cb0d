//! Client-side routing: spreading commands over several connections by
//! key hash, and putting the replies back into request order.
//!
//! Per-key ordering survives because every operation on one key is
//! routed to the same connection. A scan is routed by its start key
//! alone, so it is not ordered against writes on other connections.

use vstd::prelude::*;

use crate::request::{cmd_eq, Command};
use crate::reply::Reply;
use crate::slice::Slice;

use std::hash::Hasher;

verus! {

/// What the 64-bit FNV-1a hash of a byte string is; the fnv crate
/// computes it.
pub uninterp spec fn fnv_hash_of(bytes: Seq<u8>) -> u64;

/// Relies on fnv::FnvHasher: hashing feeds the bytes through FNV-1a
/// from the standard offset basis, so the result is a function of the
/// bytes alone.
#[verifier::external_body]
fn fnv_hash(key: &Slice) -> (r: u64)
    ensures
        r == fnv_hash_of(key@),
{
    let mut hasher = fnv::FnvHasher::default();
    hasher.write(key.0.as_slice());
    hasher.finish()
}

/// The hash a command's key routes by.
pub fn hash_key(key: &Slice) -> (r: u64)
    ensures
        r == fnv_hash_of(key@),
{
    fnv_hash(key)
}

/// The key a command is routed by: its own key, or a scan's start.
pub open spec fn routing_key(c: Command) -> Seq<u8> {
    match c {
        Command::PUT(p) => p.key@,
        Command::GET(g) => g.key@,
        Command::DELETE(d) => d.key@,
        Command::SCAN(s) => s.start@,
    }
}

/// Which of `knights` connections a command belongs to: its routing
/// key's hash, reduced modulo the connection count.
pub fn allocate_task(command: &Command, knights: usize) -> (r: usize)
    requires
        knights >= 1,
    ensures
        r < knights,
        r as int == fnv_hash_of(routing_key(*command)) as int % (knights as int),
{
    let h = match command {
        Command::PUT(c) => hash_key(&c.key),
        Command::GET(c) => hash_key(&c.key),
        Command::DELETE(c) => hash_key(&c.key),
        Command::SCAN(c) => hash_key(&c.start),
    };
    let r = (h % (knights as u64)) as usize;
    proof {
        assert(h as int % (knights as int) < knights as int);
    }
    r
}

/// How many of the first `upto` routed commands went to knight `w`.
pub open spec fn occ(routing: Seq<usize>, w: int, upto: int) -> int
    decreases upto,
{
    if upto <= 0 {
        0
    } else {
        occ(routing, w, upto - 1) + if routing[upto - 1] == w {
            1int
        } else {
            0int
        }
    }
}

proof fn lemma_occ_push(routing: Seq<usize>, x: usize, w: int, upto: int)
    requires
        0 <= upto <= routing.len(),
    ensures
        occ(routing.push(x), w, upto) == occ(routing, w, upto),
    decreases upto,
{
    if upto > 0 {
        lemma_occ_push(routing, x, w, upto - 1);
    }
}

proof fn lemma_occ_nonneg(routing: Seq<usize>, w: int, upto: int)
    ensures
        occ(routing, w, upto) >= 0,
    decreases upto,
{
    if upto > 0 {
        lemma_occ_nonneg(routing, w, upto - 1);
    }
}

/// Splits a batch over the knights: each command, in order, joins its
/// knight's queue; the routing choices come back beside the queues so
/// the replies can be reassembled.
pub fn plan_batch(commands: &Vec<Command>, knights: usize) -> (r: (Vec<Vec<Command>>, Vec<usize>))
    requires
        knights >= 1,
    ensures
        r.0@.len() == knights,
        r.1@.len() == commands@.len(),
        forall|i: int| 0 <= i < commands@.len() ==> (#[trigger] r.1@[i]) < knights
            && r.1@[i] as int == fnv_hash_of(routing_key(commands@[i])) as int % (knights as int),
        forall|w: int| 0 <= w < knights ==> (#[trigger] r.0@[w])@.len() == occ(
            r.1@,
            w,
            commands@.len() as int,
        ),
        forall|i: int| #![trigger commands@[i]] 0 <= i < commands@.len() ==> cmd_eq(
            r.0@[r.1@[i] as int]@[occ(r.1@, r.1@[i] as int, i)],
            commands@[i],
        ),
{
    let mut buckets: Vec<Vec<Command>> = Vec::new();
    let mut w: usize = 0;
    while w < knights
        invariant
            w <= knights,
            buckets@.len() == w,
            forall|j: int| 0 <= j < w ==> (#[trigger] buckets@[j])@.len() == 0,
        decreases knights - w,
    {
        buckets.push(Vec::new());
        w = w + 1;
    }
    let mut routing: Vec<usize> = Vec::new();
    let mut i: usize = 0;
    while i < commands.len()
        invariant
            knights >= 1,
            i <= commands@.len(),
            routing@.len() == i,
            buckets@.len() == knights,
            forall|j: int| 0 <= j < i ==> (#[trigger] routing@[j]) < knights && routing@[j] as int
                == fnv_hash_of(routing_key(commands@[j])) as int % (knights as int),
            forall|ww: int| 0 <= ww < knights ==> (#[trigger] buckets@[ww])@.len() == occ(
                routing@,
                ww,
                i as int,
            ),
            forall|j: int| #![trigger commands@[j]] 0 <= j < i ==> cmd_eq(
                buckets@[routing@[j] as int]@[occ(routing@, routing@[j] as int, j)],
                commands@[j],
            ),
        decreases commands@.len() - i,
    {
        let target = allocate_task(&commands[i], knights);
        let cmd = commands[i].clone();
        let ghost old_routing = routing@;
        let ghost old_buckets = buckets@;
        let mut bucket = buckets.remove(target);
        bucket.push(cmd);
        buckets.insert(target, bucket);
        routing.push(target);
        proof {
            assert(buckets@ =~= old_buckets.update(target as int, buckets@[target as int]));
            assert(buckets@[target as int]@ =~= old_buckets[target as int]@.push(
                buckets@[target as int]@.last(),
            ));
            assert forall|ww: int| 0 <= ww < knights implies (#[trigger] buckets@[ww])@.len()
                == occ(routing@, ww, i + 1) by {
                lemma_occ_push(old_routing, target, ww, i as int);
                if ww != target {
                    assert(buckets@[ww] == old_buckets[ww]);
                }
            }
            assert forall|j: int| #![trigger commands@[j]] 0 <= j < i + 1 implies cmd_eq(
                buckets@[routing@[j] as int]@[occ(routing@, routing@[j] as int, j)],
                commands@[j],
            ) by {
                lemma_occ_push(old_routing, target, routing@[j] as int, j);
                lemma_occ_nonneg(old_routing, routing@[j] as int, j);
                if j < i {
                    if routing@[j] == target {
                        lemma_occ_mono(old_routing, target as int, j + 1, i as int);
                        assert(occ(routing@, target as int, j) < old_buckets[target as int]@.len());
                        assert(buckets@[target as int]@[occ(routing@, target as int, j)]
                            == old_buckets[target as int]@[occ(old_routing, target as int, j)]);
                    } else {
                        assert(buckets@[routing@[j] as int] == old_buckets[routing@[j] as int]);
                    }
                } else {
                    assert(occ(routing@, target as int, i as int) == old_buckets[
                        target as int
                    ]@.len());
                }
            }
        }
        i = i + 1;
    }
    (buckets, routing)
}

/// Puts per-knight replies back into request order: reply `i` is the
/// next unread reply of the knight command `i` was routed to.
pub fn reassemble_replies(routing: &Vec<usize>, replies: Vec<Vec<Reply>>) -> (r: Vec<Reply>)
    requires
        forall|i: int| 0 <= i < routing@.len() ==> (#[trigger] routing@[i]) < replies@.len(),
        forall|w: int| 0 <= w < replies@.len() ==> (#[trigger] replies@[w])@.len() >= occ(
            routing@,
            w,
            routing@.len() as int,
        ),
    ensures
        r@.len() == routing@.len(),
        forall|i: int| 0 <= i < routing@.len() ==> #[trigger] r@[i] == replies@[
            routing@[i] as int
        ]@[occ(routing@, routing@[i] as int, i)],
{
    let ghost orig = replies@;
    let mut replies = replies;
    let mut out: Vec<Reply> = Vec::new();
    let mut i: usize = 0;
    while i < routing.len()
        invariant
            i <= routing@.len(),
            out@.len() == i,
            replies@.len() == orig.len(),
            forall|j: int| 0 <= j < routing@.len() ==> (#[trigger] routing@[j]) < orig.len(),
            forall|w: int| 0 <= w < orig.len() ==> (#[trigger] orig[w])@.len() >= occ(
                routing@,
                w,
                routing@.len() as int,
            ),
            forall|w: int| 0 <= w < orig.len() ==> (#[trigger] replies@[w])@ == orig[w]@.skip(
                occ(routing@, w, i as int),
            ),
            forall|j: int| 0 <= j < i ==> #[trigger] out@[j] == orig[routing@[j] as int]@[occ(
                routing@,
                routing@[j] as int,
                j,
            )],
        decreases routing@.len() - i,
    {
        let w = routing[i];
        proof {
            lemma_occ_nonneg(routing@, w as int, i as int);
            assert(occ(routing@, w as int, i + 1) == occ(routing@, w as int, i as int) + 1);
            lemma_occ_mono(routing@, w as int, i + 1, routing@.len() as int);
            assert(orig[w as int]@.len() >= occ(routing@, w as int, i + 1));
            assert(replies@[w as int]@.len() > 0);
        }
        let ghost old_replies = replies@;
        let mut bucket = replies.remove(w);
        let rep = bucket.remove(0);
        replies.insert(w, bucket);
        out.push(rep);
        proof {
            assert(replies@ =~= old_replies.update(w as int, replies@[w as int]));
            assert(rep == old_replies[w as int]@[0]);
            assert(old_replies[w as int]@[0] == orig[w as int]@[occ(routing@, w as int, i as int)]);
            assert forall|ww: int| 0 <= ww < orig.len() implies (#[trigger] replies@[ww])@
                == orig[ww]@.skip(occ(routing@, ww, i + 1)) by {
                if ww == w {
                    assert(replies@[ww]@ =~= old_replies[ww]@.skip(1));
                    assert(old_replies[ww]@.skip(1) =~= orig[ww]@.skip(
                        occ(routing@, ww, i as int) + 1,
                    ));
                } else {
                    assert(replies@[ww] == old_replies[ww]);
                    assert(occ(routing@, ww, i + 1) == occ(routing@, ww, i as int));
                }
            }
        }
        i = i + 1;
    }
    out
}

proof fn lemma_occ_mono(routing: Seq<usize>, w: int, a: int, b: int)
    requires
        a <= b,
    ensures
        occ(routing, w, a) <= occ(routing, w, b),
    decreases b - a,
{
    if a < b {
        lemma_occ_mono(routing, w, a, b - 1);
    }
}

} // verus!
