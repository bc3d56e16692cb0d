//! Dispatching decoded commands into the engine and shaping the
//! replies that go back out.

use vstd::prelude::*;

use crate::database::Database;
use crate::error::DatabaseError;
use crate::reply::Reply;
use crate::request::Command;
use crate::slice::{key_le, key_lt};

verus! {

/// Runs one command against the store and shapes its reply. Writes
/// must carry a full-width key and value; anything else is answered
/// with an error reply and leaves the store untouched.
pub fn execute_command(db: &mut Database, command: Command) -> (r: Reply)
    requires
        old(db).wf(),
    ensures
        final(db).wf(),
        match command {
            Command::PUT(c) => {
                &&& (c.key@.len() == 8 && c.value@.len() == 256 && !old(db).write_stuck()) ==> (
                r is StatusReply && final(db).lookup(c.key@) == Some(Some(c.value@)))
                &&& (c.key@.len() != 8 || c.value@.len() != 256) ==> (r is ErrorReply && *final(db)
                    == *old(db))
            },
            Command::DELETE(c) => {
                &&& (c.key@.len() == 8 && !old(db).write_stuck()) ==> (r is StatusReply && final(db).lookup(c.key@) == Some(None::<Seq<u8>>))
                &&& c.key@.len() != 8 ==> (r is ErrorReply && *final(db) == *old(db))
            },
            Command::GET(c) => {
                &&& *final(db) == *old(db)
                &&& (old(db).lookup(c.key@) matches Some(pv) && pv is Some) ==> (r matches
                    Reply::SliceReply(s) && old(db).lookup(c.key@) == Some(Some(s@)))
                &&& !(old(db).lookup(c.key@) matches Some(pv) && pv is Some) ==> r is ErrorReply
            },
            Command::SCAN(c) => {
                &&& *final(db) == *old(db)
                &&& (r matches Reply::MultipleSliceReply(v) && {
                    let pairs = v@;
                    &&& pairs.len() % 2 == 0
                    &&& forall|p: int| #![trigger pairs[2 * p]] 0 <= p < pairs.len() / 2 ==> ((old(db).lookup(pairs[2 * p]@) == Some(Some(pairs[2 * p + 1]@))) && key_le(
                        c.start@,
                        pairs[2 * p]@,
                    ) && key_lt(pairs[2 * p]@, c.end@))
                    &&& forall|k: Seq<u8>| #![trigger old(db).lookup(k)] key_le(c.start@, k)
                        && key_lt(k, c.end@) && (old(db).lookup(k) matches Some(pv) && pv is Some)
                        ==> exists|p: int| 0 <= p < pairs.len() / 2 && (#[trigger] pairs[2 * p])@
                        == k
                })
            },
        },
{
    match command {
        Command::PUT(c) => {
            if c.key.0.len() != 8 || c.value.0.len() != 256 {
                return Reply::from_status_result(Err(DatabaseError::InternalError));
            }
            let result = db.put(c.key, c.value);
            Reply::from_status_result(result)
        },
        Command::DELETE(c) => {
            if c.key.0.len() != 8 {
                return Reply::from_status_result(Err(DatabaseError::InternalError));
            }
            let result = db.delete(c.key);
            Reply::from_status_result(result)
        },
        Command::GET(c) => {
            let result = db.get(c.key);
            Reply::from_slice_result(result)
        },
        Command::SCAN(c) => {
            let ghost dbv = *db;
            let ghost start = c.start@;
            let ghost end = c.end@;
            let pairs = db.scan(c.start, c.end);
            let ghost pv = pairs@;
            let reply = Reply::from_pairs(pairs);
            proof {
                let ghost rv = reply;
                match rv {
                    Reply::MultipleSliceReply(v) => {
                        assert forall|p: int| #![trigger v@[2 * p]] 0 <= p < v@.len() / 2 implies ((
                        dbv.lookup(v@[2 * p]@) == Some(Some(v@[2 * p + 1]@))) && key_le(
                            start,
                            v@[2 * p]@,
                        ) && key_lt(v@[2 * p]@, end)) by {
                            assert(pv[p].0@ == v@[2 * p]@ && pv[p].1@ == v@[2 * p + 1]@);
                            assert(dbv.lookup(pv[p].0@) == Some(Some(pv[p].1@)));
                        }
                        assert forall|k: Seq<u8>| #![trigger dbv.lookup(k)] key_le(start, k)
                            && key_lt(k, end) && (dbv.lookup(k) matches Some(pvv) && pvv is Some)
                            implies exists|p: int| 0 <= p < v@.len() / 2 && (
                        #[trigger] v@[2 * p])@ == k by {
                            let q = choose|q: int| 0 <= q < pv.len() && (#[trigger] pv[q]).0@ == k;
                            assert(v@[2 * q]@ == pv[q].0@);
                            assert(v@[2 * q]@ == k);
                        }
                    },
                    _ => {},
                }
            }
            reply
        },
    }
}


} // verus!
