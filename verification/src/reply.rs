//! The replies of the store and their wire encoding and decoding.

use vstd::prelude::*;

use crate::error::{DatabaseError, DatabaseResult, ProtocolError, ProtocolResult};
use crate::message::{
    find_crlf, msg_head_bytes, parse_head_line, spec_find_crlf, spec_head_value,
};
use crate::request::{
    copy_range, seqs_of, spec_encode_message, spec_encode_part, spec_parse_parts, Framing,
};
use crate::slice::Slice;

verus! {

/// The one success status.
#[derive(Debug, PartialEq)]
pub enum Status {
    OK,
}

/// One reply to a request: a status, an error line, one value, or a
/// listing of values.
#[derive(Debug, PartialEq)]
pub enum Reply {
    StatusReply(Status),
    ErrorReply(Vec<u8>),
    SliceReply(Slice),
    MultipleSliceReply(Vec<Slice>),
}

/// The wire bytes of a reply.
pub open spec fn spec_encode_reply(r: Reply) -> Seq<u8> {
    match r {
        Reply::StatusReply(_) => seq![43u8, 79u8, 75u8, 13u8, 10u8],
        Reply::ErrorReply(msg) => seq![45u8] + msg@ + seq![13u8, 10u8],
        Reply::SliceReply(s) => spec_encode_part(s@),
        Reply::MultipleSliceReply(v) => spec_encode_message(slice_views(v@)),
    }
}

/// The views of a listing of slices.
pub open spec fn slice_views(v: Seq<Slice>) -> Seq<Seq<u8>> {
    Seq::new(v.len(), |i: int| v[i]@)
}

impl Reply {
    /// The reply to a write: `+OK` on success, the error's text
    /// otherwise.
    pub fn from_status_result(result: DatabaseResult<()>) -> (r: Reply)
        ensures
            match result {
                Ok(_) => r is StatusReply,
                Err(e) => r matches Reply::ErrorReply(m) && (e is KeyNotFound ==> m@
                    == "KeyNotFound"@.map_values(|c: char| c as u8)) && (e is InternalError ==> m@
                    == "InternalError"@.map_values(|c: char| c as u8)),
            },
    {
        match result {
            Ok(_) => Reply::StatusReply(Status::OK),
            Err(e) => Reply::ErrorReply(error_text(&e)),
        }
    }

    /// The reply to a read: the value, or the error's text.
    pub fn from_slice_result(result: DatabaseResult<Slice>) -> (r: Reply)
        ensures
            match result {
                Ok(v) => r matches Reply::SliceReply(s) && s@ == v@,
                Err(e) => r matches Reply::ErrorReply(m) && (e is KeyNotFound ==> m@
                    == "KeyNotFound"@.map_values(|c: char| c as u8)) && (e is InternalError ==> m@
                    == "InternalError"@.map_values(|c: char| c as u8)),
            },
    {
        match result {
            Ok(v) => Reply::SliceReply(v),
            Err(e) => Reply::ErrorReply(error_text(&e)),
        }
    }

    /// The reply to a scan: keys and values flattened in order.
    pub fn from_pairs(result: Vec<(Slice, Slice)>) -> (r: Reply)
        ensures
            r matches Reply::MultipleSliceReply(v) && v@.len() == 2 * result@.len()
                && forall|i: int| 0 <= i < result@.len() ==> ((#[trigger] result@[i]).0@
                == v@[2 * i]@ && result@[i].1@ == v@[2 * i + 1]@),
    {
        let mut flat: Vec<Slice> = Vec::new();
        let mut result = result;
        let ghost pairs = result@;
        let mut i: usize = 0;
        while i < result.len()
            invariant
                i <= result@.len(),
                result@ == pairs,
                flat@.len() == 2 * i,
                forall|j: int| 0 <= j < i ==> ((#[trigger] pairs[j]).0@ == flat@[2 * j]@
                    && pairs[j].1@ == flat@[2 * j + 1]@),
            decreases result@.len() - i,
        {
            let key = result[i].0.clone();
            let value = result[i].1.clone();
            let ghost before = flat@;
            let ghost kv = key@;
            let ghost vv = value@;
            flat.push(key);
            flat.push(value);
            proof {
                assert(flat@.len() == before.len() + 2);
                assert(flat@[before.len() as int]@ == kv);
                assert(flat@[before.len() as int + 1]@ == vv);
                assert forall|j: int| 0 <= j < i + 1 implies ((#[trigger] pairs[j]).0@
                    == flat@[2 * j]@ && pairs[j].1@ == flat@[2 * j + 1]@) by {
                    if j < i {
                        assert(flat@[2 * j] == before[2 * j]);
                        assert(flat@[2 * j + 1] == before[2 * j + 1]);
                    } else {
                        assert(2 * j == before.len());
                        assert(flat@[2 * j]@ == kv);
                        assert(flat@[2 * j + 1]@ == vv);
                    }
                }
            }
            i = i + 1;
        }
        Reply::MultipleSliceReply(flat)
    }

    /// Encodes this reply for the wire.
    pub fn into_bytes(self) -> (r: Vec<u8>)
        ensures
            r@ == spec_encode_reply(self),
    {
        match self {
            Reply::StatusReply(_) => {
                let mut v: Vec<u8> = Vec::new();
                v.push(43);
                v.push(79);
                v.push(75);
                v.push(13);
                v.push(10);
                proof {
                    assert(v@ =~= seq![43u8, 79u8, 75u8, 13u8, 10u8]);
                }
                v
            },
            Reply::ErrorReply(msg) => {
                let ghost m = msg@;
                let mut v: Vec<u8> = Vec::new();
                v.push(45);
                let mut msg = msg;
                v.append(&mut msg);
                v.push(13);
                v.push(10);
                proof {
                    assert(v@ =~= seq![45u8] + m + seq![13u8, 10u8]);
                }
                v
            },
            Reply::SliceReply(s) => {
                let ghost sv = s@;
                let mut v: Vec<u8> = Vec::new();
                crate::request::append_part(&mut v, s.0);
                proof {
                    assert(v@ =~= spec_encode_part(sv));
                }
                v
            },
            Reply::MultipleSliceReply(slices) => {
                let ghost views = slice_views(slices@);
                let mut parts: Vec<Vec<u8>> = Vec::new();
                let mut slices = slices;
                let ghost all = slices@;
                let mut i: usize = 0;
                while i < slices.len()
                    invariant
                        i <= slices@.len(),
                        slices@ == all,
                        parts@.len() == i,
                        forall|j: int| 0 <= j < i ==> (#[trigger] parts@[j])@ == all[j]@,
                    decreases slices@.len() - i,
                {
                    let s = slices[i].clone();
                    parts.push(s.0);
                    i = i + 1;
                }
                proof {
                    assert(seqs_of(parts@) =~= views);
                }
                crate::request::encode_message(parts)
            },
        }
    }
}

/// The wire text of a database error.
fn error_text(e: &DatabaseError) -> (r: Vec<u8>)
    ensures
        e is KeyNotFound ==> r@ == "KeyNotFound"@.map_values(|c: char| c as u8),
        e is InternalError ==> r@ == "InternalError"@.map_values(|c: char| c as u8),
{
    match e {
        DatabaseError::KeyNotFound => {
            let mut v: Vec<u8> = Vec::new();
            v.push(75);
            v.push(101);
            v.push(121);
            v.push(78);
            v.push(111);
            v.push(116);
            v.push(70);
            v.push(111);
            v.push(117);
            v.push(110);
            v.push(100);
            proof {
                reveal_strlit("KeyNotFound");
                assert(v@ =~= "KeyNotFound"@.map_values(|c: char| c as u8));
            }
            v
        },
        DatabaseError::InternalError => {
            let mut v: Vec<u8> = Vec::new();
            v.push(73);
            v.push(110);
            v.push(116);
            v.push(101);
            v.push(114);
            v.push(110);
            v.push(97);
            v.push(108);
            v.push(69);
            v.push(114);
            v.push(114);
            v.push(111);
            v.push(114);
            proof {
                reveal_strlit("InternalError");
                assert(v@ =~= "InternalError"@.map_values(|c: char| c as u8));
            }
            v
        },
    }
}

/// What decoding finds at a position of a reply stream.
pub enum ReplyParse {
    Incomplete,
    Bad,
    Status(int),
    Error(Seq<u8>, int),
    Bulk(Seq<u8>, int),
    Multi(Seq<Seq<u8>>, int),
}

/// Parses one reply starting at `pos`: a status line, an error line, a
/// bulk value, or a listing of values.
pub open spec fn spec_parse_reply(s: Seq<u8>, pos: int) -> ReplyParse {
    match spec_find_crlf(s, pos) {
        None => ReplyParse::Incomplete,
        Some(i) => if pos >= i {
            ReplyParse::Bad
        } else if s[pos] == 43 {
            ReplyParse::Status(i + 2)
        } else if s[pos] == 45 {
            ReplyParse::Error(s.subrange(pos + 1, i), i + 2)
        } else if s[pos] == 42 {
            match spec_head_value(s, pos, i, 42u8, false) {
                Err(_) => ReplyParse::Bad,
                Ok(count) => match spec_parse_parts(s, i + 2, count) {
                    Framing::Incomplete => ReplyParse::Incomplete,
                    Framing::Bad => ReplyParse::Bad,
                    Framing::Done(parts, end) => ReplyParse::Multi(parts, end),
                },
            }
        } else if s[pos] == 36 {
            match spec_head_value(s, pos, i, 36u8, false) {
                Err(_) => ReplyParse::Bad,
                Ok(size) => if i + 2 + size + 2 > s.len() {
                    ReplyParse::Incomplete
                } else {
                    ReplyParse::Bulk(s.subrange(i + 2, i + 2 + size), i + 2 + size + 2)
                },
            }
        } else {
            ReplyParse::Bad
        }
    }
}

/// A reply that survives the wire unchanged: an error line must not
/// hold a `\r\n` of its own, and the listings must fit the platform.
pub open spec fn reply_wf(r: Reply) -> bool {
    match r {
        Reply::StatusReply(_) => true,
        Reply::ErrorReply(m) => forall|j: int| 0 <= j < m@.len() - 1 ==> !((#[trigger] m@[j]) == 13
            && m@[j + 1] == 10),
        Reply::SliceReply(s) => s@.len() <= usize::MAX,
        Reply::MultipleSliceReply(v) => v@.len() <= usize::MAX && forall|i: int|
            0 <= i < v@.len() ==> (#[trigger] v@[i])@.len() <= usize::MAX,
    }
}

/// Encoding a reply and decoding it back is the identity on its
/// contents, whatever bytes follow on the stream.
pub proof fn lemma_reply_round_trip(r: Reply, rest: Seq<u8>)
    requires
        reply_wf(r),
    ensures
        ({
            let s = spec_encode_reply(r) + rest;
            let end = spec_encode_reply(r).len() as int;
            match r {
                Reply::StatusReply(_) => spec_parse_reply(s, 0) == ReplyParse::Status(end),
                Reply::ErrorReply(m) => spec_parse_reply(s, 0) == ReplyParse::Error(m@, end),
                Reply::SliceReply(sl) => spec_parse_reply(s, 0) == ReplyParse::Bulk(sl@, end),
                Reply::MultipleSliceReply(v) => spec_parse_reply(s, 0) == ReplyParse::Multi(
                    slice_views(v@),
                    end,
                ),
            }
        }),
{
    let enc = spec_encode_reply(r);
    let s = enc + rest;
    match r {
        Reply::StatusReply(_) => {
            assert(s[0] == 43 && s[1] == 79 && s[2] == 75 && s[3] == 13 && s[4] == 10);
            assert forall|j: int| 0 <= j < 3 implies !(s[j] == 13 && (#[trigger] s[j + 1])
                == 10) by {}
            crate::message::lemma_find_crlf_skip(s, 0, 3);
            assert(spec_find_crlf(s, 3) == Some(3int));
        },
        Reply::ErrorReply(m) => {
            let n = m@.len() as int;
            assert(enc.len() == n + 3);
            assert(s[0] == 45);
            assert forall|j: int| 0 <= j < n implies #[trigger] s[1 + j] == m@[j] by {
                assert(s[1 + j] == enc[1 + j]);
            }
            assert(s[1 + n] == enc[1 + n] && enc[1 + n] == 13);
            assert(s[2 + n] == enc[2 + n] && enc[2 + n] == 10);
            assert forall|j: int| 0 <= j < 1 + n implies !(s[j] == 13 && (#[trigger] s[j + 1])
                == 10) by {
                if j == 0 {
                    assert(s[j] == 45);
                } else if j < n {
                    assert(s[j] == m@[j - 1] && s[j + 1] == m@[j]);
                } else {
                    assert(j == n);
                    assert(s[j + 1] == 13);
                }
            }
            crate::message::lemma_find_crlf_skip(s, 0, 1 + n);
            assert(spec_find_crlf(s, 1 + n) == Some(1 + n));
            assert(s.subrange(1, 1 + n) =~= m@);
        },
        Reply::SliceReply(sl) => {
            let n = sl@.len();
            let d = crate::message::dec_str(n).len() as int;
            let head = crate::message::part_head_bytes(n);
            crate::message::lemma_dec_str_digits(n);
            assert(enc == head + sl@ + seq![13u8, 10u8]);
            assert(head.len() == d + 3);
            assert(s[0int + 0] == enc[0]);
            assert(s[0] == 36);
            assert forall|j: int| 0 <= j < d implies #[trigger] s[0 + 1 + j]
                == crate::message::dec_str(n)[j] by {
                assert(s[0 + 1 + j] == enc[1 + j]);
                assert(enc[1 + j] == head[1 + j]);
            }
            assert(s[0 + (1 + d)] == enc[1 + d] && enc[1 + d] == head[1 + d] && head[1 + d] == 13);
            assert(s[0 + 1 + d] == 13);
            assert(s[0 + (2 + d)] == enc[2 + d] && enc[2 + d] == head[2 + d] && head[2 + d] == 10);
            assert(s[0 + 2 + d] == 10);
            crate::message::lemma_head_line_crlf(s, 0, n, 36);
            crate::message::lemma_head_line_value(s, 0, 1 + d, n, 36, false);
            let i = 1 + d;
            assert forall|j: int| 0 <= j < n implies #[trigger] s[i + 2 + j] == sl@[j] by {
                assert(s[i + 2 + j] == enc[d + 3 + j]);
                assert(enc[d + 3 + j] == sl@[j]);
            }
            assert forall|j: int| 0 <= j < n implies s.subrange(i + 2, i + 2 + n as int)[j]
                == sl@[j] by {
                assert(s.subrange(i + 2, i + 2 + n as int)[j] == s[i + 2 + j]);
            }
            assert(s.subrange(i + 2, i + 2 + n as int) =~= sl@);
            assert(i + 2 + n + 2 == enc.len());
        },
        Reply::MultipleSliceReply(v) => {
            let parts = slice_views(v@);
            let n = parts.len();
            let d = crate::message::dec_str(n).len() as int;
            let head = crate::message::msg_head_bytes(n);
            let body = crate::request::spec_encode_parts(parts);
            crate::message::lemma_dec_str_digits(n);
            assert(enc == head + body);
            assert(head.len() == d + 3);
            assert(s[0int + 0] == enc[0]);
            assert(s[0] == 42);
            assert forall|j: int| 0 <= j < d implies #[trigger] s[0 + 1 + j]
                == crate::message::dec_str(n)[j] by {
                assert(s[0 + 1 + j] == enc[1 + j]);
                assert(enc[1 + j] == head[1 + j]);
            }
            assert(s[0 + (1 + d)] == enc[1 + d] && enc[1 + d] == head[1 + d] && head[1 + d] == 13);
            assert(s[0 + 1 + d] == 13);
            assert(s[0 + (2 + d)] == enc[2 + d] && enc[2 + d] == head[2 + d] && head[2 + d] == 10);
            assert(s[0 + 2 + d] == 10);
            crate::message::lemma_head_line_crlf(s, 0, n, 42);
            crate::message::lemma_head_line_value(s, 0, 1 + d, n, 42, false);
            assert forall|j: int| 0 <= j < body.len() implies #[trigger] s[d + 3 + j]
                == body[j] by {
                assert(s[d + 3 + j] == enc[d + 3 + j]);
                assert(enc[d + 3 + j] == body[j]);
            }
            crate::request::lemma_parts_round_trip(s, d + 3, parts);
            assert(d + 3 + body.len() == enc.len());
        },
    }
}

/// Reads one reply out of the buffered bytes, starting at `pos`.
/// `Ok(None)` asks for more bytes; errors report malformed framing.
pub fn decode_reply(buf: &Vec<u8>, pos: usize) -> (r: ProtocolResult<Option<(Reply, usize)>>)
    requires
        pos <= buf@.len(),
    ensures
        match r {
            Ok(o) => match o {
                Some(done) => match done.0 {
                    Reply::StatusReply(_) => spec_parse_reply(buf@, pos as int)
                        == ReplyParse::Status(done.1 as int),
                    Reply::ErrorReply(m) => spec_parse_reply(buf@, pos as int)
                        == ReplyParse::Error(m@, done.1 as int),
                    Reply::SliceReply(s) => spec_parse_reply(buf@, pos as int)
                        == ReplyParse::Bulk(s@, done.1 as int),
                    Reply::MultipleSliceReply(v) => spec_parse_reply(buf@, pos as int)
                        == ReplyParse::Multi(slice_views(v@), done.1 as int),
                },
                None => spec_parse_reply(buf@, pos as int) is Incomplete,
            },
            Err(_) => spec_parse_reply(buf@, pos as int) is Bad,
        },
{
    let n = buf.len();
    let i = match find_crlf(buf, pos) {
        None => {
            return Ok(None);
        },
        Some(i) => i,
    };
    if pos >= i {
        return Err(ProtocolError::GrammarCheckFailed("Reply Grammar Error"));
    }
    let lead = buf[pos];
    if lead == 43 {
        Ok(Some((Reply::StatusReply(Status::OK), i + 2)))
    } else if lead == 45 {
        let msg = copy_range(buf, pos + 1, i);
        Ok(Some((Reply::ErrorReply(msg), i + 2)))
    } else if lead == 42 {
        let count = match parse_head_line(buf, pos, i, 42, false,
            "* should be the first character of a message") {
            Ok(c) => c,
            Err(e) => {
                return Err(e);
            },
        };
        let mut parts: Vec<Slice> = Vec::new();
        let mut cur = i + 2;
        let mut remaining = count;
        while remaining > 0
            invariant
                cur <= n,
                n == buf@.len(),
                spec_parse_reply(buf@, pos as int) == (match spec_parse_parts(
                    buf@,
                    cur as int,
                    remaining as int,
                ) {
                    Framing::Incomplete => ReplyParse::Incomplete,
                    Framing::Bad => ReplyParse::Bad,
                    Framing::Done(rest, end) => ReplyParse::Multi(slice_views(parts@) + rest, end),
                }),
            decreases remaining,
        {
            let j = match find_crlf(buf, cur) {
                None => {
                    return Ok(None);
                },
                Some(j) => j,
            };
            let size = match parse_head_line(buf, cur, j, 36, false,
                "$ should be the first character of a message part") {
                Ok(s) => s,
                Err(e) => {
                    return Err(e);
                },
            };
            if size > n - (j + 2) || (n - (j + 2)) - size < 2 {
                proof {
                    assert(j + 2 + size + 2 > n);
                }
                return Ok(None);
            }
            let content = copy_range(buf, j + 2, j + 2 + size);
            let ghost before = slice_views(parts@);
            parts.push(Slice(content));
            proof {
                assert(slice_views(parts@) =~= before + seq![buf@.subrange(j + 2, j + 2 + size)]);
                assert forall|rest: Seq<Seq<u8>>| true implies #[trigger] (before + (seq![
                    buf@.subrange(j + 2, j + 2 + size),
                ] + rest)) == slice_views(parts@) + rest by {
                    assert(before + (seq![buf@.subrange(j + 2, j + 2 + size)] + rest)
                        =~= slice_views(parts@) + rest);
                }
            }
            cur = j + 2 + size + 2;
            remaining = remaining - 1;
        }
        proof {
            assert(slice_views(parts@) + Seq::<Seq<u8>>::empty() =~= slice_views(parts@));
        }
        Ok(Some((Reply::MultipleSliceReply(parts), cur)))
    } else if lead == 36 {
        let size = match parse_head_line(buf, pos, i, 36, false,
            "$ should be the first character of a message part") {
            Ok(s) => s,
            Err(e) => {
                return Err(e);
            },
        };
        if size > n - (i + 2) || (n - (i + 2)) - size < 2 {
            proof {
                assert(i + 2 + size + 2 > n);
            }
            return Ok(None);
        }
        let content = copy_range(buf, i + 2, i + 2 + size);
        Ok(Some((Reply::SliceReply(Slice(content)), i + 2 + size + 2)))
    } else {
        Err(ProtocolError::GrammarCheckFailed("Reply Grammar Error"))
    }
}

} // verus!
