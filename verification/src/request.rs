//! The command set of the store: PUT, GET, DELETE and SCAN, with their
//! wire encoding and decoding.
//!
//! A message on the wire is `*<N>\r\n` followed by N parts, each
//! `$<L>\r\n<payload>\r\n`. The first part names the command, case
//! insensitively; the remaining parts are its arguments.

use vstd::prelude::*;

use crate::error::{ProtocolError, ProtocolResult};
use crate::message::{
    find_crlf, msg_head_bytes, parse_head_line, part_head_bytes, spec_find_crlf, spec_head_value,
    MessageHead, PartHead,
};
use crate::slice::Slice;

verus! {

pub struct PutCommand {
    pub key: Slice,
    pub value: Slice,
}

pub struct GetCommand {
    pub key: Slice,
}

pub struct ScanCommand {
    pub start: Slice,
    pub end: Slice,
}

pub struct DeleteCommand {
    pub key: Slice,
}

/// One request to the store.
pub enum Command {
    PUT(PutCommand),
    GET(GetCommand),
    DELETE(DeleteCommand),
    SCAN(ScanCommand),
}

impl Clone for Command {
    fn clone(&self) -> (r: Self)
        ensures
            cmd_eq(r, *self),
    {
        match self {
            Command::PUT(c) => Command::PUT(
                PutCommand { key: c.key.clone(), value: c.value.clone() },
            ),
            Command::GET(c) => Command::GET(GetCommand { key: c.key.clone() }),
            Command::DELETE(c) => Command::DELETE(DeleteCommand { key: c.key.clone() }),
            Command::SCAN(c) => Command::SCAN(
                ScanCommand { start: c.start.clone(), end: c.end.clone() },
            ),
        }
    }
}

/// Two commands that ask for the same thing on the same bytes.
pub open spec fn cmd_eq(a: Command, b: Command) -> bool {
    match (a, b) {
        (Command::PUT(x), Command::PUT(y)) => x.key@ == y.key@ && x.value@ == y.value@,
        (Command::GET(x), Command::GET(y)) => x.key@ == y.key@,
        (Command::DELETE(x), Command::DELETE(y)) => x.key@ == y.key@,
        (Command::SCAN(x), Command::SCAN(y)) => x.start@ == y.start@ && x.end@ == y.end@,
        _ => false,
    }
}

// The wire names of the four commands, upper case.
pub open spec fn name_put() -> Seq<u8> {
    seq![80u8, 85u8, 84u8]
}

pub open spec fn name_get() -> Seq<u8> {
    seq![71u8, 69u8, 84u8]
}

pub open spec fn name_delete() -> Seq<u8> {
    seq![68u8, 69u8, 76u8, 69u8, 84u8, 69u8]
}

pub open spec fn name_scan() -> Seq<u8> {
    seq![83u8, 67u8, 65u8, 78u8]
}

pub open spec fn upper_byte(b: u8) -> u8 {
    if 97 <= b <= 122 {
        (b - 32) as u8
    } else {
        b
    }
}

/// ASCII upper-casing, byte for byte.
pub open spec fn ascii_upper(s: Seq<u8>) -> Seq<u8> {
    Seq::new(s.len(), |i: int| upper_byte(s[i]))
}

/// Upper-cases a byte string in the ASCII range.
fn to_upper(v: &Vec<u8>) -> (r: Vec<u8>)
    ensures
        r@ == ascii_upper(v@),
{
    let mut out: Vec<u8> = Vec::new();
    let mut i: usize = 0;
    while i < v.len()
        invariant
            i <= v@.len(),
            out@.len() == i,
            forall|j: int| 0 <= j < i ==> out@[j] == upper_byte(#[trigger] v@[j]),
        decreases v@.len() - i,
    {
        let b = v[i];
        if 97 <= b && b <= 122 {
            out.push(b - 32);
        } else {
            out.push(b);
        }
        i = i + 1;
    }
    proof {
        assert(out@ =~= ascii_upper(v@));
    }
    out
}

/// Compares a byte vector against a short spec constant.
fn name_is(v: &Vec<u8>, w: &Vec<u8>) -> (r: bool)
    ensures
        r == (v@ == w@),
{
    if v.len() != w.len() {
        proof {
            assert(v@ != w@);
        }
        return false;
    }
    let mut i: usize = 0;
    while i < v.len()
        invariant
            i <= v@.len(),
            v@.len() == w@.len(),
            forall|j: int| 0 <= j < i ==> v@[j] == w@[j],
        decreases v@.len() - i,
    {
        if v[i] != w[i] {
            proof {
                assert(v@[i as int] != w@[i as int]);
            }
            return false;
        }
        i = i + 1;
    }
    proof {
        assert(v@ =~= w@);
    }
    true
}

fn put_name() -> (r: Vec<u8>)
    ensures
        r@ == name_put(),
{
    let mut v: Vec<u8> = Vec::new();
    v.push(80);
    v.push(85);
    v.push(84);
    proof {
        assert(v@ =~= name_put());
    }
    v
}

fn get_name() -> (r: Vec<u8>)
    ensures
        r@ == name_get(),
{
    let mut v: Vec<u8> = Vec::new();
    v.push(71);
    v.push(69);
    v.push(84);
    proof {
        assert(v@ =~= name_get());
    }
    v
}

fn delete_name() -> (r: Vec<u8>)
    ensures
        r@ == name_delete(),
{
    let mut v: Vec<u8> = Vec::new();
    v.push(68);
    v.push(69);
    v.push(76);
    v.push(69);
    v.push(84);
    v.push(69);
    proof {
        assert(v@ =~= name_delete());
    }
    v
}

fn scan_name() -> (r: Vec<u8>)
    ensures
        r@ == name_scan(),
{
    let mut v: Vec<u8> = Vec::new();
    v.push(83);
    v.push(67);
    v.push(65);
    v.push(78);
    proof {
        assert(v@ =~= name_scan());
    }
    v
}

impl Command {
    /// Reads a command out of the parts of one message. The first part
    /// names the command, case insensitively; a known name with the
    /// wrong number of arguments is a grammar failure, an unknown name
    /// an unsupported command.
    pub fn from_message(message: Vec<Vec<u8>>) -> (r: ProtocolResult<Command>)
        requires
            message@.len() >= 1,
        ensures
            ({
                let name = ascii_upper(message@[0]@);
                match r {
                    Ok(c) => {
                        ||| (name == name_put() && message@.len() == 3 && (c matches
                            Command::PUT(pc) && pc.key@ == message@[1]@ && pc.value@
                            == message@[2]@))
                        ||| (name == name_get() && message@.len() == 2 && (c matches
                            Command::GET(gc) && gc.key@ == message@[1]@))
                        ||| (name == name_delete() && message@.len() == 2 && (c matches
                            Command::DELETE(dc) && dc.key@ == message@[1]@))
                        ||| (name == name_scan() && message@.len() == 3 && (c matches
                            Command::SCAN(sc) && sc.start@ == message@[1]@ && sc.end@
                            == message@[2]@))
                    },
                    Err(e) => match e {
                        ProtocolError::GrammarCheckFailed(m) => {
                            ||| (name == name_put() && message@.len() != 3 && m@
                                == "PUT should have two arguments"@)
                            ||| (name == name_get() && message@.len() != 2 && m@
                                == "GET should have one argument"@)
                            ||| (name == name_delete() && message@.len() != 2 && m@
                                == "DELETE should have one argument"@)
                            ||| (name == name_scan() && message@.len() != 3 && m@
                                == "SCAN should have two arguments"@)
                        },
                        ProtocolError::CommandNotSupport(s) => s@ == name && name != name_put()
                            && name != name_get() && name != name_delete() && name != name_scan(),
                        _ => false,
                    },
                }
            }),
    {
        let mut message = message;
        let command = to_upper(&message[0]);
        if name_is(&command, &put_name()) {
            if message.len() == 3 {
                let value = Slice(message.remove(2));
                let key = Slice(message.remove(1));
                Ok(Command::PUT(PutCommand { key, value }))
            } else {
                Err(ProtocolError::GrammarCheckFailed("PUT should have two arguments"))
            }
        } else if name_is(&command, &get_name()) {
            if message.len() == 2 {
                let key = Slice(message.remove(1));
                Ok(Command::GET(GetCommand { key }))
            } else {
                Err(ProtocolError::GrammarCheckFailed("GET should have one argument"))
            }
        } else if name_is(&command, &delete_name()) {
            if message.len() == 2 {
                let key = Slice(message.remove(1));
                Ok(Command::DELETE(DeleteCommand { key }))
            } else {
                Err(ProtocolError::GrammarCheckFailed("DELETE should have one argument"))
            }
        } else if name_is(&command, &scan_name()) {
            if message.len() == 3 {
                let end = Slice(message.remove(2));
                let start = Slice(message.remove(1));
                Ok(Command::SCAN(ScanCommand { start, end }))
            } else {
                Err(ProtocolError::GrammarCheckFailed("SCAN should have two arguments"))
            }
        } else {
            Err(ProtocolError::CommandNotSupport(command))
        }
    }

    /// The parts of this command's wire message: the name, then the
    /// arguments.
    pub open spec fn spec_parts(self) -> Seq<Seq<u8>> {
        match self {
            Command::PUT(c) => seq![name_put(), c.key@, c.value@],
            Command::GET(c) => seq![name_get(), c.key@],
            Command::DELETE(c) => seq![name_delete(), c.key@],
            Command::SCAN(c) => seq![name_scan(), c.start@, c.end@],
        }
    }

    /// Encodes this command as one wire message.
    pub fn into_bytes(self) -> (r: Vec<u8>)
        ensures
            r@ == spec_encode_message(self.spec_parts()),
    {
        let parts: Vec<Vec<u8>> = match self {
            Command::PUT(c) => {
                let mut v: Vec<Vec<u8>> = Vec::new();
                v.push(put_name());
                v.push(c.key.0);
                v.push(c.value.0);
                v
            },
            Command::GET(c) => {
                let mut v: Vec<Vec<u8>> = Vec::new();
                v.push(get_name());
                v.push(c.key.0);
                v
            },
            Command::DELETE(c) => {
                let mut v: Vec<Vec<u8>> = Vec::new();
                v.push(delete_name());
                v.push(c.key.0);
                v
            },
            Command::SCAN(c) => {
                let mut v: Vec<Vec<u8>> = Vec::new();
                v.push(scan_name());
                v.push(c.start.0);
                v.push(c.end.0);
                v
            },
        };
        proof {
            assert(seqs_of(parts@) =~= self.spec_parts());
        }
        encode_message(parts)
    }
}

/// The parts a command encodes to decode back to the same command:
/// the first part upper-cases to the command's own name and the
/// argument count is the one the reader demands, so a reader honouring
/// the decoding contract returns an equal command.
pub proof fn lemma_command_parts_decode(c: Command)
    ensures
        ({
            let parts = c.spec_parts();
            &&& parts.len() >= 1
            &&& match c {
                Command::PUT(pc) => ascii_upper(parts[0]) == name_put() && parts.len() == 3
                    && parts[1] == pc.key@ && parts[2] == pc.value@,
                Command::GET(gc) => ascii_upper(parts[0]) == name_get() && parts.len() == 2
                    && parts[1] == gc.key@,
                Command::DELETE(dc) => ascii_upper(parts[0]) == name_delete() && parts.len() == 2
                    && parts[1] == dc.key@,
                Command::SCAN(sc) => ascii_upper(parts[0]) == name_scan() && parts.len() == 3
                    && parts[1] == sc.start@ && parts[2] == sc.end@,
            }
        }),
{
    match c {
        Command::PUT(_) => {
            assert(ascii_upper(name_put()) =~= name_put());
        },
        Command::GET(_) => {
            assert(ascii_upper(name_get()) =~= name_get());
        },
        Command::DELETE(_) => {
            assert(ascii_upper(name_delete()) =~= name_delete());
        },
        Command::SCAN(_) => {
            assert(ascii_upper(name_scan()) =~= name_scan());
        },
    }
}

/// The views of a listing of byte vectors.
pub open spec fn seqs_of(v: Seq<Vec<u8>>) -> Seq<Seq<u8>> {
    Seq::new(v.len(), |i: int| v[i]@)
}

/// The wire bytes of one message part: its head, the payload, and the
/// terminator.
pub open spec fn spec_encode_part(payload: Seq<u8>) -> Seq<u8> {
    part_head_bytes(payload.len()) + payload + seq![13u8, 10u8]
}

pub open spec fn spec_encode_parts(parts: Seq<Seq<u8>>) -> Seq<u8>
    decreases parts.len(),
{
    if parts.len() == 0 {
        Seq::empty()
    } else {
        spec_encode_part(parts.first()) + spec_encode_parts(parts.drop_first())
    }
}

/// The wire bytes of a whole message.
pub open spec fn spec_encode_message(parts: Seq<Seq<u8>>) -> Seq<u8> {
    msg_head_bytes(parts.len()) + spec_encode_parts(parts)
}

/// Appends one encoded part to a message under construction.
pub fn append_part(message: &mut Vec<u8>, payload: Vec<u8>)
    ensures
        final(message)@ == old(message)@ + spec_encode_part(payload@),
{
    let ghost orig = message@;
    let head = PartHead { size: payload.len() };
    let mut head_bytes = head.into_bytes();
    message.append(&mut head_bytes);
    let mut payload = payload;
    let ghost pv = payload@;
    message.append(&mut payload);
    message.push(13);
    message.push(10);
    proof {
        assert(message@ =~= orig + spec_encode_part(pv));
    }
}

/// Encodes a message from its parts.
pub fn encode_message(parts: Vec<Vec<u8>>) -> (r: Vec<u8>)
    ensures
        r@ == spec_encode_message(seqs_of(parts@)),
{
    let ghost all = seqs_of(parts@);
    let head = MessageHead { count: parts.len() };
    let mut out = head.into_bytes();
    let mut i: usize = 0;
    proof {
        assert(all.skip(0) =~= all);
    }
    while i < parts.len()
        invariant
            i <= parts@.len(),
            all == seqs_of(parts@),
            out@ == msg_head_bytes(parts@.len() as nat) + spec_encode_parts(all.take(i as int)),
        decreases parts@.len() - i,
    {
        let ghost before = out@;
        let part = parts[i].clone();
        proof {
            assert(part@ == all[i as int]);
        }
        append_part(&mut out, part);
        proof {
            lemma_encode_parts_snoc(all, i as int);
        }
        i = i + 1;
    }
    proof {
        assert(all.take(all.len() as int) =~= all);
    }
    out
}

proof fn lemma_encode_parts_snoc(parts: Seq<Seq<u8>>, i: int)
    requires
        0 <= i < parts.len(),
    ensures
        spec_encode_parts(parts.take(i + 1)) == spec_encode_parts(parts.take(i)) + spec_encode_part(
            parts[i],
        ),
    decreases i,
{
    if i == 0 {
        assert(parts.take(1).drop_first() =~= Seq::<Seq<u8>>::empty());
        assert(parts.take(1).first() == parts[0]);
        assert(spec_encode_parts(Seq::<Seq<u8>>::empty()) == Seq::<u8>::empty());
        assert(spec_encode_parts(parts.take(1)) == spec_encode_part(parts[0])
            + Seq::<u8>::empty());
        assert(spec_encode_part(parts[0]) + Seq::<u8>::empty() =~= spec_encode_part(parts[0]));
        assert(parts.take(0).len() == 0);
        assert(spec_encode_parts(parts.take(0)) == Seq::<u8>::empty());
        assert(Seq::<u8>::empty() + spec_encode_part(parts[0]) =~= spec_encode_part(parts[0]));
    } else {
        lemma_encode_parts_snoc(parts.drop_first(), i - 1);
        assert(parts.take(i + 1).drop_first() =~= parts.drop_first().take(i));
        assert(parts.take(i).drop_first() =~= parts.drop_first().take(i - 1));
        assert(parts.drop_first()[i - 1] == parts[i]);
        assert(parts.take(i + 1).first() == parts[0]);
        assert(parts.take(i).first() == parts[0]);
        assert(spec_encode_part(parts[0]) + (spec_encode_parts(parts.drop_first().take(i - 1))
            + spec_encode_part(parts[i])) =~= (spec_encode_part(parts[0]) + spec_encode_parts(
            parts.drop_first().take(i - 1),
        )) + spec_encode_part(parts[i]));
    }
}

/// What decoding finds at a position of the stream: too few bytes yet,
/// malformed bytes, or a full message of parts and the position after
/// it.
pub enum Framing {
    Incomplete,
    Bad,
    Done(Seq<Seq<u8>>, int),
}

/// Prefixing already-read parts onto a framing outcome.
pub open spec fn framing_prepend(prefix: Seq<Seq<u8>>, f: Framing) -> Framing {
    match f {
        Framing::Done(rest, end) => Framing::Done(prefix + rest, end),
        Framing::Incomplete => Framing::Incomplete,
        Framing::Bad => Framing::Bad,
    }
}

/// Parses `count` parts starting at `pos`.
pub open spec fn spec_parse_parts(s: Seq<u8>, pos: int, count: int) -> Framing
    decreases count,
{
    if count <= 0 {
        Framing::Done(Seq::empty(), pos)
    } else {
        match spec_find_crlf(s, pos) {
            None => Framing::Incomplete,
            Some(i) => match spec_head_value(s, pos, i, 36u8, false) {
                Err(_) => Framing::Bad,
                Ok(size) => if i + 2 + size + 2 > s.len() {
                    Framing::Incomplete
                } else {
                    framing_prepend(
                        seq![s.subrange(i + 2, i + 2 + size)],
                        spec_parse_parts(s, i + 2 + size + 2, count - 1),
                    )
                },
            },
        }
    }
}

/// Parses one whole message starting at `pos`: a head line announcing
/// the part count, then that many parts.
pub open spec fn spec_parse_message(s: Seq<u8>, pos: int) -> Framing {
    match spec_find_crlf(s, pos) {
        None => Framing::Incomplete,
        Some(i) => match spec_head_value(s, pos, i, 42u8, true) {
            Err(_) => Framing::Bad,
            Ok(count) => spec_parse_parts(s, i + 2, count),
        },
    }
}

/// Copies `[a, b)` of the buffer into a fresh vector.
pub fn copy_range(buf: &Vec<u8>, a: usize, b: usize) -> (r: Vec<u8>)
    requires
        a <= b <= buf@.len(),
    ensures
        r@ == buf@.subrange(a as int, b as int),
{
    let mut out: Vec<u8> = Vec::new();
    let mut i = a;
    while i < b
        invariant
            a <= i <= b <= buf@.len(),
            out@ == buf@.subrange(a as int, i as int),
        decreases b - i,
    {
        out.push(buf[i]);
        proof {
            assert(out@ =~= buf@.subrange(a as int, i + 1));
        }
        i = i + 1;
    }
    out
}

/// Reads one framed message out of the buffered bytes, starting at
/// `pos`. `Ok(None)` asks for more bytes; `Ok(Some((parts, end)))`
/// hands the message's parts and the position after it; an error
/// reports malformed framing.
pub fn decode_message(buf: &Vec<u8>, pos: usize) -> (r: ProtocolResult<
    Option<(Vec<Vec<u8>>, usize)>,
>)
    requires
        pos <= buf@.len(),
    ensures
        match r {
            Ok(o) => match o {
                Some(done) => spec_parse_message(buf@, pos as int) == Framing::Done(
                    seqs_of(done.0@),
                    done.1 as int,
                ) && done.1 <= buf@.len(),
                None => spec_parse_message(buf@, pos as int) is Incomplete,
            },
            Err(_) => spec_parse_message(buf@, pos as int) is Bad,
        },
{
    let n = buf.len();
    let i = match find_crlf(buf, pos) {
        None => {
            return Ok(None);
        },
        Some(i) => i,
    };
    let count = match parse_head_line(buf, pos, i, 42, true,
        "* should be the first character of a message") {
        Ok(c) => c,
        Err(e) => {
            return Err(e);
        },
    };
    let mut parts: Vec<Vec<u8>> = Vec::new();
    let mut cur = i + 2;
    let mut remaining = count;
    let ghost start_pos = i + 2;
    while remaining > 0
        invariant
            cur <= n,
            n == buf@.len(),
            remaining <= count,
            spec_parse_message(buf@, pos as int) == framing_prepend(
                seqs_of(parts@),
                spec_parse_parts(buf@, cur as int, remaining as int),
            ),
        decreases remaining,
    {
        let j = match find_crlf(buf, cur) {
            None => {
                return Ok(None);
            },
            Some(j) => j,
        };
        let size = match parse_head_line(buf, cur, j, 36, false,
            "$ should be the first character of a message part") {
            Ok(s) => s,
            Err(e) => {
                return Err(e);
            },
        };
        // the payload and its terminator must be present in full
        if size > n - (j + 2) || (n - (j + 2)) - size < 2 {
            proof {
                assert(j + 2 + size + 2 > n);
            }
            return Ok(None);
        }
        let content = copy_range(buf, j + 2, j + 2 + size);
        let ghost before = seqs_of(parts@);
        parts.push(content);
        proof {
            assert(seqs_of(parts@) =~= before + seq![buf@.subrange(j + 2, j + 2 + size)]);
            lemma_framing_prepend_assoc(
                before,
                seq![buf@.subrange(j + 2, j + 2 + size)],
                spec_parse_parts(buf@, (j + 2 + size + 2) as int, remaining - 1),
            );
        }
        cur = j + 2 + size + 2;
        remaining = remaining - 1;
    }
    proof {
        assert(spec_parse_parts(buf@, cur as int, 0) == Framing::Done(
            Seq::<Seq<u8>>::empty(),
            cur as int,
        ));
        assert(seqs_of(parts@) + Seq::<Seq<u8>>::empty() =~= seqs_of(parts@));
    }
    Ok(Some((parts, cur)))
}

/// Encoded parts decode back to themselves: reading `parts.len()`
/// parts from their own encoding yields exactly `parts` and stops
/// right after them.
pub proof fn lemma_parts_round_trip(s: Seq<u8>, pos: int, parts: Seq<Seq<u8>>)
    requires
        0 <= pos,
        pos + spec_encode_parts(parts).len() <= s.len(),
        forall|j: int| 0 <= j < spec_encode_parts(parts).len() ==> #[trigger] s[pos + j]
            == spec_encode_parts(parts)[j],
        forall|i: int| 0 <= i < parts.len() ==> (#[trigger] parts[i]).len() <= usize::MAX,
    ensures
        spec_parse_parts(s, pos, parts.len() as int) == Framing::Done(
            parts,
            pos + spec_encode_parts(parts).len(),
        ),
    decreases parts.len(),
{
    if parts.len() == 0 {
        assert(spec_encode_parts(parts).len() == 0);
        assert(spec_parse_parts(s, pos, 0) == Framing::Done(Seq::<Seq<u8>>::empty(), pos));
        assert(parts =~= Seq::<Seq<u8>>::empty());
    } else {
        let p0 = parts.first();
        let n = p0.len();
        let d = crate::message::dec_str(n).len() as int;
        let enc = spec_encode_parts(parts);
        let head = crate::message::part_head_bytes(n);
        let enc0 = spec_encode_part(p0);
        let tail = spec_encode_parts(parts.drop_first());
        assert(enc == enc0 + tail);
        assert(enc0 == head + p0 + seq![13u8, 10u8]);
        assert(head == seq![36u8] + crate::message::dec_str(n) + seq![13u8, 10u8]);
        crate::message::lemma_dec_str_digits(n);
        assert(head.len() == d + 3);
        assert(enc0.len() == d + 3 + n + 2);
        // the bytes of the part head, its payload, and its terminator
        assert(s[pos + 0] == enc[0]);
        assert(s[pos] == enc[0]);
        assert(enc[0] == 36);
        assert forall|j: int| 0 <= j < d implies #[trigger] s[pos + 1 + j]
            == crate::message::dec_str(n)[j] by {
            assert(s[pos + (1 + j)] == enc[1 + j]);
            assert(enc[1 + j] == enc0[1 + j]);
            assert(enc0[1 + j] == head[1 + j]);
        }
        assert(s[pos + (1 + d)] == enc[1 + d]);
        assert(enc[1 + d] == head[1 + d] && head[1 + d] == 13);
        assert(s[pos + 1 + d] == 13);
        assert(s[pos + (2 + d)] == enc[2 + d]);
        assert(enc[2 + d] == head[2 + d] && head[2 + d] == 10);
        assert(s[pos + 2 + d] == 10);
        assert(pos + 2 + d < s.len());
        crate::message::lemma_head_line_crlf(s, pos, n, 36);
        let i = pos + 1 + d;
        crate::message::lemma_head_line_value(s, pos, i, n, 36, false);
        assert(spec_find_crlf(s, pos) == Some(i));
        assert(spec_head_value(s, pos, i, 36u8, false) == Ok::<int, bool>(n as int));
        assert(i + 2 + n + 2 <= s.len());
        // the payload reads back unchanged
        assert forall|j: int| 0 <= j < n implies #[trigger] s[i + 2 + j] == p0[j] by {
            assert(s[pos + (d + 3 + j)] == enc[d + 3 + j]);
            assert(enc[d + 3 + j] == enc0[d + 3 + j]);
            assert(enc0[d + 3 + j] == p0[j]);
        }
        assert forall|j: int| 0 <= j < n implies s.subrange(i + 2, i + 2 + n as int)[j]
            == p0[j] by {
            assert(s.subrange(i + 2, i + 2 + n as int)[j] == s[i + 2 + j]);
            assert(s[i + 2 + j] == p0[j]);
        }
        assert(s.subrange(i + 2, i + 2 + n as int) =~= p0);
        // the rest of the parts decode behind this one
        let pos2 = i + 2 + n + 2;
        assert forall|j: int| 0 <= j < tail.len() implies #[trigger] s[pos2 + j] == tail[j] by {
            assert(s[pos + (enc0.len() + j)] == enc[enc0.len() + j]);
            assert(enc[enc0.len() + j] == tail[j]);
        }
        lemma_parts_round_trip(s, pos2 as int, parts.drop_first());
        assert(spec_parse_parts(s, pos, parts.len() as int) == framing_prepend(
            seq![s.subrange(i + 2, i + 2 + n as int)],
            spec_parse_parts(s, pos2 as int, parts.len() - 1),
        ));
        assert(seq![p0] + parts.drop_first() =~= parts);
        assert(pos2 + tail.len() == pos + enc.len());
    }
}

/// Encoding a message and decoding it back is the identity: the parts
/// come out exactly as they went in, whatever bytes follow on the
/// stream.
pub proof fn lemma_message_round_trip(parts: Seq<Seq<u8>>, rest: Seq<u8>)
    requires
        parts.len() <= usize::MAX,
        forall|i: int| 0 <= i < parts.len() ==> (#[trigger] parts[i]).len() <= usize::MAX,
    ensures
        spec_parse_message(spec_encode_message(parts) + rest, 0) == Framing::Done(
            parts,
            spec_encode_message(parts).len() as int,
        ),
{
    let n = parts.len();
    let enc = spec_encode_message(parts);
    let s = enc + rest;
    let head = msg_head_bytes(n);
    let body = spec_encode_parts(parts);
    let d = crate::message::dec_str(n).len() as int;
    crate::message::lemma_dec_str_digits(n);
    assert(head == seq![42u8] + crate::message::dec_str(n) + seq![13u8, 10u8]);
    assert(head.len() == d + 3);
    assert(enc == head + body);
    assert(s[0] == 42);
    assert forall|j: int| 0 <= j < d implies #[trigger] s[1 + j] == crate::message::dec_str(n)[
        j
    ] by {
        assert(s[1 + j] == enc[1 + j]);
        assert(enc[1 + j] == head[1 + j]);
    }
    assert(s[1 + d] == head[1 + d] && head[1 + d] == 13);
    assert(s[2 + d] == head[2 + d] && head[2 + d] == 10);
    assert(2 + d < s.len());
    crate::message::lemma_head_line_crlf(s, 0, n, 42);
    crate::message::lemma_head_line_value(s, 0, 1 + d, n, 42, true);
    assert forall|j: int| 0 <= j < body.len() implies #[trigger] s[d + 3 + j] == body[j] by {
        assert(s[d + 3 + j] == enc[d + 3 + j]);
        assert(enc[d + 3 + j] == body[j]);
    }
    lemma_parts_round_trip(s, d + 3, parts);
    assert(d + 3 + body.len() == enc.len());
}

proof fn lemma_framing_prepend_assoc(a: Seq<Seq<u8>>, b: Seq<Seq<u8>>, f: Framing)
    ensures
        framing_prepend(a, framing_prepend(b, f)) == framing_prepend(a + b, f),
{
    match f {
        Framing::Done(rest, end) => {
            assert(a + (b + rest) =~= (a + b) + rest);
        },
        _ => {},
    }
}

} // verus!
