//! The framing heads of the wire protocol: `*<N>\r\n` announces a
//! message of N parts, `$<L>\r\n` announces a part of L payload bytes.

use vstd::prelude::*;

use crate::error::{ProtocolError, ProtocolResult};

verus! {

pub open spec fn is_digit(b: u8) -> bool {
    48 <= b <= 57
}

pub open spec fn all_digits(s: Seq<u8>) -> bool {
    s.len() > 0 && forall|i: int| 0 <= i < s.len() ==> is_digit(#[trigger] s[i])
}

/// The number a digit string denotes.
pub open spec fn dec_value(s: Seq<u8>) -> int
    decreases s.len(),
{
    if s.len() == 0 {
        0
    } else {
        dec_value(s.drop_last()) * 10 + (s.last() - 48)
    }
}

/// The shortest digit string of a number.
pub open spec fn dec_str(n: nat) -> Seq<u8>
    decreases n,
{
    if n < 10 {
        seq![(48 + n) as u8]
    } else {
        dec_str(n / 10).push((48 + n % 10) as u8)
    }
}

pub proof fn lemma_dec_str_digits(n: nat)
    ensures
        all_digits(dec_str(n)),
        dec_str(n).len() >= 1,
    decreases n,
{
    if n >= 10 {
        lemma_dec_str_digits(n / 10);
    }
}

/// Reading back the digit string of a number gives the number.
pub proof fn lemma_dec_str_value(n: nat)
    ensures
        dec_value(dec_str(n)) == n,
    decreases n,
{
    if n < 10 {
        assert(dec_str(n).drop_last() =~= Seq::<u8>::empty());
        assert(dec_str(n).last() == (48 + n) as u8);
        assert(dec_value(dec_str(n).drop_last()) == 0);
        assert(dec_value(dec_str(n)) == n);
    } else {
        lemma_dec_str_value(n / 10);
        assert(dec_str(n).drop_last() =~= dec_str(n / 10));
        assert(dec_str(n).last() == (48 + n % 10) as u8);
        assert(n % 10 < 10);
        assert((48 + n % 10) as u8 - 48 == n % 10);
        vstd::arithmetic::div_mod::lemma_fundamental_div_mod(n as int, 10);
        assert(n == 10 * (n as int / 10) + (n as int % 10));
        assert(dec_str(n).len() > 0);
        assert(dec_value(dec_str(n)) == dec_value(dec_str(n).drop_last()) * 10 + (dec_str(
            n,
        ).last() - 48));
        assert(dec_value(dec_str(n).drop_last()) == n / 10);
        assert(dec_value(dec_str(n)) == (n / 10) * 10 + (n % 10));
        assert(dec_value(dec_str(n)) == n);
    }
}

pub proof fn lemma_dec_value_nonneg(s: Seq<u8>)
    requires
        forall|i: int| 0 <= i < s.len() ==> is_digit(#[trigger] s[i]),
    ensures
        dec_value(s) >= 0,
    decreases s.len(),
{
    if s.len() > 0 {
        lemma_dec_value_nonneg(s.drop_last());
    }
}

/// A longer digit string never denotes a smaller number.
pub proof fn lemma_dec_value_prefix(s: Seq<u8>, i: int)
    requires
        0 <= i <= s.len(),
        forall|j: int| 0 <= j < s.len() ==> is_digit(#[trigger] s[j]),
    ensures
        dec_value(s.subrange(0, i)) <= dec_value(s),
    decreases s.len() - i,
{
    if i < s.len() {
        lemma_dec_value_prefix(s, i + 1);
        let a = s.subrange(0, i);
        let b = s.subrange(0, i + 1);
        assert(b.drop_last() =~= a);
        assert(b.last() == s[i]);
        lemma_dec_value_nonneg(a);
        assert(dec_value(b) == dec_value(a) * 10 + (s[i] - 48));
        assert(dec_value(a) * 10 >= dec_value(a)) by (nonlinear_arith)
            requires dec_value(a) >= 0;
    } else {
        assert(s.subrange(0, i) =~= s);
    }
}

pub open spec fn is_ws(b: u8) -> bool {
    b == 32 || b == 9 || b == 13 || b == 10
}

/// The first position at or after `from` holding something other than
/// `skip`-able bytes, capped at `to`.
pub open spec fn skip_while_idx(s: Seq<u8>, from: int, to: int, ws: bool, zeros: bool) -> int
    decreases to - from,
{
    if from >= to {
        to
    } else if (ws && is_ws(s[from])) || (zeros && s[from] == 0) {
        skip_while_idx(s, from + 1, to, ws, zeros)
    } else {
        from
    }
}

/// The end of the range `[from, to)` with trailing whitespace dropped.
pub open spec fn rtrim_idx(s: Seq<u8>, from: int, to: int) -> int
    decreases to - from,
{
    if to <= from {
        from
    } else if is_ws(s[to - 1]) {
        rtrim_idx(s, from, to - 1)
    } else {
        to
    }
}

pub proof fn lemma_skip_while_bounds(s: Seq<u8>, from: int, to: int, ws: bool, zeros: bool)
    requires
        from <= to,
    ensures
        from <= skip_while_idx(s, from, to, ws, zeros) <= to,
    decreases to - from,
{
    if from < to && ((ws && is_ws(s[from])) || (zeros && s[from] == 0)) {
        lemma_skip_while_bounds(s, from + 1, to, ws, zeros);
    }
}

pub proof fn lemma_rtrim_bounds(s: Seq<u8>, from: int, to: int)
    requires
        from <= to,
    ensures
        from <= rtrim_idx(s, from, to) <= to,
    decreases to - from,
{
    if from < to && is_ws(s[to - 1]) {
        lemma_rtrim_bounds(s, from, to - 1);
    }
}

/// Advances over whitespace (and, when asked, NUL bytes) within
/// `[from, to)` of the buffer.
fn skip_bytes(buf: &Vec<u8>, from: usize, to: usize, ws: bool, zeros: bool) -> (r: usize)
    requires
        from <= to <= buf@.len(),
    ensures
        r == skip_while_idx(buf@, from as int, to as int, ws, zeros),
        from <= r <= to,
{
    let mut i = from;
    while i < to
        invariant
            from <= i <= to <= buf@.len(),
            skip_while_idx(buf@, from as int, to as int, ws, zeros) == skip_while_idx(
                buf@,
                i as int,
                to as int,
                ws,
                zeros,
            ),
        decreases to - i,
    {
        let b = buf[i];
        let skippable = (ws && (b == 32 || b == 9 || b == 13 || b == 10)) || (zeros && b == 0);
        if !skippable {
            return i;
        }
        i = i + 1;
    }
    i
}

/// Steps the end of the range back over trailing whitespace.
fn rtrim_bytes(buf: &Vec<u8>, from: usize, to: usize) -> (r: usize)
    requires
        from <= to <= buf@.len(),
    ensures
        r == rtrim_idx(buf@, from as int, to as int),
        from <= r <= to,
{
    let mut i = to;
    while i > from
        invariant
            from <= i <= to <= buf@.len(),
            rtrim_idx(buf@, from as int, to as int) == rtrim_idx(buf@, from as int, i as int),
        decreases i,
    {
        let b = buf[i - 1];
        if !(b == 32 || b == 9 || b == 13 || b == 10) {
            return i;
        }
        i = i - 1;
    }
    i
}

/// Parses the decimal number in `[from, to)` of the buffer. Succeeds
/// exactly when the range is non-empty, all digits, and the number fits
/// the platform's sizes.
fn parse_decimal_range(buf: &Vec<u8>, from: usize, to: usize) -> (r: ProtocolResult<usize>)
    requires
        from <= to <= buf@.len(),
    ensures
        ({
            let s = buf@.subrange(from as int, to as int);
            match r {
                Ok(v) => all_digits(s) && v == dec_value(s),
                Err(e) => e is ParseError && (!all_digits(s) || dec_value(s) > usize::MAX),
            }
        }),
{
    let ghost s = buf@.subrange(from as int, to as int);
    if from == to {
        proof {
            assert(s.len() == 0);
        }
        return Err(ProtocolError::ParseError);
    }
    let mut acc: usize = 0;
    let mut i = from;
    while i < to
        invariant
            from <= i <= to <= buf@.len(),
            from < to,
            s == buf@.subrange(from as int, to as int),
            forall|j: int| 0 <= j < i - from ==> is_digit(#[trigger] s[j]),
            acc == dec_value(s.subrange(0, i - from)),
        decreases to - i,
    {
        let b = buf[i];
        if b < 48 || b > 57 {
            proof {
                assert(s[i - from] == b);
                assert(!all_digits(s));
            }
            return Err(ProtocolError::ParseError);
        }
        let d = (b - 48) as usize;
        proof {
            assert(s.subrange(0, i - from + 1).drop_last() =~= s.subrange(0, i - from));
            assert(s.subrange(0, i - from + 1).last() == s[i - from]);
            assert(s[i - from] == b);
        }
        let next = match acc.checked_mul(10) {
            Some(m) => m.checked_add(d),
            None => None,
        };
        match next {
            Some(v) => {
                acc = v;
            },
            None => {
                // the prefix already denotes more than a usize can
                // hold, so the whole range does too
                proof {
                    if all_digits(s) {
                        assert(dec_value(s.subrange(0, i - from + 1)) > usize::MAX);
                        lemma_dec_value_prefix(s, i - from + 1);
                    }
                }
                return Err(ProtocolError::ParseError);
            },
        }
        i = i + 1;
    }
    proof {
        assert(s.subrange(0, to - from) =~= s);
    }
    Ok(acc)
}

/// Writes a number as its shortest decimal digit string.
fn encode_decimal(n: usize) -> (r: Vec<u8>)
    ensures
        r@ == dec_str(n as nat),
    decreases n,
{
    if n < 10 {
        let mut v: Vec<u8> = Vec::new();
        v.push(48 + n as u8);
        proof {
            assert(v@ =~= dec_str(n as nat));
        }
        v
    } else {
        let mut v = encode_decimal(n / 10);
        v.push(48 + (n % 10) as u8);
        v
    }
}

/// The wire bytes of a message head announcing `count` parts.
pub open spec fn msg_head_bytes(count: nat) -> Seq<u8> {
    seq![42u8] + dec_str(count) + seq![13u8, 10u8]
}

/// The wire bytes of a part head announcing `size` payload bytes.
pub open spec fn part_head_bytes(size: nat) -> Seq<u8> {
    seq![36u8] + dec_str(size) + seq![13u8, 10u8]
}

/// What decoding a head line `[from, to)` (the line without its
/// terminator) yields: the number after the lead byte, with leading
/// NULs skipped ahead of the lead byte and whitespace trimmed around
/// the digits. `Err(true)` is the grammar failure (wrong lead byte),
/// `Err(false)` a number that does not parse.
pub open spec fn spec_head_value(s: Seq<u8>, from: int, to: int, lead: u8, strip_zeros: bool)
    -> Result<int, bool> {
    let z = skip_while_idx(s, from, to, false, strip_zeros);
    if z >= to || s[z] != lead {
        Err(true)
    } else {
        let a = skip_while_idx(s, z + 1, to, true, false);
        let b = rtrim_idx(s, a, to);
        let digits = s.subrange(a, b);
        if all_digits(digits) && dec_value(digits) <= usize::MAX {
            Ok(dec_value(digits))
        } else {
            Err(false)
        }
    }
}

/// Decodes the head line in `[from, to)` of the buffer.
pub fn parse_head_line(buf: &Vec<u8>, from: usize, to: usize, lead: u8, strip_zeros: bool, msg:
    &'static str) -> (r: ProtocolResult<usize>)
    requires
        from <= to <= buf@.len(),
    ensures
        match r {
            Ok(v) => spec_head_value(buf@, from as int, to as int, lead, strip_zeros)
                == Ok::<int, bool>(v as int),
            Err(e) => match e {
                ProtocolError::GrammarCheckFailed(m) => m@ == msg@ && spec_head_value(
                    buf@,
                    from as int,
                    to as int,
                    lead,
                    strip_zeros,
                ) == Err::<int, bool>(true),
                ProtocolError::ParseError => spec_head_value(
                    buf@,
                    from as int,
                    to as int,
                    lead,
                    strip_zeros,
                ) == Err::<int, bool>(false),
                _ => false,
            },
        },
{
    let z = skip_bytes(buf, from, to, false, strip_zeros);
    if z >= to || buf[z] != lead {
        return Err(ProtocolError::GrammarCheckFailed(msg));
    }
    let a = skip_bytes(buf, z + 1, to, true, false);
    let b = rtrim_bytes(buf, a, to);
    match parse_decimal_range(buf, a, b) {
        Ok(v) => Ok(v),
        Err(_) => Err(ProtocolError::ParseError),
    }
}

/// The head of a message: how many parts follow.
pub struct MessageHead {
    pub count: usize,
}

impl MessageHead {
    /// Decodes a head line that must start with `*`, after skipping any
    /// leading NUL bytes; whitespace around the count is ignored.
    pub fn new(buf: Vec<u8>) -> (r: ProtocolResult<MessageHead>)
        ensures
            match r {
                Ok(h) => spec_head_value(buf@, 0, buf@.len() as int, 42u8, true)
                    == Ok::<int, bool>(h.count as int),
                Err(e) => match e {
                    ProtocolError::GrammarCheckFailed(m) => m@
                        == "* should be the first character of a message"@ && spec_head_value(
                        buf@,
                        0,
                        buf@.len() as int,
                        42u8,
                        true,
                    ) == Err::<int, bool>(true),
                    ProtocolError::ParseError => spec_head_value(
                        buf@,
                        0,
                        buf@.len() as int,
                        42u8,
                        true,
                    ) == Err::<int, bool>(false),
                    _ => false,
                },
            },
    {
        let len = buf.len();
        match parse_head_line(&buf, 0, len, 42, true,
            "* should be the first character of a message") {
            Ok(count) => Ok(MessageHead { count }),
            Err(e) => Err(e),
        }
    }

    /// Decodes a head line that must start with `*`; no NUL stripping.
    pub fn from_buf(buf: Vec<u8>) -> (r: ProtocolResult<MessageHead>)
        ensures
            match r {
                Ok(h) => spec_head_value(buf@, 0, buf@.len() as int, 42u8, false)
                    == Ok::<int, bool>(h.count as int),
                Err(e) => match e {
                    ProtocolError::GrammarCheckFailed(m) => m@
                        == "* should be the first character of a message"@ && spec_head_value(
                        buf@,
                        0,
                        buf@.len() as int,
                        42u8,
                        false,
                    ) == Err::<int, bool>(true),
                    ProtocolError::ParseError => spec_head_value(
                        buf@,
                        0,
                        buf@.len() as int,
                        42u8,
                        false,
                    ) == Err::<int, bool>(false),
                    _ => false,
                },
            },
    {
        let len = buf.len();
        match parse_head_line(&buf, 0, len, 42, false,
            "* should be the first character of a message") {
            Ok(count) => Ok(MessageHead { count }),
            Err(e) => Err(e),
        }
    }

    /// Encodes this head as `*<count>\r\n`.
    pub fn into_bytes(self) -> (r: Vec<u8>)
        ensures
            r@ == msg_head_bytes(self.count as nat),
    {
        let mut v: Vec<u8> = Vec::new();
        v.push(42);
        let mut digits = encode_decimal(self.count);
        v.append(&mut digits);
        v.push(13);
        v.push(10);
        proof {
            assert(v@ =~= msg_head_bytes(self.count as nat));
        }
        v
    }
}

/// The head of one message part: how many payload bytes follow.
pub struct PartHead {
    pub size: usize,
}

impl PartHead {
    /// Decodes a head line that must start with `$`.
    pub fn new(buf: Vec<u8>) -> (r: ProtocolResult<PartHead>)
        ensures
            match r {
                Ok(h) => spec_head_value(buf@, 0, buf@.len() as int, 36u8, false)
                    == Ok::<int, bool>(h.size as int),
                Err(e) => match e {
                    ProtocolError::GrammarCheckFailed(m) => m@
                        == "$ should be the first character of a message part"@ && spec_head_value(
                        buf@,
                        0,
                        buf@.len() as int,
                        36u8,
                        false,
                    ) == Err::<int, bool>(true),
                    ProtocolError::ParseError => spec_head_value(
                        buf@,
                        0,
                        buf@.len() as int,
                        36u8,
                        false,
                    ) == Err::<int, bool>(false),
                    _ => false,
                },
            },
    {
        let len = buf.len();
        match parse_head_line(&buf, 0, len, 36, false,
            "$ should be the first character of a message part") {
            Ok(size) => Ok(PartHead { size }),
            Err(e) => Err(e),
        }
    }

    /// Decodes a head line that must start with `$` (the historical
    /// alias of `new`).
    pub fn from_buf(buf: Vec<u8>) -> (r: ProtocolResult<PartHead>)
        ensures
            match r {
                Ok(h) => spec_head_value(buf@, 0, buf@.len() as int, 36u8, false)
                    == Ok::<int, bool>(h.size as int),
                Err(e) => match e {
                    ProtocolError::GrammarCheckFailed(m) => m@
                        == "$ should be the first character of a message part"@ && spec_head_value(
                        buf@,
                        0,
                        buf@.len() as int,
                        36u8,
                        false,
                    ) == Err::<int, bool>(true),
                    ProtocolError::ParseError => spec_head_value(
                        buf@,
                        0,
                        buf@.len() as int,
                        36u8,
                        false,
                    ) == Err::<int, bool>(false),
                    _ => false,
                },
            },
    {
        PartHead::new(buf)
    }

    /// Encodes this head as `$<size>\r\n`.
    pub fn into_bytes(self) -> (r: Vec<u8>)
        ensures
            r@ == part_head_bytes(self.size as nat),
    {
        let mut v: Vec<u8> = Vec::new();
        v.push(36);
        let mut digits = encode_decimal(self.size);
        v.append(&mut digits);
        v.push(13);
        v.push(10);
        proof {
            assert(v@ =~= part_head_bytes(self.size as nat));
        }
        v
    }
}

/// Decoding the encoding of a head gives the announced number back:
/// the head lines round-trip.
pub proof fn lemma_head_round_trip(n: nat, lead: u8, strip_zeros: bool)
    requires
        n <= usize::MAX,
        lead == 42 || lead == 36,
    ensures
        spec_head_value(seq![lead] + dec_str(n) + seq![13u8, 10u8], 0, (dec_str(n).len() + 3) as int,
            lead, strip_zeros) == Ok::<int, bool>(n as int),
{
    let s = seq![lead] + dec_str(n) + seq![13u8, 10u8];
    let to = dec_str(n).len() + 3;
    lemma_dec_str_digits(n);
    lemma_dec_str_value(n);
    assert(s[0] == lead && !is_ws(s[0]) && s[0] != 0);
    assert(skip_while_idx(s, 0, to as int, false, strip_zeros) == 0);
    assert(s[1] == dec_str(n)[0]);
    assert(is_digit(s[1]) && !is_ws(s[1]));
    assert(skip_while_idx(s, 1, to as int, true, false) == 1);
    lemma_rtrim_head(s, n);
    assert(s.subrange(1, to - 2) =~= dec_str(n));
}

proof fn lemma_rtrim_head(s: Seq<u8>, n: nat)
    requires
        s.len() == dec_str(n).len() + 3,
        forall|i: int| 0 <= i < dec_str(n).len() ==> s[i + 1] == dec_str(n)[i],
        s[s.len() - 2] == 13,
        s[s.len() - 1] == 10,
    ensures
        rtrim_idx(s, 1, s.len() as int) == s.len() - 2,
{
    let to = s.len() as int;
    lemma_dec_str_digits(n);
    assert(is_ws(s[to - 1]));
    assert(is_ws(s[to - 2]));
    assert(s[to - 3] == dec_str(n)[dec_str(n).len() - 1]);
    assert(is_digit(s[to - 3]));
    assert(!is_ws(s[to - 3]));
    assert(rtrim_idx(s, 1, to) == rtrim_idx(s, 1, to - 1));
    assert(rtrim_idx(s, 1, to - 1) == rtrim_idx(s, 1, to - 2));
    assert(rtrim_idx(s, 1, to - 2) == to - 2);
}

/// A head line embedded at `pos`: the lead byte followed by a
/// number's digits decodes to that number, whether or not NUL
/// stripping is on.
pub proof fn lemma_head_line_value(s: Seq<u8>, pos: int, i: int, n: nat, lead: u8, strip: bool)
    requires
        0 <= pos,
        i == pos + 1 + dec_str(n).len(),
        i <= s.len(),
        n <= usize::MAX,
        lead == 36 || lead == 42,
        s[pos] == lead,
        forall|j: int| 0 <= j < dec_str(n).len() ==> s[pos + 1 + j] == dec_str(n)[j],
    ensures
        spec_head_value(s, pos, i, lead, strip) == Ok::<int, bool>(n as int),
{
    lemma_dec_str_digits(n);
    lemma_dec_str_value(n);
    assert(!is_ws(s[pos]) && s[pos] != 0);
    assert(skip_while_idx(s, pos, i, false, strip) == pos);
    assert(s[pos + 1] == dec_str(n)[0]);
    assert(is_digit(s[pos + 1]) && !is_ws(s[pos + 1]));
    assert(skip_while_idx(s, pos + 1, i, true, false) == pos + 1);
    assert(s[i - 1] == dec_str(n)[dec_str(n).len() - 1]);
    assert(is_digit(s[i - 1]) && !is_ws(s[i - 1]));
    assert(rtrim_idx(s, pos + 1, i) == i);
    assert(s.subrange(pos + 1, i) =~= dec_str(n));
}

/// The first pair of a head line embedded at `pos` is the line's own
/// terminator: the lead byte and the digits hold no `\r\n`.
pub proof fn lemma_head_line_crlf(s: Seq<u8>, pos: int, n: nat, lead: u8)
    requires
        0 <= pos,
        lead == 36 || lead == 42,
        s[pos] == lead,
        forall|j: int| 0 <= j < dec_str(n).len() ==> s[pos + 1 + j] == dec_str(n)[j],
        s[pos + 1 + dec_str(n).len()] == 13,
        s[pos + 2 + dec_str(n).len()] == 10,
        pos + 2 + dec_str(n).len() < s.len(),
    ensures
        spec_find_crlf(s, pos) == Some(pos + 1 + dec_str(n).len() as int),
{
    lemma_dec_str_digits(n);
    let d = dec_str(n).len() as int;
    assert forall|j: int| pos <= j < pos + 1 + d implies !(s[j] == 13 && (#[trigger] s[j + 1])
        == 10) by {
        if j == pos {
            assert(s[j] == lead);
        } else {
            assert(s[j] == dec_str(n)[j - pos - 1]);
            assert(is_digit(s[j]));
        }
    }
    lemma_find_crlf_skip(s, pos, pos + 1 + d);
    assert(spec_find_crlf(s, pos + 1 + d) == Some(pos + 1 + d));
}

/// Where the first `\r\n` pair at or after `from` starts, if any.
pub open spec fn spec_find_crlf(s: Seq<u8>, from: int) -> Option<int>
    decreases s.len() - from,
{
    if from < 0 || from + 1 >= s.len() {
        None
    } else if s[from] == 13 && s[from + 1] == 10 {
        Some(from)
    } else {
        spec_find_crlf(s, from + 1)
    }
}

pub proof fn lemma_find_crlf_char(s: Seq<u8>, from: int)
    requires
        0 <= from,
    ensures
        match spec_find_crlf(s, from) {
            Some(i) => from <= i && i + 1 < s.len() && s[i] == 13 && s[i + 1] == 10
                && forall|j: int| from <= j < i ==> !(s[j] == 13 && (#[trigger] s[j + 1]) == 10),
            None => forall|j: int| from <= j && j + 1 < s.len() ==> !(s[j] == 13
                && (#[trigger] s[j + 1]) == 10),
        },
    decreases s.len() - from,
{
    if from + 1 >= s.len() {
    } else if s[from] == 13 && s[from + 1] == 10 {
    } else {
        lemma_find_crlf_char(s, from + 1);
    }
}

pub proof fn lemma_find_crlf_skip(s: Seq<u8>, from: int, mid: int)
    requires
        0 <= from <= mid,
        forall|j: int| from <= j < mid ==> !(s[j] == 13 && (#[trigger] s[j + 1]) == 10),
    ensures
        spec_find_crlf(s, from) == spec_find_crlf(s, mid),
    decreases mid - from,
{
    if from < mid {
        if from + 1 >= s.len() {
            lemma_find_crlf_none_short(s, from);
            lemma_find_crlf_none_short(s, mid);
        } else {
            lemma_find_crlf_skip(s, from + 1, mid);
        }
    }
}

proof fn lemma_find_crlf_none_short(s: Seq<u8>, from: int)
    requires
        from + 1 >= s.len(),
        0 <= from,
    ensures
        spec_find_crlf(s, from) is None,
    decreases s.len() - from,
{
    if from + 1 >= s.len() {
    }
}

/// Relies on memchr::memchr: the index of the first occurrence of
/// `needle` in `haystack`, or `None` when it does not occur.
#[verifier::external_body]
fn memchr_first(needle: u8, haystack: &[u8]) -> (r: Option<usize>)
    ensures
        match r {
            Some(i) => i < haystack@.len() && haystack@[i as int] == needle && forall|j: int|
                0 <= j < i ==> (#[trigger] haystack@[j]) != needle,
            None => forall|j: int| 0 <= j < haystack@.len() ==> (#[trigger] haystack@[j])
                != needle,
        },
{
    memchr::memchr(needle, haystack)
}

/// Finds the start of the first `\r\n` pair at or after `from`, by
/// repeatedly locating a `\n` and checking the byte before it.
pub fn find_crlf(buf: &Vec<u8>, from: usize) -> (r: Option<usize>)
    requires
        from <= buf@.len(),
    ensures
        match r {
            Some(i) => spec_find_crlf(buf@, from as int) == Some(i as int) && from <= i
                && i + 1 < buf@.len(),
            None => spec_find_crlf(buf@, from as int) is None,
        },
{
    let n = buf.len();
    let mut cur = from;
    loop
        invariant
            from <= cur <= n,
            n == buf@.len(),
            forall|j: int| from <= j < cur ==> !(buf@[j] == 13 && (#[trigger] buf@[j + 1]) == 10),
        decreases n - cur,
    {
        let sub = vstd::slice::slice_subrange(buf.as_slice(), cur, n);
        match memchr_first(10, sub) {
            None => {
                proof {
                    assert forall|j: int| from <= j && j + 1 < n implies !(buf@[j] == 13 && (
                    #[trigger] buf@[j + 1]) == 10) by {
                        if j + 1 >= cur {
                            assert(buf@[j + 1] == sub@[j + 1 - cur]);
                        }
                    }
                    lemma_find_crlf_char(buf@, from as int);
                    if spec_find_crlf(buf@, from as int) is Some {
                        let i = spec_find_crlf(buf@, from as int)->0;
                        assert(!(buf@[i] == 13 && buf@[i + 1] == 10));
                    }
                }
                return None;
            },
            Some(off) => {
                let k = cur + off;
                proof {
                    assert(buf@[k as int] == sub@[off as int]);
                    assert(buf@[k as int] == 10);
                    assert forall|j: int| cur <= j < k implies (#[trigger] buf@[j]) != 10 by {
                        assert(buf@[j] == sub@[j - cur]);
                    }
                }
                if k > cur && k > from && buf[k - 1] == 13 {
                    proof {
                        assert forall|j: int| from <= j < k - 1 implies !(buf@[j] == 13 && (
                        #[trigger] buf@[j + 1]) == 10) by {
                            if j < cur {
                            } else {
                                assert(cur <= j + 1 < k);
                                assert(buf@[j + 1] != 10);
                            }
                        }
                        lemma_find_crlf_skip(buf@, from as int, k - 1);
                    }
                    return Some(k - 1);
                }
                proof {
                    assert forall|j: int| from <= j < k + 1 implies !(buf@[j] == 13 && (
                    #[trigger] buf@[j + 1]) == 10) by {
                        if j < cur {
                        } else if j + 1 < k {
                            assert(buf@[j + 1] != 10);
                        } else if j + 1 == k {
                            assert(buf@[j] != 13);
                        } else {
                            assert(j == k);
                            assert(buf@[j] == 10);
                        }
                    }
                }
                cur = k + 1;
            },
        }
    }
}

} // verus!
