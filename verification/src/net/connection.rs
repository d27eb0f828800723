//! Line framing of a connection's byte streams and the handshake state.

use std::collections::VecDeque;

use vstd::prelude::*;
use vstd::utf8::{decode_utf8, valid_utf8};

use crate::text::chars_of;

verus! {

/// Where a connection stands in the handshake.
#[derive(Debug, Clone, Copy, PartialEq, Eq, Structural)]
pub enum ConnState {
    /// `WELCOME` sent, no team name received yet.
    Pending,
    /// An AI driving drone `player`.
    Ai { player: u32 },
    /// A graphical client.
    Gui,
}

/// Text of `bytes` with invalid UTF-8 sequences replaced by U+FFFD, as
/// `String::from_utf8_lossy` decodes it.
pub uninterp spec fn utf8_lossy(bytes: Seq<u8>) -> Seq<char>;

/// Decodes `bytes`, replacing invalid UTF-8 sequences, through
/// `String::from_utf8_lossy`. Claimed: the result is a function of the
/// bytes alone, and for valid UTF-8 it is the decoded text.
#[verifier::external_body]
fn decode_lossy(bytes: &[u8]) -> (s: String)
    ensures
        s@ == utf8_lossy(bytes@),
        valid_utf8(bytes@) ==> s@ == decode_utf8(bytes@),
{
    String::from_utf8_lossy(bytes).into_owned()
}

/// Position of the first `\n` of `b`, or its length when it has none.
pub open spec fn newline_pos(b: Seq<u8>) -> nat
    decreases b.len(),
{
    if b.len() == 0 {
        0
    } else if b[0] == 10 {
        0
    } else {
        1 + newline_pos(b.drop_first())
    }
}

/// The complete lines of `b`, without their `\n`.
pub open spec fn complete_lines(b: Seq<u8>) -> Seq<Seq<u8>>
    decreases b.len(),
{
    let p = newline_pos(b) as int;
    if p < b.len() {
        proof {
            lemma_newline_pos_bound(b);
        }
        seq![b.take(p)] + complete_lines(b.skip(p + 1))
    } else {
        seq![]
    }
}

/// What follows the last `\n` of `b` (all of `b` when it has none).
pub open spec fn partial_line(b: Seq<u8>) -> Seq<u8>
    decreases b.len(),
{
    let p = newline_pos(b) as int;
    if p < b.len() {
        proof {
            lemma_newline_pos_bound(b);
        }
        partial_line(b.skip(p + 1))
    } else {
        b
    }
}

/// `s` without its trailing carriage returns.
pub open spec fn trim_cr(s: Seq<char>) -> Seq<char>
    decreases s.len(),
{
    if s.len() > 0 && s.last() == '\r' {
        trim_cr(s.drop_last())
    } else {
        s
    }
}

/// Text of `bytes`: their decoding when they are valid UTF-8, else the
/// lossy decoding.
pub open spec fn lossy_text(bytes: Seq<u8>) -> Seq<char> {
    if valid_utf8(bytes) {
        decode_utf8(bytes)
    } else {
        utf8_lossy(bytes)
    }
}

/// Text of a received line: decoded, trailing carriage returns removed.
pub open spec fn line_text(bytes: Seq<u8>) -> Seq<char> {
    trim_cr(lossy_text(bytes))
}

/// Bytes queued for a line: its UTF-8 encoding, then `\n` unless it
/// already ends with one.
pub open spec fn framed(line: Seq<char>) -> Seq<u8> {
    if line.len() > 0 && line.last() == '\n' {
        vstd::utf8::encode_utf8(line)
    } else {
        vstd::utf8::encode_utf8(line).push(10u8)
    }
}

pub proof fn lemma_newline_pos_bound(b: Seq<u8>)
    ensures
        newline_pos(b) <= b.len(),
        newline_pos(b) < b.len() ==> b[newline_pos(b) as int] == 10,
        forall|i: int| 0 <= i < newline_pos(b) ==> b[i] != 10,
    decreases b.len(),
{
    if b.len() > 0 && b[0] != 10 {
        lemma_newline_pos_bound(b.drop_first());
        assert forall|i: int| 0 <= i < newline_pos(b) implies b[i] != 10 by {
            if i > 0 {
                assert(b[i] == b.drop_first()[i - 1]);
            }
        }
    }
}

/// Queues `line` for sending, adding the `\n` it lacks.
pub fn queue_line(out: &mut VecDeque<u8>, line: &str)
    ensures
        final(out)@ == old(out)@ + framed(line@),
{
    let bytes = line.as_bytes();
    let mut i: usize = 0;
    while i < bytes.len()
        invariant
            i <= bytes@.len(),
            bytes@ == vstd::utf8::encode_utf8(line@),
            out@ == old(out)@ + bytes@.take(i as int),
        decreases bytes@.len() - i,
    {
        out.push_back(bytes[i]);
        assert(bytes@.take(i + 1) =~= bytes@.take(i as int).push(bytes@[i as int]));
        i += 1;
    }
    assert(bytes@.take(bytes@.len() as int) =~= bytes@);
    let chars = chars_of(line);
    if !(chars.len() > 0 && chars[chars.len() - 1] == '\n') {
        out.push_back(10u8);
    }
}

/// `v` without its trailing carriage returns.
fn trim_cr_string(s: String) -> (r: String)
    ensures
        r@ == trim_cr(s@),
{
    let v = chars_of(s.as_str());
    let mut end = v.len();
    assert(v@.take(v@.len() as int) =~= v@);
    while end > 0 && v[end - 1] == '\r'
        invariant
            end <= v@.len(),
            trim_cr(s@) == trim_cr(v@.take(end as int)),
            v@ == s@,
        decreases end,
    {
        assert(v@.take(end as int).drop_last() =~= v@.take(end - 1));
        end -= 1;
    }
    crate::text::string_of(&v, 0, end)
}

/// Takes the complete lines out of `in_buf`, leaving the unfinished one.
pub fn take_lines(in_buf: &mut Vec<u8>) -> (lines: Vec<String>)
    ensures
        final(in_buf)@ == partial_line(old(in_buf)@),
        lines@.len() == complete_lines(old(in_buf)@).len(),
        forall|i: int|
            0 <= i < lines@.len() ==> (#[trigger] lines@[i])@ == line_text(
                complete_lines(old(in_buf)@)[i],
            ),
{
    let ghost all = in_buf@;
    let mut lines: Vec<String> = Vec::new();
    let mut start: usize = 0;
    let mut p: usize = 0;
    assert(all.skip(0) =~= all);
    while p < in_buf.len()
        invariant
            start <= p <= in_buf@.len(),
            in_buf@ == all,
            forall|i: int| start <= i < p ==> all[i] != 10,
            lines@.len() + complete_lines(all.skip(start as int)).len() == complete_lines(all).len(),
            forall|i: int|
                0 <= i < lines@.len() ==> (#[trigger] lines@[i])@ == line_text(complete_lines(all)[i]),
            forall|i: int|
                0 <= i < complete_lines(all.skip(start as int)).len() ==> complete_lines(all)[lines@.len() + i]
                    == #[trigger] complete_lines(all.skip(start as int))[i],
            partial_line(all) == partial_line(all.skip(start as int)),
        decreases in_buf@.len() - p,
    {
        if in_buf[p] == 10 {
            let ghost rest = all.skip(start as int);
            proof {
                lemma_newline_at(rest, (p - start) as int);
                assert(rest.take(p - start) =~= all.subrange(start as int, p as int));
                assert(rest.skip(p - start + 1) =~= all.skip(p + 1));
            }
            let piece = slice_vec(in_buf, start, p);
            let text = trim_cr_string(decode_lossy(piece.as_slice()));
            lines.push(text);
            proof {
                assert(complete_lines(rest)[0] == all.subrange(start as int, p as int));
                let rest2 = all.skip(p + 1);
                assert forall|i: int| 0 <= i < complete_lines(rest2).len() implies complete_lines(all)[lines@.len() + i]
                    == #[trigger] complete_lines(rest2)[i] by {
                    assert(complete_lines(rest)[i + 1] == complete_lines(rest2)[i]);
                }
            }
            start = p + 1;
        }
        p += 1;
    }
    proof {
        let rest = all.skip(start as int);
        lemma_no_newline(rest);
    }
    let remainder = slice_vec(in_buf, start, in_buf.len());
    assert(remainder@ =~= all.skip(start as int));
    *in_buf = remainder;
    lines
}

/// Bytes `v[lo..hi]` as a new vector.
fn slice_vec(v: &Vec<u8>, lo: usize, hi: usize) -> (r: Vec<u8>)
    requires
        lo <= hi <= v.len(),
    ensures
        r@ == v@.subrange(lo as int, hi as int),
{
    let mut out: Vec<u8> = Vec::new();
    let mut i = lo;
    while i < hi
        invariant
            lo <= i <= hi <= v.len(),
            out@ == v@.subrange(lo as int, i as int),
        decreases hi - i,
    {
        out.push(v[i]);
        assert(v@.subrange(lo as int, i + 1) =~= v@.subrange(lo as int, i as int).push(v@[i as int]));
        i += 1;
    }
    out
}

/// With its first `\n` at `k`, `b` holds one complete line more than what
/// follows that `\n`.
proof fn lemma_newline_at(b: Seq<u8>, k: int)
    requires
        0 <= k < b.len(),
        b[k] == 10,
        forall|i: int| 0 <= i < k ==> b[i] != 10,
    ensures
        newline_pos(b) == k,
        complete_lines(b) == seq![b.take(k)] + complete_lines(b.skip(k + 1)),
        partial_line(b) == partial_line(b.skip(k + 1)),
    decreases k,
{
    if k > 0 {
        assert forall|i: int| 0 <= i < k - 1 implies b.drop_first()[i] != 10 by {
            assert(b.drop_first()[i] == b[i + 1]);
        }
        lemma_newline_at(b.drop_first(), k - 1);
    }
    lemma_newline_pos_bound(b);
}

/// Without a `\n`, `b` holds no complete line and is all partial.
proof fn lemma_no_newline(b: Seq<u8>)
    requires
        forall|i: int| 0 <= i < b.len() ==> b[i] != 10,
    ensures
        complete_lines(b).len() == 0,
        partial_line(b) == b,
{
    lemma_newline_pos_bound(b);
    if newline_pos(b) < b.len() {
        assert(b[newline_pos(b) as int] == 10);
    }
}

/// No byte of the UTF-8 encoding of a scalar other than `\n` is `\n`.
proof fn lemma_scalar_no_newline(c: u32)
    requires
        vstd::utf8::is_scalar(c),
        c != 10,
    ensures
        forall|i: int| 0 <= i < vstd::utf8::encode_scalar(c).len() ==> #[trigger] vstd::utf8::encode_scalar(c)[i] != 10,
{
    assert(vstd::utf8::has_width_1_encoding(c) ==> (c & 0x7F) as u8 != 10u8) by (bit_vector)
        requires c != 10u32;
    assert((0xC0u8 | ((c >> 6) & 0x1F) as u8) != 10u8) by (bit_vector);
    assert((0xE0u8 | ((c >> 12) & 0x0F) as u8) != 10u8) by (bit_vector);
    assert((0xF0u8 | ((c >> 18) & 0x7) as u8) != 10u8) by (bit_vector);
    assert((0x80u8 | (c & 0x3F) as u8) != 10u8) by (bit_vector);
    assert((0x80u8 | ((c >> 6) & 0x3F) as u8) != 10u8) by (bit_vector);
    assert((0x80u8 | ((c >> 12) & 0x3F) as u8) != 10u8) by (bit_vector);
}

/// The UTF-8 encoding of text without `\n` has no `\n` byte.
proof fn lemma_encode_no_newline(line: Seq<char>)
    requires
        !line.contains('\n'),
    ensures
        forall|i: int| 0 <= i < vstd::utf8::encode_utf8(line).len() ==> #[trigger] vstd::utf8::encode_utf8(line)[i] != 10,
    decreases line.len(),
{
    if line.len() > 0 {
        let c = line[0];
        vstd::utf8::char_is_scalar(c);
        assert(c != '\n');
        assert((c as u32) != 10) by {
            if (c as u32) == 10 {
                vstd::utf8::char_u32_cast(c, 10u32);
                vstd::utf8::char_u32_cast('\n', 10u32);
            }
        }
        lemma_scalar_no_newline(c as u32);
        let rest = line.drop_first();
        assert(!rest.contains('\n')) by {
            if rest.contains('\n') {
                let k = choose|k: int| 0 <= k < rest.len() && rest[k] == '\n';
                assert(line[k + 1] == '\n');
            }
        }
        lemma_encode_no_newline(rest);
        let e = vstd::utf8::encode_scalar(c as u32);
        assert forall|i: int| 0 <= i < vstd::utf8::encode_utf8(line).len() implies #[trigger] vstd::utf8::encode_utf8(line)[i] != 10 by {
            if i >= e.len() {
                assert(vstd::utf8::encode_utf8(line)[i] == vstd::utf8::encode_utf8(rest)[i - e.len()]);
            }
        }
    }
}

/// A line sent is the line received: the bytes `queue_line` adds for a
/// line without `\n` and not ending in `\r`, followed by any further
/// bytes, are split by `take_lines` into that very line, then the lines
/// of what follows.
pub proof fn law_line_roundtrip(line: Seq<char>, rest: Seq<u8>)
    requires
        !line.contains('\n'),
        line.len() == 0 || line.last() != '\r',
    ensures
        complete_lines(framed(line) + rest).len() == 1 + complete_lines(rest).len(),
        line_text(complete_lines(framed(line) + rest)[0]) == line,
        complete_lines(framed(line) + rest).drop_first() == complete_lines(rest),
        partial_line(framed(line) + rest) == partial_line(rest),
{
    broadcast use vstd::utf8::encode_utf8_valid_utf8, vstd::utf8::encode_utf8_decode_utf8;

    let e = vstd::utf8::encode_utf8(line);
    let b = framed(line) + rest;
    lemma_encode_no_newline(line);
    assert(framed(line) == e.push(10u8));
    let k = e.len() as int;
    assert(b[k] == 10);
    assert forall|i: int| 0 <= i < k implies b[i] != 10 by {
        assert(b[i] == e[i]);
    }
    lemma_newline_at(b, k);
    assert(b.take(k) =~= e);
    assert(b.skip(k + 1) =~= rest);
    assert(complete_lines(b) == seq![e] + complete_lines(rest));
    assert(complete_lines(b).drop_first() =~= complete_lines(rest));
    assert(lossy_text(e) == line);
    assert(trim_cr(line) == line);
}

} // verus!
