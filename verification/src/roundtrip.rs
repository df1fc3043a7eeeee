//! What holds between the byte form of a frame and the functions that read
//! it: a frame that was written is read back as it was, and as long as a
//! part of it is missing the reader asks for more.
//!
//! Both hold of the frames that are [`wire_safe`]. A simple string that has
//! CRLF inside is not: its line would end early.

use crate::decimal::decimal;
use crate::decimal::is_digit;
use crate::decimal::lemma_decimal_digits;
use crate::decimal::lemma_parse_decimal_of_decimal;
use crate::frame::check_at;
use crate::frame::check_seq_at;
use crate::frame::crlf;
use crate::frame::crlf_at;
use crate::frame::decimal_at;
use crate::frame::kind_text;
use crate::frame::lemma_kind_texts_differ;
use crate::frame::line_end;
use crate::frame::parse_at;
use crate::frame::parse_seq_at;
use crate::frame::serialize;
use crate::frame::serialize_first;
use crate::frame::frames_view;
use crate::frame::lemma_array_view;
use crate::frame::Frame;
use crate::frame::FrameErrorKind;
use crate::frame::FrameModel;
use crate::frame::Parsed;
use vstd::prelude::*;
use vstd::string::*;
use vstd::utf8::*;

verus! {

/// Whether `s` holds no CRLF.
pub open spec fn no_crlf(s: Seq<u8>) -> bool {
    forall|i: int| !crlf_at(s, i)
}

/// Whether `frame` can go over the wire and come back: no simple string in
/// it holds CRLF, and every length and count fits in 64 bits.
pub open spec fn wire_safe(frame: FrameModel) -> bool
    decreases frame, 0nat,
{
    match frame {
        FrameModel::Error(_) => true,
        FrameModel::Simple(s) => no_crlf(encode_utf8(s)),
        FrameModel::Integer(_) => true,
        FrameModel::Bulk(b) => b.len() <= u64::MAX,
        FrameModel::Array(frames) => frames.len() <= u64::MAX && wire_safe_first(
            frames,
            frames.len(),
        ),
    }
}

/// Whether the first `n` frames of `frames` are wire-safe.
pub open spec fn wire_safe_first(frames: Seq<FrameModel>, n: nat) -> bool
    decreases frames, n,
{
    if n == 0 || n > frames.len() {
        true
    } else {
        wire_safe_first(frames, (n - 1) as nat) && wire_safe(frames[n - 1])
    }
}

/// Whether `s` stands in `buf` at `pos`, whole.
pub open spec fn holds_at(buf: Seq<u8>, pos: int, s: Seq<u8>) -> bool {
    0 <= pos && pos + s.len() <= buf.len() && buf.subrange(pos, pos + s.len()) == s
}

/// Whether `buf` ends inside `s`, which starts at `pos`: what `buf` holds
/// from `pos` on is a beginning of `s`, and not all of it.
pub open spec fn cut_at(buf: Seq<u8>, pos: int, s: Seq<u8>) -> bool {
    0 <= pos <= buf.len() && buf.len() - pos < s.len() && buf.subrange(pos, buf.len() as int)
        == s.subrange(0, buf.len() - pos)
}

proof fn lemma_holds_split(buf: Seq<u8>, pos: int, a: Seq<u8>, b: Seq<u8>)
    requires
        holds_at(buf, pos, a + b),
    ensures
        holds_at(buf, pos, a),
        holds_at(buf, pos + a.len(), b),
{
    let s = a + b;
    let whole = buf.subrange(pos, pos + s.len());
    assert(buf.subrange(pos, pos + a.len()) =~= whole.subrange(0, a.len() as int));
    assert(whole.subrange(0, a.len() as int) =~= a);
    assert(buf.subrange(pos + a.len(), pos + a.len() + b.len()) =~= whole.subrange(
        a.len() as int,
        s.len() as int,
    ));
    assert(whole.subrange(a.len() as int, s.len() as int) =~= b);
}

proof fn lemma_holds_bytes(buf: Seq<u8>, pos: int, s: Seq<u8>)
    requires
        holds_at(buf, pos, s),
    ensures
        forall|j: int| 0 <= j < s.len() ==> buf[pos + j] == #[trigger] s[j],
{
    let part = buf.subrange(pos, pos + s.len());
    assert forall|j: int| 0 <= j < s.len() implies buf[pos + j] == #[trigger] s[j] by {
        assert(part[j] == buf[pos + j]);
    }
}

/// Where `buf` ends inside `a + b`, it ends inside `a`, or it holds `a`
/// whole and ends inside `b`.
proof fn lemma_cut_split(buf: Seq<u8>, pos: int, a: Seq<u8>, b: Seq<u8>)
    requires
        cut_at(buf, pos, a + b),
    ensures
        buf.len() - pos < a.len() ==> cut_at(buf, pos, a),
        buf.len() - pos >= a.len() ==> holds_at(buf, pos, a) && cut_at(buf, pos + a.len(), b),
{
    let s = a + b;
    let have = buf.len() - pos;
    let part = buf.subrange(pos, buf.len() as int);
    assert(part == s.subrange(0, have));
    if have < a.len() {
        assert(s.subrange(0, have) =~= a.subrange(0, have));
    } else {
        assert(buf.subrange(pos, pos + a.len()) =~= part.subrange(0, a.len() as int));
        assert(s.subrange(0, have).subrange(0, a.len() as int) =~= a);
        assert(buf.subrange(pos + a.len(), buf.len() as int) =~= part.subrange(
            a.len() as int,
            have,
        ));
        assert(s.subrange(0, have).subrange(a.len() as int, have) =~= b.subrange(
            0,
            have - a.len(),
        ));
    }
}

proof fn lemma_cut_bytes(buf: Seq<u8>, pos: int, s: Seq<u8>)
    requires
        cut_at(buf, pos, s),
    ensures
        forall|j: int| 0 <= j < buf.len() - pos ==> buf[pos + j] == #[trigger] s[j],
{
    let part = buf.subrange(pos, buf.len() as int);
    assert forall|j: int| 0 <= j < buf.len() - pos implies buf[pos + j] == #[trigger] s[j] by {
        assert(part[j] == buf[pos + j]);
        assert(s.subrange(0, buf.len() - pos)[j] == s[j]);
    }
}

/// The first CRLF at or after `from` is where `line_end` finds it.
proof fn lemma_line_end_is(buf: Seq<u8>, from: int, end: int)
    requires
        0 <= from <= end,
        crlf_at(buf, end),
        forall|i: int| from <= i < end ==> !crlf_at(buf, i),
    ensures
        line_end(buf, from) == Some(end),
    decreases end - from,
{
    if from < end {
        assert(!crlf_at(buf, from));
        lemma_line_end_is(buf, from + 1, end);
    }
}

/// Without a CRLF at or after `from` there is no line end.
proof fn lemma_line_end_none(buf: Seq<u8>, from: int)
    requires
        0 <= from,
        forall|i: int| from <= i ==> !crlf_at(buf, i),
    ensures
        line_end(buf, from) is None,
    decreases buf.len() - from,
{
    if from + 1 < buf.len() {
        assert(!crlf_at(buf, from));
        lemma_line_end_none(buf, from + 1);
    }
}

/// A line without CRLF inside, written with its CRLF, ends where it was
/// meant to end.
proof fn lemma_line_whole(buf: Seq<u8>, pos: int, content: Seq<u8>)
    requires
        no_crlf(content),
        holds_at(buf, pos, content + crlf()),
    ensures
        line_end(buf, pos) == Some(pos + content.len()),
        buf.subrange(pos, pos + content.len()) == content,
{
    let s = content + crlf();
    lemma_holds_bytes(buf, pos, s);
    lemma_holds_split(buf, pos, content, crlf());
    let end = pos + content.len();
    assert(s[content.len() as int] == 13u8);
    assert(s[content.len() as int + 1] == 10u8);
    assert(buf[end] == 13u8);
    assert(buf[end + 1] == 10u8);
    assert forall|i: int| pos <= i < end implies !crlf_at(buf, i) by {
        assert(buf[i] == s[i - pos]);
        assert(buf[i + 1] == s[i + 1 - pos]);
        if i + 1 < end {
            assert(!crlf_at(content, i - pos));
            assert(s[i - pos] == content[i - pos]);
            assert(s[i + 1 - pos] == content[i + 1 - pos]);
        }
    }
    lemma_line_end_is(buf, pos, end);
}

/// A line without CRLF inside, of which the end is missing, has no end.
proof fn lemma_line_cut(buf: Seq<u8>, pos: int, content: Seq<u8>)
    requires
        no_crlf(content),
        cut_at(buf, pos, content + crlf()),
    ensures
        line_end(buf, pos) is None,
{
    let s = content + crlf();
    lemma_cut_bytes(buf, pos, s);
    assert forall|i: int| pos <= i implies !crlf_at(buf, i) by {
        if i + 1 < buf.len() {
            assert(buf[i] == s[i - pos]);
            assert(buf[i + 1] == s[i + 1 - pos]);
            if i + 1 - pos < content.len() {
                assert(!crlf_at(content, i - pos));
                assert(s[i - pos] == content[i - pos]);
                assert(s[i + 1 - pos] == content[i + 1 - pos]);
            } else {
                assert(s[i + 1 - pos] == 13u8);
            }
        }
    }
    lemma_line_end_none(buf, pos);
}

/// Decimal digits hold no CRLF.
proof fn lemma_decimal_no_crlf(n: nat)
    ensures
        no_crlf(decimal(n)),
{
    lemma_decimal_digits(n);
    assert forall|i: int| !crlf_at(decimal(n), i) by {
        if 0 <= i && i + 1 < decimal(n).len() {
            assert(is_digit(decimal(n)[i]));
        }
    }
}

/// The names of the error kinds hold no CRLF.
proof fn lemma_kind_no_crlf(kind: FrameErrorKind)
    ensures
        no_crlf(encode_utf8(kind_text(kind))),
{
    reveal_strlit("not found");
    reveal_strlit("internal error");
    let text = kind_text(kind);
    assert(is_ascii_chars(text)) by {
        assert forall|i: int| 0 <= i < text.len() implies 0 <= #[trigger] text[i] as nat <= 127 by {}
    }
    is_ascii_chars_encode_utf8(text);
    let bytes = encode_utf8(text);
    assert forall|i: int| !crlf_at(bytes, i) by {
        if 0 <= i && i + 1 < bytes.len() {
            assert(bytes[i] == text[i] as u8);
            assert(text[i] != '\r');
        }
    }
}


proof fn lemma_holds_prefix(buf: Seq<u8>, pos: int, a: Seq<u8>, s: Seq<u8>)
    requires
        holds_at(buf, pos, s),
        a.is_prefix_of(s),
    ensures
        holds_at(buf, pos, a),
{
    assert(s =~= a + s.subrange(a.len() as int, s.len() as int));
    lemma_holds_split(buf, pos, a, s.subrange(a.len() as int, s.len() as int));
}

proof fn lemma_cut_prefix(buf: Seq<u8>, pos: int, a: Seq<u8>, s: Seq<u8>)
    requires
        cut_at(buf, pos, s),
        a.is_prefix_of(s),
    ensures
        buf.len() - pos < a.len() ==> cut_at(buf, pos, a),
        buf.len() - pos >= a.len() ==> holds_at(buf, pos, a),
{
    assert(s =~= a + s.subrange(a.len() as int, s.len() as int));
    lemma_cut_split(buf, pos, a, s.subrange(a.len() as int, s.len() as int));
}

/// The bytes of fewer frames are a beginning of the bytes of more.
proof fn lemma_serialize_first_prefix(frames: Seq<FrameModel>, j: nat, n: nat)
    requires
        j <= n <= frames.len(),
    ensures
        serialize_first(frames, j).is_prefix_of(serialize_first(frames, n)),
    decreases n - j,
{
    if j < n {
        lemma_serialize_first_prefix(frames, j, (n - 1) as nat);
        let a = serialize_first(frames, j);
        let b = serialize_first(frames, (n - 1) as nat);
        let c = serialize_first(frames, n);
        assert(c == b + serialize(frames[n - 1]));
        assert(a =~= c.subrange(0, a.len() as int)) by {
            assert(a =~= b.subrange(0, a.len() as int));
        }
    } else {
        let a = serialize_first(frames, j);
        assert(a =~= a.subrange(0, a.len() as int));
    }
}

proof fn lemma_wire_safe_each(frames: Seq<FrameModel>, n: nat, k: int)
    requires
        n <= frames.len(),
        wire_safe_first(frames, n),
        0 <= k < n,
    ensures
        wire_safe(frames[k]),
    decreases n,
{
    if k < n - 1 {
        lemma_wire_safe_each(frames, (n - 1) as nat, k);
    }
}

/// A decimal line that was written whole reads as its number.
proof fn lemma_decimal_whole(buf: Seq<u8>, pos: int, n: u64)
    requires
        holds_at(buf, pos, decimal(n as nat) + crlf()),
    ensures
        decimal_at(buf, pos) == Parsed::Done(n, pos + decimal(n as nat).len() + 2),
{
    lemma_decimal_no_crlf(n as nat);
    lemma_line_whole(buf, pos, decimal(n as nat));
    lemma_decimal_digits(n as nat);
    lemma_parse_decimal_of_decimal(n);
}

/// A decimal line of which the end is missing reads as incomplete.
proof fn lemma_decimal_cut(buf: Seq<u8>, pos: int, n: nat)
    requires
        cut_at(buf, pos, decimal(n) + crlf()),
    ensures
        decimal_at(buf, pos) == Parsed::<u64>::Incomplete,
{
    lemma_decimal_no_crlf(n);
    lemma_line_cut(buf, pos, decimal(n));
}

/// Where a frame parses, its framing is sound and ends at the same place.
pub proof fn lemma_parse_implies_check(buf: Seq<u8>, pos: int)
    ensures
        parse_at(buf, pos) matches Parsed::Done(_, end) ==> check_at(buf, pos) == Parsed::Done(
            (),
            end,
        ),
        parse_at(buf, pos) is Incomplete ==> check_at(buf, pos) is Incomplete,
        check_at(buf, pos) is Malformed ==> parse_at(buf, pos) is Malformed,
    decreases buf.len() - pos, 0nat,
{
    if 0 <= pos < buf.len() && buf[pos] == 42 {
        if let Parsed::Done(count, next) = decimal_at(buf, pos + 1) {
            if pos < next <= buf.len() {
                lemma_parse_seq_implies_check(buf, next, count as nat, Seq::<FrameModel>::empty());
            }
        }
    }
}

/// Where a row of frames parses, its framing is sound and ends at the same
/// place.
pub proof fn lemma_parse_seq_implies_check(
    buf: Seq<u8>,
    pos: int,
    count: nat,
    front: Seq<FrameModel>,
)
    ensures
        parse_seq_at(buf, pos, count, front) matches Parsed::Done(_, end) ==> check_seq_at(
            buf,
            pos,
            count,
        ) == Parsed::Done((), end),
        parse_seq_at(buf, pos, count, front) is Incomplete ==> check_seq_at(buf, pos, count)
            is Incomplete,
        check_seq_at(buf, pos, count) is Malformed ==> parse_seq_at(buf, pos, count, front)
            is Malformed,
    decreases buf.len() - pos, 1 + count,
{
    if count > 0 {
        lemma_parse_implies_check(buf, pos);
        if let Parsed::Done(frame, next) = parse_at(buf, pos) {
            if pos < next <= buf.len() {
                lemma_parse_seq_implies_check(buf, next, (count - 1) as nat, front.push(frame));
            }
        }
    }
}

/// A wire-safe frame whose bytes stand whole at `pos` is read back as it
/// was, and the reading ends where the bytes end.
pub proof fn lemma_parse_whole(frame: FrameModel, buf: Seq<u8>, pos: int)
    requires
        wire_safe(frame),
        holds_at(buf, pos, serialize(frame)),
    ensures
        parse_at(buf, pos) == Parsed::Done(frame, pos + serialize(frame).len()),
    decreases frame, 0nat,
{
    let s = serialize(frame);
    lemma_holds_bytes(buf, pos, s);
    match frame {
        FrameModel::Error(kind) => {
            let body = encode_utf8(kind_text(kind));
            assert(s =~= seq![45u8] + (body + crlf()));
            assert(s[0] == 45u8);
            lemma_holds_split(buf, pos, seq![45u8], body + crlf());
            lemma_kind_no_crlf(kind);
            lemma_line_whole(buf, pos + 1, body);
            lemma_kind_texts_differ();
        },
        FrameModel::Simple(text) => {
            let body = encode_utf8(text);
            assert(s =~= seq![43u8] + (body + crlf()));
            assert(s[0] == 43u8);
            lemma_holds_split(buf, pos, seq![43u8], body + crlf());
            lemma_line_whole(buf, pos + 1, body);
            encode_utf8_valid_utf8(text);
            encode_utf8_decode_utf8(text);
        },
        FrameModel::Integer(n) => {
            let digits = decimal(n as nat);
            assert(s =~= seq![58u8] + (digits + crlf()));
            assert(s[0] == 58u8);
            lemma_holds_split(buf, pos, seq![58u8], digits + crlf());
            lemma_decimal_whole(buf, pos + 1, n);
        },
        FrameModel::Bulk(b) => {
            let digits = decimal(b.len());
            assert(s =~= seq![36u8] + ((digits + crlf()) + (b + crlf())));
            assert(s[0] == 36u8);
            lemma_holds_split(buf, pos, seq![36u8], (digits + crlf()) + (b + crlf()));
            lemma_holds_split(buf, pos + 1, digits + crlf(), b + crlf());
            lemma_decimal_whole(buf, pos + 1, b.len() as u64);
            let next = pos + 1 + digits.len() + 2;
            lemma_holds_split(buf, next, b, crlf());
            lemma_holds_bytes(buf, next + b.len(), crlf());
            assert(crlf()[0] == 13u8 && crlf()[1] == 10u8);
            assert(buf[next + b.len() + 0] == 13u8);
            assert(buf[next + b.len() + 1] == 10u8);
        },
        FrameModel::Array(frames) => {
            let digits = decimal(frames.len());
            let body = serialize_first(frames, frames.len());
            assert(s =~= seq![42u8] + ((digits + crlf()) + body));
            assert(s[0] == 42u8);
            lemma_holds_split(buf, pos, seq![42u8], (digits + crlf()) + body);
            lemma_holds_split(buf, pos + 1, digits + crlf(), body);
            lemma_decimal_whole(buf, pos + 1, frames.len() as u64);
            let next = pos + 1 + digits.len() + 2;
            assert(serialize_first(frames, 0).len() == 0);
            assert(frames.subrange(0, 0) =~= Seq::<FrameModel>::empty());
            lemma_parse_seq_whole(frames, 0, buf, next);
        },
    }
}

/// Wire-safe frames whose bytes stand whole in a row at `base` are read
/// back as they were. The first `k` of them have been read already.
pub proof fn lemma_parse_seq_whole(frames: Seq<FrameModel>, k: nat, buf: Seq<u8>, base: int)
    requires
        k <= frames.len(),
        wire_safe_first(frames, frames.len()),
        holds_at(buf, base, serialize_first(frames, frames.len())),
    ensures
        parse_seq_at(
            buf,
            base + serialize_first(frames, k).len(),
            (frames.len() - k) as nat,
            frames.subrange(0, k as int),
        ) == Parsed::Done(frames, base + serialize_first(frames, frames.len()).len()),
    decreases frames, frames.len() - k,
{
    let n = frames.len();
    if k == n {
        assert(frames.subrange(0, k as int) =~= frames);
    } else {
        let here = base + serialize_first(frames, k).len();
        let item = serialize(frames[k as int]);
        lemma_serialize_first_prefix(frames, k + 1, n);
        lemma_holds_prefix(
            buf,
            base,
            serialize_first(frames, k + 1),
            serialize_first(frames, n),
        );
        assert(serialize_first(frames, k + 1) == serialize_first(frames, k) + item);
        lemma_holds_split(buf, base, serialize_first(frames, k), item);
        lemma_wire_safe_each(frames, n, k as int);
        lemma_parse_whole(frames[k as int], buf, here);
        crate::frame::lemma_parse_at_bounds(buf, here);
        assert(frames.subrange(0, k as int).push(frames[k as int]) =~= frames.subrange(
            0,
            k as int + 1,
        ));
        lemma_parse_seq_whole(frames, k + 1, buf, base);
    }
}

/// A wire-safe frame of which the end is missing reads as incomplete.
pub proof fn lemma_check_cut(frame: FrameModel, buf: Seq<u8>, pos: int)
    requires
        wire_safe(frame),
        cut_at(buf, pos, serialize(frame)),
    ensures
        check_at(buf, pos) == Parsed::<()>::Incomplete,
    decreases frame, 0nat,
{
    let s = serialize(frame);
    lemma_cut_bytes(buf, pos, s);
    if pos < buf.len() {
        match frame {
            FrameModel::Error(kind) => {
                let body = encode_utf8(kind_text(kind));
                assert(s =~= seq![45u8] + (body + crlf()));
                assert(s[0] == 45u8);
                lemma_cut_split(buf, pos, seq![45u8], body + crlf());
                lemma_kind_no_crlf(kind);
                lemma_line_cut(buf, pos + 1, body);
            },
            FrameModel::Simple(text) => {
                let body = encode_utf8(text);
                assert(s =~= seq![43u8] + (body + crlf()));
                assert(s[0] == 43u8);
                lemma_cut_split(buf, pos, seq![43u8], body + crlf());
                lemma_line_cut(buf, pos + 1, body);
            },
            FrameModel::Integer(n) => {
                let digits = decimal(n as nat);
                assert(s =~= seq![58u8] + (digits + crlf()));
                assert(s[0] == 58u8);
                lemma_cut_split(buf, pos, seq![58u8], digits + crlf());
                lemma_decimal_cut(buf, pos + 1, n as nat);
            },
            FrameModel::Bulk(b) => {
                let digits = decimal(b.len());
                let head = digits + crlf();
                assert(s =~= seq![36u8] + (head + (b + crlf())));
                assert(s[0] == 36u8);
                lemma_cut_split(buf, pos, seq![36u8], head + (b + crlf()));
                lemma_cut_split(buf, pos + 1, head, b + crlf());
                if buf.len() - (pos + 1) < head.len() {
                    lemma_decimal_cut(buf, pos + 1, b.len());
                } else {
                    lemma_decimal_whole(buf, pos + 1, b.len() as u64);
                }
            },
            FrameModel::Array(frames) => {
                let digits = decimal(frames.len());
                let head = digits + crlf();
                let body = serialize_first(frames, frames.len());
                assert(s =~= seq![42u8] + (head + body));
                assert(s[0] == 42u8);
                lemma_cut_split(buf, pos, seq![42u8], head + body);
                lemma_cut_split(buf, pos + 1, head, body);
                if buf.len() - (pos + 1) < head.len() {
                    lemma_decimal_cut(buf, pos + 1, frames.len());
                } else {
                    lemma_decimal_whole(buf, pos + 1, frames.len() as u64);
                    let next = pos + 1 + head.len();
                    assert(serialize_first(frames, 0) =~= Seq::<u8>::empty());
                    assert(holds_at(buf, next, serialize_first(frames, 0))) by {
                        assert(buf.subrange(next, next) =~= Seq::<u8>::empty());
                    }
                    lemma_check_seq_cut(frames, 0, buf, next);
                }
            },
        }
    }
}

/// Wire-safe frames in a row, of which the end is missing, read as
/// incomplete. The first `k` of them stand whole.
pub proof fn lemma_check_seq_cut(frames: Seq<FrameModel>, k: nat, buf: Seq<u8>, base: int)
    requires
        k <= frames.len(),
        wire_safe_first(frames, frames.len()),
        cut_at(buf, base, serialize_first(frames, frames.len())),
        holds_at(buf, base, serialize_first(frames, k)),
    ensures
        check_seq_at(buf, base + serialize_first(frames, k).len(), (frames.len() - k) as nat)
            == Parsed::<()>::Incomplete,
    decreases frames, frames.len() - k,
{
    let n = frames.len();
    let here = base + serialize_first(frames, k).len();
    let item = serialize(frames[k as int]);
    assert(k < n);
    lemma_serialize_first_prefix(frames, k + 1, n);
    lemma_cut_prefix(buf, base, serialize_first(frames, k + 1), serialize_first(frames, n));
    assert(serialize_first(frames, k + 1) == serialize_first(frames, k) + item);
    lemma_wire_safe_each(frames, n, k as int);
    if buf.len() - base < serialize_first(frames, k + 1).len() {
        lemma_cut_split(buf, base, serialize_first(frames, k), item);
        lemma_check_cut(frames[k as int], buf, here);
    } else {
        lemma_holds_split(buf, base, serialize_first(frames, k), item);
        lemma_parse_whole(frames[k as int], buf, here);
        lemma_parse_implies_check(buf, here);
        crate::frame::lemma_check_at_bounds(buf, here);
        lemma_check_seq_cut(frames, k + 1, buf, base);
    }
}

/// Reading what was written gives back the frame: `parse` of `serialize`
/// is the identity on wire-safe frames, and it reads all the bytes.
pub proof fn law_parse_serialize(frame: FrameModel)
    requires
        wire_safe(frame),
    ensures
        parse_at(serialize(frame), 0) == Parsed::Done(frame, serialize(frame).len() as int),
        check_at(serialize(frame), 0) == Parsed::Done((), serialize(frame).len() as int),
{
    let s = serialize(frame);
    assert(s.subrange(0, s.len() as int) =~= s);
    lemma_parse_whole(frame, s, 0);
    lemma_parse_implies_check(s, 0);
}

/// A frame is read back whatever follows it: from the bytes of a wire-safe
/// frame and any bytes behind them, the frame is read, and the reading
/// ends where the bytes of the frame end.
pub proof fn law_parse_serialize_then_more(frame: FrameModel, more: Seq<u8>)
    requires
        wire_safe(frame),
    ensures
        parse_at(serialize(frame) + more, 0) == Parsed::Done(
            frame,
            serialize(frame).len() as int,
        ),
        check_at(serialize(frame) + more, 0) == Parsed::Done((), serialize(frame).len() as int),
{
    let s = serialize(frame);
    let buf = s + more;
    assert(buf.subrange(0, s.len() as int) =~= s);
    lemma_parse_whole(frame, buf, 0);
    lemma_parse_implies_check(buf, 0);
}

/// As long as bytes are missing at the end, the reader reports that the
/// frame is incomplete, and never that it is malformed: this holds of every
/// beginning of `serialize(frame)` that is not all of it.
pub proof fn law_truncated_is_incomplete(frame: FrameModel, n: int)
    requires
        wire_safe(frame),
        0 <= n < serialize(frame).len(),
    ensures
        check_at(serialize(frame).subrange(0, n), 0) == Parsed::<()>::Incomplete,
{
    let s = serialize(frame);
    let buf = s.subrange(0, n);
    assert(buf.subrange(0, buf.len() as int) =~= s.subrange(0, buf.len() - 0));
    lemma_check_cut(frame, buf, 0);
}


/// The first `n` frames are wire-safe where each of them is.
proof fn lemma_wire_safe_first(frames: Seq<FrameModel>, n: nat)
    requires
        n <= frames.len(),
    ensures
        wire_safe_first(frames, n) == (forall|i: int| 0 <= i < n ==> wire_safe(#[trigger] frames[i])),
    decreases n,
{
    if n > 0 {
        lemma_wire_safe_first(frames, (n - 1) as nat);
    }
}

/// Whether `bytes` hold no CRLF.
fn holds_no_crlf(bytes: &[u8]) -> (r: bool)
    ensures
        r == no_crlf(bytes@),
{
    let mut i: usize = 0;
    while i < bytes.len() && i + 1 < bytes.len()
        invariant
            forall|j: int| 0 <= j < i ==> !crlf_at(bytes@, j),
        decreases bytes@.len() - i,
    {
        if bytes[i] == 13 && bytes[i + 1] == 10 {
            assert(crlf_at(bytes@, i as int));
            return false;
        }
        i = i + 1;
    }
    true
}

impl Frame {
    /// Whether the frame can go over the wire and come back.
    pub fn is_wire_safe(&self) -> (r: bool)
        ensures
            r == wire_safe(self@),
        decreases self,
    {
        match self {
            Frame::Simple(s) => holds_no_crlf(s.as_str().as_bytes()),
            Frame::Bulk(b) => {
                let len: usize = b.len();
                true
            },
            Frame::Array(items) => {
                let mut i: usize = 0;
                while i < items.len()
                    invariant
                        0 <= i <= items@.len(),
                        *self == Frame::Array(*items),
                        forall|j: int| 0 <= j < i ==> wire_safe(#[trigger] frames_view(items@)[j]),
                    decreases items@.len() - i,
                {
                    proof {
                        assert(self->Array_0 == *items);
                        assert(decreases_to!(*self => self->Array_0));
                        assert(decreases_to!(self->Array_0 => self->Array_0@));
                        assert(decreases_to!(self->Array_0@ => self->Array_0@[i as int]));
                    }
                    if !items[i].is_wire_safe() {
                        proof {
                            lemma_array_view(*items);
                            lemma_wire_safe_first(frames_view(items@), items@.len());
                            assert(!wire_safe(frames_view(items@)[i as int]));
                        }
                        return false;
                    }
                    i = i + 1;
                }
                proof {
                    lemma_array_view(*items);
                    lemma_wire_safe_first(frames_view(items@), items@.len());
                }
                true
            },
            _ => true,
        }
    }
}

} // verus!
