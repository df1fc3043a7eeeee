//! Frames: the self-describing units of the wire protocol.
//!
//! A frame starts with one descriptor byte:
//!
//! * `+` a simple string: its UTF-8 bytes, then CRLF;
//! * `-` an error: the name of its kind, then CRLF;
//! * `:` an integer: ASCII decimal digits and nothing else, then CRLF;
//! * `$` a bulk: its length in ASCII decimal, CRLF, that many bytes, CRLF
//!   (anything else behind the bytes is malformed);
//! * `*` an array: its count in ASCII decimal, CRLF, then that many frames.
//!
//! [`serialize`] is the byte form of a frame and [`parse_at`] reads one back;
//! [`check_at`] only finds where a frame ends. `Frame::check` and
//! `Frame::parse` compute the latter two on a [`Cursor`].

use crate::buffer::bytes_contents;
use crate::decimal::atoi_u64;
use crate::decimal::decimal;
use crate::decimal::digits_only;
use crate::decimal::is_digits_only;
use crate::decimal::parse_decimal;
use crate::decimal::write_decimal;
use crate::text::bytes_equal;
use crate::text::string_from_bytes;
use bytes::Bytes;
use std::ops::Deref;
use vstd::prelude::*;
use vstd::string::*;
use vstd::utf8::*;

verus! {

/// The kinds of error that a server reports to a client.
#[derive(Debug, Clone, Copy, PartialEq, Eq, Structural)]
pub enum FrameErrorKind {
    NotFound,
    InternalError,
}

/// One frame of the protocol.
#[derive(Debug)]
pub enum Frame {
    Error(FrameErrorKind),
    Simple(String),
    Integer(u64),
    Bulk(Bytes),
    Array(Vec<Frame>),
}

/// What a frame is, apart from how its parts are stored.
pub enum FrameModel {
    Error(FrameErrorKind),
    Simple(Seq<char>),
    Integer(u64),
    Bulk(Seq<u8>),
    Array(Seq<FrameModel>),
}

/// Why no frame could be read.
#[derive(Debug)]
pub enum Error {
    /// The bytes at hand end before the frame does.
    Incomplete,
    /// The bytes are no frame, whatever follows them; the text says so.
    Other(String),
}

/// The text that every protocol error of this module carries.
pub open spec fn protocol_error_text() -> Seq<char> {
    "protocol error; invalid frame format"@
}

/// The text that goes with an incomplete frame.
pub open spec fn incomplete_text() -> Seq<char> {
    "stream ended early"@
}

impl Error {
    /// The error in words.
    pub fn to_string(&self) -> (text: String)
        ensures
            text@ == match self {
                Error::Incomplete => incomplete_text(),
                Error::Other(words) => words@,
            },
    {
        match self {
            Error::Incomplete => String::from_str("stream ended early"),
            Error::Other(words) => words.clone(),
        }
    }
}

/// The outcome of reading at a position of a buffer: a value and the
/// position after it, or one of the two failures.
pub enum Parsed<T> {
    Done(T, int),
    Incomplete,
    Malformed,
}

/// What `frame` is, apart from how its parts are stored.
pub open spec fn model_of(frame: Frame) -> FrameModel
    decreases frame, 0nat,
{
    match frame {
        Frame::Error(kind) => FrameModel::Error(kind),
        Frame::Simple(s) => FrameModel::Simple(s@),
        Frame::Integer(n) => FrameModel::Integer(n),
        Frame::Bulk(b) => FrameModel::Bulk(bytes_contents(b)),
        Frame::Array(v) => FrameModel::Array(models_of(v@, v@.len())),
    }
}

/// The models of the first `n` frames of `frames`, in order.
pub open spec fn models_of(frames: Seq<Frame>, n: nat) -> Seq<FrameModel>
    decreases frames, n,
{
    if n == 0 || n > frames.len() {
        Seq::<FrameModel>::empty()
    } else {
        models_of(frames, (n - 1) as nat).push(model_of(frames[n - 1]))
    }
}

impl View for Frame {
    type V = FrameModel;

    open spec fn view(&self) -> FrameModel {
        model_of(*self)
    }
}

impl Clone for Frame {
    /// A frame with the same view.
    fn clone(&self) -> (res: Self)
        ensures
            res@ == self@,
        decreases self,
    {
        match self {
            Frame::Error(kind) => Frame::Error(*kind),
            Frame::Simple(s) => Frame::Simple(s.clone()),
            Frame::Integer(n) => Frame::Integer(*n),
            Frame::Bulk(b) => Frame::Bulk(b.clone()),
            Frame::Array(v) => {
                let mut out: Vec<Frame> = Vec::new();
                let mut i: usize = 0;
                while i < v.len()
                    invariant
                        0 <= i <= v@.len(),
                        *self == Frame::Array(*v),
                        out@.len() == i,
                        forall|j: int| 0 <= j < i ==> out@[j]@ == v@[j]@,
                    decreases v@.len() - i,
                {
                    proof {
                        assert(self->Array_0 == *v);
                        assert(decreases_to!(*self => self->Array_0));
                        assert(decreases_to!(self->Array_0 => self->Array_0@));
                        assert(decreases_to!(self->Array_0@ => self->Array_0@[i as int]));
                    }
                    let item = v[i].clone();
                    out.push(item);
                    i = i + 1;
                }
                proof {
                    lemma_array_view(out);
                    lemma_array_view(*v);
                    assert(frames_view(out@) =~= frames_view(v@));
                }
                Frame::Array(out)
            },
        }
    }
}

/// The views of the frames of a sequence, in order.
pub open spec fn frames_view(frames: Seq<Frame>) -> Seq<FrameModel> {
    Seq::new(frames.len(), |i: int| frames[i]@)
}

/// A read position in a slice of bytes.
pub struct Cursor<'a> {
    data: &'a [u8],
    pos: usize,
}

impl<'a> Cursor<'a> {
    /// The bytes under the cursor, all of them.
    pub closed spec fn bytes(&self) -> Seq<u8> {
        self.data@
    }

    /// The read position. It may lie behind the end.
    pub closed spec fn pos(&self) -> int {
        self.pos as int
    }

    /// A cursor at the start of `data`.
    pub fn new(data: &'a [u8]) -> (c: Self)
        ensures
            c.bytes() == data@,
            c.pos() == 0,
    {
        Cursor { data, pos: 0 }
    }

    /// The read position.
    pub fn position(&self) -> (p: usize)
        ensures
            p == self.pos(),
    {
        self.pos
    }

    /// Moves the read position.
    pub fn set_position(&mut self, pos: usize)
        ensures
            final(self).bytes() == old(self).bytes(),
            final(self).pos() == pos,
    {
        self.pos = pos;
    }

    /// The bytes under the cursor, all of them.
    pub fn get_ref(&self) -> (data: &'a [u8])
        ensures
            data@ == self.bytes(),
    {
        self.data
    }

    /// The number of bytes at and after the read position.
    pub fn remaining(&self) -> (n: usize)
        ensures
            n == if self.pos() <= self.bytes().len() {
                self.bytes().len() - self.pos()
            } else {
                0
            },
    {
        if self.pos <= self.data.len() {
            self.data.len() - self.pos
        } else {
            0
        }
    }

    /// Whether a byte stands at the read position.
    pub fn has_remaining(&self) -> (b: bool)
        ensures
            b == (self.pos() < self.bytes().len()),
    {
        self.pos < self.data.len()
    }
}

/// Whether CRLF stands at index `i` of `buf`.
pub open spec fn crlf_at(buf: Seq<u8>, i: int) -> bool {
    0 <= i && i + 1 < buf.len() && buf[i] == 13 && buf[i + 1] == 10
}

/// The index of the first CRLF at or after `from`, where there is one.
pub open spec fn line_end(buf: Seq<u8>, from: int) -> Option<int>
    decreases buf.len() - from,
{
    if from < 0 || from + 1 >= buf.len() {
        None
    } else if buf[from] == 13 && buf[from + 1] == 10 {
        Some(from)
    } else {
        line_end(buf, from + 1)
    }
}

/// Where `line_end` finds a CRLF, it is the first one at or after `from`.
pub proof fn lemma_line_end(buf: Seq<u8>, from: int)
    requires
        0 <= from,
    ensures
        match line_end(buf, from) {
            Some(end) => from <= end && crlf_at(buf, end) && forall|i: int|
                from <= i < end ==> !crlf_at(buf, i),
            None => forall|i: int| from <= i ==> !crlf_at(buf, i),
        },
    decreases buf.len() - from,
{
    if from + 1 < buf.len() && !(buf[from] == 13 && buf[from + 1] == 10) {
        lemma_line_end(buf, from + 1);
    }
}

/// A protocol error.
fn protocol_error() -> (e: Error)
    ensures
        e matches Error::Other(text) && text@ == protocol_error_text(),
{
    Error::Other(String::from_str("protocol error; invalid frame format"))
}

/// Reads the line that starts at the cursor: the bytes before the next
/// CRLF. The cursor moves past that CRLF. Without a CRLF it stays.
pub fn get_line<'a>(src: &mut Cursor<'a>) -> (r: Result<&'a [u8], Error>)
    ensures
        final(src).bytes() == old(src).bytes(),
        match line_end(old(src).bytes(), old(src).pos()) {
            Some(end) => r matches Ok(line) && line@ == old(src).bytes().subrange(
                old(src).pos(),
                end,
            ) && final(src).pos() == end + 2,
            None => r matches Err(Error::Incomplete) && final(src).pos() == old(src).pos(),
        },
{
    let data: &'a [u8] = src.data;
    let start: usize = src.pos;
    let mut i: usize = start;
    while i < data.len() && i + 1 < data.len()
        invariant
            start <= i,
            data@ == src.bytes(),
            src.pos() == start,
            *src == *old(src),
            line_end(data@, start as int) == line_end(data@, i as int),
        decreases data@.len() - i,
    {
        if data[i] == 13 && data[i + 1] == 10 {
            src.pos = i + 2;
            return Ok(&data[start..i]);
        }
        i = i + 1;
    }
    Err(Error::Incomplete)
}

/// Reads the byte at the cursor and moves past it.
pub fn get_descriptor(src: &mut Cursor) -> (r: Result<u8, Error>)
    ensures
        final(src).bytes() == old(src).bytes(),
        old(src).pos() < old(src).bytes().len() ==> r == Ok::<u8, Error>(
            old(src).bytes()[old(src).pos()],
        ) && final(src).pos() == old(src).pos() + 1,
        old(src).pos() >= old(src).bytes().len() ==> (r matches Err(Error::Incomplete)
            && final(src).pos() == old(src).pos()),
{
    if !src.has_remaining() {
        return Err(Error::Incomplete);
    }
    let byte: u8 = src.data[src.pos];
    src.pos = src.pos + 1;
    Ok(byte)
}

/// Moves the cursor `n` bytes on, where that many are left.
pub fn skip(src: &mut Cursor, n: usize) -> (r: Result<(), Error>)
    ensures
        final(src).bytes() == old(src).bytes(),
        old(src).pos() + n <= old(src).bytes().len() ==> r is Ok && final(src).pos() == old(
            src,
        ).pos() + n,
        old(src).pos() + n > old(src).bytes().len() ==> (r matches Err(Error::Incomplete)
            && final(src).pos() == old(src).pos()),
{
    if src.pos > src.data.len() || src.data.len() - src.pos < n {
        return Err(Error::Incomplete);
    }
    src.pos = src.pos + n;
    Ok(())
}

/// What a line of decimal digits at `pos` gives: the number and the
/// position after the line's CRLF. A line that holds anything but digits,
/// or no digit, or a number that does not fit in 64 bits, is malformed.
pub open spec fn decimal_at(buf: Seq<u8>, pos: int) -> Parsed<u64> {
    match line_end(buf, pos) {
        None => Parsed::Incomplete,
        Some(end) => if digits_only(buf.subrange(pos, end)) {
            match parse_decimal(buf.subrange(pos, end)) {
                Some(n) => Parsed::Done(n, end + 2),
                None => Parsed::Malformed,
            }
        } else {
            Parsed::Malformed
        },
    }
}

/// Reads a line that is a decimal number.
pub fn get_decimal(src: &mut Cursor) -> (r: Result<u64, Error>)
    ensures
        final(src).bytes() == old(src).bytes(),
        match decimal_at(old(src).bytes(), old(src).pos()) {
            Parsed::Done(n, next) => r == Ok::<u64, Error>(n) && final(src).pos() == next,
            Parsed::Incomplete => r matches Err(Error::Incomplete) && final(src).pos() == old(
                src,
            ).pos(),
            Parsed::Malformed => r matches Err(Error::Other(text)) && text@
                == protocol_error_text(),
        },
{
    let line = get_line(src)?;
    if !is_digits_only(line) {
        return Err(protocol_error());
    }
    match atoi_u64(line) {
        Some(n) => Ok(n),
        None => Err(protocol_error()),
    }
}

/// The name by which an error kind goes on the wire.
pub open spec fn kind_text(kind: FrameErrorKind) -> Seq<char> {
    match kind {
        FrameErrorKind::NotFound => "not found"@,
        FrameErrorKind::InternalError => "internal error"@,
    }
}

/// The error kind that a line names, where it names one.
pub open spec fn kind_of_line(line: Seq<u8>) -> Option<FrameErrorKind> {
    if line == encode_utf8(kind_text(FrameErrorKind::NotFound)) {
        Some(FrameErrorKind::NotFound)
    } else if line == encode_utf8(kind_text(FrameErrorKind::InternalError)) {
        Some(FrameErrorKind::InternalError)
    } else {
        None
    }
}

/// CRLF.
pub open spec fn crlf() -> Seq<u8> {
    seq![13u8, 10u8]
}

/// The bytes of a frame on the wire.
pub open spec fn serialize(frame: FrameModel) -> Seq<u8>
    decreases frame, 0nat,
{
    match frame {
        FrameModel::Error(kind) => seq![45u8] + encode_utf8(kind_text(kind)) + crlf(),
        FrameModel::Simple(s) => seq![43u8] + encode_utf8(s) + crlf(),
        FrameModel::Integer(n) => seq![58u8] + decimal(n as nat) + crlf(),
        FrameModel::Bulk(b) => seq![36u8] + decimal(b.len()) + crlf() + b + crlf(),
        FrameModel::Array(frames) => seq![42u8] + decimal(frames.len()) + crlf() + serialize_first(
            frames,
            frames.len(),
        ),
    }
}

/// The bytes of the first `n` frames of `frames`, one after the other.
pub open spec fn serialize_first(frames: Seq<FrameModel>, n: nat) -> Seq<u8>
    decreases frames, n,
{
    if n == 0 || n > frames.len() {
        Seq::<u8>::empty()
    } else {
        serialize_first(frames, (n - 1) as nat) + serialize(frames[n - 1])
    }
}

/// Where the frame that starts at `pos` ends. This looks at the framing
/// only: descriptors, line ends, lengths and counts.
pub open spec fn check_at(buf: Seq<u8>, pos: int) -> Parsed<()>
    decreases buf.len() - pos, 0nat,
{
    if pos < 0 || pos >= buf.len() {
        Parsed::Incomplete
    } else if buf[pos] == 45 || buf[pos] == 43 {
        match line_end(buf, pos + 1) {
            Some(end) => Parsed::Done((), end + 2),
            None => Parsed::Incomplete,
        }
    } else if buf[pos] == 58 {
        match decimal_at(buf, pos + 1) {
            Parsed::Done(_, next) => Parsed::Done((), next),
            Parsed::Incomplete => Parsed::Incomplete,
            Parsed::Malformed => Parsed::Malformed,
        }
    } else if buf[pos] == 36 {
        match decimal_at(buf, pos + 1) {
            Parsed::Done(len, next) => if next + len + 2 > buf.len() {
                Parsed::Incomplete
            } else if buf[next + len] == 13 && buf[next + len + 1] == 10 {
                Parsed::Done((), next + len + 2)
            } else {
                Parsed::Malformed
            },
            Parsed::Incomplete => Parsed::Incomplete,
            Parsed::Malformed => Parsed::Malformed,
        }
    } else if buf[pos] == 42 {
        match decimal_at(buf, pos + 1) {
            Parsed::Done(count, next) => if pos < next <= buf.len() {
                check_seq_at(buf, next, count as nat)
            } else {
                Parsed::Malformed
            },
            Parsed::Incomplete => Parsed::Incomplete,
            Parsed::Malformed => Parsed::Malformed,
        }
    } else {
        Parsed::Malformed
    }
}

/// Where `count` frames in a row end, the first of which starts at `pos`.
/// (A frame always ends behind its start: the test on `next` only shows
/// that the search comes to an end.)
pub open spec fn check_seq_at(buf: Seq<u8>, pos: int, count: nat) -> Parsed<()>
    decreases buf.len() - pos, 1 + count,
{
    if count == 0 {
        Parsed::Done((), pos)
    } else {
        match check_at(buf, pos) {
            Parsed::Done(_, next) => if pos < next <= buf.len() {
                check_seq_at(buf, next, (count - 1) as nat)
            } else {
                Parsed::Malformed
            },
            Parsed::Incomplete => Parsed::Incomplete,
            Parsed::Malformed => Parsed::Malformed,
        }
    }
}

/// The frame that starts at `pos`, and where it ends.
pub open spec fn parse_at(buf: Seq<u8>, pos: int) -> Parsed<FrameModel>
    decreases buf.len() - pos, 0nat,
{
    if pos < 0 || pos >= buf.len() {
        Parsed::Incomplete
    } else if buf[pos] == 45 {
        match line_end(buf, pos + 1) {
            Some(end) => match kind_of_line(buf.subrange(pos + 1, end)) {
                Some(kind) => Parsed::Done(FrameModel::Error(kind), end + 2),
                None => Parsed::Malformed,
            },
            None => Parsed::Incomplete,
        }
    } else if buf[pos] == 43 {
        match line_end(buf, pos + 1) {
            Some(end) => if valid_utf8(buf.subrange(pos + 1, end)) {
                Parsed::Done(FrameModel::Simple(decode_utf8(buf.subrange(pos + 1, end))), end + 2)
            } else {
                Parsed::Malformed
            },
            None => Parsed::Incomplete,
        }
    } else if buf[pos] == 58 {
        match decimal_at(buf, pos + 1) {
            Parsed::Done(n, next) => Parsed::Done(FrameModel::Integer(n), next),
            Parsed::Incomplete => Parsed::Incomplete,
            Parsed::Malformed => Parsed::Malformed,
        }
    } else if buf[pos] == 36 {
        match decimal_at(buf, pos + 1) {
            Parsed::Done(len, next) => if next + len + 2 > buf.len() {
                Parsed::Incomplete
            } else if buf[next + len] == 13 && buf[next + len + 1] == 10 {
                Parsed::Done(
                    FrameModel::Bulk(buf.subrange(next, next + len)),
                    next + len + 2,
                )
            } else {
                Parsed::Malformed
            },
            Parsed::Incomplete => Parsed::Incomplete,
            Parsed::Malformed => Parsed::Malformed,
        }
    } else if buf[pos] == 42 {
        match decimal_at(buf, pos + 1) {
            Parsed::Done(count, next) => if pos < next <= buf.len() {
                match parse_seq_at(buf, next, count as nat, Seq::<FrameModel>::empty()) {
                    Parsed::Done(frames, end) => Parsed::Done(FrameModel::Array(frames), end),
                    Parsed::Incomplete => Parsed::Incomplete,
                    Parsed::Malformed => Parsed::Malformed,
                }
            } else {
                Parsed::Malformed
            },
            Parsed::Incomplete => Parsed::Incomplete,
            Parsed::Malformed => Parsed::Malformed,
        }
    } else {
        Parsed::Malformed
    }
}

/// `front`, followed by the `count` frames in a row of which the first
/// starts at `pos`; and where the last of them ends.
pub open spec fn parse_seq_at(buf: Seq<u8>, pos: int, count: nat, front: Seq<FrameModel>) -> Parsed<
    Seq<FrameModel>,
>
    decreases buf.len() - pos, 1 + count,
{
    if count == 0 {
        Parsed::Done(front, pos)
    } else {
        match parse_at(buf, pos) {
            Parsed::Done(frame, next) => if pos < next <= buf.len() {
                parse_seq_at(buf, next, (count - 1) as nat, front.push(frame))
            } else {
                Parsed::Malformed
            },
            Parsed::Incomplete => Parsed::Incomplete,
            Parsed::Malformed => Parsed::Malformed,
        }
    }
}

/// A line ends inside the buffer, at or after the place the search began.
pub proof fn lemma_decimal_at_bounds(buf: Seq<u8>, pos: int)
    requires
        0 <= pos,
    ensures
        decimal_at(buf, pos) matches Parsed::Done(_, next) ==> pos + 2 <= next <= buf.len(),
{
    lemma_line_end(buf, pos);
}

/// A frame ends behind its start and inside the buffer.
pub proof fn lemma_check_at_bounds(buf: Seq<u8>, pos: int)
    ensures
        check_at(buf, pos) matches Parsed::Done(_, end) ==> 0 <= pos < end <= buf.len(),
    decreases buf.len() - pos, 0nat,
{
    if 0 <= pos < buf.len() {
        lemma_line_end(buf, pos + 1);
        if buf[pos] == 42 {
            if let Parsed::Done(count, next) = decimal_at(buf, pos + 1) {
                if pos < next <= buf.len() {
                    lemma_check_seq_at_bounds(buf, next, count as nat);
                }
            }
        }
    }
}

/// A row of frames ends at or behind its start and inside the buffer.
pub proof fn lemma_check_seq_at_bounds(buf: Seq<u8>, pos: int, count: nat)
    requires
        0 <= pos <= buf.len(),
    ensures
        check_seq_at(buf, pos, count) matches Parsed::Done(_, end) ==> pos <= end <= buf.len(),
    decreases buf.len() - pos, 1 + count,
{
    if count > 0 {
        lemma_check_at_bounds(buf, pos);
        if let Parsed::Done(_, next) = check_at(buf, pos) {
            if pos < next <= buf.len() {
                lemma_check_seq_at_bounds(buf, next, (count - 1) as nat);
            }
        }
    }
}

/// A frame that parses ends behind its start and inside the buffer.
pub proof fn lemma_parse_at_bounds(buf: Seq<u8>, pos: int)
    ensures
        parse_at(buf, pos) matches Parsed::Done(_, end) ==> 0 <= pos < end <= buf.len(),
    decreases buf.len() - pos, 0nat,
{
    if 0 <= pos < buf.len() {
        lemma_line_end(buf, pos + 1);
        if buf[pos] == 42 {
            if let Parsed::Done(count, next) = decimal_at(buf, pos + 1) {
                if pos < next <= buf.len() {
                    lemma_parse_seq_at_bounds(buf, next, count as nat, Seq::<FrameModel>::empty());
                }
            }
        }
    }
}

/// A row of frames that parses ends at or behind its start and inside the
/// buffer.
pub proof fn lemma_parse_seq_at_bounds(
    buf: Seq<u8>,
    pos: int,
    count: nat,
    front: Seq<FrameModel>,
)
    requires
        0 <= pos <= buf.len(),
    ensures
        parse_seq_at(buf, pos, count, front) matches Parsed::Done(_, end) ==> pos <= end
            <= buf.len(),
    decreases buf.len() - pos, 1 + count,
{
    if count > 0 {
        lemma_parse_at_bounds(buf, pos);
        if let Parsed::Done(frame, next) = parse_at(buf, pos) {
            if pos < next <= buf.len() {
                lemma_parse_seq_at_bounds(buf, next, (count - 1) as nat, front.push(frame));
            }
        }
    }
}


impl FrameErrorKind {
    /// The name of the kind, as it goes on the wire.
    pub fn as_str(&self) -> (name: &'static str)
        ensures
            name@ == kind_text(*self),
    {
        match self {
            FrameErrorKind::NotFound => "not found",
            FrameErrorKind::InternalError => "internal error",
        }
    }

    /// The name of the kind, as it goes on the wire.
    pub fn to_string(&self) -> (name: String)
        ensures
            name@ == kind_text(*self),
    {
        String::from_str(self.as_str())
    }

    /// The kind that `line` names: `line` is the UTF-8 form of its name.
    pub fn from_bytes(line: &[u8]) -> (r: Option<FrameErrorKind>)
        ensures
            r == kind_of_line(line@),
    {
        if bytes_equal(line, FrameErrorKind::NotFound.as_str().as_bytes()) {
            Some(FrameErrorKind::NotFound)
        } else if bytes_equal(line, FrameErrorKind::InternalError.as_str().as_bytes()) {
            Some(FrameErrorKind::InternalError)
        } else {
            None
        }
    }

    /// The kind that `s` names.
    pub fn from_str(s: &str) -> (r: Result<FrameErrorKind, ()>)
        ensures
            s@ == kind_text(FrameErrorKind::NotFound) ==> r == Ok::<FrameErrorKind, ()>(
                FrameErrorKind::NotFound,
            ),
            s@ == kind_text(FrameErrorKind::InternalError) ==> r == Ok::<FrameErrorKind, ()>(
                FrameErrorKind::InternalError,
            ),
            s@ != kind_text(FrameErrorKind::NotFound) && s@ != kind_text(
                FrameErrorKind::InternalError,
            ) ==> r is Err,
    {
        proof {
            encode_utf8_decode_utf8(s@);
            encode_utf8_decode_utf8(kind_text(FrameErrorKind::NotFound));
            encode_utf8_decode_utf8(kind_text(FrameErrorKind::InternalError));
            lemma_kind_texts_differ();
        }
        match FrameErrorKind::from_bytes(s.as_bytes()) {
            Some(kind) => Ok(kind),
            None => Err(()),
        }
    }
}

/// The two kind names are different texts.
pub proof fn lemma_kind_texts_differ()
    ensures
        kind_text(FrameErrorKind::NotFound) != kind_text(FrameErrorKind::InternalError),
        encode_utf8(kind_text(FrameErrorKind::NotFound)) != encode_utf8(
            kind_text(FrameErrorKind::InternalError),
        ),
{
    reveal_strlit("not found");
    reveal_strlit("internal error");
    assert("not found"@.len() != "internal error"@.len());
    encode_utf8_decode_utf8(kind_text(FrameErrorKind::NotFound));
    encode_utf8_decode_utf8(kind_text(FrameErrorKind::InternalError));
}

/// The models of the first `n` frames are the views of those frames.
pub proof fn lemma_models_of(frames: Seq<Frame>, n: nat)
    requires
        n <= frames.len(),
    ensures
        models_of(frames, n) == frames_view(frames).subrange(0, n as int),
    decreases n,
{
    if n > 0 {
        lemma_models_of(frames, (n - 1) as nat);
        assert(frames_view(frames).subrange(0, n as int) =~= frames_view(frames).subrange(
            0,
            n - 1,
        ).push(frames[n - 1]@));
    } else {
        assert(frames_view(frames).subrange(0, 0) =~= Seq::<FrameModel>::empty());
    }
}

/// An array frame holds the views of its elements.
pub proof fn lemma_array_view(frames: Vec<Frame>)
    ensures
        Frame::Array(frames)@ == FrameModel::Array(frames_view(frames@)),
{
    lemma_models_of(frames@, frames@.len());
    assert(frames_view(frames@).subrange(0, frames@.len() as int) =~= frames_view(frames@));
}

/// Appends `data` to `out`.
pub fn append_bytes(out: &mut Vec<u8>, data: &[u8])
    ensures
        final(out)@ == old(out)@ + data@,
{
    let mut i: usize = 0;
    while i < data.len()
        invariant
            0 <= i <= data@.len(),
            out@ == old(out)@ + data@.subrange(0, i as int),
        decreases data@.len() - i,
    {
        proof {
            assert(data@.subrange(0, i + 1) == data@.subrange(0, i as int).push(data@[i as int]));
        }
        out.push(data[i]);
        i = i + 1;
    }
    proof {
        assert(data@.subrange(0, data@.len() as int) == data@);
    }
}

/// Appends the bytes of `frame` to `out`.
pub fn write_value(frame: &Frame, out: &mut Vec<u8>)
    ensures
        final(out)@ == old(out)@ + serialize(frame@),
    decreases frame,
{
    match frame {
        Frame::Error(kind) => {
            out.push(45u8);
            append_bytes(out, kind.as_str().as_bytes());
            out.push(13u8);
            out.push(10u8);
            proof {
                let body = encode_utf8(kind_text(*kind));
                assert(out@ =~= old(out)@ + (seq![45u8] + body + crlf()));
            }
        },
        Frame::Simple(string) => {
            out.push(43u8);
            append_bytes(out, string.as_str().as_bytes());
            out.push(13u8);
            out.push(10u8);
            proof {
                let body = encode_utf8(string@);
                assert(out@ =~= old(out)@ + (seq![43u8] + body + crlf()));
            }
        },
        Frame::Integer(n) => {
            out.push(58u8);
            write_decimal(*n, out);
            out.push(13u8);
            out.push(10u8);
            proof {
                assert(out@ =~= old(out)@ + (seq![58u8] + decimal(*n as nat) + crlf()));
            }
        },
        Frame::Bulk(val) => {
            let len: usize = val.len();
            out.push(36u8);
            write_decimal(len as u64, out);
            out.push(13u8);
            out.push(10u8);
            append_bytes(out, val.deref());
            out.push(13u8);
            out.push(10u8);
            proof {
                let b = bytes_contents(*val);
                assert(out@ =~= old(out)@ + (seq![36u8] + decimal(b.len()) + crlf() + b + crlf()));
            }
        },
        Frame::Array(val) => {
            out.push(42u8);
            write_decimal(val.len() as u64, out);
            out.push(13u8);
            out.push(10u8);
            let ghost frames = frames_view(val@);
            let ghost head = old(out)@ + (seq![42u8] + decimal(frames.len()) + crlf());
            proof {
                lemma_array_view(*val);
                assert(out@ =~= head);
            }
            let mut i: usize = 0;
            while i < val.len()
                invariant
                    0 <= i <= val@.len(),
                    *frame == Frame::Array(*val),
                    frames == frames_view(val@),
                    out@ == head + serialize_first(frames, i as nat),
                decreases val@.len() - i,
            {
                proof {
                    assert(frame->Array_0 == *val);
                    assert(decreases_to!(*frame => frame->Array_0));
                    assert(decreases_to!(frame->Array_0 => frame->Array_0@));
                    assert(decreases_to!(frame->Array_0@ => frame->Array_0@[i as int]));
                }
                let ghost before = out@;
                write_value(&val[i], out);
                proof {
                    assert(frames[i as int] == val@[i as int]@);
                    assert(serialize_first(frames, (i + 1) as nat) == serialize_first(
                        frames,
                        i as nat,
                    ) + serialize(frames[i as int]));
                    assert(out@ =~= head + serialize_first(frames, (i + 1) as nat));
                }
                i = i + 1;
            }
            proof {
                assert(out@ =~= old(out)@ + (seq![42u8] + decimal(frames.len()) + crlf()
                    + serialize_first(frames, frames.len())));
            }
        },
    }
}

impl Frame {
    /// An array frame without elements.
    pub fn array() -> (frame: Frame)
        ensures
            frame@ == FrameModel::Array(Seq::<FrameModel>::empty()),
    {
        let elems: Vec<Frame> = Vec::new();
        proof {
            lemma_array_view(elems);
            assert(frames_view(elems@) =~= Seq::<FrameModel>::empty());
        }
        Frame::Array(elems)
    }

    /// Adds a bulk frame that holds `bytes` to the end of an array frame.
    pub fn push_bulk(&mut self, bytes: Bytes)
        requires
            *old(self) is Array,
        ensures
            final(self)@ == FrameModel::Array(
                old(self)@->Array_0.push(FrameModel::Bulk(bytes_contents(bytes))),
            ),
    {
        match self {
            Frame::Array(vec) => {
                vec.push(Frame::Bulk(bytes));
            },
            _ => {},
        }
        proof {
            lemma_array_view(old(self)->Array_0);
            lemma_array_view(self->Array_0);
            assert(frames_view(self->Array_0@) =~= frames_view(old(self)->Array_0@).push(
                FrameModel::Bulk(bytes_contents(bytes)),
            ));
        }
    }

    /// Adds a simple frame that holds `string` to the end of an array frame.
    pub fn push_string(&mut self, string: String)
        requires
            *old(self) is Array,
        ensures
            final(self)@ == FrameModel::Array(old(self)@->Array_0.push(FrameModel::Simple(string@))),
    {
        match self {
            Frame::Array(vec) => {
                vec.push(Frame::Simple(string));
            },
            _ => {},
        }
        proof {
            lemma_array_view(old(self)->Array_0);
            lemma_array_view(self->Array_0);
            assert(frames_view(self->Array_0@) =~= frames_view(old(self)->Array_0@).push(
                FrameModel::Simple(string@),
            ));
        }
    }

    /// Finds the end of the frame that starts at the cursor, and moves the
    /// cursor there. Only the framing is looked at.
    pub fn check(src: &mut Cursor) -> (r: Result<(), Error>)
        ensures
            final(src).bytes() == old(src).bytes(),
            match check_at(old(src).bytes(), old(src).pos()) {
                Parsed::Done(_, end) => r is Ok && final(src).pos() == end,
                Parsed::Incomplete => r matches Err(Error::Incomplete),
                Parsed::Malformed => r matches Err(Error::Other(text)) && text@
                    == protocol_error_text(),
            },
        decreases old(src).bytes().len() - old(src).pos(),
    {
        let ghost buf = src.bytes();
        let ghost start = src.pos();
        let descriptor: u8 = get_descriptor(src)?;
        proof {
            lemma_decimal_at_bounds(buf, start + 1);
        }
        if descriptor == 45 || descriptor == 43 {
            get_line(src)?;
            Ok(())
        } else if descriptor == 58 {
            get_decimal(src)?;
            Ok(())
        } else if descriptor == 36 {
            let len: u64 = get_decimal(src)?;
            let left: usize = src.remaining();
            if left < 2 || len > (left - 2) as u64 {
                return Err(Error::Incomplete);
            }
            let all: &[u8] = src.get_ref();
            let total: usize = all.len();
            let end: usize = src.position() + len as usize;
            if all[end] != 13 || all[end + 1] != 10 {
                return Err(protocol_error());
            }
            skip(src, len as usize + 2)
        } else if descriptor == 42 {
            let count: u64 = get_decimal(src)?;
            let ghost first = src.pos();
            let mut i: u64 = 0;
            while i < count
                invariant
                    src.bytes() == buf,
                    buf == old(src).bytes(),
                    start == old(src).pos(),
                    check_at(buf, start) == check_seq_at(buf, first, count as nat),
                    0 <= i <= count,
                    start < src.pos() <= buf.len(),
                    check_seq_at(buf, first, count as nat) == check_seq_at(
                        buf,
                        src.pos(),
                        (count - i) as nat,
                    ),
                decreases count - i,
            {
                proof {
                    lemma_check_at_bounds(buf, src.pos());
                }
                Frame::check(src)?;
                i = i + 1;
            }
            Ok(())
        } else {
            Err(protocol_error())
        }
    }

    /// Reads the frame that starts at the cursor, and moves the cursor to
    /// its end.
    pub fn parse(src: &mut Cursor) -> (r: Result<Frame, Error>)
        ensures
            final(src).bytes() == old(src).bytes(),
            match parse_at(old(src).bytes(), old(src).pos()) {
                Parsed::Done(frame, end) => r matches Ok(f) && f@ == frame && final(src).pos()
                    == end,
                Parsed::Incomplete => r matches Err(Error::Incomplete),
                Parsed::Malformed => r matches Err(Error::Other(text)) && text@
                    == protocol_error_text(),
            },
        decreases old(src).bytes().len() - old(src).pos(),
    {
        let ghost buf = src.bytes();
        let ghost start = src.pos();
        let descriptor: u8 = get_descriptor(src)?;
        proof {
            lemma_decimal_at_bounds(buf, start + 1);
        }
        if descriptor == 45 {
            let line = get_line(src)?;
            match FrameErrorKind::from_bytes(line) {
                Some(kind) => Ok(Frame::Error(kind)),
                None => Err(protocol_error()),
            }
        } else if descriptor == 43 {
            let line = get_line(src)?;
            match string_from_bytes(line) {
                Some(string) => Ok(Frame::Simple(string)),
                None => Err(protocol_error()),
            }
        } else if descriptor == 58 {
            let n: u64 = get_decimal(src)?;
            Ok(Frame::Integer(n))
        } else if descriptor == 36 {
            let len: u64 = get_decimal(src)?;
            let left: usize = src.remaining();
            if left < 2 || len > (left - 2) as u64 {
                return Err(Error::Incomplete);
            }
            let all: &[u8] = src.get_ref();
            let total: usize = all.len();
            let from: usize = src.position();
            let size: usize = len as usize;
            assert(from + size + 2 <= total);
            if all[from + size] != 13 || all[from + size + 1] != 10 {
                return Err(protocol_error());
            }
            let data = Bytes::copy_from_slice(&all[from..from + size]);
            skip(src, size + 2)?;
            Ok(Frame::Bulk(data))
        } else if descriptor == 42 {
            let count: u64 = get_decimal(src)?;
            let ghost first = src.pos();
            let mut array: Vec<Frame> = Vec::new();
            proof {
                assert(frames_view(array@) =~= Seq::<FrameModel>::empty());
            }
            let mut i: u64 = 0;
            while i < count
                invariant
                    src.bytes() == buf,
                    buf == old(src).bytes(),
                    start == old(src).pos(),
                    parse_at(buf, start) == match parse_seq_at(
                        buf,
                        first,
                        count as nat,
                        Seq::<FrameModel>::empty(),
                    ) {
                        Parsed::Done(frames, end) => Parsed::Done(FrameModel::Array(frames), end),
                        Parsed::Incomplete => Parsed::Incomplete,
                        Parsed::Malformed => Parsed::Malformed,
                    },
                    0 <= i <= count,
                    start < src.pos() <= buf.len(),
                    parse_seq_at(buf, first, count as nat, Seq::<FrameModel>::empty())
                        == parse_seq_at(
                        buf,
                        src.pos(),
                        (count - i) as nat,
                        frames_view(array@),
                    ),
                decreases count - i,
            {
                proof {
                    lemma_parse_at_bounds(buf, src.pos());
                }
                let ghost front = frames_view(array@);
                let frame = Frame::parse(src)?;
                array.push(frame);
                proof {
                    assert(frames_view(array@) =~= front.push(frame@));
                }
                i = i + 1;
            }
            proof {
                lemma_array_view(array);
            }
            Ok(Frame::Array(array))
        } else {
            Err(protocol_error())
        }
    }
}

} // verus!
