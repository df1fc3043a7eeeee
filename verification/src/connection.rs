//! The buffer of a connection: bytes come in as the peer sends them, frames
//! go out as soon as one is whole.
//!
//! The socket itself is not here. Whoever owns it appends what it reads to
//! [`Connection::buffer`], asks [`Connection::read_step`] what to do next,
//! and sends the bytes that [`Connection::write_frame`] returns.

use crate::buffer::buffer_advance;
use crate::buffer::buffer_contents;
use crate::frame::check_at;
use crate::frame::parse_at;
use crate::frame::protocol_error_text;
use crate::frame::serialize;
use crate::frame::write_value;
use crate::frame::Cursor;
use crate::frame::Error;
use crate::frame::Frame;
use crate::frame::Parsed;
use crate::roundtrip::lemma_parse_implies_check;
use bytes::BytesMut;
use std::ops::Deref;
use vstd::prelude::*;
use vstd::string::*;

verus! {

/// The read side of a connection.
#[derive(Debug)]
pub struct Connection {
    /// What was received and not yet handed out as a frame.
    pub buffer: BytesMut,
}

/// What the owner of the socket does next.
#[derive(Debug)]
pub enum ReadStep {
    /// A frame is whole: here it is.
    Ready(Frame),
    /// No frame is whole yet: read more from the socket.
    More,
    /// The peer closed the connection between two frames.
    Closed,
}

/// The text of the error for a connection that ended inside a frame.
pub open spec fn reset_text() -> Seq<char> {
    "connection reset by peer"@
}

impl Connection {
    /// The bytes received and not yet handed out.
    pub open spec fn pending(&self) -> Seq<u8> {
        buffer_contents(self.buffer)
    }

    /// A connection that has received nothing. The buffer starts with room
    /// for 4 KiB and grows as needed.
    pub fn new() -> (c: Connection)
        ensures
            c.pending() == Seq::<u8>::empty(),
    {
        Connection { buffer: BytesMut::with_capacity(4 * 1024) }
    }

    /// Takes one frame from the front of the buffer, if one is whole.
    ///
    /// Without a whole frame the buffer stays as it is and the result is
    /// `None`. Bytes that cannot begin a frame are an error, and stay too.
    pub fn parse_frame(&mut self) -> (r: Result<Option<Frame>, Error>)
        ensures
            match check_at(old(self).pending(), 0) {
                Parsed::Done(_, end) => match parse_at(old(self).pending(), 0) {
                    Parsed::Done(frame, _) => r matches Ok(Some(f)) && f@ == frame
                        && final(self).pending() == old(self).pending().skip(end),
                    _ => r matches Err(Error::Other(text)) && text@ == protocol_error_text()
                        && final(self).pending() == old(self).pending(),
                },
                Parsed::Incomplete => r matches Ok(None) && final(self).pending() == old(
                    self,
                ).pending(),
                Parsed::Malformed => r matches Err(Error::Other(text)) && text@
                    == protocol_error_text() && final(self).pending() == old(self).pending(),
            },
    {
        proof {
            lemma_parse_implies_check(self.pending(), 0);
            crate::frame::lemma_check_at_bounds(self.pending(), 0);
        }
        let mut buf = Cursor::new(self.buffer.deref());
        match Frame::check(&mut buf) {
            Ok(_) => {
                let len: usize = buf.position();
                buf.set_position(0);
                match Frame::parse(&mut buf) {
                    Ok(frame) => {
                        buffer_advance(&mut self.buffer, len);
                        Ok(Some(frame))
                    },
                    Err(e) => Err(e),
                }
            },
            Err(Error::Incomplete) => Ok(None),
            Err(e) => Err(e),
        }
    }

    /// One turn of reading a frame. `last_read` is the number of bytes that
    /// the read before this turn appended to the buffer, `None` before the
    /// first read.
    ///
    /// After a read of zero bytes the peer has closed: that is a clean end
    /// where the buffer is empty, and a reset where it holds the beginning
    /// of a frame. Otherwise the front of the buffer decides, as in
    /// [`Connection::parse_frame`].
    pub fn read_step(&mut self, last_read: Option<usize>) -> (r: Result<ReadStep, Error>)
        ensures
            last_read == Some(0usize) ==> final(self).pending() == old(self).pending() && (
            if old(self).pending().len() == 0 {
                r matches Ok(ReadStep::Closed)
            } else {
                r matches Err(Error::Other(text)) && text@ == reset_text()
            }),
            last_read != Some(0usize) ==> match check_at(old(self).pending(), 0) {
                Parsed::Done(_, end) => match parse_at(old(self).pending(), 0) {
                    Parsed::Done(frame, _) => r matches Ok(ReadStep::Ready(f)) && f@ == frame
                        && final(self).pending() == old(self).pending().skip(end),
                    _ => r matches Err(Error::Other(text)) && text@ == protocol_error_text()
                        && final(self).pending() == old(self).pending(),
                },
                Parsed::Incomplete => r matches Ok(ReadStep::More) && final(self).pending()
                    == old(self).pending(),
                Parsed::Malformed => r matches Err(Error::Other(text)) && text@
                    == protocol_error_text() && final(self).pending() == old(self).pending(),
            },
    {
        match last_read {
            Some(n) => {
                if n == 0 {
                    if self.buffer.is_empty() {
                        return Ok(ReadStep::Closed);
                    } else {
                        return Err(Error::Other(String::from_str("connection reset by peer")));
                    }
                }
            },
            None => {},
        }
        match self.parse_frame()? {
            Some(frame) => Ok(ReadStep::Ready(frame)),
            None => Ok(ReadStep::More),
        }
    }

    /// The bytes to send for `frame`.
    pub fn write_frame(frame: &Frame) -> (out: Vec<u8>)
        ensures
            out@ == serialize(frame@),
    {
        let mut out: Vec<u8> = Vec::new();
        write_value(frame, &mut out);
        out
    }
}

} // verus!
