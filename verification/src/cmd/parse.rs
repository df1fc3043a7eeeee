//! Taking a request frame apart, element by element.

use crate::buffer::bytes_contents;
use crate::frame::frames_view;
use crate::frame::lemma_array_view;
use crate::frame::Frame;
use crate::frame::FrameModel;
use crate::text::string_from_bytes;
use bytes::Bytes;
use std::ops::Deref;
use vstd::prelude::*;
use vstd::utf8::*;

verus! {

/// Why a request frame is no command.
#[derive(Debug, Clone, Copy, PartialEq, Eq, Structural)]
pub enum ParseError {
    /// An element was asked for and none is left.
    EndOfStream,
    /// The request is not an array frame.
    NotAnArray,
    /// An element that has to be a simple or a bulk frame is neither.
    UnexpectedFrame,
    /// A bulk frame that has to be a string is not valid UTF-8.
    InvalidString,
    /// Elements are left over after the command and its arguments.
    TrailingFrames,
    /// The first element names no command.
    UnknownCommand,
}

/// The error in words.
pub open spec fn parse_error_text(error: ParseError) -> Seq<char> {
    match error {
        ParseError::EndOfStream => "protocol error; unexpected end of stream"@,
        ParseError::NotAnArray => "protocol error; expected array"@,
        ParseError::UnexpectedFrame => "protocol error; expected simple frame or bulk frame"@,
        ParseError::InvalidString => "protocol error; invalid string"@,
        ParseError::TrailingFrames => "protocol error; expected end of frame, but there was more"@,
        ParseError::UnknownCommand => "protocol error; unknown command"@,
    }
}

impl ParseError {
    /// The error in words.
    pub fn to_string(&self) -> (text: String)
        ensures
            text@ == parse_error_text(*self),
    {
        let words: &str = match self {
            ParseError::EndOfStream => "protocol error; unexpected end of stream",
            ParseError::NotAnArray => "protocol error; expected array",
            ParseError::UnexpectedFrame => "protocol error; expected simple frame or bulk frame",
            ParseError::InvalidString => "protocol error; invalid string",
            ParseError::TrailingFrames => "protocol error; expected end of frame, but there was more",
            ParseError::UnknownCommand => "protocol error; unknown command",
        };
        words.to_owned()
    }
}

/// The text that an element stands for: a simple frame is its string, a
/// bulk frame the string that its bytes encode.
pub open spec fn string_of(frame: FrameModel) -> Result<Seq<char>, ParseError> {
    match frame {
        FrameModel::Simple(s) => Ok(s),
        FrameModel::Bulk(b) => if valid_utf8(b) {
            Ok(decode_utf8(b))
        } else {
            Err(ParseError::InvalidString)
        },
        _ => Err(ParseError::UnexpectedFrame),
    }
}

/// The bytes that an element stands for: a simple frame is the UTF-8 form
/// of its string, a bulk frame its bytes.
pub open spec fn bytes_of(frame: FrameModel) -> Result<Seq<u8>, ParseError> {
    match frame {
        FrameModel::Simple(s) => Ok(encode_utf8(s)),
        FrameModel::Bulk(b) => Ok(b),
        _ => Err(ParseError::UnexpectedFrame),
    }
}

/// The elements of an array frame that have not been taken yet.
#[derive(Debug)]
pub struct Parse {
    /// The elements that are left, the next one last.
    stack: Vec<Frame>,
}

impl Parse {
    /// The elements that are left, the next one first.
    pub closed spec fn remaining(&self) -> Seq<FrameModel> {
        frames_view(self.stack@).reverse()
    }

    /// Starts on the elements of `frame`, which has to be an array.
    pub fn new(frame: Frame) -> (r: Result<Parse, ParseError>)
        ensures
            match frame@ {
                FrameModel::Array(parts) => r matches Ok(p) && p.remaining() == parts,
                _ => r == Err::<Parse, ParseError>(ParseError::NotAnArray),
            },
    {
        match frame {
            Frame::Array(parts) => {
                let ghost models = frames_view(parts@);
                proof {
                    lemma_array_view(parts);
                }
                let mut parts = parts;
                let mut stack: Vec<Frame> = Vec::new();
                while parts.len() > 0
                    invariant
                        frames_view(parts@) + frames_view(stack@).reverse() == models,
                        models.len() == stack@.len() + parts@.len(),
                    decreases parts@.len(),
                {
                    let ghost before_stack = frames_view(stack@);
                    let ghost before_parts = frames_view(parts@);
                    let last = parts.pop();
                    match last {
                        Some(item) => {
                            stack.push(item);
                            proof {
                                let now_stack = frames_view(stack@);
                                let now_parts = frames_view(parts@);
                                assert(now_stack =~= before_stack.push(item@));
                                assert(now_parts =~= before_parts.drop_last());
                                assert(before_parts.last() == item@);
                                assert(now_stack.reverse() =~= seq![item@] + before_stack.reverse());
                                assert(now_parts + now_stack.reverse() =~= before_parts
                                    + before_stack.reverse());
                            }
                        },
                        None => {},
                    }
                }
                proof {
                    assert(frames_view(parts@) =~= Seq::<FrameModel>::empty());
                    assert(frames_view(parts@) + frames_view(stack@).reverse() =~= frames_view(
                        stack@,
                    ).reverse());
                }
                Ok(Parse { stack })
            },
            _ => Err(ParseError::NotAnArray),
        }
    }

    /// Takes the next element.
    fn next(&mut self) -> (r: Result<Frame, ParseError>)
        ensures
            old(self).remaining().len() == 0 ==> r == Err::<Frame, ParseError>(
                ParseError::EndOfStream,
            ) && final(self).remaining() == old(self).remaining(),
            old(self).remaining().len() > 0 ==> (r matches Ok(f) && f@ == old(self).remaining()[0]
                && final(self).remaining() == old(self).remaining().drop_first()),
    {
        let ghost before = frames_view(self.stack@);
        match self.stack.pop() {
            Some(frame) => {
                proof {
                    let now = frames_view(self.stack@);
                    assert(now =~= before.drop_last());
                    assert(now.reverse() =~= before.reverse().drop_first());
                    assert(before.reverse()[0] == before.last());
                }
                Ok(frame)
            },
            None => Err(ParseError::EndOfStream),
        }
    }

    /// Takes the next element as a string.
    pub fn next_string(&mut self) -> (r: Result<String, ParseError>)
        ensures
            old(self).remaining().len() == 0 ==> r == Err::<String, ParseError>(
                ParseError::EndOfStream,
            ) && final(self).remaining() == old(self).remaining(),
            old(self).remaining().len() > 0 ==> final(self).remaining() == old(self).remaining().drop_first() && match string_of(old(self).remaining()[0]) {
                Ok(text) => r matches Ok(s) && s@ == text,
                Err(e) => r == Err::<String, ParseError>(e),
            },
    {
        match self.next()? {
            Frame::Simple(s) => Ok(s),
            Frame::Bulk(data) => match string_from_bytes(data.deref()) {
                Some(s) => Ok(s),
                None => Err(ParseError::InvalidString),
            },
            _ => Err(ParseError::UnexpectedFrame),
        }
    }

    /// Takes the next element as bytes.
    pub fn next_bytes(&mut self) -> (r: Result<Bytes, ParseError>)
        ensures
            old(self).remaining().len() == 0 ==> (r matches Err(ParseError::EndOfStream)
                && final(self).remaining() == old(self).remaining()),
            old(self).remaining().len() > 0 ==> final(self).remaining() == old(self).remaining().drop_first() && match bytes_of(old(self).remaining()[0]) {
                Ok(bytes) => r matches Ok(b) && bytes_contents(b) == bytes,
                Err(e) => r matches Err(f) && f == e,
            },
    {
        match self.next()? {
            Frame::Simple(s) => Ok(Bytes::from(s.into_bytes())),
            Frame::Bulk(data) => Ok(data),
            _ => Err(ParseError::UnexpectedFrame),
        }
    }

    /// Makes sure that no element is left.
    pub fn finish(&mut self) -> (r: Result<(), ParseError>)
        ensures
            final(self).remaining() == old(self).remaining(),
            old(self).remaining().len() == 0 ==> r is Ok,
            old(self).remaining().len() > 0 ==> r == Err::<(), ParseError>(
                ParseError::TrailingFrames,
            ),
    {
        if self.stack.len() == 0 {
            Ok(())
        } else {
            Err(ParseError::TrailingFrames)
        }
    }
}

} // verus!
