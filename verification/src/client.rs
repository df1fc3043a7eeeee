//! The client side: what the answer of the server means for each command.
//!
//! A client sends the request frame of a command (`into_frame` of the
//! command, written by `Connection::write_frame`), reads one frame, and
//! hands it to the function of that command here.

use crate::connection::Connection;
use crate::frame::kind_text;
use crate::frame::Frame;
use crate::frame::FrameErrorKind;
use crate::frame::FrameModel;
use crate::text::string_from_bytes;
use std::ops::Deref;
use vstd::prelude::*;
use vstd::string::*;
use vstd::utf8::*;

verus! {

/// Why an answer could not be used.
#[derive(Debug, Clone, Copy, PartialEq, Eq, Structural)]
pub enum ClientError {
    /// The answer is a frame that the command does not expect.
    UnexpectedFrame,
    /// The answer is a value that is not valid UTF-8.
    InvalidString,
    /// The server closed the connection without an answer.
    ConnectionClosed,
}

/// The read side of a client's connection.
#[derive(Debug)]
pub struct Client {
    pub connection: Connection,
}

/// How an error of the server is shown to the user.
pub open spec fn error_text(kind: FrameErrorKind) -> Seq<char> {
    "Error: "@ + kind_text(kind)
}

/// How an error of the server is shown to the user.
fn show_error(kind: FrameErrorKind) -> (text: String)
    ensures
        text@ == error_text(kind),
{
    String::from_str("Error: ").concat(kind.as_str())
}

impl Client {
    /// A client that has received nothing yet.
    pub fn new() -> (client: Client)
        ensures
            client.connection.pending() == Seq::<u8>::empty(),
    {
        Client { connection: Connection::new() }
    }

    /// The answer that was read, or that none came.
    pub fn read_response(response: Option<Frame>) -> (r: Result<Frame, ClientError>)
        ensures
            match response {
                Some(frame) => r matches Ok(f) && f == frame,
                None => r matches Err(ClientError::ConnectionClosed),
            },
    {
        match response {
            Some(frame) => Ok(frame),
            None => Err(ClientError::ConnectionClosed),
        }
    }

    /// What the answer to a ping says: the text of a simple frame.
    pub fn ping(response: Frame) -> (r: Result<String, ClientError>)
        ensures
            match response@ {
                FrameModel::Simple(text) => r matches Ok(s) && s@ == text,
                _ => r matches Err(ClientError::UnexpectedFrame),
            },
    {
        match response {
            Frame::Simple(string) => Ok(string),
            _ => Err(ClientError::UnexpectedFrame),
        }
    }

    /// What the answer to a get says: the value as text, the text of a
    /// simple frame, or the error of the server in words.
    pub fn get(response: Frame) -> (r: Result<String, ClientError>)
        ensures
            match response@ {
                FrameModel::Bulk(bytes) => if valid_utf8(bytes) {
                    r matches Ok(s) && s@ == decode_utf8(bytes)
                } else {
                    r matches Err(ClientError::InvalidString)
                },
                FrameModel::Simple(text) => r matches Ok(s) && s@ == text,
                FrameModel::Error(kind) => r matches Ok(s) && s@ == error_text(kind),
                _ => r matches Err(ClientError::UnexpectedFrame),
            },
    {
        match response {
            Frame::Bulk(bytes) => match string_from_bytes(bytes.deref()) {
                Some(string) => Ok(string),
                None => Err(ClientError::InvalidString),
            },
            Frame::Simple(string) => Ok(string),
            Frame::Error(kind) => Ok(show_error(kind)),
            _ => Err(ClientError::UnexpectedFrame),
        }
    }

    /// What the answer to a set says: the text of a simple frame.
    pub fn set(response: Frame) -> (r: Result<String, ClientError>)
        ensures
            match response@ {
                FrameModel::Simple(text) => r matches Ok(s) && s@ == text,
                _ => r matches Err(ClientError::UnexpectedFrame),
            },
    {
        match response {
            Frame::Simple(string) => Ok(string),
            _ => Err(ClientError::UnexpectedFrame),
        }
    }

    /// What the answer to a delete says: the text of a simple frame, or the
    /// error of the server in words.
    pub fn delete(response: Frame) -> (r: Result<String, ClientError>)
        ensures
            match response@ {
                FrameModel::Simple(text) => r matches Ok(s) && s@ == text,
                FrameModel::Error(kind) => r matches Ok(s) && s@ == error_text(kind),
                _ => r matches Err(ClientError::UnexpectedFrame),
            },
    {
        match response {
            Frame::Simple(string) => Ok(string),
            Frame::Error(kind) => Ok(show_error(kind)),
            _ => Err(ClientError::UnexpectedFrame),
        }
    }
}

} // verus!
