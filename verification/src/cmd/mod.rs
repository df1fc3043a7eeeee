//! The commands of the protocol: what a request frame asks for, and the
//! frame that answers it.
//!
//! A request is an array frame. Its first element names the command, in
//! any mix of upper and lower case; the arguments follow:
//!
//! * `ping`
//! * `get <key>`
//! * `set <key> <value>`
//! * `delete <key>`
//!
//! A command with a missing argument or with elements left over is an
//! error, and so is a name that is none of these.

use crate::buffer::bytes_contents;
use crate::cmd::parse::bytes_of;
use crate::cmd::parse::string_of;
use crate::cmd::parse::Parse;
use crate::cmd::parse::ParseError;
use crate::frame::Frame;
use crate::frame::FrameErrorKind;
use crate::frame::FrameModel;
use crate::record::DbError;
use crate::record::FileRecord;
use crate::text::lowercase;
use crate::text::str_equal;
use bytes::Bytes;
use vstd::prelude::*;
use vstd::string::*;
use vstd::utf8::*;

pub mod parse;

verus! {

/// A request.
#[derive(Debug)]
pub enum Command {
    Ping(Ping),
    Get(Get),
    SetValue(SetValue),
    Delete(Delete),
}

/// Asks whether the server is there.
#[derive(Debug, Default)]
pub struct Ping;

/// Asks for the value of a key.
#[derive(Debug)]
pub struct Get {
    pub key: String,
}

/// Sets the value of a key.
#[derive(Debug)]
pub struct SetValue {
    pub key: String,
    pub value: Bytes,
}

/// Deletes a key.
#[derive(Debug)]
pub struct Delete {
    pub key: String,
}

/// What a request asks for.
pub enum CommandModel {
    Ping,
    Get(Seq<char>),
    SetValue(Seq<char>, Seq<u8>),
    Delete(Seq<char>),
}

impl View for Command {
    type V = CommandModel;

    open spec fn view(&self) -> CommandModel {
        match self {
            Command::Ping(_) => CommandModel::Ping,
            Command::Get(cmd) => CommandModel::Get(cmd.key@),
            Command::SetValue(cmd) => CommandModel::SetValue(cmd.key@, bytes_contents(cmd.value)),
            Command::Delete(cmd) => CommandModel::Delete(cmd.key@),
        }
    }
}

/// The one argument of a command that takes a key and nothing else.
pub open spec fn key_argument(args: Seq<FrameModel>) -> Result<Seq<char>, ParseError> {
    if args.len() == 0 {
        Err(ParseError::EndOfStream)
    } else {
        match string_of(args[0]) {
            Err(e) => Err(e),
            Ok(key) => if args.len() > 1 {
                Err(ParseError::TrailingFrames)
            } else {
                Ok(key)
            },
        }
    }
}

/// The command with the name `name`, which is in lower case, and the
/// arguments `args`.
pub open spec fn command_named(name: Seq<char>, args: Seq<FrameModel>) -> Result<
    CommandModel,
    ParseError,
> {
    if name == "ping"@ {
        if args.len() > 0 {
            Err(ParseError::TrailingFrames)
        } else {
            Ok(CommandModel::Ping)
        }
    } else if name == "get"@ {
        match key_argument(args) {
            Ok(key) => Ok(CommandModel::Get(key)),
            Err(e) => Err(e),
        }
    } else if name == "set"@ {
        if args.len() == 0 {
            Err(ParseError::EndOfStream)
        } else {
            match string_of(args[0]) {
                Err(e) => Err(e),
                Ok(key) => if args.len() == 1 {
                    Err(ParseError::EndOfStream)
                } else {
                    match bytes_of(args[1]) {
                        Err(e) => Err(e),
                        Ok(value) => if args.len() > 2 {
                            Err(ParseError::TrailingFrames)
                        } else {
                            Ok(CommandModel::SetValue(key, value))
                        },
                    }
                },
            }
        }
    } else if name == "delete"@ {
        match key_argument(args) {
            Ok(key) => Ok(CommandModel::Delete(key)),
            Err(e) => Err(e),
        }
    } else {
        Err(ParseError::UnknownCommand)
    }
}

/// The command that a request frame asks for.
pub open spec fn command_of(frame: FrameModel) -> Result<CommandModel, ParseError> {
    match frame {
        FrameModel::Array(parts) => if parts.len() == 0 {
            Err(ParseError::EndOfStream)
        } else {
            match string_of(parts[0]) {
                Err(e) => Err(e),
                Ok(name) => command_named(lowercase(name), parts.drop_first()),
            }
        },
        _ => Err(ParseError::NotAnArray),
    }
}

/// The frame that says that all went well.
pub open spec fn ok_frame() -> FrameModel {
    FrameModel::Simple("OK"@)
}

impl Command {
    /// Reads a request frame.
    pub fn from_frame(frame: Frame) -> (r: Result<Command, ParseError>)
        ensures
            match command_of(frame@) {
                Ok(model) => r matches Ok(command) && command@ == model,
                Err(e) => r matches Err(f) && f == e,
            },
    {
        let mut parse = Parse::new(frame)?;
        let name = parse.next_string()?;
        let command_name = name.as_str().to_lowercase();
        Command::from_name(command_name.as_str(), &mut parse)
    }

    /// Reads the command with the name `command_name`, which is in lower
    /// case, and takes its arguments from `parse`. No element may be left.
    pub fn from_name(command_name: &str, parse: &mut Parse) -> (r: Result<Command, ParseError>)
        ensures
            match command_named(command_name@, old(parse).remaining()) {
                Ok(model) => r matches Ok(command) && command@ == model,
                Err(e) => r matches Err(f) && f == e,
            },
    {
        let command = if str_equal(command_name, "ping") {
            Command::Ping(Ping::parse_frames(parse)?)
        } else if str_equal(command_name, "get") {
            Command::Get(Get::parse_frames(parse)?)
        } else if str_equal(command_name, "set") {
            Command::SetValue(SetValue::parse_frames(parse)?)
        } else if str_equal(command_name, "delete") {
            Command::Delete(Delete::parse_frames(parse)?)
        } else {
            return Err(ParseError::UnknownCommand);
        };
        parse.finish()?;
        Ok(command)
    }
}

impl Ping {
    pub fn new() -> (cmd: Ping) {
        Ping {  }
    }

    /// The request frame of the command.
    pub fn into_frame(self) -> (frame: Frame)
        ensures
            frame@ == FrameModel::Array(seq![FrameModel::Simple("ping"@)]),
    {
        let mut frame = Frame::array();
        frame.push_string(String::from_str("ping"));
        proof {
            assert(Seq::<FrameModel>::empty().push(FrameModel::Simple("ping"@)) =~= seq![
                FrameModel::Simple("ping"@),
            ]);
        }
        frame
    }

    /// Reads the arguments of the command: it has none.
    pub fn parse_frames(parse: &mut Parse) -> (r: Result<Ping, ParseError>)
        ensures
            r is Ok,
            final(parse).remaining() == old(parse).remaining(),
    {
        Ok(Ping::new())
    }

    /// The answer to the command.
    pub fn apply(self) -> (response: Frame)
        ensures
            response@ == FrameModel::Simple("PONG"@),
    {
        Frame::Simple(String::from_str("PONG"))
    }
}

impl Get {
    pub fn new(key: &str) -> (cmd: Get)
        ensures
            cmd.key@ == key@,
    {
        Get { key: String::from_str(key) }
    }

    /// The request frame of the command.
    pub fn into_frame(self) -> (frame: Frame)
        ensures
            frame@ == FrameModel::Array(
                seq![FrameModel::Simple("get"@), FrameModel::Simple(self.key@)],
            ),
    {
        let mut frame = Frame::array();
        frame.push_string(String::from_str("get"));
        frame.push_string(self.key);
        proof {
            assert(Seq::<FrameModel>::empty().push(FrameModel::Simple("get"@)).push(
                FrameModel::Simple(self.key@),
            ) =~= seq![FrameModel::Simple("get"@), FrameModel::Simple(self.key@)]);
        }
        frame
    }

    /// Reads the arguments of the command: the key.
    pub fn parse_frames(parse: &mut Parse) -> (r: Result<Get, ParseError>)
        ensures
            old(parse).remaining().len() == 0 ==> r matches Err(ParseError::EndOfStream),
            old(parse).remaining().len() > 0 ==> final(parse).remaining() == old(parse).remaining().drop_first() && match string_of(old(parse).remaining()[0]) {
                Ok(key) => r matches Ok(cmd) && cmd.key@ == key,
                Err(e) => r matches Err(f) && f == e,
            },
    {
        let key = parse.next_string()?;
        Ok(Get { key })
    }

    /// The answer to the command, given what the engine found: the value
    /// of the record, or that there is none, or that something went wrong.
    pub fn apply(self, found: Result<Option<FileRecord>, DbError>) -> (response: Frame)
        ensures
            response@ == match found {
                Ok(Some(record)) => match record.value {
                    Some(value) => FrameModel::Bulk(encode_utf8(value@)),
                    None => FrameModel::Error(FrameErrorKind::InternalError),
                },
                Ok(None) => FrameModel::Error(FrameErrorKind::NotFound),
                Err(_) => FrameModel::Error(FrameErrorKind::InternalError),
            },
    {
        match found {
            Ok(Some(record)) => match record.get_val_bytes() {
                Some(bytes) => Frame::Bulk(bytes),
                None => Frame::Error(FrameErrorKind::InternalError),
            },
            Ok(None) => Frame::Error(FrameErrorKind::NotFound),
            Err(_) => Frame::Error(FrameErrorKind::InternalError),
        }
    }
}

impl SetValue {
    pub fn new(key: &str, value: Bytes) -> (cmd: SetValue)
        ensures
            cmd.key@ == key@,
            cmd.value == value,
    {
        SetValue { key: String::from_str(key), value }
    }

    /// The request frame of the command.
    pub fn into_frame(self) -> (frame: Frame)
        ensures
            frame@ == FrameModel::Array(
                seq![
                    FrameModel::Simple("set"@),
                    FrameModel::Simple(self.key@),
                    FrameModel::Bulk(bytes_contents(self.value)),
                ],
            ),
    {
        let mut frame = Frame::array();
        frame.push_string(String::from_str("set"));
        frame.push_string(self.key);
        frame.push_bulk(self.value);
        proof {
            assert(Seq::<FrameModel>::empty().push(FrameModel::Simple("set"@)).push(
                FrameModel::Simple(self.key@),
            ).push(FrameModel::Bulk(bytes_contents(self.value))) =~= seq![
                FrameModel::Simple("set"@),
                FrameModel::Simple(self.key@),
                FrameModel::Bulk(bytes_contents(self.value)),
            ]);
        }
        frame
    }

    /// Reads the arguments of the command: the key and the value.
    pub fn parse_frames(parse: &mut Parse) -> (r: Result<SetValue, ParseError>)
        ensures
            old(parse).remaining().len() == 0 ==> r matches Err(ParseError::EndOfStream),
            old(parse).remaining().len() > 0 ==> match string_of(old(parse).remaining()[0]) {
                Err(e) => r matches Err(f) && f == e,
                Ok(key) => if old(parse).remaining().len() == 1 {
                    r matches Err(ParseError::EndOfStream)
                } else {
                    final(parse).remaining() == old(parse).remaining().skip(2) && match bytes_of(
                        old(parse).remaining()[1],
                    ) {
                        Err(e) => r matches Err(f) && f == e,
                        Ok(value) => r matches Ok(cmd) && cmd.key@ == key && bytes_contents(
                            cmd.value,
                        ) == value,
                    }
                },
            },
    {
        let key = parse.next_string()?;
        proof {
            if old(parse).remaining().len() >= 2 {
                assert(old(parse).remaining().drop_first().drop_first() =~= old(parse).remaining().skip(2));
            }
        }
        let value = parse.next_bytes()?;
        Ok(SetValue { key, value })
    }

    /// The answer to the command, given how the engine fared.
    pub fn apply(self, outcome: Result<(), DbError>) -> (response: Frame)
        ensures
            response@ == match outcome {
                Ok(_) => ok_frame(),
                Err(_) => FrameModel::Error(FrameErrorKind::InternalError),
            },
    {
        match outcome {
            Ok(_) => Frame::Simple(String::from_str("OK")),
            Err(_) => Frame::Error(FrameErrorKind::InternalError),
        }
    }
}

impl Delete {
    pub fn new(key: &str) -> (cmd: Delete)
        ensures
            cmd.key@ == key@,
    {
        Delete { key: String::from_str(key) }
    }

    /// The request frame of the command.
    pub fn into_frame(self) -> (frame: Frame)
        ensures
            frame@ == FrameModel::Array(
                seq![FrameModel::Simple("delete"@), FrameModel::Simple(self.key@)],
            ),
    {
        let mut frame = Frame::array();
        frame.push_string(String::from_str("delete"));
        frame.push_string(self.key);
        proof {
            assert(Seq::<FrameModel>::empty().push(FrameModel::Simple("delete"@)).push(
                FrameModel::Simple(self.key@),
            ) =~= seq![FrameModel::Simple("delete"@), FrameModel::Simple(self.key@)]);
        }
        frame
    }

    /// Reads the arguments of the command: the key.
    pub fn parse_frames(parse: &mut Parse) -> (r: Result<Delete, ParseError>)
        ensures
            old(parse).remaining().len() == 0 ==> r matches Err(ParseError::EndOfStream),
            old(parse).remaining().len() > 0 ==> final(parse).remaining() == old(parse).remaining().drop_first() && match string_of(old(parse).remaining()[0]) {
                Ok(key) => r matches Ok(cmd) && cmd.key@ == key,
                Err(e) => r matches Err(f) && f == e,
            },
    {
        let key = parse.next_string()?;
        Ok(Delete { key })
    }

    /// The answer to the command, given how the engine fared: whether it
    /// deleted the key, found none, or failed.
    pub fn apply(self, outcome: Result<Option<()>, DbError>) -> (response: Frame)
        ensures
            response@ == match outcome {
                Ok(Some(_)) => ok_frame(),
                Ok(None) => FrameModel::Error(FrameErrorKind::NotFound),
                Err(_) => FrameModel::Error(FrameErrorKind::InternalError),
            },
    {
        match outcome {
            Ok(Some(_)) => Frame::Simple(String::from_str("OK")),
            Ok(None) => Frame::Error(FrameErrorKind::NotFound),
            Err(_) => Frame::Error(FrameErrorKind::InternalError),
        }
    }
}

} // verus!
