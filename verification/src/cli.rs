//! A command line for one key-value pair at a time: `GET <key>` and
//! `SET <key> <value>`, and the pair as a JSON object.

use crate::json::json_parsed;
use crate::json::json_quote;
use crate::json::json_quoted;
use crate::json::member;
use crate::json::Json;
use crate::json::JsonModel;
use crate::text::str_equal;
use vstd::prelude::*;
use vstd::string::*;

verus! {

/// Why the arguments are no command.
#[derive(Debug, Clone, Copy, PartialEq, Eq, Structural)]
pub enum CommandError {
    NoCommandProvided,
    InvalidCommand,
    MissingKey,
    MissingValue,
}

impl CommandError {
    /// The name of the error.
    pub fn to_string(&self) -> (name: String)
        ensures
            name@ == match self {
                CommandError::NoCommandProvided => "NoCommandProvided"@,
                CommandError::InvalidCommand => "InvalidCommand"@,
                CommandError::MissingKey => "MissingKey"@,
                CommandError::MissingValue => "MissingValue"@,
            },
    {
        match self {
            CommandError::NoCommandProvided => String::from_str("NoCommandProvided"),
            CommandError::InvalidCommand => String::from_str("InvalidCommand"),
            CommandError::MissingKey => String::from_str("MissingKey"),
            CommandError::MissingValue => String::from_str("MissingValue"),
        }
    }
}

/// A command of the command line.
#[derive(Debug)]
pub enum Command {
    SET(String, String),
    GET(String),
}

/// What a command of the command line asks for.
pub enum CommandLine {
    SET(Seq<char>, Seq<char>),
    GET(Seq<char>),
}

impl View for Command {
    type V = CommandLine;

    open spec fn view(&self) -> CommandLine {
        match self {
            Command::SET(key, value) => CommandLine::SET(key@, value@),
            Command::GET(key) => CommandLine::GET(key@),
        }
    }
}

/// The command that the arguments of a program ask for. The first
/// argument is the name of the program.
pub open spec fn command_of_args(args: Seq<Seq<char>>) -> Result<CommandLine, CommandError> {
    if args.len() < 2 {
        Err(CommandError::NoCommandProvided)
    } else if args[1] == "GET"@ {
        if args.len() < 3 {
            Err(CommandError::MissingKey)
        } else {
            Ok(CommandLine::GET(args[2]))
        }
    } else if args[1] == "SET"@ {
        if args.len() < 3 {
            Err(CommandError::MissingKey)
        } else if args.len() < 4 {
            Err(CommandError::MissingValue)
        } else {
            Ok(CommandLine::SET(args[2], args[3]))
        }
    } else {
        Err(CommandError::InvalidCommand)
    }
}

/// The texts of `args`, in order.
pub open spec fn arg_texts(args: Seq<String>) -> Seq<Seq<char>> {
    Seq::new(args.len(), |i: int| args[i]@)
}

impl Command {
    /// Reads the command from the arguments of the program.
    pub fn from_args(args: Vec<String>) -> (r: Result<Command, CommandError>)
        ensures
            match command_of_args(arg_texts(args@)) {
                Ok(line) => r matches Ok(command) && command@ == line,
                Err(e) => r matches Err(f) && f == e,
            },
    {
        if args.len() < 2 {
            return Err(CommandError::NoCommandProvided);
        }
        let command: &str = args[1].as_str();
        if str_equal(command, "GET") {
            if args.len() < 3 {
                return Err(CommandError::MissingKey);
            }
            Ok(Command::GET(args[2].clone()))
        } else if str_equal(command, "SET") {
            if args.len() < 3 {
                return Err(CommandError::MissingKey);
            }
            if args.len() < 4 {
                return Err(CommandError::MissingValue);
            }
            Ok(Command::SET(args[2].clone(), args[3].clone()))
        } else {
            Err(CommandError::InvalidCommand)
        }
    }
}

/// A key and its value.
#[derive(Debug)]
pub struct KVPair {
    pub key: String,
    pub value: String,
}

/// The JSON text of a pair, given the JSON texts of its key and value.
pub open spec fn pair_text(key_json: Seq<char>, value_json: Seq<char>) -> Seq<char> {
    "{\"key\":"@ + key_json + ",\"value\":"@ + value_json + "}"@
}

/// The pair that a JSON value stands for: an object with a string `key`
/// and a string `value`.
pub open spec fn pair_of_json(json: JsonModel) -> Option<(Seq<char>, Seq<char>)> {
    match json {
        JsonModel::Object(members) => match (member(members, "key"@), member(members, "value"@)) {
            (Some(JsonModel::Text(key)), Some(JsonModel::Text(value))) => Some((key, value)),
            _ => None,
        },
        _ => None,
    }
}

impl KVPair {
    pub fn new(key: String, value: String) -> (pair: KVPair)
        ensures
            pair.key == key,
            pair.value == value,
    {
        KVPair { key, value }
    }

    /// Puts the JSON text of a pair together from the JSON texts of its key
    /// and of its value.
    pub fn compose(key_json: &str, value_json: &str) -> (text: String)
        ensures
            text@ == pair_text(key_json@, value_json@),
    {
        let mut text = String::from_str("{\"key\":");
        text.append(key_json);
        text.append(",\"value\":");
        text.append(value_json);
        text.append("}");
        text
    }

    /// The pair as a JSON object. The call never fails.
    pub fn serialize(&self) -> (r: Option<String>)
        ensures
            json_quoted(self.key@) matches Some(key_json) && json_quoted(self.value@) matches Some(
                value_json,
            ) && r matches Some(text) && text@ == pair_text(key_json, value_json),
    {
        let key_json = json_quote(self.key.as_str())?;
        let value_json = json_quote(self.value.as_str())?;
        Some(KVPair::compose(key_json.as_str(), value_json.as_str()))
    }

    /// The pair that a JSON value stands for.
    pub fn from_json(json: &Json) -> (r: Option<KVPair>)
        ensures
            match pair_of_json(json@) {
                Some((key, value)) => r matches Some(pair) && pair.key@ == key && pair.value@
                    == value,
                None => r is None,
            },
    {
        let key: String = match json.get("key") {
            Some(Json::Text(s)) => s.clone(),
            _ => {
                return None;
            },
        };
        let value: String = match json.get("value") {
            Some(Json::Text(s)) => s.clone(),
            _ => {
                return None;
            },
        };
        Some(KVPair { key, value })
    }

    /// Reads a pair from its JSON text.
    pub fn read_from_bytes(bytes: Vec<u8>) -> (r: Option<KVPair>)
        ensures
            match json_parsed(bytes@) {
                Some(json) => match pair_of_json(json) {
                    Some((key, value)) => r matches Some(pair) && pair.key@ == key && pair.value@
                        == value,
                    None => r is None,
                },
                None => r is None,
            },
    {
        match Json::parse(bytes.as_slice()) {
            Some(json) => KVPair::from_json(&json),
            None => None,
        }
    }

    /// The pair that a command sets; an error for a command that sets
    /// nothing.
    pub fn try_from(command: Command) -> (r: Result<KVPair, CommandError>)
        ensures
            match command@ {
                CommandLine::SET(key, value) => r matches Ok(pair) && pair.key@ == key
                    && pair.value@ == value,
                CommandLine::GET(_) => r matches Err(CommandError::InvalidCommand),
            },
    {
        match command {
            Command::SET(key, value) => Ok(KVPair { key, value }),
            _ => Err(CommandError::InvalidCommand),
        }
    }
}

} // verus!
