//! The records of the data file: one JSON object per line.
//!
//! A record is written as
//! `{"key":K,"value":V,"timestamp":T,"is_tombstone":D}` and a newline,
//! where `K` is a JSON string, `V` a JSON string or `null`, `T` a decimal
//! number and `D` is `true` or `false`. It is read back from any JSON object
//! that has these members, in whatever order.

use crate::buffer::bytes_contents;
use crate::clock::now_seconds;
use crate::decimal::decimal;
use crate::decimal::is_digit;
use crate::decimal::lemma_decimal_digits;
use crate::decimal::write_decimal;
use crate::frame::append_bytes;
use crate::json::json_parsed;
use crate::json::json_quote;
use crate::json::json_quoted;
use crate::json::json_string_text;
use crate::json::no_line_feed;
use crate::json::member;
use crate::json::Json;
use crate::json::JsonModel;
use crate::text::str_equal;
use bytes::Bytes;
use vstd::prelude::*;
use vstd::string::*;
use vstd::utf8::*;

verus! {

/// What can go wrong in the storage engine.
#[derive(Debug, Clone, Copy, PartialEq, Eq, Structural)]
pub enum DbError {
    /// The data file could not be read or written.
    Io,
    /// Bytes of the data file are no record, or not as many as expected.
    Corruption,
    /// Something that should not happen did.
    Internal,
}

/// One record of the data file.
#[derive(Debug)]
pub struct FileRecord {
    pub key: String,
    pub value: Option<String>,
    pub timestamp: u64,
    pub is_tombstone: bool,
}

/// What a record says.
pub struct RecordModel {
    pub key: Seq<char>,
    pub value: Option<Seq<char>>,
    pub timestamp: u64,
    pub is_tombstone: bool,
}

impl View for FileRecord {
    type V = RecordModel;

    open spec fn view(&self) -> RecordModel {
        RecordModel {
            key: self.key@,
            value: match self.value {
                Some(v) => Some(v@),
                None => None,
            },
            timestamp: self.timestamp,
            is_tombstone: self.is_tombstone,
        }
    }
}

/// The record that a JSON value stands for: an object with a string `key`,
/// a number `timestamp` that fits in 64 bits, a boolean `is_tombstone`, and
/// a `value` that is a string, `null` or missing. Other members are
/// ignored.
pub open spec fn record_of_json(json: JsonModel) -> Option<RecordModel> {
    match json {
        JsonModel::Object(members) => match (
            member(members, "key"@),
            member(members, "timestamp"@),
            member(members, "is_tombstone"@),
        ) {
            (
                Some(JsonModel::Text(key)),
                Some(JsonModel::Number(Some(timestamp))),
                Some(JsonModel::Bool(is_tombstone)),
            ) => match member(members, "value"@) {
                None => Some(RecordModel { key, value: None, timestamp, is_tombstone }),
                Some(JsonModel::Null) => Some(
                    RecordModel { key, value: None, timestamp, is_tombstone },
                ),
                Some(JsonModel::Text(value)) => Some(
                    RecordModel { key, value: Some(value), timestamp, is_tombstone },
                ),
                _ => None,
            },
            _ => None,
        },
        _ => None,
    }
}

/// The record that a line of the data file stands for. The line is taken
/// without its newline.
pub open spec fn record_of_line(line: Seq<u8>) -> Option<RecordModel> {
    match json_parsed(line) {
        Some(json) => record_of_json(json),
        None => None,
    }
}

/// The line of a record, newline included, given the JSON texts of its key
/// and of its value.
pub open spec fn line_bytes(
    key_json: Seq<char>,
    value_json: Option<Seq<char>>,
    timestamp: u64,
    is_tombstone: bool,
) -> Seq<u8> {
    encode_utf8("{\"key\":"@) + encode_utf8(key_json) + encode_utf8(",\"value\":"@) + encode_utf8(
        match value_json {
            Some(text) => text,
            None => "null"@,
        },
    ) + encode_utf8(",\"timestamp\":"@) + decimal(timestamp as nat) + encode_utf8(
        ",\"is_tombstone\":"@,
    ) + encode_utf8(if is_tombstone { "true"@ } else { "false"@ }) + encode_utf8("}\n"@)
}

/// Whether `serde_json` writes the key of a record, and its value where it
/// has one: whether the record can be written as a line.
pub open spec fn record_written(record: RecordModel) -> bool {
    &&& json_quoted(record.key) is Some
    &&& record.value matches Some(v) ==> json_quoted(v) is Some
}

/// The line of a record that can be written, newline included.
pub open spec fn record_line(record: RecordModel) -> Seq<u8> {
    line_bytes(
        json_string_text(record.key),
        match record.value {
            Some(v) => Some(json_string_text(v)),
            None => None,
        },
        record.timestamp,
        record.is_tombstone,
    )
}

/// Whether `line` is one line: it ends with a newline and holds no other.
pub open spec fn one_line(line: Seq<u8>) -> bool {
    &&& line.len() >= 1
    &&& line.last() == 10
    &&& forall|i: int| 0 <= i < line.len() - 1 ==> line[i] != 10
}

/// Whether the line of `record` is read back as `record`: it is one line,
/// and the record of that line is `record`.
pub open spec fn reads_back(record: RecordModel) -> bool {
    &&& one_line(record_line(record))
    &&& record_of_line(record_line(record).drop_last()) == Some(record)
}

/// The UTF-8 bytes of a text of ASCII characters without a line feed hold
/// no line feed.
proof fn lemma_ascii_no_line_feed(text: Seq<char>)
    requires
        is_ascii_chars(text),
        forall|i: int| 0 <= i < text.len() ==> text[i] != '\n',
    ensures
        no_line_feed(encode_utf8(text)),
{
    is_ascii_chars_encode_utf8(text);
    let bytes = encode_utf8(text);
    assert forall|i: int| 0 <= i < bytes.len() implies bytes[i] != 10 by {
        assert(bytes[i] == text[i] as u8);
    }
}

/// The fixed parts of a line hold no line feed, but for the last one,
/// which is a closing brace and the newline.
proof fn lemma_fixed_parts()
    ensures
        no_line_feed(encode_utf8("{\"key\":"@)),
        no_line_feed(encode_utf8(",\"value\":"@)),
        no_line_feed(encode_utf8("null"@)),
        no_line_feed(encode_utf8(",\"timestamp\":"@)),
        no_line_feed(encode_utf8(",\"is_tombstone\":"@)),
        no_line_feed(encode_utf8("true"@)),
        no_line_feed(encode_utf8("false"@)),
        encode_utf8("}\n"@) == seq![125u8, 10u8],
{
    reveal_strlit("{\"key\":");
    reveal_strlit(",\"value\":");
    reveal_strlit("null");
    reveal_strlit(",\"timestamp\":");
    reveal_strlit(",\"is_tombstone\":");
    reveal_strlit("true");
    reveal_strlit("false");
    reveal_strlit("}\n");
    lemma_ascii_no_line_feed("{\"key\":"@);
    lemma_ascii_no_line_feed(",\"value\":"@);
    lemma_ascii_no_line_feed("null"@);
    lemma_ascii_no_line_feed(",\"timestamp\":"@);
    lemma_ascii_no_line_feed(",\"is_tombstone\":"@);
    lemma_ascii_no_line_feed("true"@);
    lemma_ascii_no_line_feed("false"@);
    let end = "}\n"@;
    assert(is_ascii_chars(end));
    is_ascii_chars_encode_utf8(end);
    assert(encode_utf8(end)[0] == end[0] as u8);
    assert(encode_utf8(end)[1] == end[1] as u8);
    assert(encode_utf8(end) =~= seq![125u8, 10u8]);
}

/// A line is one line where the JSON texts of its key and of its value
/// hold no line feed.
pub proof fn lemma_line_is_one_line(
    key_json: Seq<char>,
    value_json: Option<Seq<char>>,
    timestamp: u64,
    is_tombstone: bool,
)
    requires
        no_line_feed(encode_utf8(key_json)),
        value_json matches Some(text) ==> no_line_feed(encode_utf8(text)),
    ensures
        one_line(line_bytes(key_json, value_json, timestamp, is_tombstone)),
{
    lemma_fixed_parts();
    lemma_decimal_digits(timestamp as nat);
    let digits = decimal(timestamp as nat);
    assert(no_line_feed(digits)) by {
        assert forall|i: int| 0 <= i < digits.len() implies digits[i] != 10 by {
            assert(is_digit(digits[i]));
        }
    }
    let value = encode_utf8(
        match value_json {
            Some(text) => text,
            None => "null"@,
        },
    );
    let mark = encode_utf8(if is_tombstone { "true"@ } else { "false"@ });
    let front = encode_utf8("{\"key\":"@) + encode_utf8(key_json) + encode_utf8(",\"value\":"@)
        + value + encode_utf8(",\"timestamp\":"@) + digits + encode_utf8(",\"is_tombstone\":"@)
        + mark;
    assert(no_line_feed(front));
    let line = line_bytes(key_json, value_json, timestamp, is_tombstone);
    assert(line == front + encode_utf8("}\n"@));
    assert(line.len() == front.len() + 2);
    assert(line.last() == 10u8);
    assert forall|i: int| 0 <= i < line.len() - 1 implies line[i] != 10 by {
        if i < front.len() {
            assert(line[i] == front[i]);
        }
    }
}

/// Bytes below 128 are valid UTF-8.
proof fn lemma_ascii_valid(bytes: Seq<u8>)
    requires
        forall|i: int| 0 <= i < bytes.len() ==> #[trigger] bytes[i] < 128,
    ensures
        valid_utf8(bytes),
{
    let chars = Seq::new(bytes.len(), |i: int| bytes[i] as char);
    assert(is_ascii_chars(chars));
    is_ascii_chars_encode_utf8(chars);
    assert(encode_utf8(chars) =~= bytes) by {
        assert forall|i: int| 0 <= i < bytes.len() implies encode_utf8(chars)[i] == bytes[i] by {
            assert(chars[i] as u8 == encode_utf8(chars)[i]);
        }
    }
    encode_utf8_valid_utf8(chars);
}

/// Appends the UTF-8 bytes of `piece` to `out`, which stays valid UTF-8.
fn push_text(out: &mut Vec<u8>, piece: &str)
    requires
        valid_utf8(old(out)@),
    ensures
        final(out)@ == old(out)@ + encode_utf8(piece@),
        valid_utf8(final(out)@),
{
    proof {
        encode_utf8_valid_utf8(piece@);
        valid_utf8_concat(out@, encode_utf8(piece@));
    }
    append_bytes(out, piece.as_bytes());
}

/// Puts the line of a record together from the JSON texts of its key and
/// of its value.
pub fn compose_line(
    key_json: &str,
    value_json: Option<&str>,
    timestamp: u64,
    is_tombstone: bool,
) -> (line: String)
    ensures
        encode_utf8(line@) == line_bytes(
            key_json@,
            match value_json {
                Some(text) => Some(text@),
                None => None,
            },
            timestamp,
            is_tombstone,
        ),
{
    let mut out: Vec<u8> = Vec::new();
    assert(valid_utf8(out@));
    push_text(&mut out, "{\"key\":");
    assert(out@ =~= encode_utf8("{\"key\":"@));
    push_text(&mut out, key_json);
    push_text(&mut out, ",\"value\":");
    match value_json {
        Some(text) => push_text(&mut out, text),
        None => push_text(&mut out, "null"),
    }
    push_text(&mut out, ",\"timestamp\":");
    let ghost before = out@;
    write_decimal(timestamp, &mut out);
    proof {
        lemma_decimal_digits(timestamp as nat);
        let digits = decimal(timestamp as nat);
        assert forall|i: int| 0 <= i < digits.len() implies #[trigger] digits[i] < 128 by {
            assert(is_digit(digits[i]));
        }
        lemma_ascii_valid(digits);
        valid_utf8_concat(before, digits);
    }
    push_text(&mut out, ",\"is_tombstone\":");
    if is_tombstone {
        push_text(&mut out, "true");
    } else {
        push_text(&mut out, "false");
    }
    push_text(&mut out, "}\n");
    let ghost bytes = out@;
    match String::from_utf8(out) {
        Ok(line) => {
            proof {
                decode_utf8_encode_utf8(bytes);
            }
            line
        },
        Err(_) => String::new(),
    }
}

impl FileRecord {
    /// A record with the time `timestamp`, in whole seconds since the
    /// start of 1970.
    pub fn at(key: String, value: Option<String>, timestamp: u64, is_tombstone: bool) -> (record:
        FileRecord)
        ensures
            record.key == key,
            record.value == value,
            record.timestamp == timestamp,
            record.is_tombstone == is_tombstone,
    {
        FileRecord { key, value, timestamp, is_tombstone }
    }

    /// A record with the time of now: [`FileRecord::at`] what the clock
    /// says.
    pub fn new(key: String, value: Option<String>, is_tombstone: bool) -> (record: FileRecord)
        ensures
            record.key == key,
            record.value == value,
            record.is_tombstone == is_tombstone,
    {
        FileRecord::at(key, value, now_seconds(), is_tombstone)
    }

    /// The value as bytes, where there is one.
    pub fn get_val_bytes(&self) -> (r: Option<Bytes>)
        ensures
            match self.value {
                Some(v) => r matches Some(b) && bytes_contents(b) == encode_utf8(v@),
                None => r is None,
            },
    {
        match &self.value {
            Some(v) => Some(Bytes::from(v.clone().into_bytes())),
            None => None,
        }
    }

    /// The line of the record, newline included. It is one line, and the
    /// call never fails.
    pub fn serialize_with_escaping(&self) -> (r: Result<String, DbError>)
        ensures
            r matches Ok(line) && encode_utf8(line@) == record_line(self@),
            record_written(self@),
            one_line(record_line(self@)),
    {
        let key_json = match json_quote(self.key.as_str()) {
            Some(text) => text,
            None => {
                return Err(DbError::Internal);
            },
        };
        match &self.value {
            Some(v) => {
                let value_json = match json_quote(v.as_str()) {
                    Some(text) => text,
                    None => {
                        return Err(DbError::Internal);
                    },
                };
                proof {
                    lemma_line_is_one_line(
                        key_json@,
                        Some(value_json@),
                        self.timestamp,
                        self.is_tombstone,
                    );
                }
                Ok(
                    compose_line(
                        key_json.as_str(),
                        Some(value_json.as_str()),
                        self.timestamp,
                        self.is_tombstone,
                    ),
                )
            },
            None => {
                proof {
                    lemma_line_is_one_line(key_json@, None, self.timestamp, self.is_tombstone);
                }
                Ok(compose_line(key_json.as_str(), None, self.timestamp, self.is_tombstone))
            },
        }
    }

    /// Whether `line` is one line, newline included, from which this
    /// record is read.
    pub fn is_line(&self, line: &[u8]) -> (r: bool)
        ensures
            r == (one_line(line@) && record_of_line(line@.drop_last()) == Some(self@)),
    {
        let n: usize = line.len();
        if n == 0 || line[n - 1] != 10 {
            return false;
        }
        let mut i: usize = 0;
        while i < n - 1
            invariant
                0 <= i <= n - 1,
                n == line@.len(),
                forall|j: int| 0 <= j < i ==> line@[j] != 10,
            decreases n - i,
        {
            if line[i] == 10 {
                return false;
            }
            i = i + 1;
        }
        proof {
            assert(line@.subrange(0, n - 1) =~= line@.drop_last());
        }
        match FileRecord::parse_line(&line[0..n - 1]) {
            Ok(read) => read.same_as(self),
            Err(_) => false,
        }
    }

    /// Writes the record as a line, reads the line, and tells whether the
    /// record came back.
    pub fn reads_back(&self) -> (r: bool)
        ensures
            r == reads_back(self@),
    {
        match self.serialize_with_escaping() {
            Ok(line) => self.is_line(line.as_str().as_bytes()),
            Err(_) => false,
        }
    }

    /// Whether two records say the same.
    pub fn same_as(&self, other: &FileRecord) -> (r: bool)
        ensures
            r == (self@ == other@),
    {
        let same_value = match (&self.value, &other.value) {
            (Some(a), Some(b)) => str_equal(a.as_str(), b.as_str()),
            (None, None) => true,
            _ => false,
        };
        same_value && str_equal(self.key.as_str(), other.key.as_str()) && self.timestamp
            == other.timestamp && self.is_tombstone == other.is_tombstone
    }

    /// The record that a JSON value stands for.
    pub fn from_json(json: &Json) -> (r: Option<FileRecord>)
        ensures
            match record_of_json(json@) {
                Some(model) => r matches Some(record) && record@ == model,
                None => r is None,
            },
    {
        let key: String = match json.get("key") {
            Some(Json::Text(s)) => s.clone(),
            _ => {
                return None;
            },
        };
        let timestamp: u64 = match json.get("timestamp") {
            Some(Json::Number(Some(n))) => *n,
            _ => {
                return None;
            },
        };
        let is_tombstone: bool = match json.get("is_tombstone") {
            Some(Json::Bool(b)) => *b,
            _ => {
                return None;
            },
        };
        let value: Option<String> = match json.get("value") {
            None => None,
            Some(Json::Null) => None,
            Some(Json::Text(s)) => Some(s.clone()),
            _ => {
                return None;
            },
        };
        Some(FileRecord { key, value, timestamp, is_tombstone })
    }

    /// Reads a record from a line of the data file, taken without its
    /// newline.
    pub fn parse_line(line: &[u8]) -> (r: Result<FileRecord, DbError>)
        ensures
            match record_of_line(line@) {
                Some(model) => r matches Ok(record) && record@ == model,
                None => r == Err::<FileRecord, DbError>(DbError::Corruption),
            },
    {
        match Json::parse(line) {
            Some(json) => match FileRecord::from_json(&json) {
                Some(record) => Ok(record),
                None => Err(DbError::Corruption),
            },
            None => Err(DbError::Corruption),
        }
    }
}

} // verus!
