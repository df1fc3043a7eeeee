//! The storage engine: an append-only data file of records, and an index
//! in memory that says where the live record of each key lies.
//!
//! The engine does not touch the file. It is told what the file holds and
//! tells what to append; reading and writing are left to the caller:
//!
//! * open: read the file and hand it to [`Db::new`];
//! * get: ask [`Db::locate`] where the record lies, read that many bytes
//!   there, and hand them to [`Db::get`];
//! * set: append the line of the record that [`Db::set`] makes, then tell
//!   [`Db::insert`] where it went;
//! * delete: [`Db::delete`] takes the key out of the index and makes the
//!   tombstone to append;
//! * compact: read the records at [`Db::compaction_plan`], hand them to
//!   [`Db::run_compaction`], replace the file by the content it makes, and
//!   then let [`Db::install`] take over the index that goes with it.
//!
//! The index must never point at bytes that are not in the file yet: so a
//! record is appended first, and only then inserted.

use crate::buffer::bytes_contents;
use crate::clock::now_seconds;
use crate::index::Index;
use crate::index::ValueMetadata;
use crate::record::record_line;
use crate::record::record_of_line;
use crate::record::DbError;
use crate::record::FileRecord;
use crate::record::RecordModel;
use crate::text::string_from_bytes;
use bytes::Bytes;
use std::ops::Deref;
use vstd::prelude::*;
use vstd::string::*;
use vstd::utf8::*;

verus! {

/// One line of the data file: the record it holds and where it lies.
pub struct Entry {
    pub record: RecordModel,
    pub meta: ValueMetadata,
}

/// The end of the line that starts at `from`: the index of the first
/// newline at or after `from`, or the length of the file without one.
pub open spec fn line_stop(file: Seq<u8>, from: int) -> int
    decreases file.len() - from,
{
    if from < 0 || from >= file.len() {
        file.len() as int
    } else if file[from] == 10 {
        from
    } else {
        line_stop(file, from + 1)
    }
}

/// A line ends at or after its start, inside the file or at its end, and
/// holds no newline.
pub proof fn lemma_line_stop(file: Seq<u8>, from: int)
    requires
        0 <= from <= file.len(),
    ensures
        from <= line_stop(file, from) <= file.len(),
        line_stop(file, from) < file.len() ==> file[line_stop(file, from)] == 10,
        forall|i: int| from <= i < line_stop(file, from) ==> file[i] != 10,
    decreases file.len() - from,
{
    if from < file.len() && file[from] != 10 {
        lemma_line_stop(file, from + 1);
    }
}

/// The place of the line from `offset` up to the newline at `end`.
pub open spec fn place(offset: int, end: int) -> ValueMetadata {
    ValueMetadata { offset: offset as u64, len: (end - offset + 1) as u64 }
}

/// `done`, followed by the lines of `file` from `offset` on, each with its
/// record and its place; nothing where a line is no record, or has no
/// newline, or is too long for its place to be written in 64 bits.
pub open spec fn entries_from(file: Seq<u8>, offset: int, done: Seq<Entry>) -> Option<Seq<Entry>>
    decreases file.len() + 1 - offset,
{
    if offset < 0 || offset >= file.len() {
        Some(done)
    } else {
        let end = line_stop(file, offset);
        proof {
            lemma_line_stop(file, offset);
        }
        if end >= file.len() || end + 1 > u64::MAX {
            None
        } else {
            match record_of_line(file.subrange(offset, end)) {
                None => None,
                Some(record) => entries_from(
                    file,
                    end + 1,
                    done.push(Entry { record, meta: place(offset, end) }),
                ),
            }
        }
    }
}

/// The lines of the data file.
pub open spec fn log_entries(file: Seq<u8>) -> Option<Seq<Entry>> {
    entries_from(file, 0, Seq::<Entry>::empty())
}

/// The index after one more line: a tombstone takes its key out, any other
/// record puts its key at the place of the line.
pub open spec fn apply_entry(index: Map<Seq<char>, ValueMetadata>, entry: Entry) -> Map<
    Seq<char>,
    ValueMetadata,
> {
    if entry.record.is_tombstone {
        index.remove(entry.record.key)
    } else {
        index.insert(entry.record.key, entry.meta)
    }
}

/// The index that the lines of a data file give when they are applied in
/// order to an empty one.
pub open spec fn replay(entries: Seq<Entry>) -> Map<Seq<char>, ValueMetadata>
    decreases entries.len(),
{
    if entries.len() == 0 {
        Map::<Seq<char>, ValueMetadata>::empty()
    } else {
        apply_entry(replay(entries.drop_last()), entries.last())
    }
}

/// The record that lies at `meta` in `file`: the line there, which ends
/// with a newline inside the file.
pub open spec fn record_at(file: Seq<u8>, meta: ValueMetadata) -> Option<RecordModel> {
    if meta.len >= 1 && meta.offset + meta.len <= file.len() && file[meta.offset + meta.len - 1]
        == 10 {
        record_of_line(file.subrange(meta.offset as int, meta.offset + meta.len - 1))
    } else {
        None
    }
}

/// What [`Db::retrieve`] makes of the bytes that were read at `meta`.
pub open spec fn retrieved(meta: ValueMetadata, buffer: Seq<u8>) -> Result<RecordModel, DbError> {
    if buffer.len() != meta.len || buffer.len() == 0 || buffer.last() != 10 {
        Err(DbError::Corruption)
    } else {
        match record_of_line(buffer.drop_last()) {
            Some(record) => Ok(record),
            None => Err(DbError::Corruption),
        }
    }
}

/// The index after a record was appended at `meta` and inserted: it points
/// there for the key of the record, unless the record is a tombstone.
pub open spec fn inserted(
    index: Map<Seq<char>, ValueMetadata>,
    record: RecordModel,
    meta: ValueMetadata,
) -> Map<Seq<char>, ValueMetadata> {
    if record.is_tombstone {
        index
    } else {
        index.insert(record.key, meta)
    }
}

/// The data file that holds the lines of the first `n` of `records`, and
/// nothing else.
pub open spec fn rewritten_file(records: Seq<RecordModel>, n: nat) -> Seq<u8>
    decreases n,
{
    if n == 0 || n > records.len() {
        Seq::<u8>::empty()
    } else {
        rewritten_file(records, (n - 1) as nat) + record_line(records[n - 1])
    }
}

/// The index after the first `n` of `records` were appended to an empty
/// data file, one after the other, and inserted.
pub open spec fn rewritten_index(
    index: Map<Seq<char>, ValueMetadata>,
    records: Seq<RecordModel>,
    n: nat,
) -> Map<Seq<char>, ValueMetadata>
    decreases n,
{
    if n == 0 || n > records.len() {
        index
    } else {
        inserted(
            rewritten_index(index, records, (n - 1) as nat),
            records[n - 1],
            ValueMetadata {
                offset: rewritten_file(records, (n - 1) as nat).len() as u64,
                len: record_line(records[n - 1]).len() as u64,
            },
        )
    }
}

/// The index of the storage engine, and the name of its data file.
pub struct Db {
    index: Index,
    storage_filename: String,
}

/// Holds the one engine of a server.
pub struct DbHolder {
    pub db: Db,
}

impl Db {
    /// The index: for each live key, the place of its record.
    pub closed spec fn index(&self) -> Map<Seq<char>, ValueMetadata> {
        self.index@
    }

    /// The keys of the index, in the order in which compaction walks them.
    pub closed spec fn order(&self) -> Seq<Seq<char>> {
        self.index.order()
    }

    /// The name of the data file.
    pub closed spec fn filename(&self) -> Seq<char> {
        self.storage_filename@
    }

    /// The engine is sound: the walk meets every key of the index once.
    pub closed spec fn wf(&self) -> bool {
        self.index.wf()
    }

    /// What `wf` says.
    pub proof fn lemma_wf(&self)
        requires
            self.wf(),
        ensures
            self.order().no_duplicates(),
            forall|k: Seq<char>| self.index().contains_key(k) <==> self.order().contains(k),
    {
        self.index.lemma_wf();
    }

    /// Builds the index from what the data file holds, line by line. A
    /// line that is no record, or a last line without its newline, is an
    /// error.
    pub fn rehydrate_index_from_disk(data: &[u8]) -> (r: Result<Index, DbError>)
        ensures
            match log_entries(data@) {
                Some(entries) => r matches Ok(index) && index.wf() && index@ == replay(entries),
                None => r matches Err(DbError::Corruption),
            },
    {
        let mut index = Index::new();
        let mut offset: usize = 0;
        let ghost mut done: Seq<Entry> = Seq::empty();
        while offset < data.len()
            invariant
                index.wf(),
                index@ == replay(done),
                0 <= offset <= data@.len(),
                log_entries(data@) == entries_from(data@, offset as int, done),
            decreases data@.len() - offset,
        {
            let mut end: usize = offset;
            while end < data.len() && data[end] != 10
                invariant
                    offset <= end <= data@.len(),
                    line_stop(data@, offset as int) == line_stop(data@, end as int),
                decreases data@.len() - end,
            {
                end = end + 1;
            }
            proof {
                lemma_line_stop(data@, offset as int);
            }
            if end == data.len() {
                return Err(DbError::Corruption);
            }
            let record = match FileRecord::parse_line(&data[offset..end]) {
                Ok(record) => record,
                Err(_) => {
                    return Err(DbError::Corruption);
                },
            };
            let meta = ValueMetadata { offset: offset as u64, len: (end - offset) as u64 + 1 };
            proof {
                let entry = Entry { record: record@, meta };
                assert(meta == place(offset as int, end as int));
                assert(done.push(entry).drop_last() =~= done);
                done = done.push(entry);
            }
            if record.is_tombstone {
                index.remove(record.key.as_str());
            } else {
                index.insert(record.key, meta);
            }
            offset = end + 1;
        }
        Ok(index)
    }

    /// Opens the engine on a data file: `data` is all that the file holds.
    /// Every line must be a record and have its newline.
    pub fn new(storage_filename: String, data: &[u8]) -> (r: Result<Db, DbError>)
        ensures
            match log_entries(data@) {
                Some(entries) => r matches Ok(db) && db.wf() && db.index() == replay(entries)
                    && db.filename() == storage_filename@,
                None => r matches Err(DbError::Corruption),
            },
    {
        let index = Db::rehydrate_index_from_disk(data)?;
        Ok(Db { index, storage_filename })
    }

    /// The name of the data file.
    pub fn storage_filename(&self) -> (name: &str)
        ensures
            name@ == self.filename(),
    {
        self.storage_filename.as_str()
    }

    /// Where the record of `key` lies, where the key is live.
    pub fn locate(&self, key: &str) -> (r: Option<ValueMetadata>)
        ensures
            r == if self.index().contains_key(key@) {
                Some(self.index()[key@])
            } else {
                None
            },
    {
        self.index.get(key)
    }

    /// Reads the record from the bytes that were read at `value_metadata`:
    /// as many as its length says, a line and its newline.
    pub fn retrieve(value_metadata: &ValueMetadata, buffer: &[u8]) -> (r: Result<
        FileRecord,
        DbError,
    >)
        ensures
            match retrieved(*value_metadata, buffer@) {
                Ok(model) => r matches Ok(record) && record@ == model,
                Err(e) => r matches Err(f) && f == e,
            },
    {
        let n: usize = buffer.len();
        if n == 0 || n as u64 != value_metadata.len || buffer[n - 1] != 10 {
            return Err(DbError::Corruption);
        }
        proof {
            assert(buffer@.subrange(0, n - 1) =~= buffer@.drop_last());
        }
        FileRecord::parse_line(&buffer[0..n - 1])
    }

    /// The answer to a get of `key`, given the bytes that were read at the
    /// place where [`Db::locate`] points for it. A key that is not live has
    /// no record, whatever the bytes; neither has one whose record turns
    /// out to be a tombstone.
    pub fn get(&self, key: &str, buffer: &[u8]) -> (r: Result<Option<FileRecord>, DbError>)
        ensures
            !self.index().contains_key(key@) ==> r matches Ok(None),
            self.index().contains_key(key@) ==> match retrieved(self.index()[key@], buffer@) {
                Ok(model) => if model.is_tombstone {
                    r matches Ok(None)
                } else {
                    r matches Ok(Some(record)) && record@ == model
                },
                Err(e) => r matches Err(f) && f == e,
            },
    {
        match self.index.get(key) {
            Some(meta) => {
                let record = Db::retrieve(&meta, buffer)?;
                if record.is_tombstone {
                    Ok(None)
                } else {
                    Ok(Some(record))
                }
            },
            None => Ok(None),
        }
    }

    /// The record that a set of `key` to `value` appends at the time
    /// `timestamp`. A value that is not valid UTF-8 is stored as no value.
    pub fn set_at(key: String, value: Bytes, timestamp: u64) -> (record: FileRecord)
        ensures
            record.key == key,
            record.timestamp == timestamp,
            record.is_tombstone == false,
            record@.value == if valid_utf8(bytes_contents(value)) {
                Some(decode_utf8(bytes_contents(value)))
            } else {
                None
            },
    {
        let value = string_from_bytes(value.deref());
        FileRecord::at(key, value, timestamp, false)
    }

    /// The record that a set of `key` to `value` appends now:
    /// [`Db::set_at`] what the clock says.
    pub fn set(key: String, value: Bytes) -> (record: FileRecord)
        ensures
            record.key == key,
            record.is_tombstone == false,
            record@.value == if valid_utf8(bytes_contents(value)) {
                Some(decode_utf8(bytes_contents(value)))
            } else {
                None
            },
    {
        Db::set_at(key, value, now_seconds())
    }

    /// Takes note of a record that was appended to the data file at
    /// `offset` as a line of `len` bytes. The index then points there for
    /// its key, unless the record is a tombstone.
    pub fn insert(&mut self, file_record: FileRecord, offset: u64, len: u64)
        requires
            old(self).wf(),
        ensures
            final(self).wf(),
            final(self).filename() == old(self).filename(),
            final(self).index() == if file_record.is_tombstone {
                old(self).index()
            } else {
                old(self).index().insert(file_record.key@, ValueMetadata { offset, len })
            },
    {
        if !file_record.is_tombstone {
            self.index.insert(file_record.key, ValueMetadata { offset, len });
        }
    }

    /// Deletes `key` at the time `timestamp`: takes it out of the index and
    /// makes the tombstone to append. Of a key that is not live nothing is
    /// deleted and nothing is to be appended.
    pub fn delete_at(&mut self, key: String, timestamp: u64) -> (r: Option<FileRecord>)
        requires
            old(self).wf(),
        ensures
            final(self).wf(),
            final(self).filename() == old(self).filename(),
            final(self).index() == old(self).index().remove(key@),
            old(self).index().contains_key(key@) ==> (r matches Some(tombstone) && tombstone.key
                == key && tombstone.value is None && tombstone.timestamp == timestamp
                && tombstone.is_tombstone),
            !old(self).index().contains_key(key@) ==> r is None,
    {
        if !self.index.remove(key.as_str()) {
            return None;
        }
        Some(FileRecord::at(key, None, timestamp, true))
    }

    /// Deletes `key` now: [`Db::delete_at`] what the clock says.
    pub fn delete(&mut self, key: String) -> (r: Option<FileRecord>)
        requires
            old(self).wf(),
        ensures
            final(self).wf(),
            final(self).filename() == old(self).filename(),
            final(self).index() == old(self).index().remove(key@),
            old(self).index().contains_key(key@) ==> (r matches Some(tombstone) && tombstone.key
                == key && tombstone.value is None && tombstone.is_tombstone),
            !old(self).index().contains_key(key@) ==> r is None,
    {
        match self.index.get(key.as_str()) {
            Some(_) => self.delete_at(key, now_seconds()),
            None => {
                proof {
                    assert(self.index().remove(key@) =~= self.index());
                }
                None
            },
        }
    }

    /// The places of the live records, in the order in which compaction
    /// walks the keys.
    pub fn compaction_plan(&self) -> (plan: Vec<ValueMetadata>)
        requires
            self.wf(),
        ensures
            plan@.len() == self.order().len(),
            forall|i: int|
                0 <= i < plan@.len() ==> #[trigger] plan@[i] == self.index()[self.order()[i]],
    {
        self.index.places()
    }
}

/// The views of `records`, in order.
pub open spec fn record_models(records: Seq<FileRecord>) -> Seq<RecordModel> {
    Seq::new(records.len(), |i: int| records[i]@)
}

/// The bytes of `lines`, in order.
pub open spec fn line_texts(lines: Seq<String>) -> Seq<Seq<u8>> {
    Seq::new(lines.len(), |i: int| encode_utf8(lines[i]@))
}

/// The first `n` of `lines`, one after the other.
pub open spec fn laid_out(lines: Seq<Seq<u8>>, n: nat) -> Seq<u8>
    decreases n,
{
    if n == 0 || n > lines.len() {
        Seq::<u8>::empty()
    } else {
        laid_out(lines, (n - 1) as nat) + lines[n - 1]
    }
}

/// The index after the first `n` of `records` were inserted, each at the
/// place where its line of `lines` lies when the lines are laid out one
/// after the other.
pub open spec fn laid_out_index(
    index: Map<Seq<char>, ValueMetadata>,
    records: Seq<RecordModel>,
    lines: Seq<Seq<u8>>,
    n: nat,
) -> Map<Seq<char>, ValueMetadata>
    decreases n,
{
    if n == 0 || n > records.len() || n > lines.len() {
        index
    } else {
        inserted(
            laid_out_index(index, records, lines, (n - 1) as nat),
            records[n - 1],
            ValueMetadata {
                offset: laid_out(lines, (n - 1) as nat).len() as u64,
                len: lines[n - 1].len() as u64,
            },
        )
    }
}

/// Where each line is the line of its record, laying the lines out is
/// rewriting the data file.
pub proof fn lemma_laid_out_is_rewritten(
    index: Map<Seq<char>, ValueMetadata>,
    records: Seq<RecordModel>,
    lines: Seq<Seq<u8>>,
    n: nat,
)
    requires
        n <= records.len(),
        records.len() == lines.len(),
        forall|i: int| 0 <= i < records.len() ==> #[trigger] lines[i] == record_line(records[i]),
    ensures
        laid_out(lines, n) == rewritten_file(records, n),
        laid_out_index(index, records, lines, n) == rewritten_index(index, records, n),
    decreases n,
{
    if n > 0 {
        lemma_laid_out_is_rewritten(index, records, lines, (n - 1) as nat);
        assert(lines[n - 1] == record_line(records[n - 1]));
    }
}

/// The records that [`Db::retrieve`] makes of `stored`, place by place of
/// `plan`.
pub open spec fn retrieved_records(plan: Seq<ValueMetadata>, stored: Seq<Vec<u8>>) -> Seq<
    RecordModel,
> {
    Seq::new(plan.len(), |i: int| retrieved(plan[i], stored[i]@)->Ok_0)
}

/// Whether `stored` has a part for each place of `plan`, and each part is
/// a record.
pub open spec fn all_records(plan: Seq<ValueMetadata>, stored: Seq<Vec<u8>>) -> bool {
    &&& stored.len() == plan.len()
    &&& forall|i: int| 0 <= i < plan.len() ==> retrieved(plan[i], #[trigger] stored[i]@) is Ok
}

/// What a compaction has made and the engine has not taken over yet: the
/// new content of the data file, and the index that points into it.
pub struct Compaction {
    content: Vec<u8>,
    index: Index,
}

impl Compaction {
    /// What the data file is to hold.
    pub closed spec fn content(&self) -> Seq<u8> {
        self.content@
    }

    /// What the data file is to hold.
    pub fn as_bytes(&self) -> (bytes: &[u8])
        ensures
            bytes@ == self.content(),
    {
        self.content.as_slice()
    }

    /// The index that points into the new content.
    pub closed spec fn index(&self) -> Map<Seq<char>, ValueMetadata> {
        self.index@
    }

    /// The index is sound.
    pub closed spec fn wf(&self) -> bool {
        self.index.wf()
    }
}

impl Db {
    /// The places of the index, key by key in the order of the walk.
    pub open spec fn plan(&self) -> Seq<ValueMetadata> {
        Seq::new(self.order().len(), |i: int| self.index()[self.order()[i]])
    }

    /// Reads the records from what was read at the places of `plan`, place
    /// by place. It fails with `Internal` where `stored` has not as many
    /// parts as the plan, and with `Corruption` where a part is no record.
    pub fn retrieve_all(plan: &Vec<ValueMetadata>, stored: &Vec<Vec<u8>>) -> (r: Result<
        Vec<FileRecord>,
        DbError,
    >)
        ensures
            stored@.len() != plan@.len() ==> r matches Err(DbError::Internal),
            (stored@.len() == plan@.len() && !all_records(plan@, stored@)) ==> r matches Err(
                DbError::Corruption,
            ),
            all_records(plan@, stored@) ==> (r matches Ok(records) && record_models(records@)
                == retrieved_records(plan@, stored@)),
    {
        if stored.len() != plan.len() {
            return Err(DbError::Internal);
        }
        let mut records: Vec<FileRecord> = Vec::new();
        let mut i: usize = 0;
        while i < plan.len()
            invariant
                0 <= i <= plan@.len(),
                stored@.len() == plan@.len(),
                records@.len() == i,
                forall|j: int|
                    0 <= j < i ==> retrieved(plan@[j], #[trigger] stored@[j]@) == Ok::<
                        RecordModel,
                        DbError,
                    >(records@[j]@),
            decreases plan@.len() - i,
        {
            let record = match Db::retrieve(&plan[i], stored[i].as_slice()) {
                Ok(record) => record,
                Err(_) => {
                    return Err(DbError::Corruption);
                },
            };
            records.push(record);
            i = i + 1;
        }
        proof {
            assert(record_models(records@) =~= retrieved_records(plan@, stored@));
        }
        Ok(records)
    }

    /// Lays `lines` out as a new data file, and makes the index that has
    /// each of `records` inserted at the place of its line: the first line
    /// at the start of the file, each other one behind the line before it.
    /// The engine itself stays as it is.
    pub fn rewrite(&self, records: Vec<FileRecord>, lines: &Vec<String>) -> (made: Compaction)
        requires
            self.wf(),
            records@.len() == lines@.len(),
        ensures
            made.wf(),
            made.content() == laid_out(line_texts(lines@), lines@.len() as nat),
            made.index() == laid_out_index(
                self.index(),
                record_models(records@),
                line_texts(lines@),
                lines@.len() as nat,
            ),
    {
        let ghost models = record_models(records@);
        let ghost texts = line_texts(lines@);
        let mut next = Db {
            index: self.index.duplicate(),
            storage_filename: self.storage_filename.clone(),
        };
        let mut records = records;
        let mut content: Vec<u8> = Vec::new();
        let mut n: usize = 0;
        while records.len() > 0
            invariant
                next.wf(),
                texts == line_texts(lines@),
                n + records@.len() == models.len(),
                lines@.len() == models.len(),
                forall|j: int|
                    0 <= j < records@.len() ==> #[trigger] records@[j]@ == models[n + j],
                content@ == laid_out(texts, n as nat),
                next.index() == laid_out_index(self.index(), models, texts, n as nat),
            decreases records@.len(),
        {
            let ghost before = records@;
            let ghost index_before = next.index();
            assert(n < lines.len());
            let record = records.remove(0);
            let line: &[u8] = lines[n].as_str().as_bytes();
            let offset: u64 = content.len() as u64;
            let len: u64 = line.len() as u64;
            crate::frame::append_bytes(&mut content, line);
            proof {
                assert(record@ == models[n as int]) by {
                    assert(before[0]@ == models[n + 0]);
                }
                assert(line@ == texts[n as int]);
                assert forall|j: int| 0 <= j < records@.len() implies #[trigger] records@[j]@
                    == models[n + 1 + j] by {
                    assert(records@[j] == before[j + 1]);
                    assert(before[j + 1]@ == models[n + (j + 1)]);
                }
                assert(laid_out(texts, (n + 1) as nat) == laid_out(texts, n as nat)
                    + texts[n as int]);
                assert(laid_out_index(self.index(), models, texts, (n + 1) as nat) == inserted(
                    index_before,
                    models[n as int],
                    ValueMetadata { offset, len },
                ));
            }
            next.insert(record, offset, len);
            n = n + 1;
        }
        Compaction { content, index: next.index }
    }

    /// Makes the data file that holds the live records and nothing else,
    /// and the index that points into it. `stored` is what was read at the
    /// places of [`Db::compaction_plan`], place by place. The engine itself
    /// stays as it is until [`Db::install`] hands it the result, which the
    /// caller does once the data file holds the new content.
    ///
    /// It fails with `Internal` where `stored` has not as many parts as the
    /// plan, with `Corruption` where a part is no record, and on no other
    /// input.
    pub fn run_compaction(&self, stored: &Vec<Vec<u8>>) -> (r: Result<Compaction, DbError>)
        requires
            self.wf(),
        ensures
            stored@.len() != self.plan().len() ==> r matches Err(DbError::Internal),
            (stored@.len() == self.plan().len() && !all_records(self.plan(), stored@))
                ==> r matches Err(DbError::Corruption),
            all_records(self.plan(), stored@) ==> (r matches Ok(made) && made.wf()
                && made.content() == rewritten_file(
                retrieved_records(self.plan(), stored@),
                stored@.len() as nat,
            ) && made.index() == rewritten_index(
                self.index(),
                retrieved_records(self.plan(), stored@),
                stored@.len() as nat,
            )),
    {
        let plan = self.index.places();
        proof {
            assert(plan@ =~= self.plan());
        }
        let records = Db::retrieve_all(&plan, stored)?;
        let ghost models = record_models(records@);
        let mut lines: Vec<String> = Vec::new();
        let mut k: usize = 0;
        while k < records.len()
            invariant
                0 <= k <= records@.len(),
                models == record_models(records@),
                lines@.len() == k,
                forall|j: int|
                    0 <= j < k ==> encode_utf8(#[trigger] lines@[j]@) == record_line(models[j]),
            decreases records@.len() - k,
        {
            let line = match records[k].serialize_with_escaping() {
                Ok(line) => line,
                Err(e) => {
                    return Err(e);
                },
            };
            lines.push(line);
            k = k + 1;
        }
        proof {
            lemma_laid_out_is_rewritten(
                self.index(),
                models,
                line_texts(lines@),
                models.len() as nat,
            );
        }
        Ok(self.rewrite(records, &lines))
    }

    /// Takes over what a compaction made: from now on the index is the one
    /// that points into the new content.
    pub fn install(&mut self, made: Compaction)
        requires
            made.wf(),
        ensures
            final(self).wf(),
            final(self).filename() == old(self).filename(),
            final(self).index() == made.index(),
    {
        self.index = made.index;
    }
}

impl DbHolder {
    /// Opens the engine on the data file `store.dat`, which holds `data`.
    pub fn new(data: &[u8]) -> (r: Result<DbHolder, DbError>)
        ensures
            match log_entries(data@) {
                Some(entries) => r matches Ok(holder) && holder.db.wf() && holder.db.index()
                    == replay(entries) && holder.db.filename() == "store.dat"@,
                None => r matches Err(DbError::Corruption),
            },
    {
        let db = Db::new(String::from_str("store.dat"), data)?;
        Ok(DbHolder { db })
    }

    /// The engine.
    pub fn db(&self) -> (db: &Db)
        ensures
            *db == self.db,
    {
        &self.db
    }
}

} // verus!
