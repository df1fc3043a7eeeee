//! What holds between the index and the data file.
//!
//! The data file is a sequence of bytes, the index a map from keys to
//! places in it. The statements below are about every data file and every
//! index, and about the steps that the engine takes on them: opening,
//! setting, deleting and compacting.
//!
//! Where a statement speaks of a record that the engine has written, it
//! asks that the line of the record [`reads_back`]: that `serde_json` reads
//! the text that it wrote as the value that it wrote. That is a matter of
//! `serde_json`, and is taken as given here.

use crate::db::apply_entry;
use crate::db::entries_from;
use crate::db::inserted;
use crate::db::lemma_line_stop;
use crate::db::line_stop;
use crate::db::log_entries;
use crate::db::place;
use crate::db::record_at;
use crate::db::replay;
use crate::db::retrieved;
use crate::db::rewritten_file;
use crate::db::rewritten_index;
use crate::db::Entry;
use crate::index::ValueMetadata;
use crate::record::reads_back;
use crate::record::record_line;
use crate::record::record_of_line;
use crate::record::DbError;
use crate::record::RecordModel;
use vstd::prelude::*;

verus! {

/// Whether every line of `file` has its newline.
pub open spec fn well_terminated(file: Seq<u8>) -> bool {
    file.len() == 0 || file.last() == 10
}

/// Whether the index points at live records of its keys: at each place of
/// the index lies a record of the data file that is no tombstone and has
/// the key under which the place stands.
pub open spec fn coherent(index: Map<Seq<char>, ValueMetadata>, file: Seq<u8>) -> bool {
    forall|k: Seq<char>| #[trigger]
        index.contains_key(k) ==> (record_at(file, index[k]) matches Some(r) && r.key == k
            && !r.is_tombstone)
}

/// The last of `entries` that is about `key`.
pub open spec fn latest(entries: Seq<Entry>, key: Seq<char>) -> Option<Entry>
    decreases entries.len(),
{
    if entries.len() == 0 {
        None
    } else if entries.last().record.key == key {
        Some(entries.last())
    } else {
        latest(entries.drop_last(), key)
    }
}

/// The place of a line of `len` bytes that was appended to `file`.
pub open spec fn appended_at(file: Seq<u8>, len: nat) -> ValueMetadata {
    ValueMetadata { offset: file.len() as u64, len: len as u64 }
}

/// The latest entry about a key is one of the entries, and about that key.
pub proof fn lemma_latest_is_entry(entries: Seq<Entry>, key: Seq<char>)
    ensures
        latest(entries, key) matches Some(e) ==> entries.contains(e) && e.record.key == key,
    decreases entries.len(),
{
    if entries.len() > 0 {
        if entries.last().record.key == key {
            assert(entries[entries.len() - 1] == entries.last());
        } else {
            lemma_latest_is_entry(entries.drop_last(), key);
            if let Some(e) = latest(entries.drop_last(), key) {
                let i = choose|i: int|
                    0 <= i < entries.drop_last().len() && entries.drop_last()[i] == e;
                assert(entries[i] == e);
            }
        }
    }
}

/// Last write wins. After the lines of a data file were applied in order,
/// a key is in the index where the last line about it is no tombstone, and
/// the index then points at that line. A key whose last line is a
/// tombstone, or about which there is no line, is not in the index.
pub proof fn law_latest_wins(entries: Seq<Entry>, key: Seq<char>)
    ensures
        replay(entries).contains_key(key) <==> (latest(entries, key) matches Some(e)
            && !e.record.is_tombstone),
        replay(entries).contains_key(key) ==> replay(entries)[key] == latest(
            entries,
            key,
        )->Some_0.meta,
    decreases entries.len(),
{
    if entries.len() > 0 {
        law_latest_wins(entries.drop_last(), key);
    }
}

/// What follows a line does not change where the line ends.
proof fn lemma_line_stop_prefix(file: Seq<u8>, more: Seq<u8>, from: int)
    requires
        0 <= from <= file.len(),
        line_stop(file, from) < file.len(),
    ensures
        line_stop(file + more, from) == line_stop(file, from),
    decreases file.len() - from,
{
    let whole = file + more;
    if from < file.len() {
        assert(whole[from] == file[from]);
        if file[from] != 10 {
            lemma_line_stop_prefix(file, more, from + 1);
        }
    }
}

/// In a file whose lines all have their newline, every line ends inside.
proof fn lemma_line_stop_inside(file: Seq<u8>, from: int)
    requires
        well_terminated(file),
        0 <= from < file.len(),
    ensures
        from <= line_stop(file, from) < file.len(),
        file[line_stop(file, from)] == 10,
{
    lemma_line_stop(file, from);
    if line_stop(file, from) == file.len() {
        assert(file[file.len() - 1] != 10);
    }
}

/// A data file whose lines are all records has a newline at the end of
/// each line.
proof fn lemma_entries_terminated(file: Seq<u8>, offset: int, done: Seq<Entry>)
    requires
        0 <= offset <= file.len(),
        offset == 0 || file[offset - 1] == 10,
        entries_from(file, offset, done) is Some,
    ensures
        well_terminated(file),
    decreases file.len() + 1 - offset,
{
    if offset < file.len() {
        lemma_line_stop(file, offset);
        let end = line_stop(file, offset);
        let record = record_of_line(file.subrange(offset, end))->Some_0;
        lemma_entries_terminated(
            file,
            end + 1,
            done.push(Entry { record, meta: place(offset, end) }),
        );
    }
}

/// A data file that opens has a newline at the end of each line.
pub proof fn lemma_open_is_terminated(file: Seq<u8>)
    requires
        log_entries(file) is Some,
    ensures
        well_terminated(file),
{
    lemma_entries_terminated(file, 0, Seq::<Entry>::empty());
}

/// Whether the places of `entries` lie end to end from `from` to `to`: the
/// first starts at `from`, each other one where the one before it ends, the
/// last ends at `to`, and none is empty.
pub open spec fn end_to_end(entries: Seq<Entry>, from: int, to: int) -> bool
    decreases entries.len(),
{
    if entries.len() == 0 {
        from == to
    } else {
        &&& entries.last().meta.len >= 1
        &&& entries.last().meta.offset + entries.last().meta.len == to
        &&& end_to_end(entries.drop_last(), from, entries.last().meta.offset as int)
    }
}

proof fn lemma_entries_end_to_end(file: Seq<u8>, offset: int, done: Seq<Entry>)
    requires
        0 <= offset <= file.len(),
        end_to_end(done, 0, offset),
    ensures
        entries_from(file, offset, done) matches Some(all) ==> end_to_end(
            all,
            0,
            file.len() as int,
        ),
    decreases file.len() + 1 - offset,
{
    if offset < file.len() {
        lemma_line_stop(file, offset);
        let end = line_stop(file, offset);
        if end < file.len() && end + 1 <= u64::MAX {
            if let Some(record) = record_of_line(file.subrange(offset, end)) {
                let entry = Entry { record, meta: place(offset, end) };
                assert(done.push(entry).drop_last() =~= done);
                lemma_entries_end_to_end(file, end + 1, done.push(entry));
            }
        }
    }
}

/// The lines cover the file. In a data file that opens, the places of the
/// lines lie end to end from the start of the file to its end: no two of
/// them share a byte, and no byte lies outside them.
pub proof fn law_lines_cover_the_file(file: Seq<u8>)
    requires
        log_entries(file) is Some,
    ensures
        end_to_end(log_entries(file)->Some_0, 0, file.len() as int),
{
    lemma_entries_end_to_end(file, 0, Seq::<Entry>::empty());
}

/// Every entry of a data file whose lines all have their newline lies
/// where it says: at its place is its record.
proof fn lemma_entries_point(file: Seq<u8>, offset: int, done: Seq<Entry>)
    requires
        well_terminated(file),
        0 <= offset <= file.len(),
        forall|i: int|
            0 <= i < done.len() ==> record_at(file, #[trigger] done[i].meta) == Some(
                done[i].record,
            ),
    ensures
        entries_from(file, offset, done) matches Some(all) ==> forall|i: int|
            0 <= i < all.len() ==> record_at(file, #[trigger] all[i].meta) == Some(all[i].record),
    decreases file.len() + 1 - offset,
{
    if offset < file.len() {
        lemma_line_stop_inside(file, offset);
        let end = line_stop(file, offset);
        if end + 1 <= u64::MAX {
            if let Some(record) = record_of_line(file.subrange(offset, end)) {
                let entry = Entry { record, meta: place(offset, end) };
                let next = done.push(entry);
                assert(entry.meta.offset == offset);
                assert(entry.meta.len == end - offset + 1);
                assert(record_at(file, entry.meta) == Some(record));
                assert forall|i: int| 0 <= i < next.len() implies record_at(
                    file,
                    #[trigger] next[i].meta,
                ) == Some(next[i].record) by {
                    if i < done.len() {
                        assert(next[i] == done[i]);
                    }
                }
                lemma_entries_point(file, end + 1, next);
            }
        }
    }
}

/// After opening, the index points at live records of its keys, in every
/// data file that opens.
pub proof fn law_open_is_coherent(file: Seq<u8>)
    requires
        log_entries(file) is Some,
    ensures
        coherent(replay(log_entries(file)->Some_0), file),
{
    lemma_open_is_terminated(file);
    let entries = log_entries(file)->Some_0;
    lemma_entries_point(file, 0, Seq::<Entry>::empty());
    assert forall|k: Seq<char>| #[trigger] replay(entries).contains_key(k) implies (record_at(
        file,
        replay(entries)[k],
    ) matches Some(r) && r.key == k && !r.is_tombstone) by {
        law_latest_wins(entries, k);
        lemma_latest_is_entry(entries, k);
        let e = latest(entries, k)->Some_0;
        let i = choose|i: int| 0 <= i < entries.len() && entries[i] == e;
        assert(record_at(file, entries[i].meta) == Some(entries[i].record));
    }
}

/// The bytes that lie at `meta` in `file`: what a reader hands to
/// `Db::get` after it has read there.
pub open spec fn bytes_at(file: Seq<u8>, meta: ValueMetadata) -> Seq<u8> {
    file.subrange(meta.offset as int, meta.offset + meta.len)
}

/// Where a record lies at a place, reading the bytes there and retrieving
/// gives that record.
pub proof fn lemma_retrieved_is_record_at(file: Seq<u8>, meta: ValueMetadata)
    requires
        record_at(file, meta) is Some,
    ensures
        retrieved(meta, bytes_at(file, meta)) == Ok::<RecordModel, DbError>(
            record_at(file, meta)->Some_0,
        ),
{
    let buffer = bytes_at(file, meta);
    assert(buffer.last() == file[meta.offset + meta.len - 1]);
    assert(buffer.drop_last() =~= file.subrange(
        meta.offset as int,
        meta.offset + meta.len - 1,
    ));
}

/// Get gives the latest. In a data file that opens, and with the index
/// that opening it gives: where the last
/// line about a key is no tombstone, the index points at it, and what is
/// retrieved from the bytes at that place is the record of that line;
/// where the last line about the key is a tombstone, or there is no line
/// about it, the key is not in the index.
pub proof fn law_get_gives_latest(file: Seq<u8>, key: Seq<char>)
    requires
        log_entries(file) is Some,
    ensures
        ({
            let entries = log_entries(file)->Some_0;
            let index = replay(entries);
            match latest(entries, key) {
                Some(entry) => if entry.record.is_tombstone {
                    !index.contains_key(key)
                } else {
                    &&& index.contains_key(key)
                    &&& index[key] == entry.meta
                    &&& retrieved(index[key], bytes_at(file, index[key])) == Ok::<
                        RecordModel,
                        DbError,
                    >(entry.record)
                },
                None => !index.contains_key(key),
            }
        }),
{
    lemma_open_is_terminated(file);
    let entries = log_entries(file)->Some_0;
    law_latest_wins(entries, key);
    lemma_latest_is_entry(entries, key);
    lemma_entries_point(file, 0, Seq::<Entry>::empty());
    if let Some(entry) = latest(entries, key) {
        if !entry.record.is_tombstone {
            let i = choose|i: int| 0 <= i < entries.len() && entries[i] == entry;
            assert(record_at(file, entries[i].meta) == Some(entries[i].record));
            lemma_retrieved_is_record_at(file, entry.meta);
        }
    }
}

/// What is appended to a data file does not change the records that lie
/// in it.
pub proof fn lemma_append_keeps_record(file: Seq<u8>, more: Seq<u8>, meta: ValueMetadata)
    requires
        record_at(file, meta) is Some,
    ensures
        record_at(file + more, meta) == record_at(file, meta),
{
    let whole = file + more;
    assert(whole[meta.offset + meta.len - 1] == file[meta.offset + meta.len - 1]);
    assert(whole.subrange(meta.offset as int, meta.offset + meta.len - 1) =~= file.subrange(
        meta.offset as int,
        meta.offset + meta.len - 1,
    ));
}

/// A record whose line reads back, and was appended, lies at the place of
/// that line.
pub proof fn lemma_appended_record(file: Seq<u8>, record: RecordModel)
    requires
        reads_back(record),
        file.len() + record_line(record).len() <= u64::MAX,
    ensures
        record_at(file + record_line(record), appended_at(file, record_line(record).len()))
            == Some(record),
{
    let line = record_line(record);
    let whole = file + line;
    let meta = appended_at(file, line.len());
    assert(whole[meta.offset + meta.len - 1] == line[line.len() - 1]);
    assert(whole.subrange(meta.offset as int, meta.offset + meta.len - 1) =~= line.drop_last());
}

/// Setting keeps the index pointing at live records, where the line of
/// the record reads back: after the line of a record that is no tombstone
/// was appended and the record inserted, the index is coherent with the
/// longer file, as it was with the shorter one.
pub proof fn law_set_keeps_coherent(
    index: Map<Seq<char>, ValueMetadata>,
    file: Seq<u8>,
    record: RecordModel,
)
    requires
        coherent(index, file),
        !record.is_tombstone,
        reads_back(record),
        file.len() + record_line(record).len() <= u64::MAX,
    ensures
        coherent(
            inserted(index, record, appended_at(file, record_line(record).len())),
            file + record_line(record),
        ),
{
    let line = record_line(record);
    let meta = appended_at(file, line.len());
    let after = inserted(index, record, meta);
    lemma_appended_record(file, record);
    assert forall|k: Seq<char>| #[trigger] after.contains_key(k) implies (record_at(
        file + line,
        after[k],
    ) matches Some(r) && r.key == k && !r.is_tombstone) by {
        if k != record.key {
            assert(index.contains_key(k));
            lemma_append_keeps_record(file, line, index[k]);
        }
    }
}

/// Deleting keeps the index pointing at live records: after a key was
/// taken out, the index is coherent with the file, whatever is appended.
pub proof fn law_delete_keeps_coherent(
    index: Map<Seq<char>, ValueMetadata>,
    file: Seq<u8>,
    key: Seq<char>,
    more: Seq<u8>,
)
    requires
        coherent(index, file),
    ensures
        coherent(index.remove(key), file + more),
{
    let after = index.remove(key);
    assert forall|k: Seq<char>| #[trigger] after.contains_key(k) implies (record_at(
        file + more,
        after[k],
    ) matches Some(r) && r.key == k && !r.is_tombstone) by {
        assert(index.contains_key(k));
        lemma_append_keeps_record(file, more, index[k]);
    }
}

/// Set, then get, where the line of the record reads back. After a set,
/// the bytes at the place to which the index points for the key are read
/// as the record that was set: a get of the key gives its value.
pub proof fn law_set_then_get(
    index: Map<Seq<char>, ValueMetadata>,
    file: Seq<u8>,
    record: RecordModel,
)
    requires
        !record.is_tombstone,
        reads_back(record),
        file.len() + record_line(record).len() <= u64::MAX,
    ensures
        ({
            let line = record_line(record);
            let meta = appended_at(file, line.len());
            let after = inserted(index, record, meta);
            let whole = file + line;
            &&& after.contains_key(record.key)
            &&& after[record.key] == meta
            &&& retrieved(meta, bytes_at(whole, meta)) == Ok::<RecordModel, DbError>(record)
        }),
{
    let line = record_line(record);
    let meta = appended_at(file, line.len());
    let whole = file + line;
    let buffer = bytes_at(whole, meta);
    assert(buffer =~= line);
}

/// Deleting twice. After a key was deleted it is not in the index: a
/// second delete finds nothing, changes nothing and appends nothing.
pub proof fn law_delete_twice(index: Map<Seq<char>, ValueMetadata>, key: Seq<char>)
    ensures
        !index.remove(key).contains_key(key),
        index.remove(key).remove(key) == index.remove(key),
{
    assert(index.remove(key).remove(key) =~= index.remove(key));
}

/// The lines of a file to which the line of a record was appended are the
/// lines of the file, and that line.
proof fn lemma_entries_appended(file: Seq<u8>, record: RecordModel, offset: int, done: Seq<Entry>)
    requires
        well_terminated(file),
        0 <= offset <= file.len(),
        reads_back(record),
        file.len() + record_line(record).len() <= u64::MAX,
    ensures
        entries_from(file + record_line(record), offset, done) == match entries_from(
            file,
            offset,
            done,
        ) {
            Some(all) => Some(
                all.push(
                    Entry { record, meta: appended_at(file, record_line(record).len()) },
                ),
            ),
            None => None,
        },
    decreases file.len() + 1 - offset,
{
    let line = record_line(record);
    let whole = file + line;
    if offset < file.len() {
        lemma_line_stop_inside(file, offset);
        lemma_line_stop_prefix(file, line, offset);
        let end = line_stop(file, offset);
        assert(whole.subrange(offset, end) =~= file.subrange(offset, end));
        if end + 1 <= u64::MAX {
            if let Some(r) = record_of_line(file.subrange(offset, end)) {
                lemma_entries_appended(
                    file,
                    record,
                    end + 1,
                    done.push(Entry { record: r, meta: place(offset, end) }),
                );
            }
        }
    } else {
        let end = file.len() + line.len() - 1;
        assert(whole[end] == line[line.len() - 1]);
        assert forall|i: int| offset <= i < end implies whole[i] != 10 by {
            assert(whole[i] == line[i - file.len()]);
        }
        lemma_line_stop_is(whole, offset, end);
        assert(whole.subrange(offset, end) =~= line.drop_last());
        let entry = Entry { record, meta: place(offset, end) };
        assert(entry.meta == appended_at(file, line.len()));
        assert(entries_from(whole, end + 1, done.push(entry)) == Some(done.push(entry)));
    }
}

/// The first newline at or after `from` is where the line ends.
proof fn lemma_line_stop_is(file: Seq<u8>, from: int, end: int)
    requires
        0 <= from <= end < file.len(),
        file[end] == 10,
        forall|i: int| from <= i < end ==> file[i] != 10,
    ensures
        line_stop(file, from) == end,
    decreases end - from,
{
    if from < end {
        lemma_line_stop_is(file, from + 1, end);
    }
}

/// Opening after an append. Where an engine holds the index of a data
/// file that opens, and the line of a record is appended that reads back,
/// opening the longer file gives the index that
/// the engine holds after it has taken note of the record: for a set the
/// index with the key at the new place, for the tombstone of a delete the
/// index without the key.
pub proof fn law_open_after_append(file: Seq<u8>, record: RecordModel)
    requires
        log_entries(file) is Some,
        reads_back(record),
        file.len() + record_line(record).len() <= u64::MAX,
    ensures
        ({
            let entry = Entry { record, meta: appended_at(file, record_line(record).len()) };
            let held = replay(log_entries(file)->Some_0);
            &&& well_terminated(file + record_line(record))
            &&& log_entries(file + record_line(record)) == Some(
                log_entries(file)->Some_0.push(entry),
            )
            &&& replay(log_entries(file + record_line(record))->Some_0) == apply_entry(held, entry)
            &&& !record.is_tombstone ==> apply_entry(held, entry) == inserted(
                held,
                record,
                entry.meta,
            )
            &&& record.is_tombstone ==> apply_entry(held, entry) == held.remove(record.key)
        }),
{
    lemma_open_is_terminated(file);
    let entries = log_entries(file)->Some_0;
    let entry = Entry { record, meta: appended_at(file, record_line(record).len()) };
    lemma_entries_appended(file, record, 0, Seq::<Entry>::empty());
    assert(entries.push(entry).drop_last() =~= entries);
    let line = record_line(record);
    assert((file + line).last() == line.last());
}


/// The lines of the data file that compaction writes for the first `n` of
/// `records`: each record at the place where the file ended before it.
pub open spec fn rewritten_entries(records: Seq<RecordModel>, n: nat) -> Seq<Entry>
    decreases n,
{
    if n == 0 || n > records.len() {
        Seq::<Entry>::empty()
    } else {
        rewritten_entries(records, (n - 1) as nat).push(
            Entry {
                record: records[n - 1],
                meta: appended_at(
                    rewritten_file(records, (n - 1) as nat),
                    record_line(records[n - 1]).len(),
                ),
            },
        )
    }
}

/// The rewritten file grows with every record.
proof fn lemma_rewritten_file_grows(records: Seq<RecordModel>, j: nat, n: nat)
    requires
        j <= n <= records.len(),
    ensures
        rewritten_file(records, j).len() <= rewritten_file(records, n).len(),
    decreases n - j,
{
    if j < n {
        lemma_rewritten_file_grows(records, j, (n - 1) as nat);
    }
}

/// What compaction leaves behind, for the first `n` records.
proof fn lemma_compaction(index: Map<Seq<char>, ValueMetadata>, records: Seq<RecordModel>, n: nat)
    requires
        n <= records.len(),
        forall|i: int|
            0 <= i < records.len() ==> reads_back(#[trigger] records[i])
                && !records[i].is_tombstone,
        rewritten_file(records, records.len()).len() <= u64::MAX,
    ensures
        well_terminated(rewritten_file(records, n)),
        log_entries(rewritten_file(records, n)) == Some(rewritten_entries(records, n)),
        rewritten_entries(records, n).len() == n,
        forall|i: int|
            0 <= i < n ==> (#[trigger] rewritten_entries(records, n)[i]).record == records[i],
        rewritten_index(index, records, n) == index.union_prefer_right(
            replay(rewritten_entries(records, n)),
        ),
        forall|i: int|
            0 <= i < n ==> replay(rewritten_entries(records, n)).contains_key(
                (#[trigger] records[i]).key,
            ),
    decreases n,
{
    let none = Map::<Seq<char>, ValueMetadata>::empty();
    if n == 0 {
        assert(index.union_prefer_right(none) =~= index);
    } else {
        let m = (n - 1) as nat;
        lemma_compaction(index, records, m);
        lemma_rewritten_file_grows(records, n, records.len());
        let file = rewritten_file(records, m);
        let record = records[n - 1];
        let before = rewritten_entries(records, m);
        let now = rewritten_entries(records, n);
        assert(reads_back(record) && !record.is_tombstone);
        law_open_after_append(file, record);
        let entry = Entry { record, meta: appended_at(file, record_line(record).len()) };
        assert(now == before.push(entry));
        assert(now.drop_last() =~= before);
        assert(replay(now) == replay(before).insert(record.key, entry.meta));
        assert(index.union_prefer_right(replay(before)).insert(record.key, entry.meta)
            =~= index.union_prefer_right(replay(now)));
        assert forall|i: int| 0 <= i < n implies (#[trigger] now[i]).record == records[i] by {
            if i < m {
                assert(now[i] == before[i]);
            }
        }
        assert forall|i: int| 0 <= i < n implies replay(now).contains_key(
            (#[trigger] records[i]).key,
        ) by {
            if i < m {
                assert(replay(before).contains_key(records[i].key));
            }
        }
    }
}

/// Compaction. Where the records that were retrieved are live records
/// whose lines read back, one for each key of the index, the file that
/// compaction writes holds
/// one line for each of them and nothing else, in the order of the walk;
/// opening that file gives the index that compaction leaves; and that
/// index points at live records of its keys.
pub proof fn law_compaction(index: Map<Seq<char>, ValueMetadata>, records: Seq<RecordModel>)
    requires
        forall|i: int|
            0 <= i < records.len() ==> reads_back(#[trigger] records[i])
                && !records[i].is_tombstone,
        forall|k: Seq<char>| #[trigger]
            index.contains_key(k) ==> exists|i: int|
                0 <= i < records.len() && (#[trigger] records[i]).key == k,
        rewritten_file(records, records.len()).len() <= u64::MAX,
    ensures
        ({
            let file = rewritten_file(records, records.len());
            let left = rewritten_index(index, records, records.len());
            &&& log_entries(file) matches Some(entries) && entries.len() == records.len()
                && replay(entries) == left && forall|i: int|
                0 <= i < entries.len() ==> (#[trigger] entries[i]).record == records[i]
            &&& coherent(left, file)
        }),
{
    let n = records.len();
    let file = rewritten_file(records, n);
    let entries = rewritten_entries(records, n);
    lemma_compaction(index, records, n);
    assert(index.union_prefer_right(replay(entries)) =~= replay(entries)) by {
        assert forall|k: Seq<char>| index.contains_key(k) implies replay(entries).contains_key(
            k,
        ) by {
            let i = choose|i: int| 0 <= i < records.len() && (#[trigger] records[i]).key == k;
            assert(replay(entries).contains_key(records[i].key));
        }
    }
    law_open_is_coherent(file);
}


/// An engine and its data file, as the statements below see them.
pub struct Store {
    pub index: Map<Seq<char>, ValueMetadata>,
    pub file: Seq<u8>,
}

/// What an engine does to its data file and its index.
pub enum Operation {
    /// A set: the line of the record is appended and the record inserted.
    Put(RecordModel),
    /// A delete: where the key of the tombstone is live, it is taken out of
    /// the index and the line of the tombstone is appended.
    Delete(RecordModel),
    /// A compaction that walks the keys of the index in this order.
    Compact(Seq<Seq<char>>),
}

/// The records that lie at the places of the index, key by key of `order`.
pub open spec fn records_at(store: Store, order: Seq<Seq<char>>) -> Seq<RecordModel> {
    Seq::new(order.len(), |i: int| record_at(store.file, store.index[order[i]])->Some_0)
}

/// Whether the engine can take the operation: a set comes with a record
/// that is no tombstone, a delete with one that is, and the line of either
/// reads back; a compaction comes with a walk over the keys of the index;
/// and the data file stays short enough for its places to be written in 64
/// bits.
pub open spec fn allowed(store: Store, op: Operation) -> bool {
    match op {
        Operation::Put(record) => !record.is_tombstone && reads_back(record) && store.file.len()
            + record_line(record).len() <= u64::MAX,
        Operation::Delete(tombstone) => tombstone.is_tombstone && reads_back(tombstone)
            && store.file.len() + record_line(tombstone).len() <= u64::MAX,
        Operation::Compact(order) => {
            &&& forall|k: Seq<char>| store.index.contains_key(k) <==> order.contains(k)
            &&& rewritten_file(records_at(store, order), order.len()).len() <= u64::MAX
        },
    }
}

/// The engine and its data file after an operation.
pub open spec fn after(store: Store, op: Operation) -> Store {
    match op {
        Operation::Put(record) => Store {
            index: inserted(
                store.index,
                record,
                appended_at(store.file, record_line(record).len()),
            ),
            file: store.file + record_line(record),
        },
        Operation::Delete(tombstone) => if store.index.contains_key(tombstone.key) {
            Store {
                index: store.index.remove(tombstone.key),
                file: store.file + record_line(tombstone),
            }
        } else {
            store
        },
        Operation::Compact(order) => Store {
            index: rewritten_index(store.index, records_at(store, order), order.len()),
            file: rewritten_file(records_at(store, order), order.len()),
        },
    }
}

/// The engine and its data file after the operations `ops`, one after the
/// other, on an empty data file.
pub open spec fn after_all(ops: Seq<Operation>) -> Store
    decreases ops.len(),
{
    if ops.len() == 0 {
        Store { index: Map::<Seq<char>, ValueMetadata>::empty(), file: Seq::<u8>::empty() }
    } else {
        after(after_all(ops.drop_last()), ops.last())
    }
}

/// Whether the engine can take each of `ops` in its turn.
pub open spec fn all_allowed(ops: Seq<Operation>) -> bool
    decreases ops.len(),
{
    ops.len() > 0 ==> all_allowed(ops.drop_last()) && allowed(
        after_all(ops.drop_last()),
        ops.last(),
    )
}

/// Whether the index and the data file agree: every line has its newline,
/// every line is a record that reads back, opening the file gives the
/// index, and the index points at live records of its keys.
pub open spec fn in_step(store: Store) -> bool {
    &&& well_terminated(store.file)
    &&& log_entries(store.file) matches Some(entries) && replay(entries) == store.index
        && forall|i: int| 0 <= i < entries.len() ==> reads_back((#[trigger] entries[i]).record)
    &&& coherent(store.index, store.file)
}

/// One operation keeps the index and the data file in step.
pub proof fn lemma_step_keeps_in_step(store: Store, op: Operation)
    requires
        in_step(store),
        allowed(store, op),
    ensures
        in_step(after(store, op)),
{
    let entries = log_entries(store.file)->Some_0;
    match op {
        Operation::Put(record) => {
            law_open_after_append(store.file, record);
            law_set_keeps_coherent(store.index, store.file, record);
            let entry = Entry { record, meta: appended_at(store.file, record_line(record).len()) };
            let now = entries.push(entry);
            assert forall|i: int| 0 <= i < now.len() implies reads_back(
                (#[trigger] now[i]).record,
            ) by {
                if i < entries.len() {
                    assert(now[i] == entries[i]);
                }
            }
        },
        Operation::Delete(tombstone) => {
            if store.index.contains_key(tombstone.key) {
                law_open_after_append(store.file, tombstone);
                law_delete_keeps_coherent(
                    store.index,
                    store.file,
                    tombstone.key,
                    record_line(tombstone),
                );
                let entry = Entry {
                    record: tombstone,
                    meta: appended_at(store.file, record_line(tombstone).len()),
                };
                let now = entries.push(entry);
                assert forall|i: int| 0 <= i < now.len() implies reads_back(
                    (#[trigger] now[i]).record,
                ) by {
                    if i < entries.len() {
                        assert(now[i] == entries[i]);
                    }
                }
            }
        },
        Operation::Compact(order) => {
            let records = records_at(store, order);
            assert forall|i: int| 0 <= i < records.len() implies reads_back(#[trigger] records[i])
                && !records[i].is_tombstone && records[i].key == order[i] by {
                let k = order[i];
                assert(order.contains(k));
                assert(store.index.contains_key(k));
                law_get_gives_latest(store.file, k);
                lemma_latest_is_entry(entries, k);
                let e = latest(entries, k)->Some_0;
                let j = choose|j: int| 0 <= j < entries.len() && entries[j] == e;
                assert(reads_back(entries[j].record));
                lemma_entries_point(store.file, 0, Seq::<Entry>::empty());
                assert(record_at(store.file, entries[j].meta) == Some(entries[j].record));
            }
            assert forall|k: Seq<char>| #[trigger] store.index.contains_key(k) implies exists|
                i: int,
            |
                0 <= i < records.len() && (#[trigger] records[i]).key == k by {
                assert(order.contains(k));
                let i = choose|i: int| 0 <= i < order.len() && order[i] == k;
                assert(records[i].key == k);
            }
            law_compaction(store.index, records);
        },
    }
}

/// The index and the data file stay in step. Whatever sets, deletes and
/// compactions an engine performs on an empty data file, one after the
/// other: afterwards every line of the file is a record, opening the file
/// gives the index that the engine holds, and the index points at live
/// records of its keys. This holds where the line of each record that is
/// set, and of each tombstone, reads back.
pub proof fn law_engine_stays_in_step(ops: Seq<Operation>)
    requires
        all_allowed(ops),
    ensures
        in_step(after_all(ops)),
    decreases ops.len(),
{
    if ops.len() == 0 {
        let none = Seq::<u8>::empty();
        assert(log_entries(none) == Some(Seq::<Entry>::empty()));
    } else {
        law_engine_stays_in_step(ops.drop_last());
        lemma_step_keeps_in_step(after_all(ops.drop_last()), ops.last());
    }
}

} // verus!
