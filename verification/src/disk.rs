//! The trusted boundary to the durable services: the append-only log
//! (`commitlog`), the immutable sorted table (`sstable`), and the temporary
//! file used to build a new table atomically (`tempfile`).
//!
//! Verus believes the contracts below without proof. Each states, over the
//! uninterpreted content names `log_records`, `table_entry_list`,
//! `builder_entries` and `temp_table_entries`, what the named crate's source
//! shows of the call. The engine writes every log record and every table
//! file it later reads; the contracts describe files produced that way and
//! left undisturbed, which is the exclusive-ownership assumption the engine
//! is specified under.

use vstd::prelude::*;
use std::io::Write;
use commitlog::message::MessageSet;
use sstable::SSIterator;
use crate::keys::{lex_lt, sorted_strict, entry_keys, pairs_view};

verus! {

#[verifier::external_type_specification]
#[verifier::external_body]
pub struct ExCommitLog(commitlog::CommitLog);

#[verifier::external_type_specification]
#[verifier::external_body]
pub struct ExTable(sstable::Table);

#[verifier::external_type_specification]
#[verifier::external_body]
pub struct ExPathBuf(std::path::PathBuf);

/// An exclusive temporary file in the database directory, holding the table
/// image being built. Opaque: `tempfile::NamedTempFile` behind it.
#[verifier::external_body]
pub struct TempTableFile {
    inner: tempfile::NamedTempFile,
}

/// A sorted-table builder writing its image into a [`TempTableFile`].
/// Opaque: `sstable::TableBuilder` behind it.
#[verifier::external_body]
pub struct TableWriter {
    inner: sstable::TableBuilder<Box<dyn Write>>,
}

/// The payloads stored in the log, in append order, as `commitlog` reads
/// them back after a flush.
pub uninterp spec fn log_records(l: commitlog::CommitLog) -> Seq<Seq<u8>>;

/// The key/value entries of a sorted table, in the table file's own order.
pub uninterp spec fn table_entry_list(t: sstable::Table) -> Seq<(Seq<u8>, Seq<u8>)>;

/// The entries added to a table builder so far, in the order added.
pub uninterp spec fn builder_entries(b: TableWriter) -> Seq<(Seq<u8>, Seq<u8>)>;

/// Whether the builder writes its table image into the given temp file.
pub uninterp spec fn builder_writes_to(b: TableWriter, f: TempTableFile) -> bool;

/// The entries of the finished table image held by a temp file.
pub uninterp spec fn temp_table_entries(f: TempTableFile) -> Seq<(Seq<u8>, Seq<u8>)>;

/// Relies on `CommitLog::append_msg`: on success the payload is stored as
/// one new record after all earlier ones. On failure nothing is promised;
/// the caller must treat the log as suspect.
#[verifier::external_body]
pub fn log_append(log: &mut commitlog::CommitLog, payload: &Vec<u8>) -> (r: Result<(), ()>)
    ensures
        r is Ok ==> log_records(*final(log)) == log_records(*old(log)).push(payload@),
{
    match log.append_msg(payload.as_slice()) {
        Ok(_) => Ok(()),
        Err(_) => Err(()),
    }
}

/// Relies on `CommitLog::flush`: forces the appended records to stable
/// storage and stores nothing new.
#[verifier::external_body]
pub fn log_flush(log: &mut commitlog::CommitLog) -> (r: Result<(), ()>)
    ensures
        r is Ok ==> log_records(*final(log)) == log_records(*old(log)),
{
    match log.flush() {
        Ok(()) => Ok(()),
        Err(_) => Err(()),
    }
}

/// Relies on `CommitLog::next_offset`: offsets count appended messages from
/// zero, so the next offset of a log grown only by appends is its record
/// count.
#[verifier::external_body]
pub fn log_len(log: &commitlog::CommitLog) -> (r: u64)
    ensures
        r == log_records(*log).len(),
{
    log.next_offset()
}

/// Relies on `CommitLog::read`: returns a consecutive run of stored records
/// beginning at `start` — empty when `start` is past the end, otherwise at
/// least one record, or an error.
#[verifier::external_body]
pub fn log_read_chunk(log: &commitlog::CommitLog, start: u64) -> (r: Result<Vec<Vec<u8>>, ()>)
    ensures
        r matches Ok(msgs) ==> if start >= log_records(*log).len() {
            msgs@.len() == 0
        } else {
            &&& 1 <= msgs@.len()
            &&& start + msgs@.len() <= log_records(*log).len()
            &&& forall|i: int|
                0 <= i < msgs@.len() ==> (#[trigger] msgs@[i])@ == log_records(*log)[start + i]
        },
{
    let buf = match log.read(start, commitlog::ReadLimit::max_bytes(4 * 1024 * 1024)) {
        Ok(buf) => buf,
        Err(_) => return Err(()),
    };
    let mut out: Vec<Vec<u8>> = Vec::new();
    for msg in buf.iter() {
        out.push(msg.payload().to_vec());
    }
    Ok(out)
}

/// Relies on `Table::get` with the default byte-wise comparator: returns the
/// value stored under the key, or `None` when the table holds none.
#[verifier::external_body]
pub fn table_get(t: &sstable::Table, key: &Vec<u8>) -> (r: Result<Option<Vec<u8>>, ()>)
    ensures
        r matches Ok(o) ==> match o {
            Some(v) => crate::keys::assoc_get(table_entry_list(*t), key@) == Some(v@),
            None => crate::keys::assoc_get(table_entry_list(*t), key@) is None,
        },
{
    match t.get(key.as_slice()) {
        Ok(Some(v)) => Ok(Some(v)),
        Ok(None) => Ok(None),
        Err(_) => Err(()),
    }
}

/// Relies on `Table::iter`: yields every entry of the table, in the strictly
/// ascending byte-wise key order that the builder enforced when the table
/// was written.
#[verifier::external_body]
pub fn table_to_vec(t: &sstable::Table) -> (r: Vec<(Vec<u8>, Vec<u8>)>)
    ensures
        pairs_view(r@) == table_entry_list(*t),
        sorted_strict(entry_keys(pairs_view(r@))),
{
    let mut it = t.iter();
    let mut out: Vec<(Vec<u8>, Vec<u8>)> = Vec::new();
    while it.advance() {
        if let Some((k, v)) = sstable::current_key_val(&it) {
            out.push((k, v));
        }
    }
    out
}

/// Relies on `NamedTempFile::new_in`: a fresh exclusive temporary file in
/// the given directory.
#[verifier::external_body]
pub fn temp_file_in(dir: &std::path::PathBuf) -> (r: Result<TempTableFile, ()>)
    no_unwind
{
    match tempfile::NamedTempFile::new_in(dir.as_path()) {
        Ok(f) => Ok(TempTableFile { inner: f }),
        Err(_) => Err(()),
    }
}

/// Relies on `TableBuilder::new` and `NamedTempFile::reopen`: a builder
/// with no entries yet, writing its table image into the given temp file
/// through a reopened handle of the same file.
#[verifier::external_body]
pub fn builder_new(f: &TempTableFile) -> (r: Result<TableWriter, ()>)
    ensures
        r matches Ok(b) ==> builder_entries(b) == Seq::<(Seq<u8>, Seq<u8>)>::empty()
            && builder_writes_to(b, *f),
{
    let dst: Box<dyn Write> = match f.inner.reopen() {
        Ok(file) => Box::new(file),
        Err(_) => return Err(()),
    };
    Ok(TableWriter { inner: sstable::TableBuilder::new(sstable::Options::default(), dst) })
}

/// Relies on `TableBuilder::add`: appends one entry. The builder asserts
/// that keys arrive in strictly ascending order, so the caller must add a
/// key above every earlier one.
#[verifier::external_body]
pub fn builder_add(b: &mut TableWriter, key: &Vec<u8>, val: &Vec<u8>) -> (r: Result<(), ()>)
    requires
        forall|i: int|
            0 <= i < builder_entries(*old(b)).len() ==> lex_lt(
                (#[trigger] builder_entries(*old(b))[i]).0,
                key@,
            ),
    ensures
        r is Ok ==> builder_entries(*final(b)) == builder_entries(*old(b)).push((key@, val@)),
        forall|f: TempTableFile|
            builder_writes_to(*old(b), f) ==> builder_writes_to(*final(b), f),
{
    match b.inner.add(key.as_slice(), val.as_slice()) {
        Ok(()) => Ok(()),
        Err(_) => Err(()),
    }
}

/// Relies on `TableBuilder::finish`: writes the remaining blocks, index and
/// footer, leaving in the temp file a complete table image holding exactly
/// the entries added.
#[verifier::external_body]
pub fn builder_finish(f: &TempTableFile, b: TableWriter) -> (r: Result<(), ()>)
    requires
        builder_writes_to(b, *f),
    ensures
        r is Ok ==> temp_table_entries(*f) == builder_entries(b),
{
    match b.inner.finish() {
        Ok(_) => Ok(()),
        Err(_) => Err(()),
    }
}

/// Relies on `NamedTempFile::persist` (an atomic rename onto `dst`) and
/// `Table::new`: the persisted file is the very file the builder finished,
/// so the opened table holds the temp file's entries.
#[verifier::external_body]
pub fn persist_and_open(tmp: TempTableFile, dst: &std::path::PathBuf) -> (r: Result<
    sstable::Table,
    (),
>)
    ensures
        r matches Ok(t) ==> table_entry_list(t) == temp_table_entries(tmp),
{
    let file = match tmp.inner.persist(dst.as_path()) {
        Ok(f) => f,
        Err(_) => return Err(()),
    };
    let size = match file.metadata() {
        Ok(m) => m.len() as usize,
        Err(_) => return Err(()),
    };
    match sstable::Table::new(sstable::Options::default(), Box::new(file), size) {
        Ok(t) => Ok(t),
        Err(_) => Err(()),
    }
}

/// Relies on `Table::new_from_file`: opens whatever table file sits at the
/// path; nothing is known of its entries.
#[verifier::external_body]
pub fn open_table(path: &std::path::PathBuf) -> (r: Result<sstable::Table, ()>)
    no_unwind
{
    match sstable::Table::new_from_file(sstable::Options::default(), path.as_path()) {
        Ok(t) => Ok(t),
        Err(_) => Err(()),
    }
}

/// Relies on `Path::join`.
#[verifier::external_body]
pub fn path_join(dir: &std::path::PathBuf, name: &str) -> (r: std::path::PathBuf)
    no_unwind
{
    dir.join(name)
}

/// Relies on `Path::exists`.
#[verifier::external_body]
pub fn path_exists(p: &std::path::PathBuf) -> (r: bool)
    no_unwind
{
    p.as_path().exists()
}

} // verus!
