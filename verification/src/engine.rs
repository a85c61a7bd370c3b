//! The storage engine: recovery by replay, point reads, create-only
//! inserts, presence-checked deletes, and compaction.
//!
//! The engine owns a durable log, a sorted base table, and the in-memory
//! pending index. Its invariant ties the three together: the log holds
//! exactly the encodings of the operations applied since the last
//! compaction, and the pending index is their replay. A key's effective
//! value is its base-table value with its pending run applied in order.

use vstd::prelude::*;
use crate::ops::{Operation, OperationModel, apply_ops, apply_run, opt_view};
use crate::codec::{encode, decode, encode_spec, decode_spec, lemma_decode_strict};
use crate::keys::{assoc_get, sorted_strict, entry_keys, pairs_view, clone_bytes, lex_lt};
use crate::pending::{PendingIndex, pending_of, pend_insert, lemma_pend_insert_get,
    lemma_pend_insert_wf};
use crate::disk::{log_records, table_entry_list, log_append, log_flush, log_len, log_read_chunk,
    table_get, table_to_vec, temp_file_in, builder_new, builder_add, builder_finish,
    persist_and_open, open_table, path_join, path_exists};
use crate::merge::merge_tables;

verus! {

/// A storage-integrity or lifecycle failure. Logical outcomes — a missing
/// key, a duplicate key — are reported as values, never as errors.
#[derive(Debug, PartialEq, Eq)]
pub enum EngineError {
    /// An outside call (log, table, or file system) failed; if the log may
    /// have been touched the engine poisons itself.
    Io,
    /// A log record did not decode: the persisted state cannot be trusted.
    Corrupt,
    /// The durable log is stale after compaction: mutations are refused
    /// until a fresh, empty log is installed.
    StaleLog,
    /// A log handed to `install_fresh_log` still holds records.
    LogNotEmpty,
}

/// The verified storage engine.
pub struct Engine {
    pub log: commitlog::CommitLog,
    pub table: sstable::Table,
    pub dir: std::path::PathBuf,
    pub table_path: std::path::PathBuf,
    pub pending: PendingIndex,
    /// The operations applied since the last compaction, in order.
    pub history: Ghost<Seq<OperationModel>>,
    /// Set between `compact_tables` and `install_fresh_log`: the log still
    /// holds the folded-away records.
    pub log_stale: bool,
    /// Set after an outside failure that may have left the log inconsistent.
    pub failed: bool,
}

impl Engine {
    /// Neither poisoned nor awaiting a fresh log.
    pub open spec fn ready(self) -> bool {
        !self.failed && !self.log_stale
    }

    /// The engine invariant.
    pub open spec fn wf(self) -> bool {
        &&& self.pending.wf()
        &&& (forall|i: int|
            0 <= i < self.history@.len() ==> (#[trigger] self.history@[i]).fits())
        &&& self.pending@ == pending_of(self.history@)
        &&& self.ready() ==> log_records(self.log) == self.history@.map_values(
            |op: OperationModel| encode_spec(op),
        )
        &&& self.log_stale ==> self.history@.len() == 0
    }

    /// The base table's entries.
    pub open spec fn base(self) -> Seq<(Seq<u8>, Seq<u8>)> {
        table_entry_list(self.table)
    }

    /// The pending run for a key, oldest first; empty when none.
    pub open spec fn pending_run(self, k: Seq<u8>) -> Seq<OperationModel> {
        crate::pending::run_of(self.pending@, k)
    }

    /// The effective value of a key: its base-table value with the key's
    /// pending run applied in order.
    pub open spec fn effective(self, k: Seq<u8>) -> Option<Seq<u8>> {
        apply_ops(assoc_get(self.base(), k), self.pending_run(k))
    }

    /// Open an engine over a database directory and its durable log:
    /// create an empty base table if none exists, then rebuild the pending
    /// index by replaying every log record through the codec.
    pub fn open(dir: std::path::PathBuf, log: commitlog::CommitLog) -> (r: Result<
        Engine,
        EngineError,
    >)
        ensures
            r matches Ok(e) ==> {
                &&& e.wf()
                &&& e.ready()
                &&& log_records(e.log) == log_records(log)
            },
            r matches Err(er) ==> er == EngineError::Io || er == EngineError::Corrupt,
            r == Err::<Engine, EngineError>(EngineError::Corrupt) ==> exists|i: int|
                0 <= i < log_records(log).len() && decode_spec(
                    #[trigger] log_records(log)[i],
                ) is None,
    {
        let table_path = path_join(&dir, "sstable");
        let table: sstable::Table;
        if path_exists(&table_path) {
            table = match open_table(&table_path) {
                Ok(t) => t,
                Err(_) => return Err(EngineError::Io),
            };
        } else {
            // a table with zero entries is a valid, openable table
            let tmp = match temp_file_in(&dir) {
                Ok(f) => f,
                Err(_) => return Err(EngineError::Io),
            };
            let w = match builder_new(&tmp) {
                Ok(w) => w,
                Err(_) => return Err(EngineError::Io),
            };
            match builder_finish(&tmp, w) {
                Ok(()) => (),
                Err(_) => return Err(EngineError::Io),
            }
            table = match persist_and_open(tmp, &table_path) {
                Ok(t) => t,
                Err(_) => return Err(EngineError::Io),
            };
        }
        let records = match read_log_all(&log) {
            Ok(v) => v,
            Err(e) => return Err(e),
        };
        let mut pending = PendingIndex::new();
        let ghost mut hist: Seq<OperationModel> = Seq::empty();
        let n = records.len();
        let mut idx: usize = 0;
        while idx < n
            invariant
                idx <= n,
                n == records@.len(),
                records@.map_values(|x: Vec<u8>| x@) == log_records(log),
                pending.wf(),
                pending@ == pending_of(hist),
                hist.len() == idx,
                forall|i: int| 0 <= i < hist.len() ==> (#[trigger] hist[i]).fits(),
                forall|i: int|
                    0 <= i < idx ==> records@[i]@ == encode_spec(#[trigger] hist[i]),
            decreases n - idx,
        {
            match decode(&records[idx]) {
                None => {
                    proof {
                        assert(log_records(log)[idx as int] == records@[idx as int]@);
                        assert(decode_spec(log_records(log)[idx as int]) is None);
                    }
                    return Err(EngineError::Corrupt);
                },
                Some(op) => {
                    proof {
                        lemma_decode_strict(records@[idx as int]@);
                        assert(hist.push(op@).drop_last() =~= hist);
                    }
                    pending.push_op(op);
                    proof {
                        hist = hist.push(op@);
                    }
                },
            }
            idx = idx + 1;
        }
        let e = Engine {
            log,
            table,
            dir,
            table_path,
            pending,
            history: Ghost(hist),
            log_stale: false,
            failed: false,
        };
        proof {
            assert(log_records(e.log) =~= hist.map_values(|op: OperationModel| encode_spec(op)));
        }
        Ok(e)
    }

    /// The effective value of `key`, straight from the base table and the
    /// pending index. No side effects and no log writes.
    pub fn select(&self, key: &Vec<u8>) -> (r: Result<Option<Vec<u8>>, EngineError>)
        requires
            self.wf(),
        ensures
            r matches Ok(v) ==> opt_view(v) == self.effective(key@),
            r matches Err(e) ==> e == EngineError::Io,
    {
        let base = match table_get(&self.table, key) {
            Ok(o) => o,
            Err(_) => return Err(EngineError::Io),
        };
        match self.pending.get_ops(key) {
            Some(ops) => Ok(apply_run(base, ops)),
            None => {
                proof {
                    assert(self.pending_run(key@).len() == 0);
                }
                Ok(base)
            },
        }
    }

    /// Append one operation durably (append, then flush, then index), and
    /// record it in the pending index. Poisons the engine if the log cannot
    /// be trusted afterwards.
    fn append_op(&mut self, op: Operation) -> (r: Result<(), EngineError>)
        requires
            old(self).wf(),
            old(self).ready(),
        ensures
            final(self).wf(),
            final(self).table == old(self).table,
            r is Ok ==> {
                &&& final(self).ready()
                &&& final(self).history@ == old(self).history@.push(op@)
                &&& final(self).pending@ == pend_insert(old(self).pending@, op@)
            },
            r matches Err(e) ==> e == EngineError::Io && final(self).failed
                && final(self).pending@ == old(self).pending@,
    {
        let rec = encode(&op);
        match log_append(&mut self.log, &rec) {
            Ok(()) => (),
            Err(_) => {
                self.failed = true;
                return Err(EngineError::Io);
            },
        }
        match log_flush(&mut self.log) {
            Ok(()) => (),
            Err(_) => {
                self.failed = true;
                return Err(EngineError::Io);
            },
        }
        proof {
            lemma_pend_insert_wf(self.pending@, op@);
            assert(old(self).history@.push(op@).drop_last() =~= old(self).history@);
        }
        self.pending.push_op(op);
        proof {
            self.history@ = self.history@.push(op@);
            assert(log_records(self.log) =~= self.history@.map_values(
                |o: OperationModel| encode_spec(o),
            ));
        }
        Ok(())
    }

    /// Create-only insert: succeeds exactly when `key` currently has no
    /// effective value, and then makes `val` its effective value. The log
    /// flush completes before the index is updated and before success is
    /// reported.
    pub fn insert(&mut self, key: &Vec<u8>, val: &Vec<u8>) -> (r: Result<bool, EngineError>)
        requires
            old(self).wf(),
        ensures
            final(self).wf(),
            old(self).failed ==> r == Err::<bool, EngineError>(EngineError::Io) && *final(self)
                == *old(self),
            !old(self).failed && old(self).log_stale ==> r == Err::<bool, EngineError>(
                EngineError::StaleLog,
            ) && *final(self) == *old(self),
            r matches Ok(b) ==> old(self).ready() && (b <==> old(self).effective(key@) is None),
            r == Ok::<bool, EngineError>(false) ==> *final(self) == *old(self),
            r == Ok::<bool, EngineError>(true) ==> {
                &&& final(self).ready()
                &&& final(self).effective(key@) == Some(val@)
                &&& forall|q: Seq<u8>|
                    q != key@ ==> final(self).effective(q) == old(self).effective(q)
                &&& final(self).base() == old(self).base()
                &&& final(self).history@ == old(self).history@.push(
                    OperationModel::Insert { key: key@, val: val@ },
                )
            },
            r matches Err(e) ==> (e == EngineError::Io || e == EngineError::StaleLog)
                && (final(self).failed || *final(self) == *old(self)),
    {
        if self.failed {
            return Err(EngineError::Io);
        }
        if self.log_stale {
            return Err(EngineError::StaleLog);
        }
        let cur = match self.select(key) {
            Ok(v) => v,
            Err(e) => return Err(e),
        };
        if cur.is_some() {
            return Ok(false);
        }
        let op = Operation::Insert { key: clone_bytes(key), val: clone_bytes(val) };
        let ghost pre = *self;
        match self.append_op(op) {
            Ok(()) => (),
            Err(e) => return Err(e),
        }
        proof {
            lemma_pend_insert_get(pre.pending@, OperationModel::Insert { key: key@, val: val@ },
                key@);
            crate::ops::lemma_apply_ops_push(
                assoc_get(pre.base(), key@),
                pre.pending_run(key@),
                OperationModel::Insert { key: key@, val: val@ },
            );
            assert forall|q: Seq<u8>| q != key@ implies self.effective(q) == pre.effective(q) by {
                lemma_pend_insert_get(pre.pending@, OperationModel::Insert {
                    key: key@,
                    val: val@,
                }, q);
            }
        }
        Ok(true)
    }

    /// Presence-checked delete: succeeds exactly when `key` currently has a
    /// present effective value, and then clears it to absent.
    pub fn delete(&mut self, key: &Vec<u8>) -> (r: Result<bool, EngineError>)
        requires
            old(self).wf(),
        ensures
            final(self).wf(),
            old(self).failed ==> r == Err::<bool, EngineError>(EngineError::Io) && *final(self)
                == *old(self),
            !old(self).failed && old(self).log_stale ==> r == Err::<bool, EngineError>(
                EngineError::StaleLog,
            ) && *final(self) == *old(self),
            r matches Ok(b) ==> old(self).ready() && (b <==> old(self).effective(key@) is Some),
            r == Ok::<bool, EngineError>(false) ==> *final(self) == *old(self),
            r == Ok::<bool, EngineError>(true) ==> {
                &&& final(self).ready()
                &&& final(self).effective(key@) is None
                &&& forall|q: Seq<u8>|
                    q != key@ ==> final(self).effective(q) == old(self).effective(q)
                &&& final(self).base() == old(self).base()
                &&& final(self).history@ == old(self).history@.push(
                    OperationModel::Delete { key: key@ },
                )
            },
            r matches Err(e) ==> (e == EngineError::Io || e == EngineError::StaleLog)
                && (final(self).failed || *final(self) == *old(self)),
    {
        if self.failed {
            return Err(EngineError::Io);
        }
        if self.log_stale {
            return Err(EngineError::StaleLog);
        }
        let cur = match self.select(key) {
            Ok(v) => v,
            Err(e) => return Err(e),
        };
        if cur.is_none() {
            return Ok(false);
        }
        let op = Operation::Delete { key: clone_bytes(key) };
        let ghost pre = *self;
        match self.append_op(op) {
            Ok(()) => (),
            Err(e) => return Err(e),
        }
        proof {
            lemma_pend_insert_get(pre.pending@, OperationModel::Delete { key: key@ }, key@);
            crate::ops::lemma_apply_ops_push(
                assoc_get(pre.base(), key@),
                pre.pending_run(key@),
                OperationModel::Delete { key: key@ },
            );
            assert forall|q: Seq<u8>| q != key@ implies self.effective(q) == pre.effective(q) by {
                lemma_pend_insert_get(pre.pending@, OperationModel::Delete { key: key@ }, q);
            }
        }
        Ok(true)
    }

    /// Fold the pending mutations into a fresh sorted table by an ascending
    /// merge, and atomically replace the base table with it. Afterwards the
    /// pending index is empty, every key keeps its effective value, and the
    /// stale durable log must be replaced through `install_fresh_log`.
    pub fn compact_tables(&mut self) -> (r: Result<(), EngineError>)
        requires
            old(self).wf(),
        ensures
            final(self).wf(),
            old(self).failed ==> r == Err::<(), EngineError>(EngineError::Io) && *final(self)
                == *old(self),
            !old(self).failed && old(self).log_stale ==> r == Err::<(), EngineError>(
                EngineError::StaleLog,
            ) && *final(self) == *old(self),
            r is Ok ==> {
                &&& old(self).ready()
                &&& final(self).log_stale && !final(self).failed
                &&& final(self).pending@.len() == 0
                &&& sorted_strict(entry_keys(final(self).base()))
                &&& forall|k: Seq<u8>| final(self).effective(k) == old(self).effective(k)
                &&& forall|k: Seq<u8>| assoc_get(final(self).base(), k) == old(self).effective(k)
            },
            r matches Err(e) ==> (e == EngineError::Io || e == EngineError::StaleLog)
                && (final(self).failed || *final(self) == *old(self)),
    {
        if self.failed {
            return Err(EngineError::Io);
        }
        if self.log_stale {
            return Err(EngineError::StaleLog);
        }
        let base = table_to_vec(&self.table);
        let merged = merge_tables(&base, &self.pending);
        let tmp = match temp_file_in(&self.dir) {
            Ok(f) => f,
            Err(_) => return Err(EngineError::Io),
        };
        let mut w = match builder_new(&tmp) {
            Ok(w) => w,
            Err(_) => return Err(EngineError::Io),
        };
        let m = merged.len();
        let mut bi: usize = 0;
        while bi < m
            invariant
                bi <= m,
                m == merged@.len(),
                *self == *old(self),
                old(self).wf(),
                !old(self).failed,
                !old(self).log_stale,
                crate::disk::builder_entries(w) == pairs_view(merged@).subrange(0, bi as int),
                crate::disk::builder_writes_to(w, tmp),
                sorted_strict(entry_keys(pairs_view(merged@))),
            decreases m - bi,
        {
            proof {
                let mv = pairs_view(merged@);
                assert(mv[bi as int] == (merged@[bi as int].0@, merged@[bi as int].1@));
                assert forall|t: int|
                    0 <= t < crate::disk::builder_entries(w).len() implies lex_lt(
                    (#[trigger] crate::disk::builder_entries(w)[t]).0,
                    merged@[bi as int].0@,
                ) by {
                    assert(crate::disk::builder_entries(w)[t] == mv.subrange(0, bi as int)[t]);
                    assert(mv.subrange(0, bi as int)[t] == mv[t]);
                    assert(entry_keys(mv)[t] == mv[t].0);
                    assert(entry_keys(mv)[bi as int] == mv[bi as int].0);
                    assert(lex_lt(entry_keys(mv)[t], entry_keys(mv)[bi as int]));
                }
            }
            match builder_add(&mut w, &merged[bi].0, &merged[bi].1) {
                Ok(()) => (),
                Err(_) => return Err(EngineError::Io),
            }
            proof {
                assert(pairs_view(merged@).subrange(0, bi + 1) =~= pairs_view(merged@).subrange(
                    0,
                    bi as int,
                ).push(pairs_view(merged@)[bi as int]));
            }
            bi = bi + 1;
        }
        match builder_finish(&tmp, w) {
            Ok(()) => (),
            Err(_) => return Err(EngineError::Io),
        }
        proof {
            assert(pairs_view(merged@).subrange(0, m as int) =~= pairs_view(merged@));
        }
        let new_table = match persist_and_open(tmp, &self.table_path) {
            Ok(t) => t,
            Err(_) => {
                // the canonical table file may already have been replaced
                self.failed = true;
                return Err(EngineError::Io);
            },
        };
        self.table = new_table;
        self.pending.clear();
        proof {
            self.history@ = Seq::empty();
        }
        self.log_stale = true;
        proof {
            assert(pending_of(Seq::<OperationModel>::empty()) =~= Seq::<
                (Seq<u8>, Seq<OperationModel>),
            >::empty());
            assert forall|k: Seq<u8>| self.effective(k) == old(self).effective(k) by {
                assert(self.pending_run(k).len() == 0);
            }
        }
        Ok(())
    }

    /// Install a fresh, empty durable log after compaction. Succeeds exactly
    /// when the engine awaits one and the log given holds no records.
    pub fn install_fresh_log(&mut self, new_log: commitlog::CommitLog) -> (r: Result<
        (),
        EngineError,
    >)
        requires
            old(self).wf(),
        ensures
            final(self).wf(),
            r is Ok <==> (!old(self).failed && old(self).log_stale
                && log_records(new_log).len() == 0),
            r is Err ==> *final(self) == *old(self),
            r is Ok ==> {
                &&& final(self).ready()
                &&& final(self).pending@ == old(self).pending@
                &&& final(self).base() == old(self).base()
                &&& log_records(final(self).log).len() == 0
                &&& forall|k: Seq<u8>| final(self).effective(k) == old(self).effective(k)
            },
    {
        if self.failed {
            return Err(EngineError::Io);
        }
        if !self.log_stale {
            return Err(EngineError::StaleLog);
        }
        if log_len(&new_log) != 0 {
            return Err(EngineError::LogNotEmpty);
        }
        self.log = new_log;
        self.log_stale = false;
        proof {
            assert(log_records(self.log) =~= self.history@.map_values(
                |op: OperationModel| encode_spec(op),
            ));
        }
        Ok(())
    }

    /// Every entry of the base table, in table order.
    pub fn base_entries(&self) -> (r: Vec<(Vec<u8>, Vec<u8>)>)
        ensures
            pairs_view(r@) == self.base(),
    {
        table_to_vec(&self.table)
    }

    /// How many keys have pending runs.
    pub fn pending_len(&self) -> (r: usize)
        ensures
            r == self.pending@.len(),
    {
        self.pending.entries.len()
    }

    /// How many records the durable log holds.
    pub fn log_record_count(&self) -> (r: u64)
        ensures
            r == log_records(self.log).len(),
    {
        log_len(&self.log)
    }

    /// Whether the engine awaits a fresh log after compaction.
    pub fn awaiting_fresh_log(&self) -> (r: bool)
        ensures
            r == self.log_stale,
    {
        self.log_stale
    }
}

/// Read every record of the log, from its start to its end.
fn read_log_all(log: &commitlog::CommitLog) -> (r: Result<Vec<Vec<u8>>, EngineError>)
    ensures
        r matches Ok(v) ==> v@.map_values(|x: Vec<u8>| x@) == log_records(*log),
        r matches Err(e) ==> e == EngineError::Io,
{
    let total = log_len(log);
    let mut out: Vec<Vec<u8>> = Vec::new();
    loop
        invariant
            out@.len() <= total,
            total == log_records(*log).len(),
            forall|i: int| 0 <= i < out@.len() ==> (#[trigger] out@[i])@ == log_records(*log)[i],
        decreases total - out@.len(),
    {
        let start = out.len() as u64;
        if start >= total {
            proof {
                assert(out@.map_values(|x: Vec<u8>| x@) =~= log_records(*log));
            }
            return Ok(out);
        }
        let mut chunk = match log_read_chunk(log, start) {
            Ok(c) => c,
            Err(_) => return Err(EngineError::Io),
        };
        let clen = chunk.len();
        let mut ci: usize = 0;
        while ci < clen
            invariant
                ci <= clen,
                clen == chunk@.len(),
                1 <= clen,
                out@.len() == start + ci,
                start + clen <= total,
                total == log_records(*log).len(),
                forall|i: int|
                    0 <= i < clen ==> (#[trigger] chunk@[i])@ == log_records(*log)[start + i],
                forall|i: int|
                    0 <= i < out@.len() ==> (#[trigger] out@[i])@ == log_records(*log)[i],
            decreases clen - ci,
        {
            out.push(clone_bytes(&chunk[ci]));
            ci = ci + 1;
        }
    }
}

} // verus!
