//! The engine's global laws, stated and proved over the same spec functions
//! its methods promise.

use vstd::prelude::*;
use crate::engine::Engine;
use crate::codec::{encode_spec, lemma_encode_injective};
use crate::disk::{log_records, table_entry_list};

verus! {

/// Durability: an engine reopened over the same durable log and the same
/// base table as a live, ready engine rebuilds the same pending index and
/// computes the same effective value for every key. Replay loses nothing:
/// the log's records pin the live engine's history exactly.
pub proof fn lemma_durability(live: Engine, reopened: Engine)
    requires
        live.wf(),
        live.ready(),
        reopened.wf(),
        reopened.ready(),
        log_records(reopened.log) == log_records(live.log),
        table_entry_list(reopened.table) == table_entry_list(live.table),
    ensures
        reopened.history@ == live.history@,
        reopened.pending@ == live.pending@,
        forall|k: Seq<u8>| reopened.effective(k) == live.effective(k),
{
    let h1 = live.history@;
    let h2 = reopened.history@;
    assert(log_records(live.log).len() == h1.len());
    assert(log_records(reopened.log).len() == h2.len());
    assert forall|i: int| 0 <= i < h1.len() implies h1[i] == h2[i] by {
        assert(log_records(live.log)[i] == encode_spec(h1[i]));
        assert(log_records(reopened.log)[i] == encode_spec(h2[i]));
        lemma_encode_injective(h1[i], h2[i]);
    }
    assert(h1 =~= h2);
}

/// Idempotent read: the result of `select` is a pure function of the engine
/// state and the key, so two reads of an unchanged key agree — and `select`
/// takes the engine by shared reference, so a read mutates nothing.
pub proof fn lemma_select_idempotent(
    e: Engine,
    k: Seq<u8>,
    r1: Option<Seq<u8>>,
    r2: Option<Seq<u8>>,
)
    requires
        r1 == e.effective(k),
        r2 == e.effective(k),
    ensures
        r1 == r2,
{
}

} // verus!
