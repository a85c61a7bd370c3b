//! The compaction merge: an ascending walk of the base table's entries and
//! the pending index's entries in lockstep, resolving each key to its
//! effective value. Keys whose effective value is absent — tombstoned or
//! inserted and then deleted — are omitted; every other key is emitted once,
//! in strictly ascending order.

use vstd::prelude::*;
use crate::ops::{OperationModel, apply_ops, apply_run};
use crate::keys::{lex_lt, sorted_strict, entry_keys, assoc_get, pairs_view, compare_keys,
    KeyOrder, clone_bytes, lemma_lex_trichotomy, lemma_lex_transitive, lemma_assoc_get_absent,
    lemma_assoc_get_push};
use crate::pending::{PendingIndex, run_of, lemma_assoc_get_found};

verus! {

/// Merge the base table's entries with the pending index. The output binds
/// every key to its effective value — base value with the key's pending run
/// applied — and omits keys resolved to absent.
pub fn merge_tables(base: &Vec<(Vec<u8>, Vec<u8>)>, pending: &PendingIndex) -> (out: Vec<
    (Vec<u8>, Vec<u8>),
>)
    requires
        sorted_strict(entry_keys(pairs_view(base@))),
        pending.wf(),
    ensures
        sorted_strict(entry_keys(pairs_view(out@))),
        forall|k: Seq<u8>|
            #[trigger] assoc_get(pairs_view(out@), k) == apply_ops(
                assoc_get(pairs_view(base@), k),
                run_of(pending@, k),
            ),
{
    let ghost bv = pairs_view(base@);
    let ghost pv = pending@;
    let nb = base.len();
    let np = pending.entries.len();
    let mut out: Vec<(Vec<u8>, Vec<u8>)> = Vec::new();
    let mut i: usize = 0;
    let mut j: usize = 0;
    loop
        invariant
            i <= nb,
            j <= np,
            nb == bv.len(),
            np == pv.len(),
            bv == pairs_view(base@),
            pv == pending@,
            sorted_strict(entry_keys(bv)),
            pending.wf(),
            sorted_strict(entry_keys(pairs_view(out@))),
            // emitted keys sit below every unprocessed key of either source
            forall|a: int, b: int|
                0 <= a < pairs_view(out@).len() && i <= b < nb ==> lex_lt(
                    (#[trigger] pairs_view(out@)[a]).0,
                    (#[trigger] bv[b]).0,
                ),
            forall|a: int, b: int|
                0 <= a < pairs_view(out@).len() && j <= b < np ==> lex_lt(
                    (#[trigger] pairs_view(out@)[a]).0,
                    (#[trigger] pv[b]).0,
                ),
            // processed keys of one source sit below unprocessed keys of the other
            forall|a: int, b: int|
                0 <= a < i && j <= b < np ==> lex_lt((#[trigger] bv[a]).0, (#[trigger] pv[b]).0),
            forall|a: int, b: int|
                0 <= a < j && i <= b < nb ==> lex_lt((#[trigger] pv[a]).0, (#[trigger] bv[b]).0),
            // every processed key is already resolved correctly
            forall|a: int|
                0 <= a < i ==> assoc_get(pairs_view(out@), (#[trigger] bv[a]).0) == apply_ops(
                    assoc_get(bv, bv[a].0),
                    run_of(pv, bv[a].0),
                ),
            forall|b: int|
                0 <= b < j ==> assoc_get(pairs_view(out@), (#[trigger] pv[b]).0) == apply_ops(
                    assoc_get(bv, pv[b].0),
                    run_of(pv, pv[b].0),
                ),
            // every emitted key came from a processed entry
            forall|a: int|
                #![trigger pairs_view(out@)[a]]
                0 <= a < pairs_view(out@).len() ==> (exists|w: int|
                    0 <= w < i && (#[trigger] bv[w]).0 == pairs_view(out@)[a].0) || (exists|
                    w: int,
                |
                    0 <= w < j && (#[trigger] pv[w]).0 == pairs_view(out@)[a].0),
        decreases (nb - i) + (np - j),
    {
        let ghost ov = pairs_view(out@);
        if i == nb && j == np {
            proof {
                assert forall|k: Seq<u8>|
                    #[trigger] assoc_get(ov, k) == apply_ops(
                        assoc_get(bv, k),
                        run_of(pv, k),
                    ) by {
                    if exists|a: int| 0 <= a < nb && (#[trigger] bv[a]).0 == k {
                        let a = choose|a: int| 0 <= a < nb && (#[trigger] bv[a]).0 == k;
                    } else if exists|b: int| 0 <= b < np && (#[trigger] pv[b]).0 == k {
                        let b = choose|b: int| 0 <= b < np && (#[trigger] pv[b]).0 == k;
                    } else {
                        assert(forall|a: int| 0 <= a < bv.len() ==> (#[trigger] bv[a]).0 != k);
                        assert(forall|b: int| 0 <= b < pv.len() ==> (#[trigger] pv[b]).0 != k);
                        lemma_assoc_get_absent(bv, k);
                        lemma_assoc_get_absent(pv, k);
                        assert forall|a: int| 0 <= a < ov.len() implies (#[trigger] ov[a]).0
                            != k by {
                            let _ = ov[a];
                        }
                        lemma_assoc_get_absent(ov, k);
                        assert(run_of(pv, k).len() == 0);
                    }
                }
            }
            return out;
        }
        let ord = if i == nb {
            KeyOrder::Greater
        } else if j == np {
            KeyOrder::Less
        } else {
            compare_keys(&base[i].0, &pending.entries[j].key)
        };
        proof {
            if i < nb {
                assert(bv[i as int] == (base@[i as int].0@, base@[i as int].1@));
            }
            if j < np {
                assert(pv[j as int] == pending.entries@[j as int]@);
            }
        }
        match ord {
            KeyOrder::Less => {
                // key only reachable from the base side: emit it unchanged
                let k = clone_bytes(&base[i].0);
                let v = clone_bytes(&base[i].1);
                let ghost bk = bv[i as int].0;
                proof {
                    lemma_base_step(bv, pv, ov, i as int, j as int);
                }
                out.push((k, v));
                proof {
                    assert(pairs_view(out@) =~= ov.push((bk, bv[i as int].1)));
                    lemma_after_push(bv, pv, ov, bk, bv[i as int].1, i as int, j as int);
                }
                i = i + 1;
            },
            KeyOrder::Greater => {
                // key only reachable from the pending side: resolve its run
                // starting from absent
                let ev = apply_run(None, &pending.entries[j].ops);
                let ghost pk = pv[j as int].0;
                proof {
                    lemma_pending_step(bv, pv, ov, i as int, j as int);
                    assert(pending.entries@[j as int]@.1 == pv[j as int].1);
                }
                match ev {
                    Some(v) => {
                        let k = clone_bytes(&pending.entries[j].key);
                        out.push((k, v));
                        proof {
                            assert(pairs_view(out@) =~= ov.push((pk, apply_ops(
                                assoc_get(bv, pk),
                                run_of(pv, pk),
                            )->Some_0)));
                            lemma_after_push(bv, pv, ov, pk, apply_ops(
                                assoc_get(bv, pk),
                                run_of(pv, pk),
                            )->Some_0, i as int, j as int);
                        }
                    },
                    None => {
                        proof {
                            lemma_after_skip(bv, pv, ov, pk, i as int, j as int);
                        }
                    },
                }
                j = j + 1;
            },
            KeyOrder::Equal => {
                // key present on both sides: resolve its run on the base value
                let bval = clone_bytes(&base[i].1);
                let ev = apply_run(Some(bval), &pending.entries[j].ops);
                let ghost bk = bv[i as int].0;
                proof {
                    lemma_both_step(bv, pv, ov, i as int, j as int);
                    assert(pending.entries@[j as int]@.1 == pv[j as int].1);
                }
                match ev {
                    Some(v) => {
                        let k = clone_bytes(&base[i].0);
                        out.push((k, v));
                        proof {
                            assert(pairs_view(out@) =~= ov.push((bk, apply_ops(
                                assoc_get(bv, bk),
                                run_of(pv, bk),
                            )->Some_0)));
                            lemma_after_push(bv, pv, ov, bk, apply_ops(
                                assoc_get(bv, bk),
                                run_of(pv, bk),
                            )->Some_0, i as int, j as int);
                        }
                    },
                    None => {
                        proof {
                            lemma_after_skip(bv, pv, ov, bk, i as int, j as int);
                        }
                    },
                }
                i = i + 1;
                j = j + 1;
            },
        }
    }
}

/// The merge loop's invariant, bundled for the step lemmas.
pub open spec fn merge_inv(
    bv: Seq<(Seq<u8>, Seq<u8>)>,
    pv: Seq<(Seq<u8>, Seq<OperationModel>)>,
    ov: Seq<(Seq<u8>, Seq<u8>)>,
    i: int,
    j: int,
) -> bool {
    &&& 0 <= i <= bv.len()
    &&& 0 <= j <= pv.len()
    &&& sorted_strict(entry_keys(bv))
    &&& sorted_strict(entry_keys(pv))
    &&& sorted_strict(entry_keys(ov))
    &&& forall|a: int, b: int|
        0 <= a < ov.len() && i <= b < bv.len() ==> lex_lt(
            (#[trigger] ov[a]).0,
            (#[trigger] bv[b]).0,
        )
    &&& forall|a: int, b: int|
        0 <= a < ov.len() && j <= b < pv.len() ==> lex_lt(
            (#[trigger] ov[a]).0,
            (#[trigger] pv[b]).0,
        )
    &&& forall|a: int, b: int|
        0 <= a < i && j <= b < pv.len() ==> lex_lt((#[trigger] bv[a]).0, (#[trigger] pv[b]).0)
    &&& forall|a: int, b: int|
        0 <= a < j && i <= b < bv.len() ==> lex_lt((#[trigger] pv[a]).0, (#[trigger] bv[b]).0)
}

/// In the base-only case the stepped key keeps its base value: no pending
/// run touches it.
proof fn lemma_base_step(
    bv: Seq<(Seq<u8>, Seq<u8>)>,
    pv: Seq<(Seq<u8>, Seq<OperationModel>)>,
    ov: Seq<(Seq<u8>, Seq<u8>)>,
    i: int,
    j: int,
)
    requires
        merge_inv(bv, pv, ov, i, j),
        i < bv.len(),
        j < pv.len() ==> lex_lt(bv[i].0, pv[j].0),
    ensures
        assoc_get(bv, bv[i].0) == Some(bv[i].1),
        run_of(pv, bv[i].0).len() == 0,
        apply_ops(assoc_get(bv, bv[i].0), run_of(pv, bv[i].0)) == Some(bv[i].1),
        forall|b: int| j <= b < pv.len() ==> lex_lt(bv[i].0, (#[trigger] pv[b]).0),
        forall|b: int| i < b < bv.len() ==> lex_lt(bv[i].0, (#[trigger] bv[b]).0),
        forall|a: int| 0 <= a < i ==> (#[trigger] bv[a]).0 != bv[i].0,
        forall|b: int| 0 <= b < j ==> (#[trigger] pv[b]).0 != bv[i].0,
{
    assert(forall|w: int| 0 <= w < bv.len() ==> #[trigger] entry_keys(bv)[w] == bv[w].0);
    assert(forall|w: int| 0 <= w < pv.len() ==> #[trigger] entry_keys(pv)[w] == pv[w].0);
    let k = bv[i].0;
    assert forall|b: int| j <= b < pv.len() implies lex_lt(k, (#[trigger] pv[b]).0) by {
        if b > j {
            assert(lex_lt(entry_keys(pv)[j], entry_keys(pv)[b]));
            lemma_lex_transitive(k, pv[j].0, pv[b].0);
        }
    }
    assert forall|b: int| i < b < bv.len() implies lex_lt(k, (#[trigger] bv[b]).0) by {
        assert(lex_lt(entry_keys(bv)[i], entry_keys(bv)[b]));
    }
    assert forall|a: int| 0 <= a < i implies (#[trigger] bv[a]).0 != k by {
        assert(lex_lt(entry_keys(bv)[a], entry_keys(bv)[i]));
        lemma_lex_trichotomy(bv[a].0, k);
    }
    assert forall|b: int| 0 <= b < j implies (#[trigger] pv[b]).0 != k by {
        assert(lex_lt(pv[b].0, bv[i].0));
        lemma_lex_trichotomy(pv[b].0, k);
    }
    lemma_assoc_get_found(bv, k, i);
    assert forall|b: int| 0 <= b < pv.len() implies (#[trigger] pv[b]).0 != k by {
        if b < j {
            assert(lex_lt(pv[b].0, bv[i].0));
            lemma_lex_trichotomy(pv[b].0, k);
        } else {
            if j < pv.len() && b > j {
                assert(lex_lt(entry_keys(pv)[j], entry_keys(pv)[b]));
                lemma_lex_transitive(k, pv[j].0, pv[b].0);
            }
            lemma_lex_trichotomy(k, pv[b].0);
        }
    }
    lemma_assoc_get_absent(pv, k);
}

/// In the pending-only case the stepped key starts from absent and its run
/// is exactly its pending entry.
proof fn lemma_pending_step(
    bv: Seq<(Seq<u8>, Seq<u8>)>,
    pv: Seq<(Seq<u8>, Seq<OperationModel>)>,
    ov: Seq<(Seq<u8>, Seq<u8>)>,
    i: int,
    j: int,
)
    requires
        merge_inv(bv, pv, ov, i, j),
        j < pv.len(),
        i < bv.len() ==> lex_lt(pv[j].0, bv[i].0),
    ensures
        assoc_get(bv, pv[j].0) is None,
        run_of(pv, pv[j].0) == pv[j].1,
        forall|a: int| i <= a < bv.len() ==> lex_lt(pv[j].0, (#[trigger] bv[a]).0),
        forall|b: int| j < b < pv.len() ==> lex_lt(pv[j].0, (#[trigger] pv[b]).0),
        forall|a: int| 0 <= a < i ==> (#[trigger] bv[a]).0 != pv[j].0,
        forall|b: int| 0 <= b < j ==> (#[trigger] pv[b]).0 != pv[j].0,
{
    assert(forall|w: int| 0 <= w < bv.len() ==> #[trigger] entry_keys(bv)[w] == bv[w].0);
    assert(forall|w: int| 0 <= w < pv.len() ==> #[trigger] entry_keys(pv)[w] == pv[w].0);
    let k = pv[j].0;
    assert forall|a: int| i <= a < bv.len() implies lex_lt(k, (#[trigger] bv[a]).0) by {
        if a > i {
            assert(lex_lt(entry_keys(bv)[i], entry_keys(bv)[a]));
            lemma_lex_transitive(k, bv[i].0, bv[a].0);
        }
    }
    assert forall|b: int| j < b < pv.len() implies lex_lt(k, (#[trigger] pv[b]).0) by {
        assert(lex_lt(entry_keys(pv)[j], entry_keys(pv)[b]));
    }
    assert forall|a: int| 0 <= a < i implies (#[trigger] bv[a]).0 != k by {
        assert(lex_lt(bv[a].0, pv[j].0));
        lemma_lex_trichotomy(bv[a].0, k);
    }
    assert forall|b: int| 0 <= b < j implies (#[trigger] pv[b]).0 != k by {
        assert(lex_lt(entry_keys(pv)[b], entry_keys(pv)[j]));
        lemma_lex_trichotomy(pv[b].0, k);
    }
    assert forall|a: int| 0 <= a < bv.len() implies (#[trigger] bv[a]).0 != k by {
        if a < i {
            assert(lex_lt(bv[a].0, pv[j].0));
            lemma_lex_trichotomy(bv[a].0, k);
        } else {
            if i < bv.len() && a > i {
                assert(lex_lt(entry_keys(bv)[i], entry_keys(bv)[a]));
                lemma_lex_transitive(k, bv[i].0, bv[a].0);
            }
            lemma_lex_trichotomy(k, bv[a].0);
        }
    }
    lemma_assoc_get_absent(bv, k);
    assert forall|w: int| 0 <= w < j implies (#[trigger] pv[w]).0 != k by {
        assert(lex_lt(entry_keys(pv)[w], entry_keys(pv)[j]));
        lemma_lex_trichotomy(pv[w].0, k);
    }
    lemma_assoc_get_found(pv, k, j);
}

/// In the shared case the stepped key starts from its base value and its
/// run is its pending entry.
proof fn lemma_both_step(
    bv: Seq<(Seq<u8>, Seq<u8>)>,
    pv: Seq<(Seq<u8>, Seq<OperationModel>)>,
    ov: Seq<(Seq<u8>, Seq<u8>)>,
    i: int,
    j: int,
)
    requires
        merge_inv(bv, pv, ov, i, j),
        i < bv.len(),
        j < pv.len(),
        bv[i].0 == pv[j].0,
    ensures
        assoc_get(bv, bv[i].0) == Some(bv[i].1),
        run_of(pv, bv[i].0) == pv[j].1,
        forall|b: int| j < b < pv.len() ==> lex_lt(bv[i].0, (#[trigger] pv[b]).0),
        forall|b: int| i < b < bv.len() ==> lex_lt(bv[i].0, (#[trigger] bv[b]).0),
        forall|a: int| 0 <= a < i ==> (#[trigger] bv[a]).0 != bv[i].0,
        forall|b: int| 0 <= b < j ==> (#[trigger] pv[b]).0 != bv[i].0,
{
    assert(forall|w: int| 0 <= w < bv.len() ==> #[trigger] entry_keys(bv)[w] == bv[w].0);
    assert(forall|w: int| 0 <= w < pv.len() ==> #[trigger] entry_keys(pv)[w] == pv[w].0);
    let k = bv[i].0;
    assert forall|b: int| j < b < pv.len() implies lex_lt(k, (#[trigger] pv[b]).0) by {
        assert(lex_lt(entry_keys(pv)[j], entry_keys(pv)[b]));
    }
    assert forall|b: int| i < b < bv.len() implies lex_lt(k, (#[trigger] bv[b]).0) by {
        assert(lex_lt(entry_keys(bv)[i], entry_keys(bv)[b]));
    }
    assert forall|a: int| 0 <= a < i implies (#[trigger] bv[a]).0 != k by {
        assert(lex_lt(entry_keys(bv)[a], entry_keys(bv)[i]));
        lemma_lex_trichotomy(bv[a].0, k);
    }
    assert forall|b: int| 0 <= b < j implies (#[trigger] pv[b]).0 != k by {
        assert(lex_lt(entry_keys(pv)[b], entry_keys(pv)[j]));
        lemma_lex_trichotomy(pv[b].0, k);
    }
    lemma_assoc_get_found(bv, k, i);
    assert forall|w: int| 0 <= w < j implies (#[trigger] pv[w]).0 != k by {
        assert(lex_lt(entry_keys(pv)[w], entry_keys(pv)[j]));
        lemma_lex_trichotomy(pv[w].0, k);
    }
    lemma_assoc_get_found(pv, k, j);
}

/// Stepping past a key without emitting it: the key resolved to absent, and
/// the output, unchanged, binds it to nothing.
proof fn lemma_after_skip(
    bv: Seq<(Seq<u8>, Seq<u8>)>,
    pv: Seq<(Seq<u8>, Seq<OperationModel>)>,
    ov: Seq<(Seq<u8>, Seq<u8>)>,
    k: Seq<u8>,
    i: int,
    j: int,
)
    requires
        merge_inv(bv, pv, ov, i, j),
        (i < bv.len() && k == bv[i].0) || (j < pv.len() && k == pv[j].0),
    ensures
        assoc_get(ov, k) is None,
{
    assert forall|a: int| 0 <= a < ov.len() implies (#[trigger] ov[a]).0 != k by {
        lemma_lex_trichotomy(ov[a].0, k);
    }
    lemma_assoc_get_absent(ov, k);
}

/// Emitting a resolved key: it is new to the output, every earlier binding
/// survives, and the order stays strictly ascending.
proof fn lemma_after_push(
    bv: Seq<(Seq<u8>, Seq<u8>)>,
    pv: Seq<(Seq<u8>, Seq<OperationModel>)>,
    ov: Seq<(Seq<u8>, Seq<u8>)>,
    k: Seq<u8>,
    v: Seq<u8>,
    i: int,
    j: int,
)
    requires
        merge_inv(bv, pv, ov, i, j),
        (i < bv.len() && k == bv[i].0) || (j < pv.len() && k == pv[j].0),
    ensures
        assoc_get(ov.push((k, v)), k) == Some(v),
        forall|q: Seq<u8>| q != k ==> assoc_get(ov.push((k, v)), q) == assoc_get(ov, q),
        forall|a: int|
            0 <= a < ov.len() ==> (#[trigger] ov.push((k, v))[a]) == ov[a],
        ov.push((k, v))[ov.len() as int] == (k, v),
        sorted_strict(entry_keys(ov.push((k, v)))),
        forall|a: int|
            0 <= a < ov.push((k, v)).len() ==> lex_lt((#[trigger] ov.push((k, v))[a]).0, k) || ov
                .push((k, v))[a].0 == k,
{
    lemma_after_skip(bv, pv, ov, k, i, j);
    assert forall|q: Seq<u8>| true implies (q == k ==> assoc_get(ov.push((k, v)), q) == Some(v))
        && (q != k ==> assoc_get(ov.push((k, v)), q) == assoc_get(ov, q)) by {
        lemma_assoc_get_push(ov, k, v, q);
    }
    let r = ov.push((k, v));
    assert(forall|w: int| 0 <= w < ov.len() ==> #[trigger] entry_keys(ov)[w] == ov[w].0);
    assert(forall|w: int| 0 <= w < r.len() ==> #[trigger] entry_keys(r)[w] == r[w].0);
    assert forall|a: int, b: int| 0 <= a < b < r.len() implies lex_lt(
        entry_keys(r)[a],
        entry_keys(r)[b],
    ) by {
        if b == ov.len() {
            assert(r[a] == ov[a]);
            assert(r[b] == (k, v));
        } else {
            assert(r[a] == ov[a]);
            assert(r[b] == ov[b]);
            assert(lex_lt(entry_keys(ov)[a], entry_keys(ov)[b]));
        }
    }
    assert forall|a: int| 0 <= a < r.len() implies lex_lt((#[trigger] r[a]).0, k) || r[a].0
        == k by {
        if a < ov.len() {
            assert(r[a] == ov[a]);
        }
    }
}

} // verus!
