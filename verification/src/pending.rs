//! The in-memory pending-mutation index: for each key touched since the last
//! compaction, the operations applied to it, in the order they were durably
//! appended. Entries are kept in strictly ascending key order so that
//! compaction can walk them in lockstep with the sorted table.

use vstd::prelude::*;
use crate::ops::{Operation, OperationModel};
use crate::keys::{lex_lt, sorted_strict, entry_keys, assoc_get, compare_keys, KeyOrder,
    lemma_lex_trichotomy};

verus! {

/// One key and its pending operations, oldest first.
pub struct PendingEntry {
    pub key: Vec<u8>,
    pub ops: Vec<Operation>,
}

impl View for PendingEntry {
    type V = (Seq<u8>, Seq<OperationModel>);

    open spec fn view(&self) -> (Seq<u8>, Seq<OperationModel>) {
        (self.key@, self.ops@.map_values(|op: Operation| op@))
    }
}

/// The index itself: entries in strictly ascending key order.
pub struct PendingIndex {
    pub entries: Vec<PendingEntry>,
}

/// Every entry has at least one operation, and each operation's subject is
/// the entry's key.
pub open spec fn entries_wf(s: Seq<(Seq<u8>, Seq<OperationModel>)>) -> bool {
    &&& forall|i: int| 0 <= i < s.len() ==> (#[trigger] s[i]).1.len() > 0
    &&& forall|i: int, j: int|
        0 <= i < s.len() && 0 <= j < s[i].1.len() ==> (#[trigger] s[i].1[j]).subject() == s[i].0
}

/// A well-formed index: sorted, deduplicated, consistent entries.
pub open spec fn index_wf(s: Seq<(Seq<u8>, Seq<OperationModel>)>) -> bool {
    sorted_strict(entry_keys(s)) && entries_wf(s)
}

/// The index that results from adding one operation: the operation joins its
/// key's run, or opens a new entry at the key's sorted position.
pub open spec fn pend_insert(
    s: Seq<(Seq<u8>, Seq<OperationModel>)>,
    op: OperationModel,
) -> Seq<(Seq<u8>, Seq<OperationModel>)>
    decreases s.len(),
{
    if s.len() == 0 {
        seq![(op.subject(), seq![op])]
    } else if lex_lt(op.subject(), s[0].0) {
        seq![(op.subject(), seq![op])] + s
    } else if op.subject() == s[0].0 {
        seq![(s[0].0, s[0].1.push(op))] + s.skip(1)
    } else {
        seq![s[0]] + pend_insert(s.skip(1), op)
    }
}

/// The index rebuilt from a whole run of operations, oldest first.
pub open spec fn pending_of(ops: Seq<OperationModel>) -> Seq<(Seq<u8>, Seq<OperationModel>)>
    decreases ops.len(),
{
    if ops.len() == 0 {
        Seq::empty()
    } else {
        pend_insert(pending_of(ops.drop_last()), ops.last())
    }
}

/// The pending run for a key: its recorded operations, oldest first, or the
/// empty run when none touched it.
pub open spec fn run_of(s: Seq<(Seq<u8>, Seq<OperationModel>)>, k: Seq<u8>) -> Seq<
    OperationModel,
> {
    match assoc_get(s, k) {
        Some(os) => os,
        None => Seq::empty(),
    }
}

/// What `pend_insert` binds: the touched key gains the operation, every
/// other key keeps its run.
pub proof fn lemma_pend_insert_get(
    s: Seq<(Seq<u8>, Seq<OperationModel>)>,
    op: OperationModel,
    q: Seq<u8>,
)
    requires
        sorted_strict(entry_keys(s)),
    ensures
        q == op.subject() ==> assoc_get(pend_insert(s, op), q) == match assoc_get(s, q) {
            Some(os) => Some(os.push(op)),
            None => Some(seq![op]),
        },
        q != op.subject() ==> assoc_get(pend_insert(s, op), q) == assoc_get(s, q),
    decreases s.len(),
{
    let k = op.subject();
    let r = pend_insert(s, op);
    assert(r.len() > 0);
    assert(assoc_get(r, q) == if r[0].0 == q {
        Some(r[0].1)
    } else {
        assoc_get(r.skip(1), q)
    });
    if s.len() > 0 {
        assert(assoc_get(s, q) == if s[0].0 == q {
            Some(s[0].1)
        } else {
            assoc_get(s.skip(1), q)
        });
    }
    if s.len() == 0 {
        assert(r[0] == (k, seq![op]));
        assert(r.skip(1) =~= Seq::<(Seq<u8>, Seq<OperationModel>)>::empty());
    } else if lex_lt(k, s[0].0) {
        assert(r[0] == (k, seq![op]));
        assert(r.skip(1) =~= s);
        lemma_lex_trichotomy(k, s[0].0);
        if q == k {
            // q is below every key of s, so s binds nothing to it
            assert(forall|i: int| 0 <= i < s.len() ==> entry_keys(s)[i] == (#[trigger] s[i]).0);
            assert forall|i: int| 0 <= i < s.len() implies (#[trigger] s[i]).0 != q by {
                if i > 0 {
                    assert(lex_lt(entry_keys(s)[0], entry_keys(s)[i]));
                    crate::keys::lemma_lex_transitive(q, s[0].0, s[i].0);
                }
                lemma_lex_trichotomy(q, s[i].0);
            }
            crate::keys::lemma_assoc_get_absent(s, q);
        }
    } else if k == s[0].0 {
        assert(r[0] == (s[0].0, s[0].1.push(op)));
        assert(r.skip(1) =~= s.skip(1));
    } else {
        lemma_lex_trichotomy(k, s[0].0);
        assert(r[0] == s[0]);
        assert(r.skip(1) =~= pend_insert(s.skip(1), op));
        assert(forall|i: int| 0 <= i < s.skip(1).len() ==> #[trigger] s.skip(1)[i] == s[i + 1]);
        assert(forall|i: int|
            0 <= i < entry_keys(s.skip(1)).len() ==> #[trigger] entry_keys(s.skip(1))[i]
                == entry_keys(s)[i + 1]);
        lemma_pend_insert_get(s.skip(1), op, q);
    }
}

/// `pend_insert` keeps the index well formed, and introduces no key but the
/// operation's own.
pub proof fn lemma_pend_insert_wf(s: Seq<(Seq<u8>, Seq<OperationModel>)>, op: OperationModel)
    requires
        index_wf(s),
    ensures
        index_wf(pend_insert(s, op)),
        forall|i: int|
            0 <= i < pend_insert(s, op).len() ==> (#[trigger] pend_insert(s, op)[i]).0
                == op.subject() || exists|w: int|
                0 <= w < s.len() && (#[trigger] s[w]).0 == pend_insert(s, op)[i].0,
    decreases s.len(),
{
    let k = op.subject();
    let r = pend_insert(s, op);
    if s.len() == 0 {
        assert(r[0] == (k, seq![op]));
        assert(r[0].1 == seq![op]);
        assert(seq![op][0] == op);
    } else if lex_lt(k, s[0].0) {
        assert(r[0] == (k, seq![op]));
        assert(seq![op][0] == op);
        assert(forall|i: int| 0 <= i < s.len() ==> #[trigger] r[i + 1] == s[i]);
        assert forall|i: int, j: int| 0 <= i < j < r.len() implies lex_lt(
            entry_keys(r)[i],
            entry_keys(r)[j],
        ) by {
            if i == 0 {
                if j > 1 {
                    assert(lex_lt(entry_keys(s)[0], entry_keys(s)[j - 1]));
                    crate::keys::lemma_lex_transitive(k, s[0].0, s[j - 1].0);
                }
            } else {
                assert(lex_lt(entry_keys(s)[i - 1], entry_keys(s)[j - 1]));
            }
        }
        assert forall|i: int| #![trigger r[i]] 1 <= i < r.len() implies exists|w: int|
            0 <= w < s.len() && (#[trigger] s[w]).0 == r[i].0 by {
            assert(s[i - 1].0 == r[i].0);
        }
    } else if k == s[0].0 {
        assert(r[0] == (s[0].0, s[0].1.push(op)));
        assert(r.skip(1) =~= s.skip(1));
        assert(forall|i: int| 0 <= i < s.len() ==> entry_keys(s)[i] == (#[trigger] s[i]).0);
        assert(forall|i: int| 1 <= i < r.len() ==> #[trigger] r[i] == s[i]);
        assert(forall|i: int, j: int|
            0 <= j < s[i].1.len() && 0 <= i < s.len() ==> (#[trigger] s[i].1[j]).subject()
                == s[i].0);
        assert forall|i: int, j: int|
            0 <= i < r.len() && 0 <= j < r[i].1.len() implies (#[trigger] r[i].1[j]).subject()
            == r[i].0 by {
            if i == 0 {
                if j < s[0].1.len() {
                    assert(s[0].1[j].subject() == s[0].0);
                } else {
                    assert(r[0].1[j] == op);
                }
            }
        }
        assert forall|i: int| #![trigger r[i]] 0 <= i < r.len() implies exists|w: int|
            0 <= w < s.len() && (#[trigger] s[w]).0 == r[i].0 by {
            if i == 0 {
                assert(s[0].0 == r[0].0);
            } else {
                assert(s[i].0 == r[i].0);
            }
        }
    } else {
        lemma_lex_trichotomy(k, s[0].0);
        assert(r[0] == s[0]);
        assert(r.skip(1) =~= pend_insert(s.skip(1), op));
        assert(forall|i: int| 0 <= i < s.skip(1).len() ==> #[trigger] s.skip(1)[i] == s[i + 1]);
        assert(forall|i: int|
            0 <= i < entry_keys(s.skip(1)).len() ==> #[trigger] entry_keys(s.skip(1))[i]
                == entry_keys(s)[i + 1]);
        lemma_pend_insert_wf(s.skip(1), op);
        let t = pend_insert(s.skip(1), op);
        assert(forall|i: int| 0 <= i < t.len() ==> #[trigger] r[i + 1] == t[i]);
        assert forall|i: int, j: int| 0 <= i < j < r.len() implies lex_lt(
            entry_keys(r)[i],
            entry_keys(r)[j],
        ) by {
            if i == 0 {
                // r[j] is either a key of s.skip(1) or the new key, both above s[0].0
                assert(r[j] == t[j - 1]);
                if t[j - 1].0 == k {
                } else {
                    let w = choose|w: int|
                        0 <= w < s.skip(1).len() && (#[trigger] s.skip(1)[w]).0 == t[j - 1].0;
                    assert(s[w + 1].0 == t[j - 1].0);
                    assert(lex_lt(entry_keys(s)[0], entry_keys(s)[w + 1]));
                }
            } else {
                assert(lex_lt(entry_keys(t)[i - 1], entry_keys(t)[j - 1]));
            }
        }
        assert forall|i: int| #![trigger r[i]] 0 <= i < r.len() implies r[i].0 == k || exists|w: int|
            0 <= w < s.len() && (#[trigger] s[w]).0 == r[i].0 by {
            if i == 0 {
                assert(s[0].0 == r[0].0);
            } else {
                assert(r[i] == t[i - 1]);
                if t[i - 1].0 != k {
                    let w = choose|w: int|
                        0 <= w < s.skip(1).len() && (#[trigger] s.skip(1)[w]).0 == t[i - 1].0;
                    assert(s[w + 1].0 == r[i].0);
                }
            }
        }
    }
}

impl PendingIndex {
    pub open spec fn view(self) -> Seq<(Seq<u8>, Seq<OperationModel>)> {
        self.entries@.map_values(|e: PendingEntry| e@)
    }

    pub open spec fn wf(self) -> bool {
        index_wf(self@)
    }

    /// A fresh, empty index.
    pub fn new() -> (r: PendingIndex)
        ensures
            r.wf(),
            r@ == Seq::<(Seq<u8>, Seq<OperationModel>)>::empty(),
    {
        let r = PendingIndex { entries: Vec::new() };
        proof {
            assert(r@ =~= Seq::<(Seq<u8>, Seq<OperationModel>)>::empty());
        }
        r
    }

    /// Drop every pending entry (after a successful compaction).
    pub fn clear(&mut self)
        ensures
            final(self).wf(),
            final(self)@ == Seq::<(Seq<u8>, Seq<OperationModel>)>::empty(),
    {
        self.entries.clear();
        proof {
            assert(self@ =~= Seq::<(Seq<u8>, Seq<OperationModel>)>::empty());
        }
    }

    /// The pending run for `key`, oldest first, if any operation touched it.
    pub fn get_ops(&self, key: &Vec<u8>) -> (r: Option<&Vec<Operation>>)
        requires
            self.wf(),
        ensures
            match r {
                Some(ops) => assoc_get(self@, key@) == Some(
                    ops@.map_values(|op: Operation| op@),
                ),
                None => assoc_get(self@, key@) is None,
            },
    {
        let n = self.entries.len();
        let mut i: usize = 0;
        while i < n
            invariant
                i <= n,
                n == self@.len(),
                self.wf(),
                forall|j: int| 0 <= j < i ==> (#[trigger] self@[j]).0 != key@,
            decreases n - i,
        {
            match compare_keys(&self.entries[i].key, key) {
                KeyOrder::Equal => {
                    proof {
                        lemma_assoc_get_found(self@, key@, i as int);
                    }
                    return Some(&self.entries[i].ops);
                },
                _ => {
                    proof {
                        lemma_lex_trichotomy(self@[i as int].0, key@);
                    }
                    i = i + 1;
                },
            }
        }
        proof {
            crate::keys::lemma_assoc_get_absent(self@, key@);
        }
        None
    }

    /// The sorted position of `key`: the index of its entry, or of the first
    /// larger key.
    fn seek(&self, key: &Vec<u8>) -> (i: usize)
        requires
            self.wf(),
        ensures
            i <= self@.len(),
            forall|j: int| 0 <= j < i ==> lex_lt((#[trigger] self@[j]).0, key@),
            i < self@.len() ==> !lex_lt(self@[i as int].0, key@),
    {
        let n = self.entries.len();
        let mut i: usize = 0;
        while i < n
            invariant
                i <= n,
                n == self@.len(),
                self.wf(),
                forall|j: int| 0 <= j < i ==> lex_lt((#[trigger] self@[j]).0, key@),
            decreases n - i,
        {
            match compare_keys(&self.entries[i].key, key) {
                KeyOrder::Less => {
                    i = i + 1;
                },
                _ => {
                    proof {
                        lemma_lex_trichotomy(self@[i as int].0, key@);
                    }
                    return i;
                },
            }
        }
        i
    }

    /// Record one more durably appended operation.
    pub fn push_op(&mut self, op: Operation)
        requires
            old(self).wf(),
        ensures
            final(self).wf(),
            final(self)@ == pend_insert(old(self)@, op@),
    {
        proof {
            lemma_pend_insert_wf(old(self)@, op@);
        }
        let n = self.entries.len();
        let i = self.seek(op.key());
        proof {
            lemma_pend_insert_skip(old(self)@, op@, i as int);
        }
        if i == n {
            let key = crate::keys::clone_bytes(op.key());
            let mut run: Vec<Operation> = Vec::new();
            run.push(op);
            proof {
                assert(run@.map_values(|o: Operation| o@) =~= seq![op@]);
            }
            self.entries.push(PendingEntry { key, ops: run });
            proof {
                assert(old(self)@.subrange(0, n as int) =~= old(self)@);
                assert(self@ =~~= old(self)@ + pend_insert(old(self)@.skip(n as int), op@));
                assert(self@ == pend_insert(old(self)@, op@));
            }
        } else {
            match compare_keys(&self.entries[i].key, op.key()) {
                KeyOrder::Less => {
                    proof {
                        assert(false);
                    }
                },
                KeyOrder::Equal => {
                    let mut e = self.entries.remove(i);
                    e.ops.push(op);
                    self.entries.insert(i, e);
                    proof {
                        let s = old(self)@;
                        assert(e.ops@.map_values(|o: Operation| o@) =~= s[i as int].1.push(op@));
                        assert(s.skip(i as int)[0] == s[i as int]);
                        assert(s.skip(i as int).skip(1) =~= s.skip(i + 1));
                        assert(self@ =~~= s.subrange(0, i as int) + pend_insert(
                            s.skip(i as int),
                            op@,
                        ));
                    }
                },
                _ => {
                    let key = crate::keys::clone_bytes(op.key());
                    let mut run: Vec<Operation> = Vec::new();
                    run.push(op);
                    proof {
                        assert(run@.map_values(|o: Operation| o@) =~= seq![op@]);
                    }
                    self.entries.insert(i, PendingEntry { key, ops: run });
                    proof {
                        let s = old(self)@;
                        assert(s.skip(i as int)[0] == s[i as int]);
                        lemma_lex_trichotomy(s[i as int].0, op@.subject());
                        assert(self@ =~~= s.subrange(0, i as int) + pend_insert(
                            s.skip(i as int),
                            op@,
                        ));
                    }
                },
            }
        }
    }
}

/// In a duplicate-free index a positional match is the association.
pub proof fn lemma_assoc_get_found<V>(s: Seq<(Seq<u8>, V)>, k: Seq<u8>, i: int)
    requires
        0 <= i < s.len(),
        s[i].0 == k,
        forall|j: int| 0 <= j < i ==> (#[trigger] s[j]).0 != k,
    ensures
        assoc_get(s, k) == Some(s[i].1),
    decreases i,
{
    if i > 0 {
        assert(forall|j: int| 0 <= j < s.skip(1).len() ==> #[trigger] s.skip(1)[j] == s[j + 1]);
        lemma_assoc_get_found(s.skip(1), k, i - 1);
    } else {
        assert(s.skip(0) =~= s);
    }
}

/// Inserting past an already-smaller prefix leaves the prefix alone.
pub proof fn lemma_pend_insert_skip(
    s: Seq<(Seq<u8>, Seq<OperationModel>)>,
    op: OperationModel,
    i: int,
)
    requires
        0 <= i <= s.len(),
        forall|j: int| 0 <= j < i ==> lex_lt((#[trigger] s[j]).0, op.subject()),
    ensures
        pend_insert(s, op) == s.subrange(0, i) + pend_insert(s.skip(i), op),
    decreases i,
{
    if i == 0 {
        assert(s.skip(0) =~= s);
        assert(s.subrange(0, 0) + pend_insert(s, op) =~= pend_insert(s, op));
    } else {
        lemma_lex_trichotomy(op.subject(), s[0].0);
        assert(pend_insert(s, op) == seq![s[0]] + pend_insert(s.skip(1), op));
        assert(forall|j: int| 0 <= j < s.skip(1).len() ==> #[trigger] s.skip(1)[j] == s[j + 1]);
        lemma_pend_insert_skip(s.skip(1), op, i - 1);
        assert(s.skip(1).skip(i - 1) =~= s.skip(i));
        assert(seq![s[0]] + (s.skip(1).subrange(0, i - 1) + pend_insert(s.skip(i), op)) =~= s
            .subrange(0, i) + pend_insert(s.skip(i), op));
    }
}

} // verus!
