//! A pure in-memory table with the same create-only insert and
//! presence-checked delete discipline as the disk engine. A reference
//! backend: it keeps one binding per key and nothing else.

use vstd::prelude::*;
use crate::ops::opt_view;
use crate::keys::{assoc_get, pairs_view, compare_keys, KeyOrder, clone_bytes,
    lemma_assoc_get_absent, lemma_assoc_get_push};
use crate::pending::lemma_assoc_get_found;

verus! {

/// An in-memory key→value table with unique keys.
pub struct InMemoryTable {
    pub entries: Vec<(Vec<u8>, Vec<u8>)>,
}

impl InMemoryTable {
    pub open spec fn view(self) -> Seq<(Seq<u8>, Seq<u8>)> {
        pairs_view(self.entries@)
    }

    /// Each key is bound at most once.
    pub open spec fn wf(self) -> bool {
        forall|i: int, j: int| 0 <= i < j < self@.len() ==> (#[trigger] self@[i]).0 != (
        #[trigger] self@[j]).0
    }

    /// An empty table.
    pub fn new() -> (r: InMemoryTable)
        ensures
            r.wf(),
            r@ == Seq::<(Seq<u8>, Seq<u8>)>::empty(),
    {
        let r = InMemoryTable { entries: Vec::new() };
        proof {
            assert(r@ =~= Seq::<(Seq<u8>, Seq<u8>)>::empty());
        }
        r
    }

    /// The index of the entry binding `key`, if any.
    fn find(&self, key: &Vec<u8>) -> (r: Option<usize>)
        requires
            self.wf(),
        ensures
            match r {
                Some(i) => i < self@.len() && self@[i as int].0 == key@ && assoc_get(
                    self@,
                    key@,
                ) == Some(self@[i as int].1),
                None => assoc_get(self@, key@) is None,
            },
    {
        let n = self.entries.len();
        let mut i: usize = 0;
        while i < n
            invariant
                i <= n,
                n == self@.len(),
                self.wf(),
                forall|w: int| 0 <= w < i ==> (#[trigger] self@[w]).0 != key@,
            decreases n - i,
        {
            match compare_keys(&self.entries[i].0, key) {
                KeyOrder::Equal => {
                    proof {
                        lemma_assoc_get_found(self@, key@, i as int);
                    }
                    return Some(i);
                },
                _ => {
                    proof {
                        crate::keys::lemma_lex_trichotomy(self@[i as int].0, key@);
                    }
                    i = i + 1;
                },
            }
        }
        proof {
            lemma_assoc_get_absent(self@, key@);
        }
        None
    }

    /// The value bound to `key`, if any.
    pub fn select(&self, key: &Vec<u8>) -> (r: Option<Vec<u8>>)
        requires
            self.wf(),
        ensures
            opt_view(r) == assoc_get(self@, key@),
    {
        match self.find(key) {
            Some(i) => Some(clone_bytes(&self.entries[i].1)),
            None => None,
        }
    }

    /// Create-only insert: succeeds exactly when `key` is absent, and then
    /// binds it to `val`; on a duplicate key nothing changes.
    pub fn insert(&mut self, key: &Vec<u8>, val: &Vec<u8>) -> (r: bool)
        requires
            old(self).wf(),
        ensures
            final(self).wf(),
            r <==> assoc_get(old(self)@, key@) is None,
            !r ==> *final(self) == *old(self),
            r ==> {
                &&& assoc_get(final(self)@, key@) == Some(val@)
                &&& forall|q: Seq<u8>|
                    q != key@ ==> assoc_get(final(self)@, q) == assoc_get(old(self)@, q)
            },
    {
        match self.find(key) {
            Some(_) => false,
            None => {
                self.entries.push((clone_bytes(key), clone_bytes(val)));
                proof {
                    assert(self@ =~= old(self)@.push((key@, val@)));
                    assert forall|q: Seq<u8>| true implies (q == key@ ==> assoc_get(self@, q)
                        == Some(val@)) && (q != key@ ==> assoc_get(self@, q) == assoc_get(
                        old(self)@,
                        q,
                    )) by {
                        lemma_assoc_get_push(old(self)@, key@, val@, q);
                    }
                    assert forall|i: int, j: int| 0 <= i < j < self@.len() implies (
                    #[trigger] self@[i]).0 != (#[trigger] self@[j]).0 by {
                        if j == old(self)@.len() {
                            if self@[i].0 == key@ {
                                lemma_assoc_get_found(old(self)@, key@, i);
                            }
                        }
                    }
                }
                true
            },
        }
    }

    /// Presence-checked delete: succeeds exactly when `key` is bound, and
    /// then unbinds it; on a missing key nothing changes.
    pub fn delete(&mut self, key: &Vec<u8>) -> (r: bool)
        requires
            old(self).wf(),
        ensures
            final(self).wf(),
            r <==> assoc_get(old(self)@, key@) is Some,
            !r ==> *final(self) == *old(self),
            r ==> {
                &&& assoc_get(final(self)@, key@) is None
                &&& forall|q: Seq<u8>|
                    q != key@ ==> assoc_get(final(self)@, q) == assoc_get(old(self)@, q)
            },
    {
        match self.find(key) {
            None => false,
            Some(i) => {
                self.entries.remove(i);
                proof {
                    assert(self@ =~= old(self)@.remove(i as int));
                    assert forall|q: Seq<u8>| true implies (q == key@ ==> assoc_get(self@, q)
                        is None) && (q != key@ ==> assoc_get(self@, q) == assoc_get(
                        old(self)@,
                        q,
                    )) by {
                        lemma_assoc_get_remove(old(self)@, i as int, q);
                    }
                }
                true
            },
        }
    }
}

/// Removing the only entry bound to a key unbinds it and no other key.
pub proof fn lemma_assoc_get_remove(s: Seq<(Seq<u8>, Seq<u8>)>, i: int, q: Seq<u8>)
    requires
        0 <= i < s.len(),
        forall|a: int, b: int| 0 <= a < b < s.len() ==> (#[trigger] s[a]).0 != (#[trigger] s[b]).0,
    ensures
        q == s[i].0 ==> assoc_get(s.remove(i), q) is None,
        q != s[i].0 ==> assoc_get(s.remove(i), q) == assoc_get(s, q),
    decreases s.len(),
{
    let r = s.remove(i);
    if i == 0 {
        assert(r =~= s.skip(1));
        if q == s[0].0 {
            assert forall|w: int| 0 <= w < s.skip(1).len() implies (#[trigger] s.skip(1)[w]).0
                != q by {
                assert(s.skip(1)[w] == s[w + 1]);
            }
            lemma_assoc_get_absent(s.skip(1), q);
        }
    } else {
        assert(r[0] == s[0]);
        assert(r.skip(1) =~= s.skip(1).remove(i - 1));
        assert(forall|w: int| 0 <= w < s.skip(1).len() ==> #[trigger] s.skip(1)[w] == s[w + 1]);
        lemma_assoc_get_remove(s.skip(1), i - 1, q);
    }
}

} // verus!
