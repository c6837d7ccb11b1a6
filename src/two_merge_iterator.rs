//! Merging two cursors of different types.
use vstd::prelude::*;

use crate::block::Entry;
use crate::error::LsmError;
use crate::iterators::{lemma_merge2_sorted, merge2, StorageIterator};
use crate::keys::{compare_keys, keys_increasing, lemma_lex_order, lex_le};

verus! {

/// Whether the merge of `a` and `b` takes its next entry from `a`.
pub open spec fn takes_from_a(a: Seq<Entry>, b: Seq<Entry>) -> bool {
    a.len() > 0 && (b.len() == 0 || lex_le(a[0].0, b[0].0))
}

/// Merges two cursors; where both stand on one key, the entry of `a` is produced and `b` moves
/// past it.
pub struct TwoMergeIterator<A: StorageIterator, B: StorageIterator> {
    a: A,
    b: B,
    is_current_a: bool,
}

impl<A: StorageIterator, B: StorageIterator> TwoMergeIterator<A, B> {
    /// What `a` has still to produce.
    pub closed spec fn rest_a(&self) -> Seq<Entry> {
        self.a.rest()
    }

    /// What `b` has still to produce.
    pub closed spec fn rest_b(&self) -> Seq<Entry> {
        self.b.rest()
    }

    fn pick(&mut self)
        requires
            old(self).a.inv(),
            old(self).b.inv(),
            keys_increasing(old(self).a.rest()),
            keys_increasing(old(self).b.rest()),
        ensures
            final(self).a == old(self).a,
            final(self).b == old(self).b,
            final(self).inv(),
    {
        if self.a.is_valid() {
            if self.b.is_valid() {
                self.is_current_a = compare_keys(self.a.key(), self.b.key()) <= 0;
            } else {
                self.is_current_a = true;
            }
        } else {
            self.is_current_a = false;
        }
    }

    /// Merges `a` with `b`, `a` taking precedence.
    pub fn create(a: A, b: B) -> (r: Result<Self, LsmError>)
        requires
            a.inv(),
            b.inv(),
            keys_increasing(a.rest()),
            keys_increasing(b.rest()),
        ensures
            r is Ok,
            r->Ok_0.inv(),
            r->Ok_0.rest() == merge2(a.rest(), b.rest()),
    {
        let mut it = TwoMergeIterator { a, b, is_current_a: true };
        it.pick();
        Ok(it)
    }
}

impl<A: StorageIterator, B: StorageIterator> StorageIterator for TwoMergeIterator<A, B> {
    closed spec fn inv(&self) -> bool {
        &&& self.a.inv()
        &&& self.b.inv()
        &&& keys_increasing(self.a.rest())
        &&& keys_increasing(self.b.rest())
        &&& self.is_current_a == takes_from_a(self.a.rest(), self.b.rest())
    }

    open spec fn rest(&self) -> Seq<Entry> {
        merge2(self.rest_a(), self.rest_b())
    }

    fn key(&self) -> (r: &[u8]) {
        proof {
            lemma_merge2_sorted(self.a.rest(), self.b.rest());
        }
        if self.is_current_a {
            self.a.key()
        } else {
            proof {
                if self.a.rest().len() > 0 && self.b.rest().len() > 0 {
                    lemma_lex_order(self.a.rest()[0].0, self.b.rest()[0].0, self.a.rest()[0].0);
                }
            }
            self.b.key()
        }
    }

    fn value(&self) -> (r: &[u8]) {
        proof {
            lemma_merge2_sorted(self.a.rest(), self.b.rest());
        }
        if self.is_current_a {
            self.a.value()
        } else {
            self.b.value()
        }
    }

    fn is_valid(&self) -> (r: bool) {
        proof {
            lemma_merge2_sorted(self.a.rest(), self.b.rest());
        }
        self.a.is_valid() || self.b.is_valid()
    }

    fn next(&mut self) -> (r: Result<(), LsmError>) {
        let ghost ra = self.a.rest();
        let ghost rb = self.b.rest();
        proof {
            lemma_merge2_sorted(ra, rb);
        }
        if !self.a.is_valid() && !self.b.is_valid() {
            return Ok(());
        }
        if self.is_current_a {
            let same = self.b.is_valid() && compare_keys(self.a.key(), self.b.key()) == 0;
            let _ = self.a.next();
            if same {
                let _ = self.b.next();
            }
            proof {
                if rb.len() > 0 && !same {
                    lemma_lex_order(ra[0].0, rb[0].0, ra[0].0);
                }
                let tail = if same { merge2(ra.drop_first(), rb.drop_first()) } else { merge2(ra.drop_first(), rb) };
                assert(merge2(ra, rb) == seq![ra[0]] + tail);
                assert((seq![ra[0]] + tail).drop_first() =~= tail);
            }
        } else {
            let _ = self.b.next();
            proof {
                if ra.len() > 0 {
                    lemma_lex_order(ra[0].0, rb[0].0, ra[0].0);
                    let tail = merge2(ra, rb.drop_first());
                    assert(merge2(ra, rb) == seq![rb[0]] + tail);
                    assert((seq![rb[0]] + tail).drop_first() =~= tail);
                }
            }
        }
        proof {
            assert(keys_increasing(self.a.rest())) by {
                let s = self.a.rest();
                assert forall|x: int, y: int| 0 <= x < y < s.len() implies crate::keys::lex_lt(#[trigger] s[x].0, #[trigger] s[y].0) by {
                    if s != ra {
                        assert(s[x] == ra[x + 1] && s[y] == ra[y + 1]);
                    }
                }
            }
            assert(keys_increasing(self.b.rest())) by {
                let s = self.b.rest();
                assert forall|x: int, y: int| 0 <= x < y < s.len() implies crate::keys::lex_lt(#[trigger] s[x].0, #[trigger] s[y].0) by {
                    if s != rb {
                        assert(s[x] == rb[x + 1] && s[y] == rb[y + 1]);
                    }
                }
            }
        }
        self.pick();
        Ok(())
    }
}

} // verus!
