//! The cursor a scan hands out: merged sources, cut at the upper bound, deletions skipped.
use vstd::prelude::*;

use crate::block::Entry;
use crate::error::LsmError;
use crate::iterators::StorageIterator;
use crate::keys::{keys_increasing, lemma_lex_order, KeyBound};
use crate::mem_table::MemTableIterator;
use crate::merge_iterator::MergeIterator;
use crate::table_iterator::SsTableIterator;
use crate::two_merge_iterator::TwoMergeIterator;

verus! {

/// The memory side merged with the table side.
pub type LsmTwoMergeIter = TwoMergeIterator<MergeIterator<MemTableIterator>, MergeIterator<SsTableIterator>>;

/// The entries of the sorted run `s` up to the first key past `upper`, without deletions.
pub open spec fn visible(s: Seq<Entry>, upper: KeyBound) -> Seq<Entry>
    decreases s.len(),
{
    if s.len() == 0 || !upper.admits_below(s[0].0) {
        Seq::empty()
    } else if s[0].1.len() == 0 {
        visible(s.drop_first(), upper)
    } else {
        seq![s[0]] + visible(s.drop_first(), upper)
    }
}

/// What a scan shows of a sorted run: its live entries at or below the upper bound, in order.
pub proof fn lemma_visible(s: Seq<Entry>, upper: KeyBound)
    requires
        keys_increasing(s),
    ensures
        keys_increasing(visible(s, upper)),
        forall|i: int| 0 <= i < visible(s, upper).len() ==> (#[trigger] visible(s, upper)[i]).1.len() > 0,
        forall|e: Entry|
            #[trigger] visible(s, upper).contains(e) <==> (s.contains(e) && upper.admits_below(e.0) && e.1.len() > 0),
    decreases s.len(),
{
    if s.len() > 0 {
        let t = s.drop_first();
        assert(keys_increasing(t)) by {
            assert forall|a: int, b: int| 0 <= a < b < t.len() implies crate::keys::lex_lt(#[trigger] t[a].0, #[trigger] t[b].0) by {
                assert(t[a] == s[a + 1] && t[b] == s[b + 1]);
            }
        }
        lemma_visible(t, upper);
        let v = visible(s, upper);
        let vt = visible(t, upper);
        assert forall|e: Entry| s.contains(e) <==> (e == s[0] || t.contains(e)) by {
            if s.contains(e) {
                let i = choose|i: int| 0 <= i < s.len() && s[i] == e;
                if i > 0 {
                    assert(t[i - 1] == e);
                }
            }
            if t.contains(e) {
                let i = choose|i: int| 0 <= i < t.len() && t[i] == e;
                assert(s[i + 1] == e);
            }
        }
        if !upper.admits_below(s[0].0) {
            assert forall|e: Entry| s.contains(e) && upper.admits_below(e.0) implies false by {
                let i = choose|i: int| 0 <= i < s.len() && s[i] == e;
                if i > 0 {
                    upper.lemma_below_closed(s[0].0, e.0);
                }
            }
            assert(!v.contains(s[0]));
        } else if s[0].1.len() > 0 {
            assert(v == seq![s[0]] + vt);
            assert forall|e: Entry| v.contains(e) <==> (e == s[0] || vt.contains(e)) by {
                if v.contains(e) {
                    let i = choose|i: int| 0 <= i < v.len() && v[i] == e;
                    if i > 0 {
                        assert(vt[i - 1] == e);
                    }
                }
                if vt.contains(e) {
                    let i = choose|i: int| 0 <= i < vt.len() && vt[i] == e;
                    assert(v[i + 1] == e);
                }
                if e == s[0] {
                    assert(v[0] == e);
                }
            }
            assert forall|i: int| 0 <= i < vt.len() implies crate::keys::lex_lt(s[0].0, #[trigger] vt[i].0) by {
                assert(vt.contains(vt[i]));
                assert(t.contains(vt[i]));
                let j = choose|j: int| 0 <= j < t.len() && t[j] == vt[i];
                assert(t[j] == s[j + 1]);
                assert(crate::keys::lex_lt(s[0].0, s[j + 1].0));
            }
            assert forall|a: int, b: int| 0 <= a < b < v.len() implies crate::keys::lex_lt(#[trigger] v[a].0, #[trigger] v[b].0) by {
                assert(v[b] == vt[b - 1]);
                if a > 0 {
                    assert(v[a] == vt[a - 1]);
                }
            }
            assert forall|i: int| 0 <= i < v.len() implies (#[trigger] v[i]).1.len() > 0 by {
                if i > 0 {
                    assert(v[i] == vt[i - 1]);
                }
            }
        } else {
            assert(!vt.contains(s[0])) by {
                if vt.contains(s[0]) {
                    assert(t.contains(s[0]));
                    let j = choose|j: int| 0 <= j < t.len() && t[j] == s[0];
                    assert(s[j + 1] == s[0]);
                    lemma_lex_order(s[0].0, s[0].0, s[0].0);
                }
            }
        }
    }
}

/// A scan cursor: the merged sources, an upper bound, and deletions skipped.
pub struct LsmIterator {
    upper_bound: KeyBound,
    storage_it: LsmTwoMergeIter,
}

impl LsmIterator {
    /// The entries the merged sources have still to produce.
    pub closed spec fn merged(&self) -> Seq<Entry> {
        self.storage_it.rest()
    }

    /// The upper bound of the scan.
    pub closed spec fn upper(&self) -> KeyBound {
        self.upper_bound
    }

    /// Wraps the merged sources; the cursor moves to the first live entry.
    pub fn create(upper_bound: KeyBound, storage_it: LsmTwoMergeIter) -> (r: Self)
        requires
            storage_it.inv(),
            keys_increasing(storage_it.rest()),
        ensures
            r.inv(),
            r.rest() == visible(storage_it.rest(), upper_bound),
    {
        let mut it = LsmIterator { upper_bound, storage_it };
        it.skip_tombstones();
        it
    }

    /// The entries a scan cursor has still to show come in strictly increasing key order and are
    /// all live; each `next` thus moves to a greater key or exhausts the cursor.
    pub proof fn lemma_rest_sorted(&self)
        requires
            self.inv(),
        ensures
            keys_increasing(self.rest()),
            forall|i: int| 0 <= i < self.rest().len() ==> (#[trigger] self.rest()[i]).1.len() > 0,
    {
        lemma_visible(self.storage_it.rest(), self.upper_bound);
    }

    /// Moves past deletions while the bound admits the current key.
    fn skip_tombstones(&mut self)
        requires
            old(self).storage_it.inv(),
            keys_increasing(old(self).storage_it.rest()),
        ensures
            final(self).inv(),
            final(self).upper_bound == old(self).upper_bound,
            visible(final(self).storage_it.rest(), final(self).upper_bound) == visible(
                old(self).storage_it.rest(),
                old(self).upper_bound,
            ),
    {
        let ghost start = visible(self.storage_it.rest(), self.upper_bound);
        while self.storage_it.is_valid() && self.upper_bound.key_within_upper(self.storage_it.key())
            && self.storage_it.value().len() == 0
            invariant
                self.storage_it.inv(),
                keys_increasing(self.storage_it.rest()),
                self.upper_bound == old(self).upper_bound,
                visible(self.storage_it.rest(), self.upper_bound) == start,
            decreases self.storage_it.rest().len(),
        {
            let ghost s = self.storage_it.rest();
            let _ = self.storage_it.next();
            proof {
                let t = self.storage_it.rest();
                assert forall|a: int, b: int| 0 <= a < b < t.len() implies crate::keys::lex_lt(#[trigger] t[a].0, #[trigger] t[b].0) by {
                    assert(t[a] == s[a + 1] && t[b] == s[b + 1]);
                }
            }
        }
    }
}

impl StorageIterator for LsmIterator {
    closed spec fn inv(&self) -> bool {
        let s = self.storage_it.rest();
        &&& self.storage_it.inv()
        &&& keys_increasing(s)
        &&& s.len() > 0 && self.upper_bound.admits_below(s[0].0) ==> s[0].1.len() > 0
    }

    open spec fn rest(&self) -> Seq<Entry> {
        visible(self.merged(), self.upper())
    }

    fn is_valid(&self) -> (r: bool) {
        if !self.storage_it.is_valid() {
            return false;
        }
        self.upper_bound.key_within_upper(self.storage_it.key())
    }

    fn key(&self) -> (r: &[u8]) {
        self.storage_it.key()
    }

    fn value(&self) -> (r: &[u8]) {
        self.storage_it.value()
    }

    fn next(&mut self) -> (r: Result<(), LsmError>) {
        if !self.is_valid() {
            return Ok(());
        }
        let ghost s = self.storage_it.rest();
        let _ = self.storage_it.next();
        proof {
            let t = self.storage_it.rest();
            assert forall|a: int, b: int| 0 <= a < b < t.len() implies crate::keys::lex_lt(#[trigger] t[a].0, #[trigger] t[b].0) by {
                assert(t[a] == s[a + 1] && t[b] == s[b + 1]);
            }
            let vt = visible(t, self.upper_bound);
            assert(visible(s, self.upper_bound) == seq![s[0]] + vt);
            assert((seq![s[0]] + vt).drop_first() =~= vt);
        }
        self.skip_tombstones();
        Ok(())
    }
}

/// Wraps a cursor so that moving an exhausted cursor does nothing.
pub struct FusedIterator<I: StorageIterator> {
    iter: I,
}

impl<I: StorageIterator> FusedIterator<I> {
    pub fn new(iter: I) -> (r: Self)
        requires
            iter.inv(),
        ensures
            r.inv(),
            r.rest() == iter.rest(),
    {
        FusedIterator { iter }
    }
}

impl<I: StorageIterator> StorageIterator for FusedIterator<I> {
    closed spec fn inv(&self) -> bool {
        self.iter.inv()
    }

    closed spec fn rest(&self) -> Seq<Entry> {
        self.iter.rest()
    }

    fn is_valid(&self) -> (r: bool) {
        self.iter.is_valid()
    }

    fn key(&self) -> (r: &[u8]) {
        self.iter.key()
    }

    fn value(&self) -> (r: &[u8]) {
        self.iter.value()
    }

    fn next(&mut self) -> (r: Result<(), LsmError>) {
        if self.iter.is_valid() {
            let _ = self.iter.next();
        }
        Ok(())
    }
}

} // verus!
