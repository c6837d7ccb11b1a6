//! Merging any number of cursors of one type.
use vstd::prelude::*;
use vstd::slice::slice_to_vec;

use crate::block::Entry;
use crate::error::LsmError;
use crate::iterators::{
    advance_past, all_empty, all_sorted, is_min_source, lemma_merge_all_sorted, lemma_merge_all_step, merge_all,
    StorageIterator,
};
use crate::keys::{compare_keys, keys_increasing, lemma_lex_order, lex_le};

verus! {

/// Merges cursors of one type. Where several stand on one key, the entry of the cursor with the
/// lowest index is produced, once; the others move past it.
pub struct MergeIterator<I: StorageIterator> {
    iters: Vec<Box<I>>,
    current: Option<usize>,
}

impl<I: StorageIterator> MergeIterator<I> {
    /// What each merged cursor has still to produce.
    pub closed spec fn sources(&self) -> Seq<Seq<Entry>> {
        Seq::new(self.iters@.len(), |i: int| self.iters@[i].rest())
    }

    /// Merges `iters`, lower indexes taking precedence.
    pub fn create(iters: Vec<Box<I>>) -> (r: Self)
        requires
            forall|i: int| 0 <= i < iters@.len() ==> (#[trigger] iters@[i]).inv() && keys_increasing(iters@[i].rest()),
        ensures
            r.inv(),
            r.rest() == merge_all(Seq::new(iters@.len(), |i: int| iters@[i].rest())),
    {
        let mut it = MergeIterator { iters, current: None };
        assert(it.sources() =~= Seq::new(iters@.len(), |i: int| iters@[i].rest()));
        let cur = it.find_min();
        it.current = cur;
        it
    }

    /// The cursor that stands on the smallest key, the lowest-indexed among equals.
    fn find_min(&self) -> (r: Option<usize>)
        requires
            forall|i: int| 0 <= i < self.iters@.len() ==> (#[trigger] self.iters@[i]).inv(),
        ensures
            r matches Some(j) ==> is_min_source(self.sources(), j as int),
            r is None ==> all_empty(self.sources()),
    {
        let ghost srcs = self.sources();
        let mut best: Option<usize> = None;
        let mut i: usize = 0;
        while i < self.iters.len()
            invariant
                srcs == self.sources(),
                forall|l: int| 0 <= l < self.iters@.len() ==> (#[trigger] self.iters@[l]).inv(),
                i <= self.iters@.len(),
                best matches Some(b) ==> {
                    &&& b < i
                    &&& srcs[b as int].len() > 0
                    &&& forall|l: int| 0 <= l < i && srcs[l].len() > 0 ==> lex_le(srcs[b as int][0].0, #[trigger] srcs[l][0].0)
                    &&& forall|l: int| 0 <= l < b && srcs[l].len() > 0 ==> #[trigger] srcs[l][0].0 != srcs[b as int][0].0
                },
                best is None ==> forall|l: int| 0 <= l < i ==> (#[trigger] srcs[l]).len() == 0,
            decreases self.iters@.len() - i,
        {
            assert(srcs[i as int] == self.iters@[i as int].rest());
            if self.iters[i].is_valid() {
                match best {
                    None => {
                        best = Some(i);
                    },
                    Some(b) => {
                        assert(srcs[b as int] == self.iters@[b as int].rest());
                        let c = compare_keys(self.iters[i].key(), self.iters[b].key());
                        if c < 0 {
                            proof {
                                assert forall|l: int| 0 <= l < i + 1 && srcs[l].len() > 0 implies lex_le(srcs[i as int][0].0, #[trigger] srcs[l][0].0) by {
                                    if l < i {
                                        lemma_lex_order(srcs[i as int][0].0, srcs[b as int][0].0, srcs[l][0].0);
                                    }
                                }
                                assert forall|l: int| 0 <= l < i && srcs[l].len() > 0 implies #[trigger] srcs[l][0].0 != srcs[i as int][0].0 by {
                                    lemma_lex_order(srcs[i as int][0].0, srcs[b as int][0].0, srcs[l][0].0);
                                }
                            }
                            best = Some(i);
                        } else {
                            proof {
                                lemma_lex_order(srcs[i as int][0].0, srcs[b as int][0].0, srcs[i as int][0].0);
                            }
                        }
                    },
                }
            }
            i = i + 1;
        }
        best
    }
}

impl<I: StorageIterator> StorageIterator for MergeIterator<I> {
    closed spec fn inv(&self) -> bool {
        &&& forall|i: int| 0 <= i < self.iters@.len() ==> (#[trigger] self.iters@[i]).inv()
        &&& all_sorted(self.sources())
        &&& self.current matches Some(j) ==> is_min_source(self.sources(), j as int)
        &&& self.current is None ==> all_empty(self.sources())
    }

    open spec fn rest(&self) -> Seq<Entry> {
        merge_all(self.sources())
    }

    fn key(&self) -> (r: &[u8]) {
        proof {
            lemma_merge_all_sorted(self.sources());
        }
        let j = self.current.unwrap();
        proof {
            lemma_merge_all_step(self.sources(), j as int);
            assert(self.sources()[j as int] == self.iters@[j as int].rest());
        }
        self.iters[j].key()
    }

    fn value(&self) -> (r: &[u8]) {
        proof {
            lemma_merge_all_sorted(self.sources());
        }
        let j = self.current.unwrap();
        proof {
            lemma_merge_all_step(self.sources(), j as int);
            assert(self.sources()[j as int] == self.iters@[j as int].rest());
        }
        self.iters[j].value()
    }

    fn is_valid(&self) -> (r: bool) {
        proof {
            lemma_merge_all_sorted(self.sources());
            if let Some(j) = self.current {
                lemma_merge_all_step(self.sources(), j as int);
            }
        }
        self.current.is_some()
    }

    fn next(&mut self) -> (r: Result<(), LsmError>) {
        proof {
            lemma_merge_all_sorted(self.sources());
        }
        let j = match self.current {
            Some(j) => j,
            None => {
                return Ok(());
            },
        };
        let ghost srcs = self.sources();
        proof {
            lemma_merge_all_step(srcs, j as int);
            assert(srcs[j as int] == self.iters@[j as int].rest());
        }
        let k = slice_to_vec(self.iters[j].key());
        let ghost adv = advance_past(srcs, k@);
        let mut i: usize = 0;
        while i < self.iters.len()
            invariant
                srcs.len() == self.iters@.len(),
                adv == advance_past(srcs, k@),
                all_sorted(srcs),
                i <= self.iters@.len(),
                forall|l: int| 0 <= l < self.iters@.len() ==> (#[trigger] self.iters@[l]).inv(),
                forall|l: int| 0 <= l < i ==> (#[trigger] self.iters@[l]).rest() == adv[l],
                forall|l: int| i <= l < self.iters@.len() ==> (#[trigger] self.iters@[l]).rest() == srcs[l],
            decreases self.iters@.len() - i,
        {
            if self.iters[i].is_valid() && compare_keys(self.iters[i].key(), k.as_slice()) == 0 {
                let _ = self.iters[i].next();
            }
            i = i + 1;
        }
        proof {
            assert(self.sources() =~= adv);
            assert forall|l: int| 0 <= l < adv.len() implies keys_increasing(#[trigger] adv[l]) by {
                assert(keys_increasing(srcs[l]));
                if srcs[l].len() > 0 && srcs[l][0].0 == k@ {
                    let d = srcs[l].drop_first();
                    assert forall|a: int, b: int| 0 <= a < b < d.len() implies crate::keys::lex_lt(#[trigger] d[a].0, #[trigger] d[b].0) by {
                        assert(d[a] == srcs[l][a + 1] && d[b] == srcs[l][b + 1]);
                    }
                }
            }
        }
        let cur = self.find_min();
        self.current = cur;
        Ok(())
    }
}

} // verus!
