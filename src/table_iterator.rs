//! A cursor over the entries of a table, block by block.
use std::sync::Arc;
use vstd::prelude::*;

use crate::block::{first_at_or_above, BlockIterator, Entry};
use crate::error::LsmError;
use crate::iterators::StorageIterator;
use crate::keys::{keys_increasing, lemma_lex_order, lex_le, lex_lt};
use crate::seqs::{lemma_piece_start_end, lemma_piece_start_mono};
use crate::table::{entries_before, lemma_table_entry, run_piece, table_entries, valid_table, SsTable};

verus! {

/// Entry `j` of block `i` stands at `entries_before(bs, i) + j`, below the table's length.
proof fn lemma_position(bs: Seq<Seq<Entry>>, i: int)
    requires
        valid_table(bs),
        0 <= i < bs.len(),
    ensures
        entries_before(bs, i + 1) == entries_before(bs, i) + bs[i].len(),
        entries_before(bs, i + 1) <= table_entries(bs).len(),
        0 <= entries_before(bs, i),
        i + 1 == bs.len() ==> entries_before(bs, i + 1) == table_entries(bs).len(),
        forall|j: int| 0 <= j < bs[i].len() ==> table_entries(bs)[entries_before(bs, i) + j] == #[trigger] bs[i][j],
        forall|p: int| 0 <= p < entries_before(bs, i) ==> lex_lt(#[trigger] table_entries(bs)[p].0, bs[i][0].0),
{
    lemma_table_entry(bs, i);
    lemma_piece_start_mono(bs, run_piece(), 0, i);
    lemma_piece_start_end(bs, run_piece());
    assert(bs[i].len() >= 1) by {
        assert(crate::block::valid_block(bs[i]));
    }
    assert(table_entries(bs)[entries_before(bs, i) + 0] == bs[i][0]);
}

/// A cursor over a table: a block cursor and the index of its block.
pub struct SsTableIterator {
    block_it: BlockIterator,
    block_idx: usize,
    table: Arc<SsTable>,
}

impl SsTableIterator {
    /// The table the cursor walks.
    pub closed spec fn table(&self) -> SsTable {
        *self.table
    }

    /// The index of the block the cursor is in.
    pub closed spec fn block_index(&self) -> int {
        self.block_idx as int
    }

    /// The index, among the table's entries, of the current entry.
    pub closed spec fn position(&self) -> int {
        entries_before(self.table.blocks(), self.block_idx as int) + self.block_it.index()
    }

    /// Create a new iterator and seek to the first key-value pair.
    pub fn create_and_seek_to_first(table: Arc<SsTable>) -> (r: Result<Self, LsmError>)
        requires
            table.wf(),
        ensures
            r is Ok,
            r->Ok_0.inv(),
            r->Ok_0.table() == *table,
            r->Ok_0.rest() == table.entries(),
    {
        proof {
            table.lemma_wf();
        }
        let block = table.read_block(0)?;
        let block_it = BlockIterator::create_and_seek_to_first(block);
        let it = SsTableIterator { block_it, block_idx: 0, table };
        proof {
            it.table.lemma_wf();
            lemma_position(it.table.blocks(), 0);
            assert(it.table.blocks().subrange(0, 0) =~= Seq::<Seq<Entry>>::empty());
            assert(table_entries(Seq::<Seq<Entry>>::empty()) =~= Seq::<Entry>::empty());
            let es = it.table.entries();
            assert(es.subrange(0, es.len() as int) =~= es);
        }
        Ok(it)
    }

    /// Seek to the first key-value pair.
    pub fn seek_to_first(&mut self) -> (r: Result<(), LsmError>)
        requires
            old(self).inv(),
        ensures
            r is Ok,
            final(self).inv(),
            final(self).table() == old(self).table(),
            final(self).rest() == old(self).table().entries(),
    {
        self.advance_to_block(0);
        proof {
            assert(self.table.blocks().subrange(0, 0) =~= Seq::<Seq<Entry>>::empty());
            assert(table_entries(Seq::<Seq<Entry>>::empty()) =~= Seq::<Entry>::empty());
            let es = self.table.entries();
            assert(es.subrange(0, es.len() as int) =~= es);
        }
        Ok(())
    }

    /// Create a new iterator on the first entry whose key is at or above `key`; fails when there is
    /// none.
    pub fn create_and_seek_to_key(table: Arc<SsTable>, key: &[u8]) -> (r: Result<Self, LsmError>)
        requires
            table.wf(),
        ensures
            r is Ok <==> exists|i: int| 0 <= i < table.entries().len() && lex_le(key@, #[trigger] table.entries()[i].0),
            r matches Ok(it) ==> {
                &&& it.inv()
                &&& it.table() == *table
                &&& first_at_or_above(table.entries(), key@, it.position())
                &&& it.position() < table.entries().len()
                &&& it.rest() == table.entries().subrange(it.position(), table.entries().len() as int)
            },
            r matches Err(e) ==> e == LsmError::SeekPastEnd,
    {
        let mut it = Self::create_and_seek_to_first(table)?;
        let res = it.seek_to_key(key);
        proof {
            let es = table.entries();
            if it.position() >= es.len() {
                assert forall|i: int| 0 <= i < es.len() implies !lex_le(key@, #[trigger] es[i].0) by {
                    lemma_lex_order(es[i].0, key@, es[i].0);
                }
            }
        }
        match res {
            Ok(()) => Ok(it),
            Err(e) => Err(e),
        }
    }

    /// Moves to the first entry of block `idx`.
    pub fn advance_to_block(&mut self, idx: usize)
        requires
            old(self).table().wf(),
            idx < old(self).table().blocks().len(),
        ensures
            final(self).inv(),
            final(self).table() == old(self).table(),
            final(self).position() == entries_before(old(self).table().blocks(), idx as int),
            final(self).block_index() == idx,
    {
        let block = self.table.read_block(idx).unwrap();
        self.block_idx = idx;
        self.block_it = BlockIterator::create_and_seek_to_first(block);
        proof {
            self.table.lemma_wf();
            assert(crate::block::valid_block(self.table.blocks()[idx as int]));
        }
    }

    /// Moves to the first entry whose key is at or above `key`; fails, leaving the cursor
    /// exhausted, when there is none.
    pub fn seek_to_key(&mut self, key: &[u8]) -> (r: Result<(), LsmError>)
        requires
            old(self).inv(),
        ensures
            final(self).inv(),
            final(self).table() == old(self).table(),
            first_at_or_above(old(self).table().entries(), key@, final(self).position()),
            final(self).rest() == old(self).table().entries().subrange(final(self).position(), old(self).table().entries().len() as int),
            r is Ok <==> final(self).position() < old(self).table().entries().len(),
            r matches Err(e) ==> e == LsmError::SeekPastEnd,
    {
        let ghost bs = self.table.blocks();
        let ghost es = self.table.entries();
        proof {
            self.table.lemma_wf();
        }
        let block_idx = self.table.find_block_idx(key);
        self.advance_to_block(block_idx);
        self.block_it.seek_to_key(key);
        let ghost i = block_idx as int;
        let ghost in_block = self.block_it.index();
        proof {
            self.block_it.lemma_wf();
            assert(first_at_or_above(bs[i], key@, in_block));
        }
        proof {
            lemma_position(bs, i);
            assert forall|p: int| 0 <= p < entries_before(bs, i) implies lex_lt(#[trigger] es[p].0, key@) by {
                if i > 0 {
                    lemma_lex_order(es[p].0, bs[i][0].0, key@);
                } else {
                    assert(bs.subrange(0, 0) =~= Seq::<Seq<Entry>>::empty());
                    assert(table_entries(Seq::<Seq<Entry>>::empty()) =~= Seq::<Entry>::empty());
                }
            }
        }
        if !self.block_it.is_valid() && block_idx < self.table.num_of_blocks() - 1 {
            self.advance_to_block(block_idx + 1);
            proof {
                lemma_position(bs, i + 1);
                assert(es[entries_before(bs, i + 1) + 0] == bs[i + 1][0]);
                lemma_lex_order(key@, bs[i + 1][0].0, key@);
            }
        }
        proof {
            let pos = self.position();
            assert(pos == entries_before(bs, i) + in_block || (in_block == bs[i].len() && pos == entries_before(bs, i + 1)));
            assert forall|p: int| 0 <= p < pos implies lex_lt(#[trigger] es[p].0, key@) by {
                if p >= entries_before(bs, i) {
                    let j = p - entries_before(bs, i);
                    assert(j < in_block);
                    assert(es[entries_before(bs, i) + j] == bs[i][j]);
                }
            }
            if pos < es.len() {
                if self.block_idx as int == i {
                    assert(es[entries_before(bs, i) + self.block_it.index()] == bs[i][self.block_it.index()]);
                }
            }
        }
        if self.block_it.is_valid() {
            Ok(())
        } else {
            Err(LsmError::SeekPastEnd)
        }
    }
}

impl StorageIterator for SsTableIterator {
    closed spec fn inv(&self) -> bool {
        let bs = self.table.blocks();
        &&& self.table.wf()
        &&& self.block_idx < bs.len()
        &&& self.block_it.wf()
        &&& self.block_it.block().entries() == bs[self.block_idx as int]
        &&& (self.block_it.index() < bs[self.block_idx as int].len() || self.block_idx == bs.len() - 1)
    }

    open spec fn rest(&self) -> Seq<Entry> {
        self.table().entries().subrange(self.position(), self.table().entries().len() as int)
    }

    fn value(&self) -> (r: &[u8]) {
        proof {
            self.table.lemma_wf();
            lemma_position(self.table.blocks(), self.block_idx as int);
            self.block_it.lemma_wf();
            assert(self.table.entries()[self.position()] == self.table.blocks()[self.block_idx as int][self.block_it.index()]);
        }
        self.block_it.value()
    }

    fn key(&self) -> (r: &[u8]) {
        proof {
            self.table.lemma_wf();
            lemma_position(self.table.blocks(), self.block_idx as int);
            self.block_it.lemma_wf();
            assert(self.table.entries()[self.position()] == self.table.blocks()[self.block_idx as int][self.block_it.index()]);
        }
        self.block_it.key()
    }

    fn is_valid(&self) -> (r: bool) {
        proof {
            self.block_it.lemma_wf();
            self.table.lemma_wf();
            lemma_position(self.table.blocks(), self.block_idx as int);
        }
        self.block_it.is_valid()
    }

    fn next(&mut self) -> (r: Result<(), LsmError>) {
        let ghost bs = self.table.blocks();
        let ghost es = self.table.entries();
        let ghost pos = self.position();
        proof {
            self.table.lemma_wf();
            self.block_it.lemma_wf();
            lemma_position(bs, self.block_idx as int);
        }
        if !self.block_it.is_valid() {
            return Ok(());
        }
        self.block_it.next();
        if !self.block_it.is_valid() && self.block_idx < self.table.num_of_blocks() - 1 {
            let idx = self.block_idx + 1;
            self.advance_to_block(idx);
        }
        assert(es.subrange(pos + 1, es.len() as int) =~= es.subrange(pos, es.len() as int).drop_first());
        Ok(())
    }
}

} // verus!
