//! Sorted-string tables: blocks, then an index of block metas, then the offset of that index.
//!
//! Layout: `block_0 | ... | block_{m-1} | meta_0 | ... | meta_{m-1} | meta_offset:u32`, where a meta
//! is `offset:u32 | key_len:u16 | first_key`. Table-level integers are big-endian.
use std::sync::Arc;
use vstd::prelude::*;
use vstd::slice::slice_to_vec;

use crate::block::{block_bytes, encoded_size, valid_block, valid_entry, Block, BlockBuilder, Entry};
use crate::error::LsmError;
use crate::keys::{compare_keys, keys_increasing, lemma_push_increasing, lex_le, lex_lt, lemma_lex_order};
use crate::seqs::{
    concat_map, lemma_concat_map_at, lemma_concat_map_prefix, lemma_concat_map_push, lemma_piece_start_end,
    lemma_piece_start_mono, piece_start,
};

verus! {

/// Big-endian bytes of a 16-bit number.
pub open spec fn u16_be(x: int) -> Seq<u8> {
    seq![(x / 256) as u8, (x % 256) as u8]
}

/// Big-endian bytes of a 32-bit number.
pub open spec fn u32_be(x: int) -> Seq<u8> {
    u16_be(x / 65536) + u16_be(x % 65536)
}

pub proof fn lemma_u16_be(x: int)
    requires
        0 <= x < 65536,
    ensures
        u16_be(x).len() == 2,
        (u16_be(x)[0] as int) * 256 + u16_be(x)[1] as int == x,
{
    assert((x / 256) * 256 + x % 256 == x) by (nonlinear_arith)
        requires 0 <= x;
    assert(x / 256 < 256) by (nonlinear_arith)
        requires 0 <= x < 65536;
}

pub proof fn lemma_u16_be_of_bytes(hi: u8, lo: u8)
    ensures
        u16_be((hi as int) * 256 + lo as int) == seq![hi, lo],
{
    let x = (hi as int) * 256 + lo as int;
    assert(x / 256 == hi as int && x % 256 == lo as int) by (nonlinear_arith)
        requires x == (hi as int) * 256 + lo as int, 0 <= lo < 256;
    assert(u16_be(x) =~= seq![hi, lo]);
}

pub proof fn lemma_u32_be(x: int)
    requires
        0 <= x < 0x1_0000_0000,
    ensures
        u32_be(x).len() == 4,
        ((u32_be(x)[0] as int) * 256 + u32_be(x)[1] as int) * 65536 + (u32_be(x)[2] as int) * 256
            + u32_be(x)[3] as int == x,
{
    assert((x / 65536) * 65536 + x % 65536 == x && x / 65536 < 65536) by (nonlinear_arith)
        requires 0 <= x < 0x1_0000_0000;
    lemma_u16_be(x / 65536);
    lemma_u16_be(x % 65536);
}

pub proof fn lemma_u32_be_of_bytes(b0: u8, b1: u8, b2: u8, b3: u8)
    ensures
        u32_be(((b0 as int) * 256 + b1 as int) * 65536 + (b2 as int) * 256 + b3 as int) == seq![b0, b1, b2, b3],
{
    let hi = (b0 as int) * 256 + b1 as int;
    let lo = (b2 as int) * 256 + b3 as int;
    let x = hi * 65536 + lo;
    assert(x / 65536 == hi && x % 65536 == lo) by (nonlinear_arith)
        requires x == hi * 65536 + lo, 0 <= lo < 65536;
    lemma_u16_be_of_bytes(b0, b1);
    lemma_u16_be_of_bytes(b2, b3);
    assert(u32_be(x) =~= seq![b0, b1, b2, b3]);
}

/// Where a block starts in the table, and the first key it holds.
pub struct BlockMeta {
    /// Offset of the block from the start of the table.
    pub offset: usize,
    /// The first key of the block.
    pub first_key: Vec<u8>,
}

/// A meta as plain values.
pub open spec fn meta_view(m: BlockMeta) -> (int, Seq<u8>) {
    (m.offset as int, m.first_key@)
}

pub open spec fn metas_view(ms: Seq<BlockMeta>) -> Seq<(int, Seq<u8>)> {
    ms.map_values(|m: BlockMeta| meta_view(m))
}

/// The bytes of one meta.
pub open spec fn meta_bytes(m: (int, Seq<u8>)) -> Seq<u8> {
    u32_be(m.0) + u16_be(m.1.len() as int) + m.1
}

pub open spec fn meta_piece() -> spec_fn((int, Seq<u8>)) -> Seq<u8> {
    |m: (int, Seq<u8>)| meta_bytes(m)
}

/// The bytes of a run of metas.
pub open spec fn metas_bytes(ms: Seq<(int, Seq<u8>)>) -> Seq<u8> {
    concat_map(ms, meta_piece())
}

/// A meta whose offset fits 32 bits and whose key length fits 16 bits.
pub open spec fn valid_meta(m: (int, Seq<u8>)) -> bool {
    0 <= m.0 < 0x1_0000_0000 && m.1.len() < 65536
}

pub open spec fn valid_metas(ms: Seq<(int, Seq<u8>)>) -> bool {
    forall|i: int| 0 <= i < ms.len() ==> valid_meta(#[trigger] ms[i])
}

impl BlockMeta {
    /// Appends the encoding of `block_meta` to `buf`.
    pub fn encode_block_meta(block_meta: &[BlockMeta], buf: &mut Vec<u8>)
        requires
            valid_metas(metas_view(block_meta@)),
        ensures
            final(buf)@ == old(buf)@ + metas_bytes(metas_view(block_meta@)),
    {
        let ghost ms = metas_view(block_meta@);
        let mut i: usize = 0;
        while i < block_meta.len()
            invariant
                ms == metas_view(block_meta@),
                valid_metas(ms),
                i <= block_meta@.len(),
                buf@ == old(buf)@ + metas_bytes(ms.subrange(0, i as int)),
            decreases block_meta@.len() - i,
        {
            let meta = &block_meta[i];
            assert(valid_meta(ms[i as int]));
            let off = meta.offset;
            let hi = off / 65536;
            let lo = off % 65536;
            buf.push((hi / 256) as u8);
            buf.push((hi % 256) as u8);
            buf.push((lo / 256) as u8);
            buf.push((lo % 256) as u8);
            let kl = meta.first_key.len();
            buf.push((kl / 256) as u8);
            buf.push((kl % 256) as u8);
            buf.extend_from_slice(meta.first_key.as_slice());
            proof {
                assert(ms.subrange(0, i + 1) =~= ms.subrange(0, i as int).push(ms[i as int]));
                lemma_concat_map_push(ms.subrange(0, i as int), meta_piece(), ms[i as int]);
                assert(buf@ =~= old(buf)@ + metas_bytes(ms.subrange(0, i + 1)));
            }
            i = i + 1;
        }
        assert(ms.subrange(0, i as int) =~= ms);
    }

    /// Decodes a run of metas, failing on bytes that do not follow the meta layout.
    pub fn decode_block_meta(buf: &[u8]) -> (r: Result<Vec<BlockMeta>, LsmError>)
        ensures
            r is Ok ==> valid_metas(metas_view(r->Ok_0@)) && metas_bytes(metas_view(r->Ok_0@)) == buf@,
            r is Err ==> r->Err_0 == LsmError::MalformedTable,
            forall|ms: Seq<(int, Seq<u8>)>|
                valid_metas(ms) && metas_bytes(ms) == buf@ ==> (r is Ok && metas_view(r->Ok_0@) == ms),
    {
        let mut metas: Vec<BlockMeta> = Vec::new();
        let mut p: usize = 0;
        let ghost mut i: int = 0;
        while p < buf.len()
            invariant
                p <= buf@.len(),
                metas@.len() == i,
                valid_metas(metas_view(metas@)),
                buf@.subrange(0, p as int) == metas_bytes(metas_view(metas@)),
                forall|ms: Seq<(int, Seq<u8>)>| #[trigger] valid_metas(ms) && metas_bytes(ms) == buf@ ==> {
                    &&& i <= ms.len()
                    &&& metas_view(metas@) == ms.subrange(0, i)
                    &&& p == piece_start(ms, meta_piece(), i)
                },
            decreases buf@.len() - p,
        {
            proof {
                assert forall|ms: Seq<(int, Seq<u8>)>| #[trigger] valid_metas(ms) && metas_bytes(ms) == buf@ implies {
                    &&& i < ms.len()
                    &&& p + meta_bytes(ms[i]).len() <= buf@.len()
                    &&& buf@.subrange(p as int, p + meta_bytes(ms[i]).len()) == meta_bytes(ms[i])
                    &&& p + meta_bytes(ms[i]).len() == piece_start(ms, meta_piece(), i + 1)
                } by {
                    lemma_piece_start_end(ms, meta_piece());
                    if i == ms.len() {
                        assert(ms.subrange(0, i) =~= ms);
                    }
                    lemma_concat_map_at(ms, meta_piece(), i);
                }
            }
            let read = read_meta(buf, p);
            let meta = match read {
                Some(m) => m,
                None => {
                    return Err(LsmError::MalformedTable);
                },
            };
            let ghost m = meta_view(meta);
            let next = p + 6 + meta.first_key.len();
            proof {
                let old_v = metas_view(metas@);
                assert(metas_view(metas@.push(meta)) =~= old_v.push(m));
                lemma_concat_map_push(old_v, meta_piece(), m);
                assert(buf@.subrange(0, next as int) =~= buf@.subrange(0, p as int) + buf@.subrange(p as int, next as int));
                assert forall|ms: Seq<(int, Seq<u8>)>| #[trigger] valid_metas(ms) && metas_bytes(ms) == buf@ implies
                    old_v.push(m) == ms.subrange(0, i + 1) by {
                    assert(ms.subrange(0, i + 1) =~= ms.subrange(0, i).push(ms[i]));
                }
            }
            metas.push(meta);
            p = next;
            proof {
                i = i + 1;
            }
        }
        proof {
            assert forall|ms: Seq<(int, Seq<u8>)>| #[trigger] valid_metas(ms) && metas_bytes(ms) == buf@ implies metas_view(metas@) == ms by {
                lemma_piece_start_end(ms, meta_piece());
                if i < ms.len() {
                    lemma_concat_map_at(ms, meta_piece(), i);
                    lemma_piece_start_mono(ms, meta_piece(), i + 1, ms.len() as int);
                }
                assert(ms.subrange(0, i) =~= ms);
            }
            assert(buf@.subrange(0, p as int) =~= buf@);
        }
        Ok(metas)
    }
}

/// Reads the meta that starts at `p`.
fn read_meta(buf: &[u8], p: usize) -> (r: Option<BlockMeta>)
    requires
        p <= buf@.len(),
    ensures
        r matches Some(m) ==> {
            &&& valid_meta(meta_view(m))
            &&& p + meta_bytes(meta_view(m)).len() <= buf@.len()
            &&& buf@.subrange(p as int, p + meta_bytes(meta_view(m)).len()) == meta_bytes(meta_view(m))
            &&& meta_bytes(meta_view(m)).len() == 6 + m.first_key@.len()
        },
        forall|m: (int, Seq<u8>)|
            valid_meta(m) && p + meta_bytes(m).len() <= buf@.len() && #[trigger] buf@.subrange(p as int, p + meta_bytes(m).len())
                == meta_bytes(m) ==> (r matches Some(x) && meta_view(x) == m),
{
    proof {
        assert forall|m: (int, Seq<u8>)| valid_meta(m) implies #[trigger] meta_bytes(m).len() == 6 + m.1.len() by {
            lemma_u32_be(m.0);
            lemma_u16_be(m.1.len() as int);
        }
    }
    if buf.len() - p < 6 {
        return None;
    }
    let b0 = buf[p];
    let b1 = buf[p + 1];
    let b2 = buf[p + 2];
    let b3 = buf[p + 3];
    let offset: u64 = ((b0 as u64) * 256 + b1 as u64) * 65536 + (b2 as u64) * 256 + b3 as u64;
    let kl: usize = (buf[p + 4] as usize) * 256 + buf[p + 5] as usize;
    proof {
        lemma_u32_be_of_bytes(b0, b1, b2, b3);
        lemma_u16_be_of_bytes(buf@[p + 4], buf@[p + 5]);
        assert forall|m: (int, Seq<u8>)| valid_meta(m) && p + meta_bytes(m).len() <= buf@.len() && #[trigger] buf@.subrange(p as int, p + meta_bytes(m).len())
            == meta_bytes(m) implies m.0 == offset && m.1.len() == kl by {
            let w = meta_bytes(m);
            lemma_u32_be(m.0);
            lemma_u16_be(m.1.len() as int);
            assert(buf@[p as int] == w[0] && buf@[p + 1] == w[1] && buf@[p + 2] == w[2] && buf@[p + 3] == w[3]);
            assert(buf@[p + 4] == w[4] && buf@[p + 5] == w[5]);
        }
    }
    if kl > buf.len() - p - 6 || offset > usize::MAX as u64 {
        return None;
    }
    let first_key = slice_to_vec(&buf[p + 6..p + 6 + kl]);
    let meta = BlockMeta { offset: offset as usize, first_key };
    proof {
        let m = meta_view(meta);
        assert(u32_be(m.0) == seq![b0, b1, b2, b3]);
        assert(u16_be(m.1.len() as int) == seq![buf@[p + 4], buf@[p + 5]]);
        assert(buf@.subrange(p as int, p + meta_bytes(m).len()) =~= meta_bytes(m));
        assert forall|x: (int, Seq<u8>)| valid_meta(x) && p + meta_bytes(x).len() <= buf@.len() && #[trigger] buf@.subrange(p as int, p + meta_bytes(x).len())
            == meta_bytes(x) implies meta_view(meta) == x by {
            let w = meta_bytes(x);
            assert(x.1 =~= w.subrange(6, (6 + x.1.len()) as int));
            assert(first_key@ =~= buf@.subrange(p + 6, p + 6 + kl));
            assert(x.1 =~= first_key@);
        }
    }
    Some(meta)
}

/// The big-endian 32-bit number in the four bytes of `s` from `p`.
pub open spec fn be32_at(s: Seq<u8>, p: int) -> int {
    ((s[p] as int) * 256 + s[p + 1] as int) * 65536 + (s[p + 2] as int) * 256 + s[p + 3] as int
}

pub open spec fn block_piece() -> spec_fn(Seq<Entry>) -> Seq<u8> {
    |b: Seq<Entry>| block_bytes(b)
}

pub open spec fn run_piece() -> spec_fn(Seq<Entry>) -> Seq<Entry> {
    |b: Seq<Entry>| b
}

/// The encoded blocks of a table, one after the other.
pub open spec fn blocks_bytes(bs: Seq<Seq<Entry>>) -> Seq<u8> {
    concat_map(bs, block_piece())
}

/// Where block `i` starts in the table.
pub open spec fn block_start(bs: Seq<Seq<Entry>>, i: int) -> int {
    piece_start(bs, block_piece(), i)
}

/// The entries of a table, block after block.
pub open spec fn table_entries(bs: Seq<Seq<Entry>>) -> Seq<Entry> {
    concat_map(bs, run_piece())
}

/// How many entries the blocks before block `i` hold.
pub open spec fn entries_before(bs: Seq<Seq<Entry>>, i: int) -> int {
    piece_start(bs, run_piece(), i)
}

/// The metas of a table: each block's offset and first key.
pub open spec fn table_metas(bs: Seq<Seq<Entry>>) -> Seq<(int, Seq<u8>)> {
    Seq::new(bs.len(), |i: int| (block_start(bs, i), bs[i][0].0))
}

/// The encoding of a table whose blocks hold `bs`.
pub open spec fn table_bytes(bs: Seq<Seq<Entry>>) -> Seq<u8> {
    blocks_bytes(bs) + metas_bytes(table_metas(bs)) + u32_be(blocks_bytes(bs).len() as int)
}

/// Blocks that a table can hold: at least one, each a valid block, keys increasing across the
/// table, and the data region within 32-bit offsets.
pub open spec fn valid_table(bs: Seq<Seq<Entry>>) -> bool {
    &&& bs.len() >= 1
    &&& forall|i: int| 0 <= i < bs.len() ==> valid_block(#[trigger] bs[i])
    &&& keys_increasing(table_entries(bs))
    &&& blocks_bytes(bs).len() < 0x1_0000_0000
}

/// Entry `j` of block `i` stands at `entries_before(bs, i) + j` among the table's entries.
pub proof fn lemma_table_entry(bs: Seq<Seq<Entry>>, i: int)
    requires
        0 <= i < bs.len(),
    ensures
        entries_before(bs, i + 1) == entries_before(bs, i) + bs[i].len(),
        entries_before(bs, i + 1) <= table_entries(bs).len(),
        forall|j: int| 0 <= j < bs[i].len() ==> table_entries(bs)[entries_before(bs, i) + j] == #[trigger] bs[i][j],
{
    lemma_concat_map_at(bs, run_piece(), i);
    assert forall|j: int| 0 <= j < bs[i].len() implies table_entries(bs)[entries_before(bs, i) + j] == #[trigger] bs[i][j] by {
        assert(run_piece()(bs[i])[j] == bs[i][j]);
    }
}

/// The first keys of a valid table increase with the block index.
pub proof fn lemma_first_keys_increasing(bs: Seq<Seq<Entry>>)
    requires
        valid_table(bs),
    ensures
        forall|i: int, j: int| 0 <= i < j < bs.len() ==> lex_lt(#[trigger] bs[i][0].0, #[trigger] bs[j][0].0),
{
    assert forall|i: int, j: int| 0 <= i < j < bs.len() implies lex_lt(#[trigger] bs[i][0].0, #[trigger] bs[j][0].0) by {
        assert(valid_block(bs[i]) && valid_block(bs[j]));
        lemma_table_entry(bs, i);
        lemma_table_entry(bs, j);
        lemma_piece_start_mono(bs, run_piece(), i + 1, j);
        let te = table_entries(bs);
        assert(te[entries_before(bs, i) + 0] == bs[i][0]);
        assert(te[entries_before(bs, j) + 0] == bs[j][0]);
    }
}

/// Decoding an encoded table recovers its meta offset and the bytes of its metas: the trailer
/// of a valid table points at the end of its blocks, and what lies between is the encoding of
/// its metas, which `BlockMeta::decode_block_meta` then recovers one by one.
pub proof fn lemma_table_trailer(bs: Seq<Seq<Entry>>)
    requires
        valid_table(bs),
    ensures
        table_bytes(bs).len() >= 4,
        be32_at(table_bytes(bs), table_bytes(bs).len() - 4) <= table_bytes(bs).len() - 4,
        be32_at(table_bytes(bs), table_bytes(bs).len() - 4) == blocks_bytes(bs).len(),
        table_bytes(bs).subrange(blocks_bytes(bs).len() as int, table_bytes(bs).len() - 4) == metas_bytes(
            table_metas(bs),
        ),
        valid_metas(table_metas(bs)),
{
    let t = table_bytes(bs);
    let d = blocks_bytes(bs).len() as int;
    lemma_u32_be(d);
    let n = t.len() - 4;
    assert(t[n] == u32_be(d)[0] && t[n + 1] == u32_be(d)[1] && t[n + 2] == u32_be(d)[2] && t[n + 3] == u32_be(d)[3]);
    assert(t.subrange(d, n) =~= metas_bytes(table_metas(bs)));
    assert forall|i: int| 0 <= i < bs.len() implies valid_meta(#[trigger] table_metas(bs)[i]) by {
        lemma_concat_map_prefix(bs, block_piece(), i);
        assert(valid_block(bs[i]));
    }
}

/// A file held in memory: its bytes, read by range.
pub struct FileObject(Vec<u8>);

impl FileObject {
    /// The bytes of the file.
    pub closed spec fn bytes(&self) -> Seq<u8> {
        self.0@
    }

    /// Reads `len` bytes from `offset`; fails when the range passes the end of the file.
    pub fn read(&self, offset: u64, len: u64) -> (r: Result<Vec<u8>, LsmError>)
        ensures
            r is Ok <==> offset + len <= self.bytes().len(),
            r is Ok ==> r->Ok_0@ == self.bytes().subrange(offset as int, offset + len),
            r is Err ==> r->Err_0 == LsmError::ReadOutOfRange,
    {
        let size = self.0.len() as u64;
        if offset > size || len > size - offset {
            return Err(LsmError::ReadOutOfRange);
        }
        let start = offset as usize;
        let end = (offset + len) as usize;
        Ok(slice_to_vec(&self.0.as_slice()[start..end]))
    }

    /// The size of the file in bytes.
    pub fn size(&self) -> (r: u64)
        ensures
            r == self.bytes().len(),
    {
        self.0.len() as u64
    }

    /// A file holding `data`.
    pub fn create(data: Vec<u8>) -> (r: Self)
        ensures
            r.bytes() == data@,
    {
        FileObject(data)
    }
}

/// Checks that the keys of `block` increase, and lie above the last key of `before` when it has
/// one (`prev`); returns the block's last key.
fn check_block_keys(block: &Block, prev: Vec<u8>, has_prev: bool, before: Ghost<Seq<Entry>>) -> (r: Option<Vec<u8>>)
    requires
        block.wf(),
        keys_increasing(before@),
        has_prev == (before@.len() > 0),
        has_prev ==> prev@ == before@.last().0,
    ensures
        r is Some <==> keys_increasing(before@ + block.entries()),
        r matches Some(k) ==> k@ == (before@ + block.entries()).last().0,
{
    let ghost te = before@;
    let ghost b = block.entries();
    proof {
        block.lemma_wf();
    }
    let mut prev = prev;
    let mut has_prev = has_prev;
    let n = block.num_entries();
    let mut j: usize = 0;
    while j < n
        invariant
            te == before@,
            block.wf(),
            b == block.entries(),
            n == b.len(),
            j <= n,
            keys_increasing(te + b.subrange(0, j as int)),
            has_prev == ((te + b.subrange(0, j as int)).len() > 0),
            has_prev ==> prev@ == (te + b.subrange(0, j as int)).last().0,
        decreases n - j,
    {
        let (k, _) = block.entry_at(j);
        if has_prev && crate::keys::compare_keys(prev.as_slice(), k.as_slice()) >= 0 {
            proof {
                let full = te + b;
                let acc = te + b.subrange(0, j as int);
                let q = acc.len() - 1;
                assert(acc[q] == full[q]);
                assert(full[te.len() + j] == b[j as int]);
                assert(prev@ == acc[q].0);
                assert(k@ == full[te.len() + j].0);
                assert(!lex_lt(prev@, k@));
                assert(!keys_increasing(full)) by {
                    if keys_increasing(full) {
                        assert(lex_lt(full[q].0, full[te.len() + j].0));
                    }
                }
            }
            return None;
        }
        proof {
            let acc = te + b.subrange(0, j as int);
            crate::keys::lemma_push_increasing(acc, b[j as int]);
            assert(te + b.subrange(0, j + 1) =~= acc.push(b[j as int]));
        }
        prev = k;
        has_prev = true;
        j = j + 1;
    }
    assert(b.subrange(0, n as int) =~= b);
    Some(prev)
}

/// An immutable table of sorted entries, read block by block.
pub struct SsTable {
    file: FileObject,
    block_metas: Vec<BlockMeta>,
    block_meta_offset: usize,
    id: usize,
    blocks: Ghost<Seq<Seq<Entry>>>,
}

impl SsTable {
    /// The identifier the table was built or opened with.
    pub closed spec fn sst_id(&self) -> usize {
        self.id
    }

    /// The identifier the table was built or opened with.
    pub fn id(&self) -> (r: usize)
        ensures
            r == self.sst_id(),
    {
        self.id
    }

    /// The entries of each block, in order.
    pub closed spec fn blocks(&self) -> Seq<Seq<Entry>> {
        self.blocks@
    }

    /// The entries of the table, in key order.
    pub open spec fn entries(&self) -> Seq<Entry> {
        table_entries(self.blocks())
    }

    /// The file is the encoding of the blocks, and the metas and meta offset are those it holds.
    pub closed spec fn wf(&self) -> bool {
        &&& valid_table(self.blocks@)
        &&& self.file.bytes() == table_bytes(self.blocks@)
        &&& metas_view(self.block_metas@) == table_metas(self.blocks@)
        &&& self.block_meta_offset == blocks_bytes(self.blocks@).len()
    }

    pub proof fn lemma_wf(&self)
        requires
            self.wf(),
        ensures
            valid_table(self.blocks()),
    {
    }

    /// The bytes of the table's file.
    pub closed spec fn file_bytes(&self) -> Seq<u8> {
        self.file.bytes()
    }

    /// Opens a table from its file, checking the whole layout: the trailer, the metas, every
    /// block, the first keys, and the key order across blocks. Fails exactly when the file is not
    /// the encoding of a valid table.
    #[verifier::rlimit(100)]
    pub fn open(id: usize, file: FileObject) -> (r: Result<SsTable, LsmError>)
        ensures
            r matches Ok(t) ==> t.wf() && t.file_bytes() == file.bytes() && t.sst_id() == id,
            r matches Err(e) ==> e == LsmError::MalformedTable,
            forall|bs: Seq<Seq<Entry>>|
                #[trigger] valid_table(bs) && table_bytes(bs) == file.bytes() ==> (r is Ok && r->Ok_0.blocks() == bs),
    {
        let bytes = file.0.as_slice();
        let ghost all = bytes@;
        let (meta_bytes, block_meta_offset) = match SsTableBuilder::decode(bytes) {
            Ok(x) => x,
            Err(e) => {
                proof {
                    assert forall|bs: Seq<Seq<Entry>>| #[trigger] valid_table(bs) && table_bytes(bs) == all implies false by {
                        lemma_table_trailer(bs);
                    }
                }
                return Err(e);
            },
        };
        proof {
            assert forall|bs: Seq<Seq<Entry>>| #[trigger] valid_table(bs) && table_bytes(bs) == all implies {
                &&& block_meta_offset == blocks_bytes(bs).len()
                &&& meta_bytes@ == metas_bytes(table_metas(bs))
                &&& valid_metas(table_metas(bs))
            } by {
                lemma_table_trailer(bs);
            }
        }
        let block_metas = match BlockMeta::decode_block_meta(meta_bytes) {
            Ok(ms) => ms,
            Err(e) => {
                return Err(e);
            },
        };
        let m = block_metas.len();
        let ghost mv = metas_view(block_metas@);
        if m == 0 {
            return Err(LsmError::MalformedTable);
        }
        let mut p: usize = 0;
        let mut prev: Vec<u8> = Vec::new();
        let mut has_prev = false;
        let ghost mut bs: Seq<Seq<Entry>> = Seq::empty();
        proof {
            assert(blocks_bytes(bs) =~= Seq::<u8>::empty());
            assert(table_entries(bs) =~= Seq::<Entry>::empty());
            assert(table_metas(bs) =~= mv.subrange(0, 0));
        }
        let mut i: usize = 0;
        while i < m
            invariant
                bytes@ == all,
                all == file.bytes(),
                mv == metas_view(block_metas@),
                m == block_metas@.len(),
                block_meta_offset <= all.len() - 4,
                be32_at(all, all.len() - 4) == block_meta_offset,
                all.subrange(block_meta_offset as int, all.len() - 4) == metas_bytes(mv),
                i <= m,
                bs.len() == i,
                p <= block_meta_offset,
                p == blocks_bytes(bs).len(),
                all.subrange(0, p as int) == blocks_bytes(bs),
                forall|t: int| 0 <= t < bs.len() ==> valid_block(#[trigger] bs[t]),
                keys_increasing(table_entries(bs)),
                has_prev == (table_entries(bs).len() > 0),
                has_prev ==> prev@ == table_entries(bs).last().0,
                table_metas(bs) == mv.subrange(0, i as int),
                i == m ==> p == block_meta_offset,
                forall|w: Seq<Seq<Entry>>| #[trigger] valid_table(w) && table_bytes(w) == all ==> {
                    &&& bs == w.subrange(0, i as int)
                    &&& mv == table_metas(w)
                    &&& block_meta_offset == blocks_bytes(w).len()
                },
            decreases m - i,
        {
            let start = block_metas[i].offset;
            let end = if i == m - 1 {
                block_meta_offset
            } else {
                block_metas[i + 1].offset
            };
            proof {
                assert(mv[i as int] == meta_view(block_metas@[i as int]));
                if i < m - 1 {
                    assert(mv[i + 1] == meta_view(block_metas@[i + 1]));
                }
                assert forall|w: Seq<Seq<Entry>>| #[trigger] valid_table(w) && table_bytes(w) == all implies {
                    &&& start == p
                    &&& end == block_start(w, i + 1)
                    &&& start <= end <= block_meta_offset
                    &&& all.subrange(start as int, end as int) == block_bytes(w[i as int])
                    &&& valid_block(w[i as int])
                } by {
                    assert(bs == w.subrange(0, i as int));
                    lemma_concat_map_at(w, block_piece(), i as int);
                    lemma_piece_start_end(w, block_piece());
                    assert(table_metas(w)[i as int] == mv[i as int]);
                    if i < m - 1 {
                        assert(table_metas(w)[i + 1] == mv[i + 1]);
                    }
                    assert(all.subrange(start as int, end as int) =~= blocks_bytes(w).subrange(
                        block_start(w, i as int),
                        block_start(w, i + 1),
                    ));
                }
            }
            if start != p || end < start || end > block_meta_offset {
                return Err(LsmError::MalformedTable);
            }
            let block = match Block::decode(&bytes[start..end]) {
                Ok(b) => b,
                Err(_) => {
                    return Err(LsmError::MalformedTable);
                },
            };
            let ghost b = block.entries();
            let ghost te = table_entries(bs);
            proof {
                block.lemma_wf();
                assert forall|w: Seq<Seq<Entry>>| #[trigger] valid_table(w) && table_bytes(w) == all implies {
                    &&& b == w[i as int]
                    &&& keys_increasing(te + b)
                } by {
                    assert(bs == w.subrange(0, i as int));
                    assert(w.subrange(0, i + 1) =~= bs.push(w[i as int]));
                    lemma_blocks_push(bs, w[i as int]);
                    lemma_concat_map_prefix(w, run_piece(), i + 1);
                    let whole = table_entries(w);
                    let pre = te + w[i as int];
                    assert(whole.subrange(0, entries_before(w, i + 1)) == pre);
                    assert forall|x: int, y: int| 0 <= x < y < pre.len() implies lex_lt(#[trigger] pre[x].0, #[trigger] pre[y].0) by {
                        assert(pre[x] == whole[x] && pre[y] == whole[y]);
                    }
                }
            }
            let first = block.entry_at(0);
            if crate::keys::compare_keys(first.0.as_slice(), block_metas[i].first_key.as_slice()) != 0 {
                proof {
                    assert forall|w: Seq<Seq<Entry>>| #[trigger] valid_table(w) && table_bytes(w) == all implies false by {
                        assert(table_metas(w)[i as int] == mv[i as int]);
                    }
                }
                return Err(LsmError::MalformedTable);
            }
            let last = match check_block_keys(&block, prev, has_prev, Ghost(te)) {
                Some(k) => k,
                None => {
                    return Err(LsmError::MalformedTable);
                },
            };
            prev = last;
            has_prev = true;
            proof {
                lemma_blocks_push(bs, b);
                assert(all.subrange(start as int, end as int) == block_bytes(b));
                assert(all.subrange(0, end as int) =~= all.subrange(0, p as int) + all.subrange(start as int, end as int));
                assert(mv.subrange(0, i + 1) =~= mv.subrange(0, i as int).push(mv[i as int]));
                assert forall|w: Seq<Seq<Entry>>| #[trigger] valid_table(w) && table_bytes(w) == all implies bs.push(b) == w.subrange(0, i + 1) by {
                    assert(w.subrange(0, i + 1) =~= w.subrange(0, i as int).push(w[i as int]));
                }
                bs = bs.push(b);
            }
            p = end;
            i = i + 1;
        }
        proof {
            assert(mv.subrange(0, m as int) =~= mv);
            let len = all.len();
            lemma_u32_be_of_bytes(all[len - 4], all[len - 3], all[len - 2], all[len - 1]);
            assert(all =~= blocks_bytes(bs) + metas_bytes(table_metas(bs)) + u32_be(blocks_bytes(bs).len() as int));
            assert forall|w: Seq<Seq<Entry>>| #[trigger] valid_table(w) && table_bytes(w) == all implies bs == w by {
                assert(table_metas(w).len() == w.len());
                assert(w.subrange(0, m as int) =~= w);
            }
        }
        Ok(SsTable { file, block_metas, block_meta_offset, id, blocks: Ghost(bs) })
    }

    /// Get number of data blocks.
    pub fn num_of_blocks(&self) -> (r: usize)
        requires
            self.wf(),
        ensures
            r == self.blocks().len(),
    {
        self.block_metas.len()
    }

    /// Reads and decodes block `block_idx`.
    pub fn read_block(&self, block_idx: usize) -> (r: Result<Arc<Block>, LsmError>)
        requires
            self.wf(),
            block_idx < self.blocks().len(),
        ensures
            r is Ok,
            r->Ok_0.wf(),
            r->Ok_0.entries() == self.blocks()[block_idx as int],
    {
        let ghost bs = self.blocks@;
        let ghost i = block_idx as int;
        let start = self.block_metas[block_idx].offset;
        let end = if block_idx == self.block_metas.len() - 1 {
            self.block_meta_offset
        } else {
            self.block_metas[block_idx + 1].offset
        };
        proof {
            assert(metas_view(self.block_metas@)[i] == table_metas(bs)[i]);
            if block_idx < self.block_metas.len() - 1 {
                assert(metas_view(self.block_metas@)[i + 1] == table_metas(bs)[i + 1]);
            } else {
                lemma_piece_start_end(bs, block_piece());
            }
            lemma_concat_map_at(bs, block_piece(), i);
            assert(self.file.bytes().subrange(start as int, end as int) =~= blocks_bytes(bs).subrange(
                block_start(bs, i),
                block_start(bs, i + 1),
            ));
            assert(valid_block(bs[i]));
        }
        let bytes = self.file.read(start as u64, (end - start) as u64);
        match bytes {
            Ok(data) => {
                match Block::decode(data.as_slice()) {
                    Ok(block) => Ok(Arc::new(block)),
                    Err(e) => Err(e),
                }
            },
            Err(e) => Err(e),
        }
    }

    /// The first key of block `i`.
    pub fn first_key_of(&self, i: usize) -> (r: &[u8])
        requires
            self.wf(),
            i < self.blocks().len(),
        ensures
            r@ == self.blocks()[i as int][0].0,
    {
        assert(metas_view(self.block_metas@)[i as int] == table_metas(self.blocks@)[i as int]);
        self.block_metas[i].first_key.as_slice()
    }

    /// Finds the block that may contain `key`: the last block whose first key is at or below
    /// `key`, or block 0 when `key` is below every first key.
    pub fn find_block_idx(&self, key: &[u8]) -> (r: usize)
        requires
            self.wf(),
        ensures
            r < self.blocks().len(),
            r > 0 ==> lex_le(self.blocks()[r as int][0].0, key@),
            r + 1 < self.blocks().len() ==> lex_lt(key@, self.blocks()[r + 1][0].0),
    {
        let ghost bs = self.blocks@;
        proof {
            lemma_first_keys_increasing(bs);
        }
        let mut left: usize = 0;
        let mut right: usize = self.num_of_blocks() - 1;
        while left < right
            invariant
                self.wf(),
                bs == self.blocks(),
                forall|i: int, j: int| 0 <= i < j < bs.len() ==> lex_lt(#[trigger] bs[i][0].0, #[trigger] bs[j][0].0),
                left <= right < bs.len(),
                left > 0 ==> lex_le(bs[left as int][0].0, key@),
                right + 1 < bs.len() ==> lex_lt(key@, bs[right + 1][0].0),
            decreases right - left,
        {
            let mid = left + (right - left) / 2 + (right - left) % 2;
            let mid_key = self.first_key_of(mid);
            if compare_keys(mid_key, key) <= 0 {
                left = mid;
            } else {
                right = mid - 1;
            }
        }
        left
    }
}

/// Blocks grown by one keep the metas and entries they had, and gain one of each.
proof fn lemma_blocks_push(bs: Seq<Seq<Entry>>, b: Seq<Entry>)
    requires
        b.len() >= 1,
    ensures
        blocks_bytes(bs.push(b)) == blocks_bytes(bs) + block_bytes(b),
        table_entries(bs.push(b)) == table_entries(bs) + b,
        table_metas(bs.push(b)) == table_metas(bs).push((blocks_bytes(bs).len() as int, b[0].0)),
{
    lemma_concat_map_push(bs, block_piece(), b);
    lemma_concat_map_push(bs, run_piece(), b);
    let t = bs.push(b);
    assert forall|i: int| 0 <= i <= bs.len() implies #[trigger] block_start(t, i) == if i < bs.len() {
        block_start(bs, i)
    } else {
        blocks_bytes(bs).len() as int
    } by {
        if i < bs.len() {
            assert(t.subrange(0, i) =~= bs.subrange(0, i));
        } else {
            assert(t.subrange(0, i) =~= bs);
        }
    }
    assert(table_metas(t) =~= table_metas(bs).push((blocks_bytes(bs).len() as int, b[0].0)));
}

/// Blocks sealed so far and the entries of the block being filled.
pub type PackState = (Seq<Seq<Entry>>, Seq<Entry>);

/// Adding `e` to a builder in state `st`: the pending block takes it while it is empty or stays
/// within `size`; otherwise the pending block is sealed and a new one starts with `e`.
pub open spec fn pack_step(st: PackState, e: Entry, size: nat) -> PackState {
    if st.1.len() == 0 || encoded_size(st.1.push(e)) <= size {
        (st.0, st.1.push(e))
    } else {
        (st.0.push(st.1), seq![e])
    }
}

/// Adding the entries `es`, in order, to a builder in state `st`.
pub open spec fn pack_from(st: PackState, es: Seq<Entry>, size: nat) -> PackState
    decreases es.len(),
{
    if es.len() == 0 {
        st
    } else {
        pack_step(pack_from(st, es.drop_last(), size), es.last(), size)
    }
}

/// The blocks of a builder in state `st` once its pending block is sealed.
pub open spec fn seal_all(st: PackState) -> Seq<Seq<Entry>> {
    if st.1.len() > 0 {
        st.0.push(st.1)
    } else {
        st.0
    }
}

/// Builds a table from entries added in increasing key order.
pub struct SsTableBuilder {
    meta: Vec<BlockMeta>,
    data: Vec<u8>,
    max_block_size: usize,
    block_builder: BlockBuilder,
    first_key: Vec<u8>,
    blocks: Ghost<Seq<Seq<Entry>>>,
}

impl SsTableBuilder {
    /// The blocks sealed so far.
    pub closed spec fn sealed(&self) -> Seq<Seq<Entry>> {
        self.blocks@
    }

    /// The entries of the block being filled.
    pub closed spec fn pending(&self) -> Seq<Entry> {
        self.block_builder.entries()
    }

    /// Every entry added so far, in order.
    pub open spec fn entries(&self) -> Seq<Entry> {
        table_entries(self.sealed()) + self.pending()
    }

    /// The blocks that the table holds once the pending block is sealed.
    pub open spec fn final_blocks(&self) -> Seq<Seq<Entry>> {
        if self.pending().len() > 0 {
            self.sealed().push(self.pending())
        } else {
            self.sealed()
        }
    }

    /// The target size of each block.
    pub closed spec fn block_size(&self) -> nat {
        self.max_block_size as nat
    }

    /// The data and metas are the encoding of the sealed blocks.
    pub closed spec fn wf(&self) -> bool {
        &&& self.max_block_size <= 65535
        &&& self.block_builder.wf()
        &&& self.block_builder.block_size() == self.max_block_size
        &&& forall|i: int| 0 <= i < self.blocks@.len() ==> valid_block(#[trigger] self.blocks@[i])
        &&& self.data@ == blocks_bytes(self.blocks@)
        &&& metas_view(self.meta@) == table_metas(self.blocks@)
        &&& keys_increasing(table_entries(self.blocks@) + self.block_builder.entries())
        &&& self.block_builder.entries().len() > 0 ==> self.first_key@ == self.block_builder.entries()[0].0
    }

    /// Create a builder based on target block size.
    pub fn new(block_size: usize) -> (r: Self)
        requires
            block_size <= 65535,
        ensures
            r.wf(),
            r.entries() == Seq::<Entry>::empty(),
            r.sealed() == Seq::<Seq<Entry>>::empty(),
            r.pending() == Seq::<Entry>::empty(),
            r.block_size() == block_size,
    {
        let r = SsTableBuilder {
            meta: Vec::new(),
            data: Vec::new(),
            max_block_size: block_size,
            block_builder: BlockBuilder::new(block_size),
            first_key: Vec::new(),
            blocks: Ghost(Seq::empty()),
        };
        proof {
            assert(table_entries(Seq::<Seq<Entry>>::empty()) =~= Seq::<Entry>::empty());
            assert(blocks_bytes(Seq::<Seq<Entry>>::empty()) =~= Seq::<u8>::empty());
            assert(table_metas(Seq::<Seq<Entry>>::empty()) =~= Seq::empty());
            assert(metas_view(r.meta@) =~= Seq::empty());
            assert(r.entries() =~= Seq::<Entry>::empty());
        }
        r
    }

    /// Adds an entry whose key is above every key added before.
    pub fn add(&mut self, key: &[u8], value: &[u8])
        requires
            old(self).wf(),
            valid_entry((key@, value@)),
            old(self).entries().len() > 0 ==> lex_lt(old(self).entries().last().0, key@),
        ensures
            final(self).wf(),
            final(self).block_size() == old(self).block_size(),
            final(self).entries() == old(self).entries().push((key@, value@)),
            (final(self).sealed(), final(self).pending()) == pack_step(
                (old(self).sealed(), old(self).pending()),
                (key@, value@),
                old(self).block_size(),
            ),
    {
        let ghost e: Entry = (key@, value@);
        let ghost before = self.entries();
        proof {
            lemma_push_increasing(before, e);
            assert(before.push(e) =~= table_entries(self.blocks@) + self.block_builder.entries().push(e));
        }
        let was_empty = self.block_builder.is_empty();
        if self.block_builder.add(key, value) {
            if was_empty {
                self.first_key = slice_to_vec(key);
            }
        } else {
            self.add_block();
            let added = self.block_builder.add(key, value);
            self.first_key = slice_to_vec(key);
            proof {
                assert(added);
            }
        }
        assert(self.entries() =~= before.push(e));
    }

    /// The sealed blocks of a builder form a valid table once there is one and its data fits
    /// 32-bit offsets; the pending block is valid too.
    pub proof fn lemma_wf(&self)
        requires
            self.wf(),
        ensures
            self.sealed().len() >= 1 && blocks_bytes(self.sealed()).len() < 0x1_0000_0000 ==> valid_table(
                self.sealed(),
            ),
            keys_increasing(self.entries()),
            self.final_blocks() == seal_all((self.sealed(), self.pending())),
            forall|i: int| 0 <= i < self.sealed().len() ==> valid_block(#[trigger] self.sealed()[i]),
    {
        let te = table_entries(self.blocks@);
        let all = te + self.block_builder.entries();
        assert forall|a: int, b: int| 0 <= a < b < te.len() implies lex_lt(#[trigger] te[a].0, #[trigger] te[b].0) by {
            assert(te[a] == all[a] && te[b] == all[b]);
        }
    }

    /// Decoding what `encode` gives back recovers the meta offset and the metas, bit for bit: the
    /// trailer points at the end of the sealed blocks, and the bytes before it are the encoding of
    /// their metas, which `BlockMeta::decode_block_meta` returns.
    pub proof fn lemma_encode_round_trip(&self)
        requires
            self.wf(),
            self.sealed().len() >= 1,
            blocks_bytes(self.sealed()).len() < 0x1_0000_0000,
        ensures
            ({
                let t = table_bytes(self.sealed());
                &&& t.len() >= 4
                &&& be32_at(t, t.len() - 4) == blocks_bytes(self.sealed()).len()
                &&& be32_at(t, t.len() - 4) <= t.len() - 4
                &&& t.subrange(blocks_bytes(self.sealed()).len() as int, t.len() - 4) == metas_bytes(
                    table_metas(self.sealed()),
                )
                &&& valid_metas(table_metas(self.sealed()))
            }),
    {
        self.lemma_wf();
        lemma_table_trailer(self.sealed());
    }

    /// Seals the block being filled, if it holds any entry, and starts a fresh one.
    pub fn add_block(&mut self)
        requires
            old(self).wf(),
        ensures
            final(self).wf(),
            final(self).block_size() == old(self).block_size(),
            final(self).entries() == old(self).entries(),
            final(self).sealed() == old(self).final_blocks(),
            final(self).pending().len() == 0,
    {
        if self.block_builder.is_empty() {
            return;
        }
        let ghost bs = self.blocks@;
        let mut builder = BlockBuilder::new(self.max_block_size);
        std::mem::swap(&mut builder, &mut self.block_builder);
        let ghost b = builder.entries();
        let block = builder.build();
        proof {
            block.lemma_wf();
            lemma_blocks_push(bs, b);
        }
        let encoded = block.encode();
        let offset = self.data.len();
        self.data.extend_from_slice(encoded.as_slice());
        let first_key = slice_to_vec(self.first_key.as_slice());
        self.meta.push(BlockMeta { offset, first_key });
        proof {
            assert(self.data@ =~= blocks_bytes(bs.push(b)));
            assert(metas_view(self.meta@) =~= table_metas(bs.push(b)));
            self.blocks = Ghost(bs.push(b));
            assert(table_entries(self.blocks@) + self.block_builder.entries() =~= table_entries(bs) + b);
        }
    }

    /// Get the estimated size of the SSTable.
    pub fn estimated_size(&self) -> (r: usize)
        requires
            self.wf(),
        ensures
            r == if blocks_bytes(self.sealed()).len() + 8 * self.sealed().len() <= usize::MAX {
                (blocks_bytes(self.sealed()).len() + 8 * self.sealed().len()) as int
            } else {
                usize::MAX as int
            },
    {
        assert(metas_view(self.meta@).len() == self.meta@.len());
        let n = self.meta.len();
        if n > usize::MAX / 8 {
            return usize::MAX;
        }
        self.data.len().saturating_add(8 * n)
    }

    /// Encodes the sealed blocks, their metas and the meta offset; returns the bytes and the
    /// meta offset.
    pub fn encode(&self) -> (r: (Vec<u8>, usize))
        requires
            self.wf(),
            blocks_bytes(self.sealed()).len() < 0x1_0000_0000,
        ensures
            r.0@ == table_bytes(self.sealed()),
            r.1 == blocks_bytes(self.sealed()).len(),
    {
        let ghost bs = self.blocks@;
        let mut res = slice_to_vec(self.data.as_slice());
        let block_meta_offset = res.len();
        proof {
            assert forall|i: int| 0 <= i < bs.len() implies valid_meta(#[trigger] table_metas(bs)[i]) by {
                lemma_concat_map_prefix(bs, block_piece(), i);
                assert(valid_block(bs[i]));
                assert(bs[i].len() >= 1 && valid_entry(bs[i][0]));
            }
        }
        BlockMeta::encode_block_meta(self.meta.as_slice(), &mut res);
        let hi = block_meta_offset / 65536;
        let lo = block_meta_offset % 65536;
        res.push((hi / 256) as u8);
        res.push((hi % 256) as u8);
        res.push((lo / 256) as u8);
        res.push((lo % 256) as u8);
        assert(res@ =~= table_bytes(bs));
        (res, block_meta_offset)
    }

    /// Splits a table image into its meta bytes and its meta offset; fails when the trailer is
    /// missing or points past it.
    pub fn decode(bytes: &[u8]) -> (r: Result<(&[u8], usize), LsmError>)
        ensures
            r is Ok <==> bytes@.len() >= 4 && be32_at(bytes@, bytes@.len() - 4) <= bytes@.len() - 4,
            r matches Ok((m, off)) ==> off == be32_at(bytes@, bytes@.len() - 4) && m@ == bytes@.subrange(
                off as int,
                bytes@.len() - 4,
            ),
            r is Err ==> r->Err_0 == LsmError::MalformedTable,
    {
        let len = bytes.len();
        if len < 4 {
            return Err(LsmError::MalformedTable);
        }
        let off: u64 = ((bytes[len - 4] as u64) * 256 + bytes[len - 3] as u64) * 65536 + (bytes[len - 2] as u64) * 256
            + bytes[len - 1] as u64;
        if off > (len - 4) as u64 {
            return Err(LsmError::MalformedTable);
        }
        let off = off as usize;
        Ok((&bytes[off..len - 4], off))
    }

    /// Seals the last block and returns the table, held in memory; fails when no entry was added
    /// or when the blocks pass 32-bit offsets.
    pub fn build(self, id: usize) -> (r: Result<SsTable, LsmError>)
        requires
            self.wf(),
        ensures
            r is Ok <==> self.entries().len() > 0 && blocks_bytes(self.final_blocks()).len() < 0x1_0000_0000,
            r matches Ok(t) ==> t.wf() && t.blocks() == self.final_blocks() && t.entries() == self.entries()
                && t.sst_id() == id,
            r matches Err(e) ==> (e == LsmError::EmptyTable && self.entries().len() == 0) || (e
                == LsmError::TableTooLarge && self.entries().len() > 0),
    {
        let ghost entries = self.entries();
        let mut this = self;
        this.add_block();
        let ghost bs = this.blocks@;
        proof {
            assert(table_entries(bs) =~= entries);
            if this.block_builder.entries().len() == 0 {
                assert(entries =~= table_entries(this.blocks@) + this.block_builder.entries());
            }
        }
        if this.meta.len() == 0 {
            proof {
                assert(metas_view(this.meta@).len() == 0);
                assert(bs.len() == 0);
                assert(table_entries(bs) =~= Seq::<Entry>::empty());
            }
            return Err(LsmError::EmptyTable);
        }
        if this.data.len() as u64 >= 0x1_0000_0000u64 {
            proof {
                assert(metas_view(this.meta@).len() > 0);
                lemma_table_entry(bs, 0);
                assert(valid_block(bs[0]));
            }
            return Err(LsmError::TableTooLarge);
        }
        let (encoded, offset) = this.encode();
        proof {
            assert(metas_view(this.meta@).len() > 0);
            assert(table_entries(bs) + this.block_builder.entries() =~= table_entries(bs));
        }
        Ok(SsTable { file: FileObject::create(encoded), block_metas: this.meta, block_meta_offset: offset, id, blocks: Ghost(bs) })
    }
}

} // verus!
