//! Blocks: a run of entries followed by a table of their offsets and their count.
//!
//! Layout: `entry_0 | ... | entry_{n-1} | off_0 | ... | off_{n-1} | n`, where an entry is
//! `key_len:u8 | key | value_len:u8 | value` and offsets and count are little-endian `u16`.
use std::sync::Arc;
use vstd::prelude::*;
use vstd::slice::slice_to_vec;

use crate::error::LsmError;
use crate::keys::{compare_keys, lex_le, lex_lt};

verus! {

/// An entry as bytes: its key and its value.
pub type Entry = (Seq<u8>, Seq<u8>);

/// Little-endian bytes of a 16-bit number.
pub open spec fn u16_le(x: int) -> Seq<u8> {
    seq![(x % 256) as u8, (x / 256) as u8]
}

/// The bytes of one entry.
pub open spec fn entry_bytes(e: Entry) -> Seq<u8> {
    seq![e.0.len() as u8] + e.0 + seq![e.1.len() as u8] + e.1
}

/// The entries of a block, one after the other.
pub open spec fn entries_bytes(es: Seq<Entry>) -> Seq<u8>
    decreases es.len(),
{
    if es.len() == 0 {
        Seq::empty()
    } else {
        entries_bytes(es.drop_last()) + entry_bytes(es.last())
    }
}

/// Where entry `i` starts within the block.
pub open spec fn entry_offset(es: Seq<Entry>, i: int) -> int {
    entries_bytes(es.subrange(0, i)).len() as int
}

/// The offset table of the first `n` entries.
pub open spec fn offsets_bytes(es: Seq<Entry>, n: nat) -> Seq<u8>
    decreases n,
{
    if n == 0 {
        Seq::empty()
    } else {
        offsets_bytes(es, (n - 1) as nat) + u16_le(entry_offset(es, n - 1))
    }
}

/// The encoding of a block holding `es`.
pub open spec fn block_bytes(es: Seq<Entry>) -> Seq<u8> {
    entries_bytes(es) + offsets_bytes(es, es.len()) + u16_le(es.len() as int)
}

/// The size that a block holding `es` takes once encoded.
pub open spec fn encoded_size(es: Seq<Entry>) -> int {
    (entries_bytes(es).len() + 2 * es.len() + 2) as int
}

/// A key of 1 to 255 bytes and a value of at most 255 bytes.
pub open spec fn valid_entry(e: Entry) -> bool {
    0 < e.0.len() < 256 && e.1.len() < 256
}

/// Entries that a block can hold: at least one, each valid, within 16-bit offsets.
pub open spec fn valid_block(es: Seq<Entry>) -> bool {
    &&& es.len() >= 1
    &&& forall|i: int| 0 <= i < es.len() ==> valid_entry(#[trigger] es[i])
    &&& encoded_size(es) <= 65535
}

/// The index of the first entry whose key is at or above `k`, as far as `i` goes.
pub open spec fn first_at_or_above(es: Seq<Entry>, k: Seq<u8>, i: int) -> bool {
    &&& 0 <= i <= es.len()
    &&& forall|j: int| 0 <= j < i ==> lex_lt(#[trigger] es[j].0, k)
    &&& i < es.len() ==> lex_le(k, es[i].0)
}

pub proof fn lemma_u16_le(x: int)
    requires
        0 <= x < 65536,
    ensures
        u16_le(x).len() == 2,
        u16_le(x)[0] as int + 256 * (u16_le(x)[1] as int) == x,
{
    assert(x % 256 + 256 * (x / 256) == x) by (nonlinear_arith)
        requires 0 <= x;
    assert(x / 256 < 256) by (nonlinear_arith)
        requires 0 <= x < 65536;
}

pub proof fn lemma_u16_le_of_bytes(lo: u8, hi: u8)
    ensures
        u16_le(lo as int + 256 * (hi as int)) == seq![lo, hi],
{
    let x = lo as int + 256 * (hi as int);
    assert(x % 256 == lo as int && x / 256 == hi as int) by (nonlinear_arith)
        requires x == lo as int + 256 * (hi as int), 0 <= lo < 256;
    assert(u16_le(x) =~= seq![lo, hi]);
}

pub proof fn lemma_entries_push(es: Seq<Entry>, e: Entry)
    ensures
        entries_bytes(es.push(e)) == entries_bytes(es) + entry_bytes(e),
        entries_bytes(es.push(e)).len() == entries_bytes(es).len() + e.0.len() + e.1.len() + 2,
{
    assert(es.push(e).drop_last() =~= es);
}

/// Entry `i` sits between the offsets of entries `i` and `i + 1`.
pub proof fn lemma_entry_at(es: Seq<Entry>, i: int)
    requires
        0 <= i < es.len(),
    ensures
        entry_offset(es, i + 1) == entry_offset(es, i) + es[i].0.len() + es[i].1.len() + 2,
        entry_offset(es, i + 1) <= entries_bytes(es).len(),
        entries_bytes(es).subrange(entry_offset(es, i), entry_offset(es, i + 1)) == entry_bytes(es[i]),
{
    lemma_entries_prefix(es, i + 1);
    assert(es.subrange(0, i + 1) =~= es.subrange(0, i).push(es[i]));
    lemma_entries_push(es.subrange(0, i), es[i]);
    let whole = entries_bytes(es);
    let a = entries_bytes(es.subrange(0, i));
    assert(whole.subrange(0, entry_offset(es, i + 1)) == a + entry_bytes(es[i]));
    assert(whole.subrange(entry_offset(es, i), entry_offset(es, i + 1)) =~= (a + entry_bytes(
        es[i],
    )).subrange(a.len() as int, (a.len() + entry_bytes(es[i]).len()) as int));
}

/// The entries before `i` are a prefix of the block's entry bytes.
pub proof fn lemma_entries_prefix(es: Seq<Entry>, i: int)
    requires
        0 <= i <= es.len(),
    ensures
        entry_offset(es, i) <= entries_bytes(es).len(),
        entries_bytes(es).subrange(0, entry_offset(es, i)) == entries_bytes(es.subrange(0, i)),
    decreases es.len() - i,
{
    if i == es.len() {
        assert(es.subrange(0, i) =~= es);
        assert(entries_bytes(es).subrange(0, entries_bytes(es).len() as int) =~= entries_bytes(es));
    } else {
        lemma_entries_prefix(es, i + 1);
        assert(es.subrange(0, i + 1) =~= es.subrange(0, i).push(es[i]));
        lemma_entries_push(es.subrange(0, i), es[i]);
        let b = entries_bytes(es.subrange(0, i + 1));
        assert(entries_bytes(es).subrange(0, entry_offset(es, i)) =~= b.subrange(
            0,
            entry_offset(es, i),
        ));
        assert(b.subrange(0, entry_offset(es, i)) =~= entries_bytes(es.subrange(0, i)));
    }
}

/// The offset table holds two bytes per entry.
pub proof fn lemma_offsets_bytes(es: Seq<Entry>, n: nat)
    requires
        forall|j: int| 0 <= j < n ==> 0 <= #[trigger] entry_offset(es, j) < 65536,
    ensures
        offsets_bytes(es, n).len() == 2 * n,
        forall|j: int|
            0 <= j < n ==> #[trigger] offsets_bytes(es, n).subrange(2 * j, 2 * j + 2) == u16_le(
                entry_offset(es, j),
            ),
    decreases n,
{
    if n > 0 {
        let m = (n - 1) as nat;
        lemma_offsets_bytes(es, m);
        let prev = offsets_bytes(es, m);
        let cur = offsets_bytes(es, n);
        assert forall|j: int| 0 <= j < n implies #[trigger] cur.subrange(2 * j, 2 * j + 2) == u16_le(
            entry_offset(es, j),
        ) by {
            if j < m {
                assert(cur.subrange(2 * j, 2 * j + 2) =~= prev.subrange(2 * j, 2 * j + 2));
            } else {
                assert(cur.subrange(2 * j, 2 * j + 2) =~= u16_le(entry_offset(es, j)));
            }
        }
    }
}

/// Every entry offset of a valid block fits in 16 bits.
pub proof fn lemma_valid_offsets(es: Seq<Entry>)
    requires
        encoded_size(es) <= 65535,
    ensures
        forall|j: int| 0 <= j <= es.len() ==> 0 <= #[trigger] entry_offset(es, j) <= entries_bytes(es).len(),
        block_bytes(es).len() == encoded_size(es),
{
    assert forall|j: int| 0 <= j <= es.len() implies 0 <= #[trigger] entry_offset(es, j) <= entries_bytes(es).len() by {
        lemma_entries_prefix(es, j);
    }
    lemma_offsets_bytes(es, es.len());
}

/// Reads the entry that starts at `p`, which must end by `end`.
fn read_entry(data: &[u8], p: usize, end: usize) -> (r: Option<(Vec<u8>, Vec<u8>)>)
    requires
        p <= end <= data@.len(),
    ensures
        r matches Some(kv) ==> {
            let e = (kv.0@, kv.1@);
            &&& valid_entry(e)
            &&& p + entry_bytes(e).len() <= end
            &&& data@.subrange(p as int, p + entry_bytes(e).len()) == entry_bytes(e)
        },
        forall|e: Entry|
            valid_entry(e) && p + entry_bytes(e).len() <= end && #[trigger] data@.subrange(p as int, p + entry_bytes(e).len())
                == entry_bytes(e) ==> (r matches Some(kv) && kv.0@ == e.0 && kv.1@ == e.1),
{
    if p >= end {
        return None;
    }
    let kl = data[p] as usize;
    if kl == 0 || kl + 1 >= end - p {
        proof {
            assert forall|e: Entry| valid_entry(e) && p + entry_bytes(e).len() <= end && #[trigger] data@.subrange(p as int, p + entry_bytes(e).len())
                == entry_bytes(e) implies false by {
                assert(data@[p as int] == entry_bytes(e)[0]);
            }
        }
        return None;
    }
    let key = slice_to_vec(&data[p + 1..p + 1 + kl]);
    let vl = data[p + 1 + kl] as usize;
    if kl + vl + 2 > end - p {
        proof {
            assert forall|e: Entry| valid_entry(e) && p + entry_bytes(e).len() <= end && #[trigger] data@.subrange(p as int, p + entry_bytes(e).len())
                == entry_bytes(e) implies false by {
                assert(data@[p as int] == entry_bytes(e)[0]);
                assert(data@[p + 1 + kl] == entry_bytes(e)[1 + kl]);
            }
        }
        return None;
    }
    let value = slice_to_vec(&data[p + 2 + kl..p + 2 + kl + vl]);
    proof {
        let e = (key@, value@);
        assert(data@.subrange(p as int, p + entry_bytes(e).len()) =~= entry_bytes(e));
        assert forall|f: Entry| valid_entry(f) && p + entry_bytes(f).len() <= end && #[trigger] data@.subrange(p as int, p + entry_bytes(f).len())
            == entry_bytes(f) implies key@ == f.0 && value@ == f.1 by {
            let w = entry_bytes(f);
            assert(data@[p as int] == w[0]);
            assert(f.0 =~= w.subrange(1, (1 + f.0.len()) as int));
            assert(key@ =~= data@.subrange(p + 1, p + 1 + kl));
            assert(data@[p + 1 + kl] == w[1 + kl]);
            assert(f.1 =~= w.subrange((2 + f.0.len()) as int, (2 + f.0.len() + f.1.len()) as int));
            assert(value@ =~= data@.subrange(p + 2 + kl, p + 2 + kl + vl));
        }
    }
    Some((key, value))
}

/// A block: entries in the order they were added, addressable by index.
pub struct Block {
    data: Vec<u8>,
    offsets: Vec<u16>,
    entries: Ghost<Seq<Entry>>,
}

impl Block {
    /// The entries the block holds, in order.
    pub closed spec fn entries(&self) -> Seq<Entry> {
        self.entries@
    }

    /// The data and offsets are the layout of `entries`.
    pub closed spec fn wf(&self) -> bool {
        &&& valid_block(self.entries@)
        &&& self.data@ == entries_bytes(self.entries@)
        &&& self.offsets@.len() == self.entries@.len()
        &&& forall|i: int| 0 <= i < self.entries@.len() ==> #[trigger] self.offsets@[i] as int == entry_offset(self.entries@, i)
    }

    pub proof fn lemma_wf(&self)
        requires
            self.wf(),
        ensures
            valid_block(self.entries()),
    {
    }

    /// Encodes the block.
    pub fn encode(&self) -> (r: Vec<u8>)
        requires
            self.wf(),
        ensures
            r@ == block_bytes(self.entries()),
    {
        let ghost es = self.entries@;
        proof {
            lemma_valid_offsets(es);
        }
        let mut buf = slice_to_vec(self.data.as_slice());
        let n = self.offsets.len();
        let mut i: usize = 0;
        while i < n
            invariant
                self.wf(),
                es == self.entries@,
                n == es.len(),
                i <= n,
                buf@ == entries_bytes(es) + offsets_bytes(es, i as nat),
            decreases n - i,
        {
            let o = self.offsets[i];
            buf.push((o % 256) as u8);
            buf.push((o / 256) as u8);
            proof {
                assert(o as int == entry_offset(es, i as int));
                assert(offsets_bytes(es, (i + 1) as nat) == offsets_bytes(es, i as nat) + u16_le(entry_offset(es, i as int)));
                assert(buf@ =~= entries_bytes(es) + offsets_bytes(es, (i + 1) as nat));
            }
            i = i + 1;
        }
        buf.push((n % 256) as u8);
        buf.push((n / 256) as u8);
        assert(buf@ =~= block_bytes(es));
        buf
    }

    /// Decodes a block, failing on bytes that do not follow the block layout.
    #[verifier::rlimit(60)]
    pub fn decode(data: &[u8]) -> (r: Result<Block, LsmError>)
        ensures
            r is Ok ==> r->Ok_0.wf() && block_bytes(r->Ok_0.entries()) == data@,
            r is Err ==> r->Err_0 == LsmError::MalformedBlock,
            forall|es: Seq<Entry>|
                valid_block(es) && block_bytes(es) == data@ ==> (r is Ok && r->Ok_0.entries() == es),
    {
        let len = data.len();
        if len < 2 || len > 65535 {
            proof {
                assert forall|es: Seq<Entry>| valid_block(es) && block_bytes(es) == data@ implies false by {
                    lemma_valid_offsets(es);
                }
            }
            return Err(LsmError::MalformedBlock);
        }
        let n: usize = data[len - 2] as usize + 256 * (data[len - 1] as usize);
        proof {
            assert forall|es: Seq<Entry>| valid_block(es) && block_bytes(es) == data@ implies es.len() == n
                && len - 2 - 2 * n == entries_bytes(es).len() by {
                lemma_valid_offsets(es);
                lemma_u16_le(es.len() as int);
                assert(data@[len - 2] == u16_le(es.len() as int)[0]);
                assert(data@[len - 1] == u16_le(es.len() as int)[1]);
            }
        }
        if n == 0 || 2 * n + 2 > len {
            return Err(LsmError::MalformedBlock);
        }
        let data_end = len - 2 - 2 * n;
        let mut offsets: Vec<u16> = Vec::new();
        let mut i: usize = 0;
        while i < n
            invariant
                len == data@.len(),
                2 * n + 2 <= len,
                data_end == len - 2 - 2 * n,
                i <= n,
                offsets@.len() == i,
                forall|j: int| 0 <= j < i ==> #[trigger] offsets@[j] as int == data@[data_end + 2 * j] as int
                    + 256 * (data@[data_end + 2 * j + 1] as int),
            decreases n - i,
        {
            let lo = data[data_end + 2 * i];
            let hi = data[data_end + 2 * i + 1];
            offsets.push(lo as u16 + 256 * (hi as u16));
            i = i + 1;
        }
        proof {
            assert forall|es: Seq<Entry>| valid_block(es) && block_bytes(es) == data@ implies forall|j: int|
                0 <= j < n ==> #[trigger] offsets@[j] as int == entry_offset(es, j) by {
                lemma_valid_offsets(es);
                lemma_offsets_bytes(es, es.len());
                assert forall|j: int| 0 <= j < n implies #[trigger] offsets@[j] as int == entry_offset(es, j) by {
                    let ob = offsets_bytes(es, es.len());
                    assert(ob.subrange(2 * j, 2 * j + 2) == u16_le(entry_offset(es, j)));
                    assert(data@[data_end + 2 * j] == ob[2 * j]);
                    assert(data@[data_end + 2 * j + 1] == ob[2 * j + 1]);
                    lemma_u16_le(entry_offset(es, j));
                }
            }
        }
        let mut p: usize = 0;
        let mut i: usize = 0;
        let ghost mut parsed: Seq<Entry> = Seq::empty();
        while i < n
            invariant
                len == data@.len(),
                data_end <= len,
                offsets@.len() == n,
                i <= n,
                p <= data_end,
                parsed.len() == i,
                data@.subrange(0, p as int) == entries_bytes(parsed),
                forall|j: int| 0 <= j < i ==> valid_entry(#[trigger] parsed[j]),
                forall|j: int| 0 <= j < i ==> #[trigger] offsets@[j] as int == entry_offset(parsed, j),
                forall|es: Seq<Entry>| #[trigger] valid_block(es) && block_bytes(es) == data@ ==> {
                    &&& es.len() == n
                    &&& data_end == entries_bytes(es).len()
                    &&& parsed == es.subrange(0, i as int)
                    &&& p == entry_offset(es, i as int)
                    &&& forall|j: int| 0 <= j < n ==> #[trigger] offsets@[j] as int == entry_offset(es, j)
                },
            decreases n - i,
        {
            proof {
                assert forall|es: Seq<Entry>| #[trigger] valid_block(es) && block_bytes(es) == data@ implies {
                    let e = es[i as int];
                    &&& data@.subrange(p as int, p + entry_bytes(e).len()) == entry_bytes(e)
                    &&& p + entry_bytes(e).len() <= data_end
                    &&& valid_entry(e)
                } by {
                    lemma_entry_at(es, i as int);
                    assert(data@.subrange(0, data_end as int) =~= entries_bytes(es));
                    assert(data@.subrange(p as int, p + entry_bytes(es[i as int]).len()) =~= entries_bytes(es).subrange(
                        entry_offset(es, i as int),
                        entry_offset(es, i as int + 1),
                    ));
                }
            }
            if offsets[i] as usize != p {
                return Err(LsmError::MalformedBlock);
            }
            let read = read_entry(data, p, data_end);
            let (key, value) = match read {
                Some(kv) => kv,
                None => {
                    return Err(LsmError::MalformedBlock);
                },
            };
            let ghost e: Entry = (key@, value@);
            let next = p + 2 + key.len() + value.len();
            proof {
                lemma_entries_push(parsed, e);
                assert(data@.subrange(0, next as int) =~= data@.subrange(0, p as int) + data@.subrange(p as int, next as int));
                assert(parsed.push(e).subrange(0, i as int) =~= parsed);
                assert forall|j: int| 0 <= j < i implies entry_offset(parsed.push(e), j) == entry_offset(parsed, j) by {
                    assert(parsed.push(e).subrange(0, j) =~= parsed.subrange(0, j));
                }
                assert(parsed =~= parsed.subrange(0, i as int));
                assert forall|es: Seq<Entry>| #[trigger] valid_block(es) && block_bytes(es) == data@ implies {
                    &&& parsed.push(e) == es.subrange(0, i + 1)
                    &&& next == entry_offset(es, i + 1)
                } by {
                    lemma_entry_at(es, i as int);
                    assert(es.subrange(0, i + 1) =~= es.subrange(0, i as int).push(es[i as int]));
                }
                parsed = parsed.push(e);
            }
            p = next;
            i = i + 1;
        }
        proof {
            assert forall|es: Seq<Entry>| #[trigger] valid_block(es) && block_bytes(es) == data@ implies p == data_end by {
                assert(es.subrange(0, n as int) =~= es);
            }
        }
        if p != data_end {
            return Err(LsmError::MalformedBlock);
        }
        let ghost es = parsed;
        proof {
            assert(parsed =~= parsed.subrange(0, n as int));
            lemma_valid_offsets(es);
            lemma_offsets_bytes(es, es.len());
            let ob = offsets_bytes(es, es.len());
            assert forall|k: int| 0 <= k < 2 * n implies ob[k] == data@[data_end + k] by {
                let j = k / 2;
                assert(0 <= j < n && (k == 2 * j || k == 2 * j + 1));
                assert(ob.subrange(2 * j, 2 * j + 2) == u16_le(entry_offset(es, j)));
                lemma_u16_le_of_bytes(data@[data_end + 2 * j], data@[data_end + 2 * j + 1]);
                assert(offsets@[j] as int == entry_offset(es, j));
            }
            lemma_u16_le_of_bytes(data@[len - 2], data@[len - 1]);
            assert(block_bytes(es) =~= data@);
        }
        let block_data = slice_to_vec(&data[0..data_end]);
        Ok(Block { data: block_data, offsets, entries: Ghost(es) })
    }
}

impl Block {
    /// The number of entries in the block.
    pub fn num_entries(&self) -> (r: usize)
        requires
            self.wf(),
        ensures
            r == self.entries().len(),
    {
        self.offsets.len()
    }

    /// The number of bytes that the entries take.
    pub fn data_len(&self) -> (r: usize)
        requires
            self.wf(),
        ensures
            r == entries_bytes(self.entries()).len(),
    {
        self.data.len()
    }

    /// The key and value of entry `i`.
    pub fn entry_at(&self, i: usize) -> (r: (Vec<u8>, Vec<u8>))
        requires
            self.wf(),
            i < self.entries().len(),
        ensures
            r.0@ == self.entries()[i as int].0,
            r.1@ == self.entries()[i as int].1,
    {
        let ghost es = self.entries@;
        let p = self.offsets[i] as usize;
        proof {
            lemma_entry_at(es, i as int);
            let e = es[i as int];
            assert(self.data@.subrange(p as int, p + entry_bytes(e).len()) =~= entries_bytes(es).subrange(
                entry_offset(es, i as int),
                entry_offset(es, i as int + 1),
            ));
        }
        match read_entry(self.data.as_slice(), p, self.data.len()) {
            Some(kv) => kv,
            None => {
                proof {
                    assert(false);
                }
                (Vec::new(), Vec::new())
            },
        }
    }
}

/// Builds a block from entries added in order, up to a target size.
pub struct BlockBuilder {
    max_block_size: usize,
    data: Vec<u8>,
    offsets: Vec<u16>,
    entries: Ghost<Seq<Entry>>,
}

impl BlockBuilder {
    /// The entries added so far.
    pub closed spec fn entries(&self) -> Seq<Entry> {
        self.entries@
    }

    /// The target size of the block, in bytes.
    pub closed spec fn block_size(&self) -> nat {
        self.max_block_size as nat
    }

    /// The builder's data and offsets lay out its entries, within the target size.
    pub closed spec fn wf(&self) -> bool {
        &&& self.max_block_size <= 65535
        &&& self.data@ == entries_bytes(self.entries@)
        &&& self.offsets@.len() == self.entries@.len()
        &&& forall|i: int| 0 <= i < self.entries@.len() ==> #[trigger] self.offsets@[i] as int == entry_offset(self.entries@, i)
        &&& forall|i: int| 0 <= i < self.entries@.len() ==> valid_entry(#[trigger] self.entries@[i])
        &&& encoded_size(self.entries@) <= 65535
        &&& self.entries@.len() >= 2 ==> encoded_size(self.entries@) <= self.max_block_size
    }

    /// Creates a builder for blocks of `block_size` bytes.
    pub fn new(block_size: usize) -> (r: Self)
        requires
            block_size <= 65535,
        ensures
            r.wf(),
            r.entries() == Seq::<Entry>::empty(),
            r.block_size() == block_size,
    {
        let b = BlockBuilder {
            max_block_size: block_size,
            data: Vec::new(),
            offsets: Vec::new(),
            entries: Ghost(Seq::empty()),
        };
        assert(entries_bytes(b.entries@) =~= Seq::<u8>::empty());
        b
    }

    /// Adds an entry; refuses it, leaving the builder as it was, when the builder is not empty and
    /// the block would grow past its target size.
    pub fn add(&mut self, key: &[u8], value: &[u8]) -> (r: bool)
        requires
            old(self).wf(),
            valid_entry((key@, value@)),
        ensures
            final(self).wf(),
            final(self).block_size() == old(self).block_size(),
            r == (old(self).entries().len() == 0 || encoded_size(old(self).entries().push((key@, value@)))
                <= old(self).block_size()),
            r ==> final(self).entries() == old(self).entries().push((key@, value@)),
            !r ==> final(self).entries() == old(self).entries(),
    {
        let ghost es = self.entries@;
        let ghost e: Entry = (key@, value@);
        proof {
            lemma_entries_push(es, e);
        }
        let current_size = self.data.len() + 2 * self.offsets.len() + 2;
        let incoming_size = key.len() + value.len() + 4;
        if !self.data.is_empty() && current_size + incoming_size > self.max_block_size {
            return false;
        }
        proof {
            if es.len() > 0 {
                lemma_entries_push(es.drop_last(), es.last());
                assert(es.drop_last().push(es.last()) =~= es);
            }
        }
        let offset = self.data.len() as u16;
        self.offsets.push(offset);
        self.data.push(key.len() as u8);
        self.data.extend_from_slice(key);
        self.data.push(value.len() as u8);
        self.data.extend_from_slice(value);
        proof {
            assert(self.data@ =~= entries_bytes(es) + entry_bytes(e));
            let new_es = es.push(e);
            assert(new_es.subrange(0, es.len() as int) =~= es);
            assert forall|i: int| 0 <= i < new_es.len() implies #[trigger] self.offsets@[i] as int == entry_offset(new_es, i) by {
                if i < es.len() {
                    assert(new_es.subrange(0, i) =~= es.subrange(0, i));
                }
            }
            self.entries = Ghost(new_es);
        }
        true
    }

    /// Whether no entry has been added.
    pub fn is_empty(&self) -> (r: bool)
        requires
            self.wf(),
        ensures
            r == (self.entries().len() == 0),
    {
        proof {
            if self.entries@.len() > 0 {
                lemma_entries_push(self.entries@.drop_last(), self.entries@.last());
                assert(self.entries@.drop_last().push(self.entries@.last()) =~= self.entries@);
            }
        }
        self.data.is_empty()
    }

    /// Finishes the block. A block of two or more entries fits its target size.
    pub fn build(self) -> (r: Block)
        requires
            self.wf(),
            self.entries().len() >= 1,
        ensures
            r.wf(),
            r.entries() == self.entries(),
            r.entries().len() >= 2 ==> block_bytes(r.entries()).len() <= self.block_size(),
    {
        proof {
            lemma_valid_offsets(self.entries@);
        }
        Block { data: self.data, offsets: self.offsets, entries: self.entries }
    }

    /// The size of the block encoded as it stands.
    pub fn get_size(&self) -> (r: usize)
        requires
            self.wf(),
        ensures
            r == encoded_size(self.entries()),
    {
        self.data.len() + 2 * self.offsets.len() + 2
    }
}

/// A cursor over the entries of one block.
pub struct BlockIterator {
    block: Arc<Block>,
    key: Vec<u8>,
    value: Vec<u8>,
    idx: usize,
}

impl BlockIterator {
    /// The block the cursor walks.
    pub closed spec fn block(&self) -> Block {
        *self.block
    }

    /// The index of the current entry; the number of entries once exhausted.
    pub closed spec fn index(&self) -> int {
        self.idx as int
    }

    /// The entries from the current one to the end of the block.
    pub open spec fn rest(&self) -> Seq<Entry> {
        self.block().entries().subrange(self.index(), self.block().entries().len() as int)
    }

    /// The cursor stands on an entry of a well-formed block, or past its end.
    pub closed spec fn wf(&self) -> bool {
        let es = self.block.entries();
        &&& self.block.wf()
        &&& self.idx <= es.len()
        &&& self.idx < es.len() ==> self.key@ == es[self.idx as int].0 && self.value@ == es[self.idx as int].1
        &&& self.idx == es.len() ==> self.key@.len() == 0 && self.value@.len() == 0
    }

    pub proof fn lemma_wf(&self)
        requires
            self.wf(),
        ensures
            0 <= self.index() <= self.block().entries().len(),
            self.block().wf(),
    {
    }

    /// A cursor past the end of `block`.
    fn new(block: Arc<Block>) -> (r: Self)
        requires
            block.wf(),
        ensures
            r.wf(),
            r.block() == *block,
            r.index() == block.entries().len(),
    {
        let n = block.num_entries();
        BlockIterator { block, key: Vec::new(), value: Vec::new(), idx: n }
    }

    /// Positions the cursor on entry `i`, or past the end.
    fn move_to(&mut self, i: usize)
        requires
            old(self).wf(),
            i <= old(self).block().entries().len(),
        ensures
            final(self).wf(),
            final(self).block() == old(self).block(),
            final(self).index() == i,
    {
        if i < self.block.num_entries() {
            let (k, v) = self.block.entry_at(i);
            self.key = k;
            self.value = v;
        } else {
            self.key = Vec::new();
            self.value = Vec::new();
        }
        self.idx = i;
    }

    /// Creates a cursor on the first entry of `block`.
    pub fn create_and_seek_to_first(block: Arc<Block>) -> (r: Self)
        requires
            block.wf(),
        ensures
            r.wf(),
            r.block() == *block,
            r.index() == 0,
    {
        let mut it = Self::new(block);
        it.seek_to_first();
        it
    }

    /// Creates a cursor on the first entry of `block` whose key is at or above `key`.
    pub fn create_and_seek_to_key(block: Arc<Block>, key: &[u8]) -> (r: Self)
        requires
            block.wf(),
        ensures
            r.wf(),
            r.block() == *block,
            first_at_or_above(block.entries(), key@, r.index()),
    {
        let mut it = Self::new(block);
        it.seek_to_key(key);
        it
    }

    /// The key of the current entry; empty once exhausted.
    pub fn key(&self) -> (r: &[u8])
        requires
            self.wf(),
        ensures
            self.index() < self.block().entries().len() ==> r@ == self.block().entries()[self.index()].0,
            self.index() == self.block().entries().len() ==> r@.len() == 0,
    {
        self.key.as_slice()
    }

    /// The value of the current entry; empty once exhausted.
    pub fn value(&self) -> (r: &[u8])
        requires
            self.wf(),
        ensures
            self.index() < self.block().entries().len() ==> r@ == self.block().entries()[self.index()].1,
            self.index() == self.block().entries().len() ==> r@.len() == 0,
    {
        self.value.as_slice()
    }

    /// Whether the cursor stands on an entry.
    pub fn is_valid(&self) -> (r: bool)
        requires
            self.wf(),
        ensures
            r == (self.index() < self.block().entries().len()),
    {
        self.idx < self.block.num_entries()
    }

    /// Moves to the first entry.
    pub fn seek_to_first(&mut self)
        requires
            old(self).wf(),
        ensures
            final(self).wf(),
            final(self).block() == old(self).block(),
            final(self).index() == 0,
    {
        self.move_to(0);
    }

    /// The number of bytes that the block's entries take.
    pub fn size(&self) -> (r: usize)
        requires
            self.wf(),
        ensures
            r == entries_bytes(self.block().entries()).len(),
    {
        self.block.data_len()
    }

    /// Moves to the next entry, or past the end after the last one.
    pub fn next(&mut self)
        requires
            old(self).wf(),
        ensures
            final(self).wf(),
            final(self).block() == old(self).block(),
            final(self).index() == if old(self).index() < old(self).block().entries().len() {
                old(self).index() + 1
            } else {
                old(self).index()
            },
    {
        if self.idx < self.block.num_entries() {
            let i = self.idx + 1;
            self.move_to(i);
        }
    }

    /// Moves to the first entry whose key is at or above `key`, or past the end if there is none.
    pub fn seek_to_key(&mut self, key: &[u8])
        requires
            old(self).wf(),
        ensures
            final(self).wf(),
            final(self).block() == old(self).block(),
            first_at_or_above(old(self).block().entries(), key@, final(self).index()),
    {
        self.seek_to_first();
        let ghost es = self.block.entries();
        while self.idx < self.block.num_entries() && compare_keys(self.key.as_slice(), key) < 0
            invariant
                self.wf(),
                self.block() == old(self).block(),
                es == self.block().entries(),
                forall|j: int| 0 <= j < self.idx ==> lex_lt(#[trigger] es[j].0, key@),
            decreases es.len() - self.idx,
        {
            self.next();
        }
        proof {
            if self.idx < es.len() {
                crate::keys::lemma_lex_order(key@, es[self.idx as int].0, key@);
            }
        }
    }
}

} // verus!
