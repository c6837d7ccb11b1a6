//! The in-memory table: an ordered map from keys to values.
use crossbeam_skiplist::SkipMap;
use std::ops::Bound;
use vstd::prelude::*;
use vstd::slice::slice_to_vec;

use crate::block::{valid_entry, Entry};
use crate::error::LsmError;
use crate::iterators::{has_key, StorageIterator};
use crate::keys::{keys_increasing, lemma_lex_order, lex_le, lex_lt, KeyBound};
use crate::table::{pack_from, SsTableBuilder};

verus! {

#[verifier::external_type_specification]
#[verifier::external_body]
#[verifier::reject_recursive_types(K)]
#[verifier::reject_recursive_types(V)]
pub struct ExSkipMap<K, V>(SkipMap<K, V>);

/// A skip map from key bytes to value bytes.
pub type ByteMap = SkipMap<Vec<u8>, Vec<u8>>;

/// Entries as a map from key bytes to value bytes.
pub type Contents = Map<Seq<u8>, Seq<u8>>;

/// The entries that a skip map holds, as a map from key bytes to value bytes.
pub uninterp spec fn skipmap_contents(m: ByteMap) -> Map<Seq<u8>, Seq<u8>>;

/// Relies on `SkipMap::new`: a new map holds no entry.
#[verifier::external_body]
fn skipmap_new() -> (r: ByteMap)
    ensures
        skipmap_contents(r) == Contents::empty(),
{
    SkipMap::new()
}

/// Relies on `SkipMap::insert`: an entry already under `key` is replaced.
#[verifier::external_body]
fn skipmap_insert(m: &mut ByteMap, key: Vec<u8>, value: Vec<u8>)
    ensures
        skipmap_contents(*final(m)) == skipmap_contents(*old(m)).insert(key@, value@),
{
    m.insert(key, value);
}

/// Relies on `SkipMap::get`: the value under `key`, if any.
#[verifier::external_body]
fn skipmap_get(m: &ByteMap, key: &[u8]) -> (r: Option<Vec<u8>>)
    ensures
        r is Some <==> skipmap_contents(*m).contains_key(key@),
        r matches Some(v) ==> v@ == skipmap_contents(*m)[key@],
{
    m.get(key).map(|e| e.value().clone())
}

/// Relies on `SkipMap::lower_bound`: the entry with the lowest key that the bound admits, keys
/// ordered as `Vec<u8>` orders them, byte by byte.
#[verifier::external_body]
fn skipmap_lower_bound(m: &ByteMap, bound: &KeyBound) -> (r: Option<(Vec<u8>, Vec<u8>)>)
    ensures
        r matches Some(kv) ==> {
            &&& skipmap_contents(*m).contains_key(kv.0@)
            &&& skipmap_contents(*m)[kv.0@] == kv.1@
            &&& bound.admits_above(kv.0@)
            &&& forall|k: Seq<u8>| #[trigger] skipmap_contents(*m).contains_key(k) && bound.admits_above(k) ==> lex_le(kv.0@, k)
        },
        r is None ==> forall|k: Seq<u8>| #[trigger] skipmap_contents(*m).contains_key(k) ==> !bound.admits_above(k),
{
    let b: Bound<&[u8]> = match bound {
        KeyBound::Included(k) => Bound::Included(k.as_slice()),
        KeyBound::Excluded(k) => Bound::Excluded(k.as_slice()),
        KeyBound::Unbounded => Bound::Unbounded,
    };
    m.lower_bound(b).map(|e| (e.key().clone(), e.value().clone()))
}

/// `s` lists, in increasing key order, exactly the entries of `m` that the two bounds admit.
pub open spec fn is_sorted_range(s: Seq<Entry>, m: Map<Seq<u8>, Seq<u8>>, lower: KeyBound, upper: KeyBound) -> bool {
    &&& keys_increasing(s)
    &&& forall|i: int|
        0 <= i < s.len() ==> {
            &&& m.contains_key(#[trigger] s[i].0)
            &&& m[s[i].0] == s[i].1
            &&& lower.admits_above(s[i].0)
            &&& upper.admits_below(s[i].0)
        }
    &&& forall|k: Seq<u8>| #[trigger] m.contains_key(k) && lower.admits_above(k) && upper.admits_below(k) ==> has_key(s, k)
}

/// A sorted run of keys of `m` is no longer than `m`.
proof fn lemma_run_within_map(s: Seq<Entry>, m: Map<Seq<u8>, Seq<u8>>)
    requires
        keys_increasing(s),
        m.dom().finite(),
        forall|i: int| 0 <= i < s.len() ==> m.contains_key(#[trigger] s[i].0),
    ensures
        s.len() <= m.dom().len(),
{
    let ks = s.map_values(|e: Entry| e.0);
    assert(ks.no_duplicates()) by {
        assert forall|i: int, j: int| 0 <= i < ks.len() && 0 <= j < ks.len() && i != j implies ks[i] != ks[j] by {
            if i < j {
                lemma_lex_order(s[i].0, s[j].0, s[i].0);
            } else {
                lemma_lex_order(s[j].0, s[i].0, s[j].0);
            }
        }
    }
    ks.unique_seq_to_set();
    assert(ks.to_set().subset_of(m.dom())) by {
        assert forall|k: Seq<u8>| ks.to_set().contains(k) implies m.dom().contains(k) by {
            let i = choose|i: int| 0 <= i < ks.len() && ks[i] == k;
            assert(m.contains_key(s[i].0));
        }
    }
    vstd::set_lib::lemma_len_subset(ks.to_set(), m.dom());
}

/// The in-memory table.
pub struct MemTable {
    map: ByteMap,
}

impl MemTable {
    /// The entries of the table.
    pub closed spec fn contents(&self) -> Map<Seq<u8>, Seq<u8>> {
        skipmap_contents(self.map)
    }

    /// Finitely many entries, each with a key of 1 to 255 bytes and a value of at most 255.
    pub closed spec fn wf(&self) -> bool {
        &&& self.contents().dom().finite()
        &&& forall|k: Seq<u8>| #[trigger] self.contents().contains_key(k) ==> valid_entry((k, self.contents()[k]))
    }

    /// Create a new mem-table.
    pub fn create() -> (r: Self)
        ensures
            r.wf(),
            r.contents() == Map::<Seq<u8>, Seq<u8>>::empty(),
    {
        MemTable { map: skipmap_new() }
    }

    /// Get a value by key.
    pub fn get(&self, key: &[u8]) -> (r: Option<Vec<u8>>)
        ensures
            r is Some <==> self.contents().contains_key(key@),
            r matches Some(v) ==> v@ == self.contents()[key@],
    {
        skipmap_get(&self.map, key)
    }

    /// Puts a key-value pair, replacing the value the key had.
    pub fn put(&mut self, key: &[u8], value: &[u8])
        requires
            old(self).wf(),
            valid_entry((key@, value@)),
        ensures
            final(self).wf(),
            final(self).contents() == old(self).contents().insert(key@, value@),
    {
        skipmap_insert(&mut self.map, slice_to_vec(key), slice_to_vec(value));
    }

    /// The entries that the two bounds admit, in key order.
    fn collect_range(&self, lower: &KeyBound, upper: &KeyBound) -> (r: Vec<(Vec<u8>, Vec<u8>)>)
        requires
            self.wf(),
        ensures
            is_sorted_range(pairs_view(r@), self.contents(), *lower, *upper),
    {
        let ghost m = self.contents();
        let mut out: Vec<(Vec<u8>, Vec<u8>)> = Vec::new();
        let mut found = skipmap_lower_bound(&self.map, lower);
        loop
            invariant_except_break
                m == self.contents(),
                self.wf(),
                keys_increasing(pairs_view(out@)),
                forall|i: int|
                    0 <= i < out@.len() ==> {
                        &&& m.contains_key(#[trigger] pairs_view(out@)[i].0)
                        &&& m[pairs_view(out@)[i].0] == pairs_view(out@)[i].1
                        &&& lower.admits_above(pairs_view(out@)[i].0)
                        &&& upper.admits_below(pairs_view(out@)[i].0)
                    },
                found matches Some(kv) ==> {
                    &&& m.contains_key(kv.0@)
                    &&& m[kv.0@] == kv.1@
                    &&& lower.admits_above(kv.0@)
                    &&& forall|i: int| 0 <= i < out@.len() ==> lex_lt(#[trigger] pairs_view(out@)[i].0, kv.0@)
                },
                forall|k: Seq<u8>|
                    #[trigger] m.contains_key(k) && lower.admits_above(k) && upper.admits_below(k) && !has_key(
                        pairs_view(out@),
                        k,
                    ) ==> (found matches Some(kv) && lex_le(kv.0@, k)),
                out@.len() <= m.dom().len(),
            ensures
                is_sorted_range(pairs_view(out@), m, *lower, *upper),
            decreases m.dom().len() - out@.len(),
        {
            let (k, v) = match found {
                None => {
                    break;
                },
                Some(kv) => kv,
            };
            if !upper.key_within_upper(k.as_slice()) {
                proof {
                    assert forall|k2: Seq<u8>| #[trigger] m.contains_key(k2) && lower.admits_above(k2) && upper.admits_below(k2) implies has_key(
                        pairs_view(out@),
                        k2,
                    ) by {
                        if !has_key(pairs_view(out@), k2) {
                            upper.lemma_below_closed(k@, k2);
                        }
                    }
                }
                break;
            }
            let next = skipmap_lower_bound(&self.map, &KeyBound::Excluded(slice_to_vec(k.as_slice())));
            let ghost old_view = pairs_view(out@);
            let ghost e: Entry = (k@, v@);
            out.push((k, v));
            proof {
                let nv = pairs_view(out@);
                assert(nv =~= old_view.push(e));
                crate::keys::lemma_push_increasing(old_view, e);
                assert forall|k2: Seq<u8>| #[trigger] m.contains_key(k2) && lower.admits_above(k2) && upper.admits_below(k2) && !has_key(
                    nv,
                    k2,
                ) implies (next matches Some(kv) && lex_le(kv.0@, k2)) by {
                    if !has_key(old_view, k2) {
                        assert(lex_le(e.0, k2));
                        assert(k2 != e.0) by {
                            if k2 == e.0 {
                                assert(nv[old_view.len() as int].0 == k2);
                            }
                        }
                        assert(KeyBound::Excluded(k).admits_above(k2));
                    } else {
                        let i = choose|i: int| 0 <= i < old_view.len() && #[trigger] old_view[i].0 == k2;
                        assert(nv[i].0 == k2);
                    }
                }
                if next is Some {
                    let nk = next->Some_0.0@;
                    lower.lemma_above_closed(e.0, nk);
                    assert forall|i: int| 0 <= i < nv.len() implies lex_lt(#[trigger] nv[i].0, nk) by {
                        if i < old_view.len() {
                            lemma_lex_order(nv[i].0, e.0, nk);
                        }
                    }
                }
                lemma_run_within_map(nv, m);
            }
            found = next;
        }
        out
    }

    /// A cursor over the entries that the two bounds admit, in key order.
    pub fn scan(&self, lower: &KeyBound, upper: &KeyBound) -> (r: MemTableIterator)
        requires
            self.wf(),
        ensures
            r.inv(),
            is_sorted_range(r.rest(), self.contents(), *lower, *upper),
    {
        let entries = self.collect_range(lower, upper);
        let it = MemTableIterator { entries, pos: 0 };
        assert(it.rest() =~= pairs_view(it.entries@));
        it
    }

    /// Adds every entry, in key order, to a table builder whose keys so far all lie below the
    /// table's keys.
    pub fn flush(&self, builder: &mut SsTableBuilder) -> (r: Result<(), LsmError>)
        requires
            self.wf(),
            old(builder).wf(),
            old(builder).entries().len() > 0 ==> forall|k: Seq<u8>|
                #[trigger] self.contents().contains_key(k) ==> lex_lt(old(builder).entries().last().0, k),
        ensures
            r is Ok,
            final(builder).wf(),
            final(builder).block_size() == old(builder).block_size(),
            final(builder).entries() == old(builder).entries() + sorted_entries(self.contents()),
            is_sorted_range(sorted_entries(self.contents()), self.contents(), KeyBound::Unbounded, KeyBound::Unbounded),
            (final(builder).sealed(), final(builder).pending()) == pack_from(
                (old(builder).sealed(), old(builder).pending()),
                sorted_entries(self.contents()),
                old(builder).block_size(),
            ),
    {
        let entries = self.collect_range(&KeyBound::Unbounded, &KeyBound::Unbounded);
        let ghost all = pairs_view(entries@);
        let ghost start = builder.entries();
        let ghost st0 = (builder.sealed(), builder.pending());
        let ghost size = builder.block_size();
        proof {
            lemma_sorted_entries(all, self.contents());
            assert(all.subrange(0, 0) =~= Seq::<Entry>::empty());
            assert(start + all.subrange(0, 0) =~= start);
        }
        let mut i: usize = 0;
        while i < entries.len()
            invariant
                self.wf(),
                all == pairs_view(entries@),
                is_sorted_range(all, self.contents(), KeyBound::Unbounded, KeyBound::Unbounded),
                start == old(builder).entries(),
                st0 == (old(builder).sealed(), old(builder).pending()),
                size == old(builder).block_size(),
                start.len() > 0 ==> forall|k: Seq<u8>| #[trigger] self.contents().contains_key(k) ==> lex_lt(start.last().0, k),
                i <= entries@.len(),
                builder.wf(),
                builder.block_size() == size,
                builder.entries() == start + all.subrange(0, i as int),
                (builder.sealed(), builder.pending()) == pack_from(st0, all.subrange(0, i as int), size),
            decreases entries@.len() - i,
        {
            proof {
                assert(self.contents().contains_key(all[i as int].0));
                if i > 0 {
                    assert(builder.entries().last() == all[i - 1]);
                } else if start.len() > 0 {
                    assert(builder.entries() =~= start);
                }
            }
            builder.add(entries[i].0.as_slice(), entries[i].1.as_slice());
            proof {
                let next = all.subrange(0, i + 1);
                assert(next =~= all.subrange(0, i as int).push(all[i as int]));
                assert(next.drop_last() =~= all.subrange(0, i as int));
                assert(builder.entries() =~= start + next);
            }
            i = i + 1;
        }
        assert(all.subrange(0, i as int) =~= all);
        Ok(())
    }
}

/// The entries of `m` in increasing key order.
pub open spec fn sorted_entries(m: Contents) -> Seq<Entry> {
    choose|s: Seq<Entry>| is_sorted_range(s, m, KeyBound::Unbounded, KeyBound::Unbounded)
}

/// A map has one listing of its entries in increasing key order: any such run is
/// `sorted_entries(m)`. It is empty exactly when the map is.
pub proof fn lemma_sorted_entries(s: Seq<Entry>, m: Contents)
    requires
        is_sorted_range(s, m, KeyBound::Unbounded, KeyBound::Unbounded),
    ensures
        sorted_entries(m) == s,
        s.len() == 0 <==> m == Contents::empty(),
{
    let c = sorted_entries(m);
    assert(is_sorted_range(c, m, KeyBound::Unbounded, KeyBound::Unbounded));
    lemma_sorted_range_unique(c, s, m);
    if s.len() == 0 {
        assert forall|k: Seq<u8>| !m.contains_key(k) by {
            if m.contains_key(k) {
                assert(KeyBound::Unbounded.admits_above(k) && KeyBound::Unbounded.admits_below(k));
                assert(has_key(s, k));
            }
        }
        assert(m =~= Contents::empty());
    } else {
        assert(m.contains_key(s[0].0));
    }
}

/// Two runs listing the same map in increasing key order are equal.
proof fn lemma_sorted_range_unique(s1: Seq<Entry>, s2: Seq<Entry>, m: Contents)
    requires
        is_sorted_range(s1, m, KeyBound::Unbounded, KeyBound::Unbounded),
        is_sorted_range(s2, m, KeyBound::Unbounded, KeyBound::Unbounded),
    ensures
        s1 == s2,
    decreases s1.len(),
{
    let u = KeyBound::Unbounded;
    if s1.len() == 0 || s2.len() == 0 {
        if s1.len() > 0 {
            assert(m.contains_key(s1[0].0));
            assert(u.admits_above(s1[0].0) && u.admits_below(s1[0].0));
            assert(has_key(s2, s1[0].0));
        }
        if s2.len() > 0 {
            assert(m.contains_key(s2[0].0));
            assert(u.admits_above(s2[0].0) && u.admits_below(s2[0].0));
            assert(has_key(s1, s2[0].0));
        }
        assert(s1 =~= s2);
    } else {
        let k1 = s1[0].0;
        let k2 = s2[0].0;
        assert(m.contains_key(k1) && m.contains_key(k2));
        assert(u.admits_above(k1) && u.admits_below(k1) && u.admits_above(k2) && u.admits_below(k2));
        assert(has_key(s2, k1));
        assert(has_key(s1, k2));
        let j2 = choose|j: int| 0 <= j < s2.len() && #[trigger] s2[j].0 == k1;
        let j1 = choose|j: int| 0 <= j < s1.len() && #[trigger] s1[j].0 == k2;
        if j2 > 0 {
            assert(lex_lt(k2, k1));
            if j1 > 0 {
                assert(lex_lt(k1, k2));
            }
            lemma_lex_order(k2, k1, k2);
        }
        assert(k1 == k2);
        assert(s1[0] == s2[0]);
        let m2 = m.remove(k1);
        let t1 = s1.drop_first();
        let t2 = s2.drop_first();
        assert forall|t: Seq<Entry>| t == t1 || t == t2 implies is_sorted_range(t, m2, u, u) by {
            let s = if t == t1 { s1 } else { s2 };
            assert(t == s.drop_first());
            assert forall|a: int, b: int| 0 <= a < b < t.len() implies lex_lt(#[trigger] t[a].0, #[trigger] t[b].0) by {
                assert(t[a] == s[a + 1] && t[b] == s[b + 1]);
            }
            assert forall|i: int| 0 <= i < t.len() implies m2.contains_key(#[trigger] t[i].0) && m2[t[i].0] == t[i].1 by {
                assert(t[i] == s[i + 1]);
                assert(m.contains_key(s[i + 1].0));
                lemma_lex_order(s[0].0, s[i + 1].0, s[0].0);
            }
            assert forall|k: Seq<u8>| #[trigger] m2.contains_key(k) && u.admits_above(k) && u.admits_below(k) implies has_key(t, k) by {
                assert(m.contains_key(k));
                assert(has_key(s, k));
                let j = choose|j: int| 0 <= j < s.len() && #[trigger] s[j].0 == k;
                assert(j > 0);
                assert(t[j - 1].0 == k);
            }
        }
        lemma_sorted_range_unique(t1, t2, m2);
        assert(s1 =~= seq![s1[0]] + t1);
        assert(s2 =~= seq![s2[0]] + t2);
    }
}

/// The pairs of `v` as bytes.
pub open spec fn pairs_view(v: Seq<(Vec<u8>, Vec<u8>)>) -> Seq<Entry> {
    v.map_values(|e: (Vec<u8>, Vec<u8>)| (e.0@, e.1@))
}

/// A cursor over entries taken from a memory table when the scan began.
pub struct MemTableIterator {
    entries: Vec<(Vec<u8>, Vec<u8>)>,
    pos: usize,
}

impl StorageIterator for MemTableIterator {
    closed spec fn inv(&self) -> bool {
        self.pos <= self.entries@.len()
    }

    closed spec fn rest(&self) -> Seq<Entry> {
        pairs_view(self.entries@).subrange(self.pos as int, self.entries@.len() as int)
    }

    fn value(&self) -> (r: &[u8]) {
        self.entries[self.pos].1.as_slice()
    }

    fn key(&self) -> (r: &[u8]) {
        self.entries[self.pos].0.as_slice()
    }

    fn is_valid(&self) -> (r: bool) {
        self.pos < self.entries.len()
    }

    fn next(&mut self) -> (r: Result<(), LsmError>) {
        let ghost old_rest = self.rest();
        if self.pos < self.entries.len() {
            self.pos = self.pos + 1;
            assert(self.rest() =~= old_rest.drop_first());
        }
        Ok(())
    }
}

} // verus!
