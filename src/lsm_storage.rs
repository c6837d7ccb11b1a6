//! The store: a memory table taking writes, frozen memory tables, and tables flushed from them.
use std::sync::Arc;
use vstd::prelude::*;

use crate::block::{valid_entry, Entry};
use crate::error::LsmError;
use crate::iterators::{
    all_sorted, has_key, lemma_merge2_members, lemma_merge2_sorted, lemma_merge_all_members, lemma_merge_all_sorted,
    merge2, merge_all, StorageIterator,
};
use crate::lsm_iterator::{lemma_visible, visible, FusedIterator, LsmIterator};
use crate::mem_table::MemTableIterator;
use crate::merge_iterator::MergeIterator;
use crate::two_merge_iterator::TwoMergeIterator;
use crate::keys::{keys_increasing, lemma_lex_order, lex_le, KeyBound};
use crate::mem_table::{is_sorted_range, lemma_sorted_entries, sorted_entries, Contents, MemTable};
use crate::table::{blocks_bytes, pack_from, seal_all, SsTable, SsTableBuilder};
use crate::table_iterator::SsTableIterator;

verus! {

/// The size that the blocks of flushed tables aim for.
pub const BLOCK_SIZE: usize = 4096;

/// The entries of a sorted run, as a map.
pub open spec fn run_map(s: Seq<Entry>) -> Contents {
    Map::new(|k: Seq<u8>| has_key(s, k), |k: Seq<u8>| run_value(s, k))
}

/// The value of the first entry of `s` with key `k`.
pub open spec fn run_value(s: Seq<Entry>, k: Seq<u8>) -> Seq<u8>
    decreases s.len(),
{
    if s.len() == 0 {
        Seq::empty()
    } else if s[0].0 == k {
        s[0].1
    } else {
        run_value(s.drop_first(), k)
    }
}

/// Layers of maps, the first on top: a key takes its value from the first layer holding it.
pub open spec fn overlay(ms: Seq<Contents>) -> Contents
    decreases ms.len(),
{
    if ms.len() == 0 {
        Map::empty()
    } else {
        overlay(ms.drop_first()).union_prefer_right(ms[0])
    }
}

/// The live part of a map: keys whose value is not a deletion.
pub open spec fn live(m: Contents) -> Contents {
    Map::new(|k: Seq<u8>| m.contains_key(k) && m[k].len() > 0, |k: Seq<u8>| m[k])
}

/// In a sorted run, the entry at `i` is the one the run's map gives for its key.
pub proof fn lemma_run_map_at(s: Seq<Entry>, i: int)
    requires
        keys_increasing(s),
        0 <= i < s.len(),
    ensures
        run_map(s).contains_key(s[i].0),
        run_map(s)[s[i].0] == s[i].1,
{
    assert(s[i].0 == s[i].0);
    assert(has_key(s, s[i].0));
    lemma_run_value(s, i);
}

proof fn lemma_run_value(s: Seq<Entry>, i: int)
    requires
        keys_increasing(s),
        0 <= i < s.len(),
    ensures
        run_value(s, s[i].0) == s[i].1,
    decreases i,
{
    if i > 0 {
        lemma_lex_order(s[0].0, s[i].0, s[0].0);
        let t = s.drop_first();
        assert(keys_increasing(t)) by {
            assert forall|a: int, b: int| 0 <= a < b < t.len() implies crate::keys::lex_lt(#[trigger] t[a].0, #[trigger] t[b].0) by {
                assert(t[a] == s[a + 1] && t[b] == s[b + 1]);
            }
        }
        assert(t[i - 1] == s[i]);
        lemma_run_value(t, i - 1);
    }
}

/// A layer that does not hold `k` leaves the lookup of `k` to the layers below it.
pub proof fn lemma_overlay_step(ms: Seq<Contents>, k: Seq<u8>)
    requires
        ms.len() > 0,
    ensures
        ms[0].contains_key(k) ==> overlay(ms).contains_key(k) && overlay(ms)[k] == ms[0][k],
        !ms[0].contains_key(k) ==> overlay(ms).contains_key(k) == overlay(ms.drop_first()).contains_key(k),
        !ms[0].contains_key(k) && overlay(ms).contains_key(k) ==> overlay(ms)[k] == overlay(ms.drop_first())[k],
{
}

/// An empty layer changes no lookup.
pub proof fn lemma_overlay_remove_empty(ms: Seq<Contents>, i: int)
    requires
        0 <= i < ms.len(),
        ms[i] == Contents::empty(),
    ensures
        overlay(ms.remove(i)) == overlay(ms),
    decreases ms.len(),
{
    if i == 0 {
        assert(ms.remove(0) =~= ms.drop_first());
        assert(overlay(ms) =~= overlay(ms.drop_first()));
    } else {
        let t = ms.drop_first();
        assert(ms.remove(i).drop_first() =~= t.remove(i - 1));
        assert(ms.remove(i)[0] == ms[0]);
        lemma_overlay_remove_empty(t, i - 1);
    }
}

/// A sorted run listing every entry of `m` has `m` as its map.
pub proof fn lemma_run_map_of_range(s: Seq<Entry>, m: Contents)
    requires
        is_sorted_range(s, m, KeyBound::Unbounded, KeyBound::Unbounded),
    ensures
        run_map(s) == m,
{
    assert forall|k: Seq<u8>| #[trigger] m.contains_key(k) implies run_map(s).contains_key(k) && run_map(s)[k] == m[k] by {
        assert(KeyBound::Unbounded.admits_above(k) && KeyBound::Unbounded.admits_below(k));
        assert(has_key(s, k));
        let i = choose|i: int| 0 <= i < s.len() && #[trigger] s[i].0 == k;
        lemma_run_map_at(s, i);
    }
    assert forall|k: Seq<u8>| #[trigger] run_map(s).contains_key(k) implies m.contains_key(k) by {
        let i = choose|i: int| 0 <= i < s.len() && #[trigger] s[i].0 == k;
    }
    assert(run_map(s) =~= m);
}

/// A key takes its value from the first layer that holds it.
pub proof fn lemma_overlay_lookup(ms: Seq<Contents>, k: Seq<u8>)
    ensures
        overlay(ms).contains_key(k) <==> exists|j: int| 0 <= j < ms.len() && (#[trigger] ms[j]).contains_key(k),
        forall|j: int|
            0 <= j < ms.len() && (#[trigger] ms[j]).contains_key(k) && (forall|i: int| 0 <= i < j ==> !(#[trigger] ms[i]).contains_key(k))
                ==> overlay(ms)[k] == ms[j][k],
    decreases ms.len(),
{
    if ms.len() > 0 {
        let t = ms.drop_first();
        lemma_overlay_lookup(t, k);
        lemma_overlay_step(ms, k);
        if exists|j: int| 0 <= j < ms.len() && (#[trigger] ms[j]).contains_key(k) {
            let j = choose|j: int| 0 <= j < ms.len() && (#[trigger] ms[j]).contains_key(k);
            if j > 0 && !ms[0].contains_key(k) {
                assert(t[j - 1] == ms[j]);
            }
        }
        if exists|j: int| 0 <= j < t.len() && (#[trigger] t[j]).contains_key(k) {
            let j = choose|j: int| 0 <= j < t.len() && (#[trigger] t[j]).contains_key(k);
            assert(ms[j + 1] == t[j]);
        }
        assert forall|j: int|
            0 <= j < ms.len() && (#[trigger] ms[j]).contains_key(k) && (forall|i: int| 0 <= i < j ==> !(#[trigger] ms[i]).contains_key(k))
                implies overlay(ms)[k] == ms[j][k] by {
            if j > 0 {
                assert(t[j - 1] == ms[j]);
                assert forall|i: int| 0 <= i < j - 1 implies !(#[trigger] t[i]).contains_key(k) by {
                    assert(t[i] == ms[i + 1]);
                }
                assert(!ms[0].contains_key(k));
            }
        }
    }
}

/// A run listing the entries of a map within bounds holds exactly those entries.
pub proof fn lemma_range_facts(r: Seq<Entry>, m: Contents, lower: KeyBound, upper: KeyBound)
    requires
        is_sorted_range(r, m, lower, upper),
    ensures
        forall|e: Entry| #[trigger] r.contains(e) ==> m.contains_key(e.0) && m[e.0] == e.1 && lower.admits_above(e.0) && upper.admits_below(e.0),
        forall|k: Seq<u8>| #[trigger] has_key(r, k) <==> (m.contains_key(k) && lower.admits_above(k) && upper.admits_below(k)),
        forall|k: Seq<u8>| m.contains_key(k) && lower.admits_above(k) && upper.admits_below(k) ==> #[trigger] r.contains((k, m[k])),
{
    assert forall|e: Entry| #[trigger] r.contains(e) implies m.contains_key(e.0) && m[e.0] == e.1 && lower.admits_above(e.0) && upper.admits_below(e.0) by {
        let i = choose|i: int| 0 <= i < r.len() && r[i] == e;
        assert(m.contains_key(r[i].0));
    }
    assert forall|k: Seq<u8>| #[trigger] has_key(r, k) implies (m.contains_key(k) && lower.admits_above(k) && upper.admits_below(k)) by {
        let i = choose|i: int| 0 <= i < r.len() && #[trigger] r[i].0 == k;
        assert(m.contains_key(r[i].0));
    }
    assert forall|k: Seq<u8>| m.contains_key(k) && lower.admits_above(k) && upper.admits_below(k) implies #[trigger] r.contains((k, m[k])) by {
        assert(has_key(r, k));
        let i = choose|i: int| 0 <= i < r.len() && #[trigger] r[i].0 == k;
        assert(m.contains_key(r[i].0));
        assert(r[i] == (k, m[k]));
    }
}

/// The first layer that holds `k`.
proof fn lemma_first_layer(ms: Seq<Contents>, k: Seq<u8>, j: int) -> (f: int)
    requires
        0 <= j < ms.len(),
        ms[j].contains_key(k),
    ensures
        0 <= f <= j,
        ms[f].contains_key(k),
        forall|i: int| 0 <= i < f ==> !(#[trigger] ms[i]).contains_key(k),
    decreases j,
{
    if exists|i: int| 0 <= i < j && (#[trigger] ms[i]).contains_key(k) {
        let i = choose|i: int| 0 <= i < j && (#[trigger] ms[i]).contains_key(k);
        lemma_first_layer(ms, k, i)
    } else {
        j
    }
}

/// A scan over layers shows the live entries of their overlay that the bounds admit: the runs of
/// the first `nm` layers are cut at both bounds, the others at the lower bound only.
#[verifier::rlimit(100)]
pub proof fn lemma_scan_result(runs: Seq<Seq<Entry>>, ms: Seq<Contents>, nm: int, lower: KeyBound, upper: KeyBound)
    requires
        runs.len() == ms.len(),
        0 <= nm <= runs.len(),
        forall|j: int| 0 <= j < nm ==> is_sorted_range(#[trigger] runs[j], ms[j], lower, upper),
        forall|j: int| nm <= j < runs.len() ==> is_sorted_range(#[trigger] runs[j], ms[j], lower, KeyBound::Unbounded),
    ensures
        is_sorted_range(
            visible(merge2(merge_all(runs.subrange(0, nm)), merge_all(runs.subrange(nm, runs.len() as int))), upper),
            live(overlay(ms)),
            lower,
            upper,
        ),
{
    let a = runs.subrange(0, nm);
    let b = runs.subrange(nm, runs.len() as int);
    let n = runs.len() as int;
    assert forall|j: int| 0 <= j < n implies {
        &&& forall|e: Entry| #[trigger] runs[j].contains(e) ==> ms[j].contains_key(e.0) && ms[j][e.0] == e.1 && lower.admits_above(e.0)
        &&& forall|k: Seq<u8>| #[trigger] has_key(runs[j], k) ==> ms[j].contains_key(k)
        &&& forall|k: Seq<u8>| ms[j].contains_key(k) && lower.admits_above(k) && upper.admits_below(k) ==> #[trigger] runs[j].contains((k, ms[j][k]))
        &&& crate::keys::keys_increasing(runs[j])
    } by {
        if j < nm {
            lemma_range_facts(runs[j], ms[j], lower, upper);
        } else {
            lemma_range_facts(runs[j], ms[j], lower, KeyBound::Unbounded);
        }
    }
    assert(all_sorted(a)) by {
        assert forall|i: int| 0 <= i < a.len() implies crate::keys::keys_increasing(#[trigger] a[i]) by {
            assert(a[i] == runs[i]);
        }
    }
    assert(all_sorted(b)) by {
        assert forall|i: int| 0 <= i < b.len() implies crate::keys::keys_increasing(#[trigger] b[i]) by {
            assert(b[i] == runs[nm + i]);
        }
    }
    lemma_merge_all_sorted(a);
    lemma_merge_all_sorted(b);
    lemma_merge_all_members(a);
    lemma_merge_all_members(b);
    let ma = merge_all(a);
    let mb = merge_all(b);
    lemma_merge2_sorted(ma, mb);
    lemma_merge2_members(ma, mb);
    let m = merge2(ma, mb);
    lemma_visible(m, upper);
    let v = visible(m, upper);
    let lv = live(overlay(ms));
    // A key that the bounds admit is in the merge of the first runs exactly when some first run holds it.
    assert forall|k: Seq<u8>| #[trigger] has_key(ma, k) implies exists|j: int| 0 <= j < nm && has_key(#[trigger] runs[j], k) by {
        {
            let p = choose|p: int| 0 <= p < ma.len() && #[trigger] ma[p].0 == k;
            assert(ma.contains(ma[p]));
            let j = choose|j: int| 0 <= j < a.len() && (#[trigger] a[j]).contains(ma[p]) && forall|i: int| 0 <= i < j ==> !has_key(#[trigger] a[i], ma[p].0);
            assert(a[j] == runs[j]);
            let q = choose|q: int| 0 <= q < runs[j].len() && runs[j][q] == ma[p];
            assert(runs[j][q].0 == k);
        }
    }
    // Each entry shown is the live value of its key in the overlay.
    assert forall|i: int| 0 <= i < v.len() implies {
        &&& lv.contains_key(#[trigger] v[i].0)
        &&& lv[v[i].0] == v[i].1
        &&& lower.admits_above(v[i].0)
        &&& upper.admits_below(v[i].0)
    } by {
        let e = v[i];
        assert(v.contains(e));
        assert(v.contains(e) <==> (m.contains(e) && upper.admits_below(e.0) && e.1.len() > 0));
        assert(m.contains(e) && upper.admits_below(e.0) && e.1.len() > 0);
        let j: int = if ma.contains(e) {
            let j = choose|j: int| 0 <= j < a.len() && (#[trigger] a[j]).contains(e) && forall|i: int| 0 <= i < j ==> !has_key(#[trigger] a[i], e.0);
            assert(a[j] == runs[j]);
            assert forall|l: int| 0 <= l < j implies !has_key(#[trigger] runs[l], e.0) by {
                assert(a[l] == runs[l]);
            }
            j
        } else {
            let j = choose|j: int| 0 <= j < b.len() && (#[trigger] b[j]).contains(e) && forall|i: int| 0 <= i < j ==> !has_key(#[trigger] b[i], e.0);
            assert(b[j] == runs[nm + j]);
            assert forall|l: int| 0 <= l < nm + j implies !has_key(#[trigger] runs[l], e.0) by {
                if l < nm {
                    if has_key(runs[l], e.0) {
                        let q = choose|q: int| 0 <= q < runs[l].len() && #[trigger] runs[l][q].0 == e.0;
                        assert(runs[l].contains(runs[l][q]));
                        assert(a[l] == runs[l]);
                        assert(has_key(ma, e.0)) by {
                            let g = lemma_first_run(a, e.0, l);
                            let q2 = choose|q2: int| 0 <= q2 < a[g].len() && #[trigger] a[g][q2].0 == e.0;
                            assert(a[g].contains(a[g][q2]));
                            assert(ma.contains(a[g][q2]));
                            let p = choose|p: int| 0 <= p < ma.len() && ma[p] == a[g][q2];
                            assert(ma[p].0 == e.0);
                        }
                    }
                } else {
                    assert(b[l - nm] == runs[l]);
                }
            }
            nm + j
        };
        assert(runs[j].contains(e));
        assert(ms[j].contains_key(e.0) && ms[j][e.0] == e.1 && lower.admits_above(e.0));
        assert forall|l: int| 0 <= l < j implies !(#[trigger] ms[l]).contains_key(e.0) by {
            if ms[l].contains_key(e.0) {
                assert(runs[l].contains((e.0, ms[l][e.0])));
                assert(has_key(runs[l], e.0)) by {
                    let q = choose|q: int| 0 <= q < runs[l].len() && runs[l][q] == (e.0, ms[l][e.0]);
                    assert(runs[l][q].0 == e.0);
                }
            }
        }
        lemma_overlay_lookup(ms, e.0);
    }
    // Each live key that the bounds admit is shown.
    assert forall|k: Seq<u8>| #[trigger] lv.contains_key(k) && lower.admits_above(k) && upper.admits_below(k) implies has_key(v, k) by {
        lemma_overlay_lookup(ms, k);
        let j0 = choose|j: int| 0 <= j < ms.len() && (#[trigger] ms[j]).contains_key(k);
        let j = lemma_first_layer(ms, k, j0);
        let e = (k, ms[j][k]);
        assert(runs[j].contains(e));
        assert forall|l: int| 0 <= l < j implies !has_key(#[trigger] runs[l], k) by {}
        if j < nm {
            assert(a[j] == runs[j]);
            assert forall|l: int| 0 <= l < j implies !has_key(#[trigger] a[l], k) by {
                assert(a[l] == runs[l]);
            }
            assert(ma.contains(e));
        } else {
            assert(b[j - nm] == runs[j]);
            assert forall|l: int| 0 <= l < j - nm implies !has_key(#[trigger] b[l], k) by {
                assert(b[l] == runs[nm + l]);
            }
            assert(mb.contains(e));
            assert(!has_key(ma, k)) by {
                if has_key(ma, k) {
                    let l = choose|l: int| 0 <= l < nm && has_key(#[trigger] runs[l], k);
                }
            }
        }
        assert(m.contains(e));
        assert(v.contains(e));
        let p = choose|p: int| 0 <= p < v.len() && v[p] == e;
        assert(v[p].0 == k);
    }
}

/// The first run, at or before run `i`, that holds key `k`.
proof fn lemma_first_run(srcs: Seq<Seq<Entry>>, k: Seq<u8>, i: int) -> (g: int)
    requires
        0 <= i < srcs.len(),
        has_key(srcs[i], k),
    ensures
        0 <= g <= i,
        has_key(srcs[g], k),
        forall|l: int| 0 <= l < g ==> !has_key(#[trigger] srcs[l], k),
    decreases i,
{
    if exists|l: int| 0 <= l < i && has_key(#[trigger] srcs[l], k) {
        let l = choose|l: int| 0 <= l < i && has_key(#[trigger] srcs[l], k);
        lemma_first_run(srcs, k, l)
    } else {
        i
    }
}

/// The entries of a sorted run from the first one that a lower bound admits are the run's entries
/// that the bound admits.
pub proof fn lemma_suffix_range(es: Seq<Entry>, pos: int, lower: KeyBound)
    requires
        keys_increasing(es),
        0 <= pos <= es.len(),
        forall|p: int| 0 <= p < pos ==> !lower.admits_above(#[trigger] es[p].0),
        pos < es.len() ==> lower.admits_above(es[pos].0),
    ensures
        is_sorted_range(es.subrange(pos, es.len() as int), run_map(es), lower, KeyBound::Unbounded),
{
    let r = es.subrange(pos, es.len() as int);
    assert forall|i: int| 0 <= i < r.len() implies {
        &&& run_map(es).contains_key(#[trigger] r[i].0)
        &&& run_map(es)[r[i].0] == r[i].1
        &&& lower.admits_above(r[i].0)
        &&& KeyBound::Unbounded.admits_below(r[i].0)
    } by {
        assert(r[i] == es[pos + i]);
        lemma_run_map_at(es, pos + i);
        if i > 0 {
            lower.lemma_above_closed(es[pos].0, es[pos + i].0);
        }
    }
    assert forall|k: Seq<u8>| #[trigger] run_map(es).contains_key(k) && lower.admits_above(k) && KeyBound::Unbounded.admits_below(k) implies has_key(r, k) by {
        let q = choose|q: int| 0 <= q < es.len() && #[trigger] es[q].0 == k;
        assert(q >= pos);
        assert(r[q - pos] == es[q]);
    }
}

/// The view after the writes `ws`, applied in order, each a key and a value (empty for a delete).
pub open spec fn apply_writes(m: Contents, ws: Seq<(Seq<u8>, Seq<u8>)>) -> Contents
    decreases ws.len(),
{
    if ws.len() == 0 {
        m
    } else {
        apply_writes(m, ws.drop_last()).insert(ws.last().0, ws.last().1)
    }
}

/// The latest write to a key decides it: when no later write names the key, the key maps to the
/// value that write gave it.
pub proof fn lemma_latest_write_wins(m: Contents, ws: Seq<(Seq<u8>, Seq<u8>)>, i: int)
    requires
        0 <= i < ws.len(),
        forall|j: int| i < j < ws.len() ==> (#[trigger] ws[j]).0 != ws[i].0,
    ensures
        apply_writes(m, ws).contains_key(ws[i].0),
        apply_writes(m, ws)[ws[i].0] == ws[i].1,
    decreases ws.len(),
{
    if i < ws.len() - 1 {
        let t = ws.drop_last();
        assert forall|j: int| i < j < t.len() implies (#[trigger] t[j]).0 != t[i].0 by {
            assert(t[j] == ws[j]);
        }
        lemma_latest_write_wins(m, t, i);
        assert(ws.last() == ws[ws.len() - 1]);
    }
}

/// After a history of writes, a read sees the latest write to each key: the key is live with the
/// value written when that write put a value, and absent when it was a delete.
pub proof fn lemma_read_latest(m: Contents, ws: Seq<(Seq<u8>, Seq<u8>)>, i: int)
    requires
        0 <= i < ws.len(),
        forall|j: int| i < j < ws.len() ==> (#[trigger] ws[j]).0 != ws[i].0,
    ensures
        live(apply_writes(m, ws)).contains_key(ws[i].0) <==> ws[i].1.len() > 0,
        ws[i].1.len() > 0 ==> live(apply_writes(m, ws))[ws[i].0] == ws[i].1,
{
    lemma_latest_write_wins(m, ws, i);
}

/// A scan reads what a get reads: every entry it shows is live, keys strictly increase, and a key
/// within the bounds is shown, with its latest value, exactly when that value is not a deletion.
pub proof fn lemma_scan_agrees_with_view(s: Seq<Entry>, view: Contents, lower: KeyBound, upper: KeyBound, k: Seq<u8>)
    requires
        is_sorted_range(s, live(view), lower, upper),
    ensures
        keys_increasing(s),
        forall|i: int| 0 <= i < s.len() ==> (#[trigger] s[i]).1.len() > 0,
        view.contains_key(k) && view[k].len() > 0 && lower.admits_above(k) && upper.admits_below(k) ==> s.contains(
            (k, view[k]),
        ),
        view.contains_key(k) && view[k].len() == 0 ==> !has_key(s, k),
        !view.contains_key(k) ==> !has_key(s, k),
{
    lemma_range_facts(s, live(view), lower, upper);
    assert forall|i: int| 0 <= i < s.len() implies (#[trigger] s[i]).1.len() > 0 by {
        assert(s.contains(s[i]));
    }
    if view.contains_key(k) && view[k].len() > 0 && lower.admits_above(k) && upper.admits_below(k) {
        assert(live(view).contains_key(k));
        assert(live(view)[k] == view[k]);
        assert(s.contains((k, live(view)[k])));
    }
}

/// The blocks of the table that a sync builds from the entries `m`.
pub open spec fn flushed_blocks(m: Contents) -> Seq<Seq<Entry>> {
    seal_all(pack_from((Seq::empty(), Seq::empty()), sorted_entries(m), BLOCK_SIZE as nat))
}

/// The entries `m` flush into a table that fits 32-bit offsets, or into none at all.
pub open spec fn fits(m: Contents) -> bool {
    m == Contents::empty() || blocks_bytes(flushed_blocks(m)).len() < 0x1_0000_0000
}

pub open spec fn all_fit(ms: Seq<Contents>) -> bool {
    forall|i: int| 0 <= i < ms.len() ==> fits(#[trigger] ms[i])
}

/// The maps of `ms` that hold entries, in order.
pub open spec fn non_empty(ms: Seq<Contents>) -> Seq<Contents>
    decreases ms.len(),
{
    if ms.len() == 0 {
        Seq::empty()
    } else if ms.last() == Contents::empty() {
        non_empty(ms.drop_last())
    } else {
        non_empty(ms.drop_last()).push(ms.last())
    }
}

/// Why a put of `k` and `v` is refused, if it is.
pub open spec fn put_error(k: Seq<u8>, v: Seq<u8>) -> Option<LsmError> {
    if k.len() == 0 {
        Some(LsmError::EmptyKey)
    } else if k.len() >= 256 {
        Some(LsmError::KeyTooLong)
    } else if v.len() == 0 {
        Some(LsmError::EmptyValue)
    } else if v.len() >= 256 {
        Some(LsmError::ValueTooLong)
    } else {
        None
    }
}

/// Why a delete of `k` is refused, if it is.
pub open spec fn delete_error(k: Seq<u8>) -> Option<LsmError> {
    if k.len() == 0 {
        Some(LsmError::EmptyKey)
    } else if k.len() >= 256 {
        Some(LsmError::KeyTooLong)
    } else {
        None
    }
}

/// The state of the store.
pub struct LsmStorageInner {
    /// The current memtable.
    memtable: MemTable,
    /// Immutable memtables, from earliest to latest.
    imm_memtables: Vec<MemTable>,
    /// L0 tables, from earliest to latest.
    l0_sstables: Vec<Arc<SsTable>>,
    /// The next table identifier.
    next_sst_id: usize,
}

impl LsmStorageInner {
    fn create() -> (r: Self)
        ensures
            r.wf(),
            r.layers() == seq![Contents::empty()],
    {
        LsmStorageInner { memtable: MemTable::create(), imm_memtables: Vec::new(), l0_sstables: Vec::new(), next_sst_id: 1 }
    }

    /// Every memtable and table is well formed.
    pub closed spec fn wf(&self) -> bool {
        &&& self.memtable.wf()
        &&& forall|i: int| 0 <= i < self.imm_memtables@.len() ==> (#[trigger] self.imm_memtables@[i]).wf()
        &&& forall|i: int| 0 <= i < self.l0_sstables@.len() ==> (#[trigger] self.l0_sstables@[i]).wf()
    }

    /// The layers a read consults, newest first: the memtable, the frozen memtables, then the
    /// tables.
    pub closed spec fn layers(&self) -> Seq<Contents> {
        let ni = self.imm_memtables@.len();
        let nl = self.l0_sstables@.len();
        seq![self.memtable.contents()] + Seq::new(ni, |i: int| self.imm_memtables@[ni - 1 - i].contents())
            + Seq::new(nl, |i: int| run_map(self.l0_sstables@[nl - 1 - i].entries()))
    }

    /// What the store holds, deletions included.
    pub open spec fn view(&self) -> Contents {
        overlay(self.layers())
    }
}

/// The storage interface of the LSM tree.
pub struct LsmStorage {
    inner: LsmStorageInner,
}

impl LsmStorage {
    /// What the store holds, deletions included.
    pub closed spec fn view(&self) -> Contents {
        self.inner.view()
    }

    /// What a read sees: the keys whose latest write is not a deletion.
    pub open spec fn live_view(&self) -> Contents {
        live(self.view())
    }

    pub closed spec fn wf(&self) -> bool {
        self.inner.wf()
    }

    /// Opens an empty store.
    pub fn open() -> (r: Self)
        ensures
            r.wf(),
            r.view() == Contents::empty(),
    {
        let r = LsmStorage { inner: LsmStorageInner::create() };
        proof {
            let ms = r.inner.layers();
            assert(ms.drop_first() =~= Seq::<Contents>::empty());
            assert(overlay(ms.drop_first()) == Contents::empty());
            assert(overlay(ms) =~= Contents::empty());
        }
        r
    }

    /// Get a key from the storage: its latest value, absent when it was never written or its
    /// latest write was a deletion.
    pub fn get(&self, key: &[u8]) -> (r: Result<Option<Vec<u8>>, LsmError>)
        requires
            self.wf(),
        ensures
            r is Ok,
            r->Ok_0 is Some <==> self.live_view().contains_key(key@),
            r->Ok_0 matches Some(v) ==> v@ == self.view()[key@],
    {
        let ghost ms = self.inner.layers();
        let ghost k = key@;
        proof {
            assert(ms[0] == self.inner.memtable.contents());
            lemma_overlay_step(ms, k);
            assert(ms.subrange(1, ms.len() as int) =~= ms.drop_first());
        }
        if let Some(v) = self.inner.memtable.get(key) {
            if v.len() == 0 {
                return Ok(None);
            }
            return Ok(Some(v));
        }
        let ni = self.inner.imm_memtables.len();
        let mut i: usize = ni;
        while i > 0
            invariant
                self.wf(),
                ms == self.inner.layers(),
                k == key@,
                ni == self.inner.imm_memtables@.len(),
                i <= ni,
                overlay(ms).contains_key(k) == overlay(ms.subrange(1 + ni - i, ms.len() as int)).contains_key(k),
                overlay(ms).contains_key(k) ==> overlay(ms)[k] == overlay(ms.subrange(1 + ni - i, ms.len() as int))[k],
            decreases i,
        {
            i = i - 1;
            let ghost rest = ms.subrange(1 + ni - (i + 1), ms.len() as int);
            proof {
                assert(rest[0] == self.inner.imm_memtables@[i as int].contents());
                lemma_overlay_step(rest, k);
                assert(rest.drop_first() =~= ms.subrange(1 + ni - i, ms.len() as int));
            }
            if let Some(v) = self.inner.imm_memtables[i].get(key) {
                if v.len() == 0 {
                    return Ok(None);
                }
                return Ok(Some(v));
            }
        }
        let nl = self.inner.l0_sstables.len();
        let mut j: usize = nl;
        while j > 0
            invariant
                self.wf(),
                ms == self.inner.layers(),
                k == key@,
                ni == self.inner.imm_memtables@.len(),
                nl == self.inner.l0_sstables@.len(),
                j <= nl,
                overlay(ms).contains_key(k) == overlay(ms.subrange(1 + ni + nl - j, ms.len() as int)).contains_key(k),
                overlay(ms).contains_key(k) ==> overlay(ms)[k] == overlay(ms.subrange(1 + ni + nl - j, ms.len() as int))[k],
            decreases j,
        {
            j = j - 1;
            let ghost rest = ms.subrange(1 + ni + nl - (j + 1), ms.len() as int);
            let table = self.inner.l0_sstables[j].clone();
            let ghost es = table.entries();
            proof {
                assert(rest[0] == run_map(self.inner.l0_sstables@[j as int].entries()));
                lemma_overlay_step(rest, k);
                assert(rest.drop_first() =~= ms.subrange(1 + ni + nl - j, ms.len() as int));
                table.lemma_wf();
            }
            match SsTableIterator::create_and_seek_to_key(table, key) {
                Ok(it) => {
                    proof {
                        assert(it.rest()[0] == es[it.position()]);
                    }
                    if crate::keys::compare_keys(it.key(), key) == 0 {
                        proof {
                            lemma_run_map_at(es, it.position());
                        }
                        if it.value().len() == 0 {
                            return Ok(None);
                        }
                        return Ok(Some(vstd::slice::slice_to_vec(it.value())));
                    }
                    proof {
                        assert(!has_key(es, k)) by {
                            if has_key(es, k) {
                                let p = choose|p: int| 0 <= p < es.len() && #[trigger] es[p].0 == k;
                                if p < it.position() {
                                    lemma_lex_order(es[p].0, k, es[p].0);
                                } else if p > it.position() {
                                    lemma_lex_order(k, es[it.position()].0, es[p].0);
                                    lemma_lex_order(es[it.position()].0, es[p].0, es[it.position()].0);
                                }
                            }
                        }
                    }
                },
                Err(_) => {
                    proof {
                        assert(!has_key(es, k)) by {
                            if has_key(es, k) {
                                let p = choose|p: int| 0 <= p < es.len() && #[trigger] es[p].0 == k;
                                assert(lex_le(k, es[p].0));
                            }
                        }
                    }
                },
            }
        }
        proof {
            let tail = ms.subrange(1 + ni + nl, ms.len() as int);
            assert(tail =~= Seq::<Contents>::empty());
        }
        Ok(None)
    }

    /// Writes `key` with `value` to the memtable.
    fn write(&mut self, key: &[u8], value: &[u8])
        requires
            old(self).wf(),
            valid_entry((key@, value@)),
        ensures
            final(self).wf(),
            final(self).view() == old(self).view().insert(key@, value@),
    {
        let ghost ms = self.inner.layers();
        self.inner.memtable.put(key, value);
        proof {
            let ms2 = self.inner.layers();
            assert(ms2.drop_first() =~= ms.drop_first());
            assert(ms2[0] == ms[0].insert(key@, value@));
            assert(overlay(ms2) =~= overlay(ms).insert(key@, value@));
        }
    }

    /// Put a key-value pair into the storage by writing into the current memtable. Refuses an
    /// empty key or value, and keys or values of 256 bytes or more.
    pub fn put(&mut self, key: &[u8], value: &[u8]) -> (r: Result<(), LsmError>)
        requires
            old(self).wf(),
        ensures
            final(self).wf(),
            r is Ok <==> put_error(key@, value@) is None,
            r matches Err(e) ==> put_error(key@, value@) == Some(e) && final(self).view() == old(self).view(),
            r is Ok ==> final(self).view() == old(self).view().insert(key@, value@),
    {
        if key.len() == 0 {
            return Err(LsmError::EmptyKey);
        }
        if key.len() >= 256 {
            return Err(LsmError::KeyTooLong);
        }
        if value.len() == 0 {
            return Err(LsmError::EmptyValue);
        }
        if value.len() >= 256 {
            return Err(LsmError::ValueTooLong);
        }
        self.write(key, value);
        Ok(())
    }

    /// Remove a key from the storage by writing an empty value.
    pub fn delete(&mut self, key: &[u8]) -> (r: Result<(), LsmError>)
        requires
            old(self).wf(),
        ensures
            final(self).wf(),
            r is Ok <==> delete_error(key@) is None,
            r matches Err(e) ==> delete_error(key@) == Some(e) && final(self).view() == old(self).view(),
            r is Ok ==> final(self).view() == old(self).view().insert(key@, Seq::empty()),
    {
        if key.len() == 0 {
            return Err(LsmError::EmptyKey);
        }
        if key.len() >= 256 {
            return Err(LsmError::KeyTooLong);
        }
        let empty: Vec<u8> = Vec::new();
        self.write(key, empty.as_slice());
        Ok(())
    }

    /// The entries of the memtable taking writes.
    pub closed spec fn active(&self) -> Contents {
        self.inner.memtable.contents()
    }

    /// The entries of each frozen memtable, oldest first.
    pub closed spec fn frozen(&self) -> Seq<Contents> {
        Seq::new(self.inner.imm_memtables@.len(), |i: int| self.inner.imm_memtables@[i].contents())
    }

    /// The entries of each L0 table, oldest first.
    pub closed spec fn tables(&self) -> Seq<Contents> {
        Seq::new(self.inner.l0_sstables@.len(), |i: int| run_map(self.inner.l0_sstables@[i].entries()))
    }

    /// Freezes the memtable into the frozen list and starts an empty one.
    fn freeze(&mut self)
        requires
            old(self).wf(),
        ensures
            final(self).wf(),
            final(self).view() == old(self).view(),
            final(self).active() == Contents::empty(),
            final(self).frozen() == old(self).frozen().push(old(self).active()),
            final(self).tables() == old(self).tables(),
    {
        let ghost ms = self.inner.layers();
        let mut frozen = MemTable::create();
        std::mem::swap(&mut frozen, &mut self.inner.memtable);
        self.inner.imm_memtables.push(frozen);
        proof {
            let ms2 = self.inner.layers();
            assert(ms2.drop_first() =~= ms);
            assert(overlay(ms2) =~= overlay(ms));
            assert(self.frozen() =~= old(self).frozen().push(old(self).active()));
            assert(self.tables() =~= old(self).tables());
        }
    }

    /// Flushes the oldest frozen memtable into a new L0 table; an empty one is dropped.
    fn flush_oldest(&mut self) -> (r: Result<(), LsmError>)
        requires
            old(self).wf(),
            old(self).frozen().len() > 0,
        ensures
            final(self).wf(),
            final(self).view() == old(self).view(),
            r is Ok <==> fits(old(self).frozen()[0]),
            r is Ok ==> final(self).frozen() == old(self).frozen().drop_first(),
            r is Ok ==> final(self).active() == old(self).active(),
            r is Ok ==> final(self).tables() == if old(self).frozen()[0] == Contents::empty() {
                old(self).tables()
            } else {
                old(self).tables().push(old(self).frozen()[0])
            },
            r matches Err(e) ==> e == LsmError::TableTooLarge,
    {
        let ghost ms = self.inner.layers();
        let ghost ni = self.inner.imm_memtables@.len();
        let ghost nl = self.inner.l0_sstables@.len();
        let ghost old_frozen = self.frozen();
        let ghost old_tables = self.tables();
        let mut builder = SsTableBuilder::new(BLOCK_SIZE);
        let _ = self.inner.imm_memtables[0].flush(&mut builder);
        let ghost m = self.inner.imm_memtables@[0].contents();
        let ghost es = builder.entries();
        proof {
            assert(old_frozen[0] == m);
            assert(es =~= sorted_entries(m));
            lemma_sorted_entries(es, m);
            builder.lemma_wf();
            assert(builder.final_blocks() == flushed_blocks(m));
        }
        match builder.build(self.inner.next_sst_id) {
            Ok(table) => {
                proof {
                    lemma_run_map_of_range(es, m);
                }
                self.inner.imm_memtables.remove(0);
                self.inner.l0_sstables.push(Arc::new(table));
                self.inner.next_sst_id = self.inner.next_sst_id.wrapping_add(1);
                proof {
                    let ms2 = self.inner.layers();
                    assert(ms2.len() == ms.len());
                    assert forall|i: int| 0 <= i < ms.len() implies ms2[i] == ms[i] by {
                        if i == ni {
                            assert(ms2[i] == run_map(self.inner.l0_sstables@[nl as int].entries()));
                        }
                    }
                    assert(ms2 =~= ms);
                    assert(self.frozen() =~= old_frozen.drop_first());
                    assert(self.tables() =~= old_tables.push(m));
                }
                Ok(())
            },
            Err(e) => {
                if e == LsmError::EmptyTable {
                    self.inner.imm_memtables.remove(0);
                    proof {
                        let ms2 = self.inner.layers();
                        assert(ms[ni as int] == m);
                        assert(ms2 =~= ms.remove(ni as int));
                        lemma_overlay_remove_empty(ms, ni as int);
                        assert(self.frozen() =~= old_frozen.drop_first());
                        assert(self.tables() =~= old_tables);
                    }
                    Ok(())
                } else {
                    Err(e)
                }
            },
        }
    }

    /// Persists the memtable: freezes it, then flushes every frozen memtable, oldest first, into
    /// a new L0 table each, dropping empty ones. What the store holds does not change. Succeeds
    /// exactly when every table built fits 32-bit offsets; on failure the memtables not flushed
    /// stay frozen, still read.
    pub fn sync(&mut self) -> (r: Result<(), LsmError>)
        requires
            old(self).wf(),
        ensures
            final(self).wf(),
            final(self).view() == old(self).view(),
            r is Ok <==> all_fit(old(self).frozen().push(old(self).active())),
            r is Ok ==> final(self).frozen().len() == 0,
            r is Ok ==> final(self).active() == Contents::empty(),
            r is Ok ==> final(self).tables() == old(self).tables() + non_empty(old(self).frozen().push(old(self).active())),
            r matches Err(e) ==> e == LsmError::TableTooLarge,
    {
        let ghost all = self.frozen().push(self.active());
        let ghost tables0 = self.tables();
        self.freeze();
        let ghost mut done: Seq<Contents> = Seq::empty();
        proof {
            assert(done + self.frozen() =~= all);
            assert(tables0 + non_empty(done) =~= tables0);
        }
        while self.inner.imm_memtables.len() > 0
            invariant
                self.wf(),
                self.view() == old(self).view(),
                all == old(self).frozen().push(old(self).active()),
                tables0 == old(self).tables(),
                self.active() == Contents::empty(),
                all == done + self.frozen(),
                self.tables() == tables0 + non_empty(done),
                all_fit(done),
            decreases self.inner.imm_memtables@.len(),
        {
            let ghost x = self.frozen()[0];
            let ghost before = self.frozen();
            let r = self.flush_oldest();
            if r.is_err() {
                proof {
                    assert(all[done.len() as int] == x);
                }
                return r;
            }
            proof {
                let d2 = done.push(x);
                assert(d2.drop_last() =~= done);
                assert(all =~= d2 + self.frozen());
                assert(self.tables() =~= tables0 + non_empty(d2));
                done = d2;
            }
        }
        proof {
            assert(done =~= all);
        }
        Ok(())
    }

    /// A cursor over one table from the first entry that `lower` admits.
    fn table_cursor(table: Arc<SsTable>, lower: &KeyBound) -> (r: SsTableIterator)
        requires
            table.wf(),
        ensures
            r.inv(),
            is_sorted_range(r.rest(), run_map(table.entries()), *lower, KeyBound::Unbounded),
    {
        let ghost es = table.entries();
        proof {
            table.lemma_wf();
        }
        let mut it = SsTableIterator::create_and_seek_to_first(table).unwrap();
        match lower {
            KeyBound::Included(k) => {
                let _ = it.seek_to_key(k.as_slice());
                proof {
                    assert forall|p: int| 0 <= p < it.position() implies !lower.admits_above(#[trigger] es[p].0) by {
                        lemma_lex_order(es[p].0, k@, es[p].0);
                    }
                    lemma_suffix_range(es, it.position(), *lower);
                }
            },
            KeyBound::Excluded(k) => {
                let _ = it.seek_to_key(k.as_slice());
                let ghost pos = it.position();
                proof {
                    assert forall|p: int| 0 <= p < pos implies !lower.admits_above(#[trigger] es[p].0) by {
                        lemma_lex_order(es[p].0, k@, es[p].0);
                    }
                }
                if it.is_valid() && crate::keys::compare_keys(it.key(), k.as_slice()) == 0 {
                    let _ = it.next();
                    proof {
                        assert(es.subrange(pos + 1, es.len() as int) =~= es.subrange(pos, es.len() as int).drop_first());
                        lemma_lex_order(k@, k@, k@);
                        assert forall|p: int| 0 <= p < pos + 1 implies !lower.admits_above(#[trigger] es[p].0) by {}
                        if pos + 1 < es.len() {
                            assert(crate::keys::lex_lt(es[pos].0, es[pos + 1].0));
                        }
                        lemma_suffix_range(es, pos + 1, *lower);
                        assert(it.rest() == es.subrange(pos + 1, es.len() as int));
                    }
                } else {
                    proof {
                        if pos < es.len() {
                            assert(it.rest()[0] == es[pos]);
                            assert(es[pos].0 != k@);
                        }
                        lemma_suffix_range(es, pos, *lower);
                    }
                }
            },
            KeyBound::Unbounded => {
                proof {
                    assert(es.subrange(0, es.len() as int) =~= es);
                    lemma_suffix_range(es, 0, *lower);
                }
            },
        }
        it
    }

    /// Create an iterator over a range of keys: the live entries that the two bounds admit, in key
    /// order.
    pub fn scan(&self, lower: KeyBound, upper: KeyBound) -> (r: Result<FusedIterator<LsmIterator>, LsmError>)
        requires
            self.wf(),
        ensures
            r is Ok,
            r->Ok_0.inv(),
            is_sorted_range(r->Ok_0.rest(), self.live_view(), lower, upper),
    {
        let ghost ms = self.inner.layers();
        let ni = self.inner.imm_memtables.len();
        let nl = self.inner.l0_sstables.len();
        let mut mem_iters: Vec<Box<MemTableIterator>> = Vec::new();
        mem_iters.push(Box::new(self.inner.memtable.scan(&lower, &upper)));
        let mut i: usize = ni;
        while i > 0
            invariant
                self.wf(),
                ms == self.inner.layers(),
                ni == self.inner.imm_memtables@.len(),
                i <= ni,
                mem_iters@.len() == 1 + ni - i,
                forall|j: int|
                    0 <= j < mem_iters@.len() ==> (#[trigger] mem_iters@[j]).inv() && is_sorted_range(
                        mem_iters@[j].rest(),
                        ms[j],
                        lower,
                        upper,
                    ),
            decreases i,
        {
            i = i - 1;
            mem_iters.push(Box::new(self.inner.imm_memtables[i].scan(&lower, &upper)));
            proof {
                assert(ms[1 + ni - (i + 1)] == self.inner.imm_memtables@[i as int].contents());
            }
        }
        let ghost mem_runs = Seq::new(mem_iters@.len(), |j: int| mem_iters@[j].rest());
        let mut sst_iters: Vec<Box<SsTableIterator>> = Vec::new();
        let mut j: usize = nl;
        while j > 0
            invariant
                self.wf(),
                ms == self.inner.layers(),
                ni == self.inner.imm_memtables@.len(),
                nl == self.inner.l0_sstables@.len(),
                j <= nl,
                sst_iters@.len() == nl - j,
                forall|t: int|
                    0 <= t < sst_iters@.len() ==> (#[trigger] sst_iters@[t]).inv() && is_sorted_range(
                        sst_iters@[t].rest(),
                        ms[1 + ni + t],
                        lower,
                        KeyBound::Unbounded,
                    ),
            decreases j,
        {
            j = j - 1;
            let table = self.inner.l0_sstables[j].clone();
            proof {
                assert(ms[1 + ni + (nl - 1 - j)] == run_map(self.inner.l0_sstables@[j as int].entries()));
            }
            sst_iters.push(Box::new(Self::table_cursor(table, &lower)));
        }
        let ghost sst_runs = Seq::new(sst_iters@.len(), |t: int| sst_iters@[t].rest());
        let ghost runs = mem_runs + sst_runs;
        proof {
            assert forall|t: int| 0 <= t < mem_iters@.len() implies keys_increasing(#[trigger] mem_iters@[t].rest()) by {}
            assert forall|t: int| 0 <= t < sst_iters@.len() implies keys_increasing(#[trigger] sst_iters@[t].rest()) by {}
        }
        let mem_it = MergeIterator::create(mem_iters);
        let sst_it = MergeIterator::create(sst_iters);
        proof {
            assert(all_sorted(mem_runs));
            assert(all_sorted(sst_runs));
            lemma_merge_all_sorted(mem_runs);
            lemma_merge_all_sorted(sst_runs);
            assert(runs.subrange(0, mem_runs.len() as int) =~= mem_runs);
            assert(runs.subrange(mem_runs.len() as int, runs.len() as int) =~= sst_runs);
            assert forall|t: int| 0 <= t < mem_runs.len() implies is_sorted_range(#[trigger] runs[t], ms[t], lower, upper) by {}
            assert forall|t: int| mem_runs.len() <= t < runs.len() implies is_sorted_range(
                #[trigger] runs[t],
                ms[t],
                lower,
                KeyBound::Unbounded,
            ) by {
                assert(runs[t] == sst_runs[t - mem_runs.len()]);
            }
            lemma_scan_result(runs, ms, mem_runs.len() as int, lower, upper);
        }
        let two = match TwoMergeIterator::create(mem_it, sst_it) {
            Ok(t) => t,
            Err(e) => {
                return Err(e);
            },
        };
        proof {
            lemma_merge2_sorted(merge_all(mem_runs), merge_all(sst_runs));
        }
        let lsm = LsmIterator::create(upper, two);
        Ok(FusedIterator::new(lsm))
    }
}

} // verus!
