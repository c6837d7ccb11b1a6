//! The iterator contract shared by every cursor of the store, and the merges of sorted runs.
use vstd::prelude::*;

use crate::block::Entry;
use crate::error::LsmError;
use crate::keys::{keys_increasing, lemma_lex_order, lex_le, lex_lt};

verus! {

/// A cursor over entries in increasing key order.
pub trait StorageIterator {
    /// The cursor's own consistency.
    spec fn inv(&self) -> bool;

    /// The entries still to come, the current one first.
    spec fn rest(&self) -> Seq<Entry>;

    /// The value of the current entry.
    fn value(&self) -> (r: &[u8])
        requires
            self.inv(),
            self.rest().len() > 0,
        ensures
            r@ == self.rest()[0].1,
    ;

    /// The key of the current entry.
    fn key(&self) -> (r: &[u8])
        requires
            self.inv(),
            self.rest().len() > 0,
        ensures
            r@ == self.rest()[0].0,
    ;

    /// Whether the cursor stands on an entry.
    fn is_valid(&self) -> (r: bool)
        requires
            self.inv(),
        ensures
            r == (self.rest().len() > 0),
    ;

    /// Moves to the next entry; does nothing once exhausted.
    fn next(&mut self) -> (r: Result<(), LsmError>)
        requires
            old(self).inv(),
        ensures
            final(self).inv(),
            r is Ok,
            final(self).rest() == if old(self).rest().len() > 0 {
                old(self).rest().drop_first()
            } else {
                old(self).rest()
            },
    ;
}

/// Every key of `s` lies strictly above `k`.
pub open spec fn keys_above(s: Seq<Entry>, k: Seq<u8>) -> bool {
    forall|i: int| 0 <= i < s.len() ==> lex_lt(k, #[trigger] s[i].0)
}

/// `s` holds an entry with key `k`.
pub open spec fn has_key(s: Seq<Entry>, k: Seq<u8>) -> bool {
    exists|i: int| 0 <= i < s.len() && #[trigger] s[i].0 == k
}

/// Merges two sorted runs into one; where both hold a key, the entry of `a` is kept.
pub open spec fn merge2(a: Seq<Entry>, b: Seq<Entry>) -> Seq<Entry>
    decreases a.len() + b.len(),
{
    if a.len() == 0 {
        b
    } else if b.len() == 0 {
        a
    } else if lex_lt(a[0].0, b[0].0) {
        seq![a[0]] + merge2(a.drop_first(), b)
    } else if a[0].0 == b[0].0 {
        seq![a[0]] + merge2(a.drop_first(), b.drop_first())
    } else {
        seq![b[0]] + merge2(a, b.drop_first())
    }
}

/// Merges sorted runs; where several hold a key, the entry of the lowest-indexed run is kept.
pub open spec fn merge_all(srcs: Seq<Seq<Entry>>) -> Seq<Entry>
    decreases srcs.len(),
{
    if srcs.len() == 0 {
        Seq::empty()
    } else {
        merge2(srcs[0], merge_all(srcs.drop_first()))
    }
}

/// Each run drops its first entry where that entry has key `k`.
pub open spec fn advance_past(srcs: Seq<Seq<Entry>>, k: Seq<u8>) -> Seq<Seq<Entry>> {
    Seq::new(
        srcs.len(),
        |i: int|
            if srcs[i].len() > 0 && srcs[i][0].0 == k {
                srcs[i].drop_first()
            } else {
                srcs[i]
            },
    )
}

/// Run `j` stands on the smallest key, and no run before it stands on that key.
pub open spec fn is_min_source(srcs: Seq<Seq<Entry>>, j: int) -> bool {
    &&& 0 <= j < srcs.len()
    &&& srcs[j].len() > 0
    &&& forall|i: int| 0 <= i < srcs.len() && srcs[i].len() > 0 ==> lex_le(srcs[j][0].0, #[trigger] srcs[i][0].0)
    &&& forall|i: int| 0 <= i < j && srcs[i].len() > 0 ==> #[trigger] srcs[i][0].0 != srcs[j][0].0
}

pub open spec fn all_sorted(srcs: Seq<Seq<Entry>>) -> bool {
    forall|i: int| 0 <= i < srcs.len() ==> keys_increasing(#[trigger] srcs[i])
}

pub open spec fn all_empty(srcs: Seq<Seq<Entry>>) -> bool {
    forall|i: int| 0 <= i < srcs.len() ==> (#[trigger] srcs[i]).len() == 0
}

/// A sorted run lies above any key below its head.
pub proof fn lemma_sorted_above(s: Seq<Entry>, k: Seq<u8>)
    requires
        keys_increasing(s),
        s.len() > 0 ==> lex_le(k, s[0].0),
    ensures
        s.len() > 0 ==> keys_above(s.drop_first(), k),
        s.len() > 0 && lex_lt(k, s[0].0) ==> keys_above(s, k),
{
    assert forall|i: int| 0 <= i < s.len() && (i > 0 || lex_lt(k, s[0].0)) implies lex_lt(k, #[trigger] s[i].0) by {
        if i > 0 {
            lemma_lex_order(k, s[0].0, s[i].0);
        }
    }
    if s.len() > 0 {
        assert forall|i: int| 0 <= i < s.drop_first().len() implies lex_lt(k, #[trigger] s.drop_first()[i].0) by {
            assert(s.drop_first()[i] == s[i + 1]);
        }
    }
}

pub proof fn lemma_merge2_above(a: Seq<Entry>, b: Seq<Entry>, k: Seq<u8>)
    requires
        keys_above(a, k),
        keys_above(b, k),
    ensures
        keys_above(merge2(a, b), k),
    decreases a.len() + b.len(),
{
    if a.len() > 0 && b.len() > 0 {
        assert(keys_above(a.drop_first(), k));
        assert(keys_above(b.drop_first(), k));
        if lex_lt(a[0].0, b[0].0) {
            lemma_merge2_above(a.drop_first(), b, k);
        } else if a[0].0 == b[0].0 {
            lemma_merge2_above(a.drop_first(), b.drop_first(), k);
        } else {
            lemma_merge2_above(a, b.drop_first(), k);
        }
        let m = merge2(a, b);
        assert forall|i: int| 0 <= i < m.len() implies lex_lt(k, #[trigger] m[i].0) by {
            if i > 0 {
                assert(m[i] == m.drop_first()[i - 1]);
            }
        }
    }
}

/// Merging sorted runs gives a sorted run.
pub proof fn lemma_merge2_sorted(a: Seq<Entry>, b: Seq<Entry>)
    requires
        keys_increasing(a),
        keys_increasing(b),
    ensures
        keys_increasing(merge2(a, b)),
        merge2(a, b).len() > 0 ==> merge2(a, b)[0] == if a.len() == 0 {
            b[0]
        } else if b.len() == 0 || lex_le(a[0].0, b[0].0) {
            a[0]
        } else {
            b[0]
        },
        merge2(a, b).len() == 0 <==> a.len() == 0 && b.len() == 0,
    decreases a.len() + b.len(),
{
    if a.len() > 0 && b.len() > 0 {
        let m = merge2(a, b);
        let x = m[0];
        let (a2, b2) = if lex_lt(a[0].0, b[0].0) {
            (a.drop_first(), b)
        } else if a[0].0 == b[0].0 {
            (a.drop_first(), b.drop_first())
        } else {
            (a, b.drop_first())
        };
        assert(keys_increasing(a.drop_first()));
        assert(keys_increasing(b.drop_first()));
        lemma_merge2_sorted(a2, b2);
        assert(m == seq![x] + merge2(a2, b2));
        lemma_lex_order(a[0].0, b[0].0, a[0].0);
        lemma_sorted_above(a, x.0);
        lemma_sorted_above(b, x.0);
        if lex_lt(a[0].0, b[0].0) {
            lemma_sorted_above(b, a[0].0);
        } else if a[0].0 != b[0].0 {
            lemma_sorted_above(a, b[0].0);
        }
        lemma_merge2_above(a2, b2, x.0);
        let r = merge2(a2, b2);
        assert forall|i: int, j: int| 0 <= i < j < m.len() implies lex_lt(#[trigger] m[i].0, #[trigger] m[j].0) by {
            assert(m[j] == r[j - 1]);
            if i > 0 {
                assert(m[i] == r[i - 1]);
            }
        }
    }
}

/// Runs all above `k` merge into a run above `k`.
pub proof fn lemma_merge_all_above(srcs: Seq<Seq<Entry>>, k: Seq<u8>)
    requires
        forall|i: int| 0 <= i < srcs.len() ==> keys_above(#[trigger] srcs[i], k),
    ensures
        keys_above(merge_all(srcs), k),
    decreases srcs.len(),
{
    if srcs.len() > 0 {
        let t = srcs.drop_first();
        assert forall|i: int| 0 <= i < t.len() implies keys_above(#[trigger] t[i], k) by {
            assert(t[i] == srcs[i + 1]);
        }
        lemma_merge_all_above(t, k);
        lemma_merge2_above(srcs[0], merge_all(t), k);
    }
}

/// Merging sorted runs gives a sorted run, empty exactly when all runs are.
pub proof fn lemma_merge_all_sorted(srcs: Seq<Seq<Entry>>)
    requires
        all_sorted(srcs),
    ensures
        keys_increasing(merge_all(srcs)),
        merge_all(srcs).len() == 0 <==> all_empty(srcs),
    decreases srcs.len(),
{
    if srcs.len() > 0 {
        let t = srcs.drop_first();
        assert forall|i: int| 0 <= i < t.len() implies keys_increasing(#[trigger] t[i]) by {
            assert(t[i] == srcs[i + 1]);
        }
        lemma_merge_all_sorted(t);
        assert(keys_increasing(srcs[0]));
        lemma_merge2_sorted(srcs[0], merge_all(t));
        if all_empty(srcs) {
            assert(srcs[0].len() == 0);
            assert forall|i: int| 0 <= i < t.len() implies (#[trigger] t[i]).len() == 0 by {
                assert(t[i] == srcs[i + 1]);
            }
        }
        if merge_all(srcs).len() == 0 {
            assert forall|i: int| 0 <= i < srcs.len() implies (#[trigger] srcs[i]).len() == 0 by {
                if i > 0 {
                    assert(t[i - 1] == srcs[i]);
                }
            }
        }
    } else {
        assert(merge_all(srcs) =~= Seq::<Entry>::empty());
    }
}

/// The merge of runs starts with the head of the minimal run, and continues with the merge of the
/// runs advanced past that head's key.
pub proof fn lemma_merge_all_step(srcs: Seq<Seq<Entry>>, j: int)
    requires
        all_sorted(srcs),
        is_min_source(srcs, j),
    ensures
        merge_all(srcs).len() > 0,
        merge_all(srcs)[0] == srcs[j][0],
        merge_all(srcs).drop_first() == merge_all(advance_past(srcs, srcs[j][0].0)),
    decreases srcs.len(),
{
    let k = srcs[j][0].0;
    let t = srcs.drop_first();
    let s0 = srcs[0];
    let adv = advance_past(srcs, k);
    let tadv = advance_past(t, k);
    assert(adv.drop_first() =~= tadv);
    assert(all_sorted(t)) by {
        assert forall|i: int| 0 <= i < t.len() implies keys_increasing(#[trigger] t[i]) by {
            assert(t[i] == srcs[i + 1]);
        }
    }
    assert(keys_increasing(s0));
    lemma_merge_all_sorted(t);
    let m = merge_all(t);
    if exists|i: int| 1 <= i < srcs.len() && srcs[i].len() > 0 && #[trigger] srcs[i][0].0 == k {
        let i0 = choose|i: int| 1 <= i < srcs.len() && srcs[i].len() > 0 && #[trigger] srcs[i][0].0 == k;
        let j2 = lemma_first_with_key(t, k, i0 - 1);
        assert(is_min_source(t, j2)) by {
            assert forall|i: int| 0 <= i < t.len() && t[i].len() > 0 implies lex_le(t[j2][0].0, #[trigger] t[i][0].0) by {
                assert(t[i] == srcs[i + 1]);
            }
        }
        lemma_merge_all_step(t, j2);
        assert(m[0] == t[j2][0]);
        if j == 0 {
            assert(merge_all(srcs) == merge2(s0, m));
            assert(merge_all(adv) == merge2(adv[0], merge_all(tadv)));
            assert(adv[0] == s0.drop_first());
            lemma_lex_order(k, k, k);
            let tail = merge2(s0.drop_first(), m.drop_first());
            assert(merge2(s0, m) == seq![s0[0]] + tail);
            assert((seq![s0[0]] + tail).drop_first() =~= tail);
        } else {
            assert(srcs[j] == t[j - 1]);
            assert(j2 <= j - 1) by {
                if j2 > j - 1 {
                    assert(t[j - 1].len() > 0 && t[j - 1][0].0 == k);
                }
            }
            assert(j2 >= j - 1) by {
                if j2 < j - 1 {
                    assert(srcs[j2 + 1] == t[j2]);
                }
            }
            if s0.len() > 0 {
                lemma_lex_order(k, s0[0].0, k);
                assert(lex_lt(k, s0[0].0));
            }
            assert(adv[0] == s0);
            assert(merge_all(adv) == merge2(adv[0], merge_all(tadv)));
            assert(merge_all(srcs) == merge2(s0, m));
            if s0.len() > 0 {
                let tail = merge2(s0, m.drop_first());
                assert(merge2(s0, m) == seq![m[0]] + tail);
                assert((seq![m[0]] + tail).drop_first() =~= tail);
            }
        }
    } else {
        assert(tadv =~= t) by {
            assert forall|i: int| 0 <= i < t.len() implies #[trigger] tadv[i] == t[i] by {
                assert(t[i] == srcs[i + 1]);
            }
        }
        assert(j == 0) by {
            if j > 0 {
                assert(srcs[j][0].0 == k);
            }
        }
        assert forall|i: int| 0 <= i < t.len() implies keys_above(#[trigger] t[i], k) by {
            assert(t[i] == srcs[i + 1]);
            assert(keys_increasing(t[i]));
            if t[i].len() > 0 {
                assert(lex_le(k, srcs[i + 1][0].0));
                assert(srcs[i + 1][0].0 != k);
            }
            lemma_sorted_above(t[i], k);
        }
        lemma_merge_all_above(t, k);
        assert(merge_all(srcs) == merge2(s0, m));
        assert(adv[0] == s0.drop_first());
        assert(merge_all(adv) == merge2(adv[0], merge_all(tadv)));
        assert(merge_all(tadv) == m);
        if m.len() > 0 {
            assert(lex_lt(k, m[0].0));
            let tail = merge2(s0.drop_first(), m);
            assert(merge2(s0, m) == seq![s0[0]] + tail);
            assert((seq![s0[0]] + tail).drop_first() =~= tail);
        } else {
            assert(merge2(s0, m) == s0);
            assert(merge2(s0.drop_first(), m) == s0.drop_first());
        }
    }
}

/// The first run, at or before run `i`, that stands on key `k`.
proof fn lemma_first_with_key(srcs: Seq<Seq<Entry>>, k: Seq<u8>, i: int) -> (j: int)
    requires
        0 <= i < srcs.len(),
        srcs[i].len() > 0,
        srcs[i][0].0 == k,
    ensures
        0 <= j <= i,
        srcs[j].len() > 0,
        srcs[j][0].0 == k,
        forall|l: int| 0 <= l < j && srcs[l].len() > 0 ==> #[trigger] srcs[l][0].0 != k,
    decreases i,
{
    if exists|l: int| 0 <= l < i && srcs[l].len() > 0 && #[trigger] srcs[l][0].0 == k {
        let l = choose|l: int| 0 <= l < i && srcs[l].len() > 0 && #[trigger] srcs[l][0].0 == k;
        lemma_first_with_key(srcs, k, l)
    } else {
        i
    }
}

/// Membership in a run splits into its head and the rest.
pub proof fn lemma_run_split(s: Seq<Entry>)
    requires
        s.len() > 0,
    ensures
        forall|e: Entry| s.contains(e) <==> (e == s[0] || s.drop_first().contains(e)),
        forall|k: Seq<u8>| has_key(s, k) <==> (s[0].0 == k || has_key(s.drop_first(), k)),
{
    let t = s.drop_first();
    assert forall|e: Entry| s.contains(e) <==> (e == s[0] || t.contains(e)) by {
        if s.contains(e) {
            let i = choose|i: int| 0 <= i < s.len() && s[i] == e;
            if i > 0 {
                assert(t[i - 1] == e);
            }
        }
        if t.contains(e) {
            let i = choose|i: int| 0 <= i < t.len() && t[i] == e;
            assert(s[i + 1] == e);
        }
        if e == s[0] {
            assert(s[0] == e);
        }
    }
    assert forall|k: Seq<u8>| has_key(s, k) <==> (s[0].0 == k || has_key(t, k)) by {
        if has_key(s, k) {
            let i = choose|i: int| 0 <= i < s.len() && #[trigger] s[i].0 == k;
            if i > 0 {
                assert(t[i - 1].0 == k);
            }
        }
        if has_key(t, k) {
            let i = choose|i: int| 0 <= i < t.len() && #[trigger] t[i].0 == k;
            assert(s[i + 1].0 == k);
        }
        if s[0].0 == k {
            assert(s[0].0 == k);
        }
    }
}

/// Membership in a run with one entry put in front.
pub proof fn lemma_cons_contains(x: Entry, s: Seq<Entry>)
    ensures
        forall|e: Entry| (seq![x] + s).contains(e) <==> (e == x || s.contains(e)),
{
    let c = seq![x] + s;
    assert(c.drop_first() =~= s);
    lemma_run_split(c);
}

proof fn lemma_sorted_tail(s: Seq<Entry>)
    requires
        keys_increasing(s),
        s.len() > 0,
    ensures
        keys_increasing(s.drop_first()),
        keys_above(s.drop_first(), s[0].0),
{
    let t = s.drop_first();
    assert forall|a: int, b: int| 0 <= a < b < t.len() implies lex_lt(#[trigger] t[a].0, #[trigger] t[b].0) by {
        assert(t[a] == s[a + 1] && t[b] == s[b + 1]);
    }
    lemma_lex_order(s[0].0, s[0].0, s[0].0);
    lemma_sorted_above(s, s[0].0);
}

proof fn lemma_above_no_key(s: Seq<Entry>, k: Seq<u8>)
    requires
        keys_above(s, k),
    ensures
        !has_key(s, k),
        forall|e: Entry| s.contains(e) ==> e.0 != k,
{
    lemma_lex_order(k, k, k);
}

/// What the merge of two sorted runs holds: the entries of `a`, and those of `b` whose key `a`
/// does not hold.
pub proof fn lemma_merge2_members(a: Seq<Entry>, b: Seq<Entry>)
    requires
        keys_increasing(a),
        keys_increasing(b),
    ensures
        forall|e: Entry| #[trigger] merge2(a, b).contains(e) <==> (a.contains(e) || (b.contains(e) && !has_key(a, e.0))),
    decreases a.len() + b.len(),
{
    if a.len() == 0 {
        assert forall|k: Seq<u8>| !has_key(a, k) by {}
    } else if b.len() == 0 {
        assert forall|e: Entry| !b.contains(e) by {}
    } else {
        lemma_sorted_tail(a);
        lemma_sorted_tail(b);
        lemma_run_split(a);
        lemma_run_split(b);
        let a2 = a.drop_first();
        let b2 = b.drop_first();
        if lex_lt(a[0].0, b[0].0) {
            lemma_merge2_members(a2, b);
            let r = merge2(a2, b);
            assert(merge2(a, b) == seq![a[0]] + r);
            lemma_cons_contains(a[0], r);
            lemma_sorted_above(b, a[0].0);
            lemma_above_no_key(b, a[0].0);
            assert forall|e: Entry| #[trigger] merge2(a, b).contains(e) <==> (a.contains(e) || (b.contains(e) && !has_key(a, e.0))) by {
                assert(r.contains(e) <==> (a2.contains(e) || (b.contains(e) && !has_key(a2, e.0))));
                assert(a.contains(e) <==> (e == a[0] || a2.contains(e)));
                assert(has_key(a, e.0) <==> (a[0].0 == e.0 || has_key(a2, e.0)));
                assert(merge2(a, b).contains(e) <==> (e == a[0] || r.contains(e)));
                if b.contains(e) {
                    assert(e.0 != a[0].0);
                }
            }
        } else if a[0].0 == b[0].0 {
            lemma_merge2_members(a2, b2);
            let r = merge2(a2, b2);
            assert(merge2(a, b) == seq![a[0]] + r);
            lemma_cons_contains(a[0], r);
            lemma_merge2_above(a2, b2, a[0].0);
            lemma_above_no_key(r, a[0].0);
            lemma_above_no_key(b2, b[0].0);
            assert forall|e: Entry| #[trigger] merge2(a, b).contains(e) <==> (a.contains(e) || (b.contains(e) && !has_key(a, e.0))) by {
                assert(r.contains(e) <==> (a2.contains(e) || (b2.contains(e) && !has_key(a2, e.0))));
                assert(a.contains(e) <==> (e == a[0] || a2.contains(e)));
                assert(b.contains(e) <==> (e == b[0] || b2.contains(e)));
                assert(has_key(a, e.0) <==> (a[0].0 == e.0 || has_key(a2, e.0)));
                assert(merge2(a, b).contains(e) <==> (e == a[0] || r.contains(e)));
                if r.contains(e) {
                    assert(e.0 != a[0].0);
                }
                if b2.contains(e) {
                    assert(e.0 != a[0].0);
                }
                if e == b[0] {
                    assert(has_key(a, e.0));
                }
            }
        } else {
            lemma_lex_order(a[0].0, b[0].0, a[0].0);
            lemma_merge2_members(a, b2);
            let r = merge2(a, b2);
            assert(merge2(a, b) == seq![b[0]] + r);
            lemma_cons_contains(b[0], r);
            lemma_sorted_above(a, b[0].0);
            lemma_above_no_key(a, b[0].0);
            assert forall|e: Entry| #[trigger] merge2(a, b).contains(e) <==> (a.contains(e) || (b.contains(e) && !has_key(a, e.0))) by {
                assert(r.contains(e) <==> (a.contains(e) || (b2.contains(e) && !has_key(a, e.0))));
                assert(b.contains(e) <==> (e == b[0] || b2.contains(e)));
                assert(merge2(a, b).contains(e) <==> (e == b[0] || r.contains(e)));
                if e == b[0] {
                    assert(!has_key(a, e.0));
                }
            }
        }
    }
}

/// What the merge of sorted runs holds: each entry of a run whose key no earlier run holds.
pub proof fn lemma_merge_all_members(srcs: Seq<Seq<Entry>>)
    requires
        all_sorted(srcs),
    ensures
        forall|e: Entry|
            #[trigger] merge_all(srcs).contains(e) <==> exists|j: int|
                0 <= j < srcs.len() && (#[trigger] srcs[j]).contains(e) && forall|i: int| 0 <= i < j ==> !has_key(#[trigger] srcs[i], e.0),
    decreases srcs.len(),
{
    if srcs.len() > 0 {
        let t = srcs.drop_first();
        assert(all_sorted(t)) by {
            assert forall|i: int| 0 <= i < t.len() implies keys_increasing(#[trigger] t[i]) by {
                assert(t[i] == srcs[i + 1]);
            }
        }
        lemma_merge_all_members(t);
        lemma_merge_all_sorted(t);
        assert(keys_increasing(srcs[0]));
        let m = merge_all(t);
        lemma_merge2_members(srcs[0], m);
        assert forall|e: Entry| #[trigger] merge_all(srcs).contains(e) <==> exists|j: int|
            0 <= j < srcs.len() && (#[trigger] srcs[j]).contains(e) && forall|i: int| 0 <= i < j ==> !has_key(#[trigger] srcs[i], e.0) by {
            if merge_all(srcs).contains(e) {
                if srcs[0].contains(e) {
                    assert(srcs[0].contains(e) && forall|i: int| 0 <= i < 0 ==> !has_key(#[trigger] srcs[i], e.0));
                } else {
                    assert(m.contains(e) && !has_key(srcs[0], e.0));
                    let j = choose|j: int| 0 <= j < t.len() && (#[trigger] t[j]).contains(e) && forall|i: int| 0 <= i < j ==> !has_key(#[trigger] t[i], e.0);
                    assert(srcs[j + 1] == t[j]);
                    assert forall|i: int| 0 <= i < j + 1 implies !has_key(#[trigger] srcs[i], e.0) by {
                        if i > 0 {
                            assert(srcs[i] == t[i - 1]);
                        }
                    }
                }
            }
            if exists|j: int| 0 <= j < srcs.len() && (#[trigger] srcs[j]).contains(e) && forall|i: int| 0 <= i < j ==> !has_key(#[trigger] srcs[i], e.0) {
                let j = choose|j: int| 0 <= j < srcs.len() && (#[trigger] srcs[j]).contains(e) && forall|i: int| 0 <= i < j ==> !has_key(#[trigger] srcs[i], e.0);
                if j > 0 {
                    assert(t[j - 1] == srcs[j]);
                    assert forall|i: int| 0 <= i < j - 1 implies !has_key(#[trigger] t[i], e.0) by {
                        assert(t[i] == srcs[i + 1]);
                    }
                    assert(!has_key(srcs[0], e.0));
                    assert(m.contains(e));
                }
            }
        }
    } else {
        assert forall|e: Entry| !(#[trigger] merge_all(srcs).contains(e)) by {}
    }
}

} // verus!
