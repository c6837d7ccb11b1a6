//! Byte-string keys: their order and range bounds.
use vstd::prelude::*;

verus! {

/// `a` sorts strictly before `b` in lexicographic byte order.
pub open spec fn lex_lt(a: Seq<u8>, b: Seq<u8>) -> bool
    decreases a.len(),
{
    if b.len() == 0 {
        false
    } else if a.len() == 0 {
        true
    } else if a[0] != b[0] {
        a[0] < b[0]
    } else {
        lex_lt(a.drop_first(), b.drop_first())
    }
}

/// `a` sorts before `b` or equals it.
pub open spec fn lex_le(a: Seq<u8>, b: Seq<u8>) -> bool {
    a == b || lex_lt(a, b)
}

/// Compares two keys lexicographically: `-1`, `0` or `1` as `a` is below, equal to or above `b`.
pub fn compare_keys(a: &[u8], b: &[u8]) -> (r: i8)
    ensures
        r == 0 <==> a@ == b@,
        r < 0 <==> lex_lt(a@, b@),
        r > 0 <==> lex_lt(b@, a@),
{
    let mut i: usize = 0;
    while i < a.len() && i < b.len()
        invariant
            i <= a@.len(),
            i <= b@.len(),
            a@.subrange(0, i as int) == b@.subrange(0, i as int),
        decreases a@.len() - i,
    {
        if a[i] != b[i] {
            proof { lemma_lex_common_prefix(a@, b@, i as int); }
            if a[i] < b[i] {
                return -1;
            } else {
                return 1;
            }
        }
        i = i + 1;
    }
    proof { lemma_lex_common_prefix(a@, b@, i as int); }
    if a.len() == b.len() {
        assert(a@ =~= a@.subrange(0, i as int));
        assert(b@ =~= b@.subrange(0, i as int));
        0
    } else if a.len() < b.len() {
        -1
    } else {
        1
    }
}

/// Two keys that agree on their first `i` bytes compare as their suffixes from `i` do.
proof fn lemma_lex_common_prefix(a: Seq<u8>, b: Seq<u8>, i: int)
    requires
        0 <= i <= a.len(),
        i <= b.len(),
        a.subrange(0, i) == b.subrange(0, i),
    ensures
        lex_lt(a, b) == lex_lt(a.subrange(i, a.len() as int), b.subrange(i, b.len() as int)),
        lex_lt(b, a) == lex_lt(b.subrange(i, b.len() as int), a.subrange(i, a.len() as int)),
    decreases i,
{
    if i > 0 {
        assert(a[0] == a.subrange(0, i)[0]);
        assert(b[0] == b.subrange(0, i)[0]);
        assert(a.drop_first().subrange(0, i - 1) =~= a.subrange(0, i).drop_first());
        assert(b.drop_first().subrange(0, i - 1) =~= b.subrange(0, i).drop_first());
        lemma_lex_common_prefix(a.drop_first(), b.drop_first(), i - 1);
        assert(a.drop_first().subrange(i - 1, a.len() - 1) =~= a.subrange(i, a.len() as int));
        assert(b.drop_first().subrange(i - 1, b.len() - 1) =~= b.subrange(i, b.len() as int));
    } else {
        assert(a.subrange(0, a.len() as int) =~= a);
        assert(b.subrange(0, b.len() as int) =~= b);
    }
}

/// Strict byte order is irreflexive, transitive and total.
pub proof fn lemma_lex_order(a: Seq<u8>, b: Seq<u8>, c: Seq<u8>)
    ensures
        !lex_lt(a, a),
        lex_lt(a, b) ==> !lex_lt(b, a),
        lex_lt(a, b) && lex_lt(b, c) ==> lex_lt(a, c),
        a != b ==> lex_lt(a, b) || lex_lt(b, a),
{
    lemma_lex_pair(a, a);
    lemma_lex_pair(a, b);
    lemma_lex_trans(a, b, c);
}

proof fn lemma_lex_pair(a: Seq<u8>, b: Seq<u8>)
    ensures
        lex_lt(a, b) ==> !lex_lt(b, a),
        a != b ==> lex_lt(a, b) || lex_lt(b, a),
        a == b ==> !lex_lt(a, b),
    decreases a.len(),
{
    if a.len() > 0 && b.len() > 0 {
        lemma_lex_pair(a.drop_first(), b.drop_first());
        if a != b && a[0] == b[0] {
            assert(a.drop_first() != b.drop_first()) by {
                if a.drop_first() == b.drop_first() {
                    assert(a =~= seq![a[0]] + a.drop_first());
                    assert(b =~= seq![b[0]] + b.drop_first());
                }
            }
        }
    }
    if a.len() == 0 && b.len() == 0 {
        assert(a =~= b);
    }
}

proof fn lemma_lex_trans(a: Seq<u8>, b: Seq<u8>, c: Seq<u8>)
    ensures
        lex_lt(a, b) && lex_lt(b, c) ==> lex_lt(a, c),
    decreases a.len(),
{
    if a.len() > 0 && b.len() > 0 && c.len() > 0 {
        lemma_lex_trans(a.drop_first(), b.drop_first(), c.drop_first());
    }
}

/// Keys of `s` strictly increase.
pub open spec fn keys_increasing(s: Seq<(Seq<u8>, Seq<u8>)>) -> bool {
    forall|i: int, j: int| 0 <= i < j < s.len() ==> lex_lt(#[trigger] s[i].0, #[trigger] s[j].0)
}

/// Appending a key above the last one keeps keys increasing.
pub proof fn lemma_push_increasing(s: Seq<(Seq<u8>, Seq<u8>)>, e: (Seq<u8>, Seq<u8>))
    requires
        keys_increasing(s),
        s.len() > 0 ==> lex_lt(s.last().0, e.0),
    ensures
        keys_increasing(s.push(e)),
{
    let t = s.push(e);
    assert forall|i: int, j: int| 0 <= i < j < t.len() implies lex_lt(#[trigger] t[i].0, #[trigger] t[j].0) by {
        if j == s.len() && i < s.len() - 1 {
            lemma_lex_order(s[i].0, s.last().0, e.0);
        }
    }
}

/// A range bound on keys.
pub enum KeyBound {
    Included(Vec<u8>),
    Excluded(Vec<u8>),
    Unbounded,
}

impl KeyBound {
    /// `k` lies at or below this bound taken as an upper bound.
    pub open spec fn admits_below(&self, k: Seq<u8>) -> bool {
        match self {
            KeyBound::Included(b) => lex_le(k, b@),
            KeyBound::Excluded(b) => lex_lt(k, b@),
            KeyBound::Unbounded => true,
        }
    }

    /// `k` lies at or above this bound taken as a lower bound.
    pub open spec fn admits_above(&self, k: Seq<u8>) -> bool {
        match self {
            KeyBound::Included(b) => lex_le(b@, k),
            KeyBound::Excluded(b) => lex_lt(b@, k),
            KeyBound::Unbounded => true,
        }
    }

    /// An upper bound that admits `b` admits every key below `b`.
    pub proof fn lemma_below_closed(&self, a: Seq<u8>, b: Seq<u8>)
        requires
            self.admits_below(b),
            lex_le(a, b),
        ensures
            self.admits_below(a),
    {
        match self {
            KeyBound::Included(x) => lemma_lex_order(a, b, x@),
            KeyBound::Excluded(x) => lemma_lex_order(a, b, x@),
            KeyBound::Unbounded => {},
        }
    }

    /// A lower bound that admits `a` admits every key above `a`.
    pub proof fn lemma_above_closed(&self, a: Seq<u8>, b: Seq<u8>)
        requires
            self.admits_above(a),
            lex_le(a, b),
        ensures
            self.admits_above(b),
    {
        match self {
            KeyBound::Included(x) => lemma_lex_order(x@, a, b),
            KeyBound::Excluded(x) => lemma_lex_order(x@, a, b),
            KeyBound::Unbounded => {},
        }
    }

    /// Whether `k` lies at or below this bound taken as an upper bound.
    pub fn key_within_upper(&self, k: &[u8]) -> (r: bool)
        ensures
            r == self.admits_below(k@),
    {
        match self {
            KeyBound::Included(b) => compare_keys(k, b.as_slice()) <= 0,
            KeyBound::Excluded(b) => compare_keys(k, b.as_slice()) < 0,
            KeyBound::Unbounded => true,
        }
    }
}

} // verus!
