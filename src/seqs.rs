//! Concatenating the pieces that each item of a sequence maps to.
use vstd::prelude::*;

verus! {

/// The pieces `f(s[0]) + f(s[1]) + ...`, one after the other.
pub open spec fn concat_map<T, U>(s: Seq<T>, f: spec_fn(T) -> Seq<U>) -> Seq<U>
    decreases s.len(),
{
    if s.len() == 0 {
        Seq::empty()
    } else {
        concat_map(s.drop_last(), f) + f(s.last())
    }
}

/// Where the piece of item `i` starts.
pub open spec fn piece_start<T, U>(s: Seq<T>, f: spec_fn(T) -> Seq<U>, i: int) -> int {
    concat_map(s.subrange(0, i), f).len() as int
}

pub proof fn lemma_concat_map_push<T, U>(s: Seq<T>, f: spec_fn(T) -> Seq<U>, x: T)
    ensures
        concat_map(s.push(x), f) == concat_map(s, f) + f(x),
{
    assert(s.push(x).drop_last() =~= s);
}

/// The pieces before item `i` are a prefix of the whole.
pub proof fn lemma_concat_map_prefix<T, U>(s: Seq<T>, f: spec_fn(T) -> Seq<U>, i: int)
    requires
        0 <= i <= s.len(),
    ensures
        piece_start(s, f, i) <= concat_map(s, f).len(),
        concat_map(s, f).subrange(0, piece_start(s, f, i)) == concat_map(s.subrange(0, i), f),
    decreases s.len() - i,
{
    if i == s.len() {
        assert(s.subrange(0, i) =~= s);
        assert(concat_map(s, f).subrange(0, concat_map(s, f).len() as int) =~= concat_map(s, f));
    } else {
        lemma_concat_map_prefix(s, f, i + 1);
        assert(s.subrange(0, i + 1) =~= s.subrange(0, i).push(s[i]));
        lemma_concat_map_push(s.subrange(0, i), f, s[i]);
        let b = concat_map(s.subrange(0, i + 1), f);
        assert(concat_map(s, f).subrange(0, piece_start(s, f, i)) =~= b.subrange(0, piece_start(s, f, i)));
        assert(b.subrange(0, piece_start(s, f, i)) =~= concat_map(s.subrange(0, i), f));
    }
}

/// The piece of item `i` lies between the starts of items `i` and `i + 1`.
pub proof fn lemma_concat_map_at<T, U>(s: Seq<T>, f: spec_fn(T) -> Seq<U>, i: int)
    requires
        0 <= i < s.len(),
    ensures
        piece_start(s, f, i + 1) == piece_start(s, f, i) + f(s[i]).len(),
        piece_start(s, f, i + 1) <= concat_map(s, f).len(),
        concat_map(s, f).subrange(piece_start(s, f, i), piece_start(s, f, i + 1)) == f(s[i]),
        forall|j: int| 0 <= j < f(s[i]).len() ==> concat_map(s, f)[piece_start(s, f, i) + j] == #[trigger] f(s[i])[j],
{
    lemma_concat_map_prefix(s, f, i + 1);
    assert(s.subrange(0, i + 1) =~= s.subrange(0, i).push(s[i]));
    lemma_concat_map_push(s.subrange(0, i), f, s[i]);
    let whole = concat_map(s, f);
    let a = concat_map(s.subrange(0, i), f);
    assert(whole.subrange(0, piece_start(s, f, i + 1)) == a + f(s[i]));
    assert(whole.subrange(piece_start(s, f, i), piece_start(s, f, i + 1)) =~= (a + f(s[i])).subrange(
        a.len() as int,
        (a.len() + f(s[i]).len()) as int,
    ));
    assert forall|j: int| 0 <= j < f(s[i]).len() implies whole[piece_start(s, f, i) + j] == #[trigger] f(s[i])[j] by {
        assert(whole.subrange(piece_start(s, f, i), piece_start(s, f, i + 1))[j] == f(s[i])[j]);
    }
}

/// Starts grow with the index.
pub proof fn lemma_piece_start_mono<T, U>(s: Seq<T>, f: spec_fn(T) -> Seq<U>, i: int, j: int)
    requires
        0 <= i <= j <= s.len(),
    ensures
        piece_start(s, f, i) <= piece_start(s, f, j),
    decreases j - i,
{
    if i < j {
        lemma_piece_start_mono(s, f, i, j - 1);
        lemma_concat_map_at(s, f, j - 1);
    }
}

/// The whole is as long as the start past the last item.
pub proof fn lemma_piece_start_end<T, U>(s: Seq<T>, f: spec_fn(T) -> Seq<U>)
    ensures
        piece_start(s, f, s.len() as int) == concat_map(s, f).len(),
{
    assert(s.subrange(0, s.len() as int) =~= s);
}

} // verus!
