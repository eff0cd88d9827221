//! Facts about filtered sequences.

use vstd::prelude::*;

verus! {

/// Where `keep` holds from `from` up to `to` and nowhere else, what the
/// filter keeps is that stretch of the sequence.
pub proof fn lemma_filter_is_stretch<A>(s: Seq<A>, keep: spec_fn(A) -> bool, from: int, to: int)
    requires
        0 <= from <= to <= s.len(),
        forall|i: int| 0 <= i < from ==> !keep(#[trigger] s[i]),
        forall|i: int| from <= i < to ==> keep(#[trigger] s[i]),
        forall|i: int| to <= i < s.len() ==> !keep(#[trigger] s[i]),
    ensures
        s.filter(keep) == s.subrange(from, to),
    decreases s.len(),
{
    reveal(Seq::filter);
    if s.len() == 0 {
        assert(s.subrange(from, to) =~= s);
    } else {
        let rest = s.drop_last();
        let n = s.len() as int;
        if to == n && from < n {
            lemma_filter_is_stretch(rest, keep, from, to - 1);
            assert(s.subrange(from, to) =~= rest.subrange(from, to - 1).push(s.last()));
        } else if to == n {
            lemma_filter_is_stretch(rest, keep, n - 1, n - 1);
            assert(s.subrange(from, to) =~= rest.subrange(n - 1, n - 1));
        } else {
            lemma_filter_is_stretch(rest, keep, from, to);
            assert(s.subrange(from, to) =~= rest.subrange(from, to));
        }
    }
}

/// What a filter keeps was in the sequence, passes the filter, and stands
/// in the order in which it stood: `at` gives for each place in the result
/// the place it came from.
pub proof fn lemma_filter_places<A>(s: Seq<A>, keep: spec_fn(A) -> bool) -> (at: Seq<int>)
    ensures
        at.len() == s.filter(keep).len(),
        forall|i: int| 0 <= i < at.len() ==> 0 <= #[trigger] at[i] < s.len(),
        forall|i: int| 0 <= i < at.len() ==> s[#[trigger] at[i]] == s.filter(keep)[i] && keep(s[at[i]]),
        forall|i: int, j: int| 0 <= i < j < at.len() ==> at[i] < at[j],
    decreases s.len(),
{
    reveal(Seq::filter);
    if s.len() == 0 {
        Seq::empty()
    } else {
        let rest = s.drop_last();
        let before = lemma_filter_places(rest, keep);
        if keep(s.last()) {
            before.push(s.len() - 1)
        } else {
            before
        }
    }
}

/// A filter keeps what was in the sequence and passes the filter, and
/// nothing else.
pub proof fn lemma_filter_contains<A>(s: Seq<A>, keep: spec_fn(A) -> bool, x: A)
    ensures
        s.filter(keep).contains(x) <==> s.contains(x) && keep(x),
{
    let at = lemma_filter_places(s, keep);
    if s.filter(keep).contains(x) {
        let i = choose|i: int| 0 <= i < s.filter(keep).len() && s.filter(keep)[i] == x;
        assert(s[at[i]] == x);
    }
    if s.contains(x) && keep(x) {
        let i = choose|i: int| 0 <= i < s.len() && s[i] == x;
        s.lemma_filter_contains(keep, i);
    }
}

/// A filter that nothing passes keeps nothing; one that everything passes
/// keeps all.
pub proof fn lemma_filter_none_or_all<A>(s: Seq<A>, keep: spec_fn(A) -> bool)
    ensures
        (forall|i: int| 0 <= i < s.len() ==> !keep(#[trigger] s[i])) ==> s.filter(keep)
            == Seq::<A>::empty(),
        (forall|i: int| 0 <= i < s.len() ==> keep(#[trigger] s[i])) ==> s.filter(keep) == s,
{
    if forall|i: int| 0 <= i < s.len() ==> !keep(#[trigger] s[i]) {
        lemma_filter_is_stretch(s, keep, 0, 0);
        assert(s.subrange(0, 0) =~= Seq::<A>::empty());
    }
    if forall|i: int| 0 <= i < s.len() ==> keep(#[trigger] s[i]) {
        lemma_filter_is_stretch(s, keep, 0, s.len() as int);
        assert(s.subrange(0, s.len() as int) =~= s);
    }
}

} // verus!
