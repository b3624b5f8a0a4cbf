//! Facts about filtered sequences that the rest of the crate builds on.

use vstd::prelude::*;

verus! {

/// Filtering keeps a sequence whose elements all pass.
pub proof fn lemma_filter_all<A>(s: Seq<A>, p: spec_fn(A) -> bool)
    requires
        forall|i: int| 0 <= i < s.len() ==> p(#[trigger] s[i]),
    ensures
        s.filter(p) == s,
    decreases s.len(),
{
    reveal(Seq::filter);
    if s.len() > 0 {
        lemma_filter_all(s.drop_last(), p);
        assert(s.drop_last().push(s.last()) =~= s);
    }
}

/// Filtering empties a sequence none of whose elements pass.
pub proof fn lemma_filter_none<A>(s: Seq<A>, p: spec_fn(A) -> bool)
    requires
        forall|i: int| 0 <= i < s.len() ==> !p(#[trigger] s[i]),
    ensures
        s.filter(p) == Seq::<A>::empty(),
    decreases s.len(),
{
    reveal(Seq::filter);
    if s.len() > 0 {
        lemma_filter_none(s.drop_last(), p);
    }
}

/// Filtering twice is filtering once.
pub proof fn lemma_filter_twice<A>(s: Seq<A>, p: spec_fn(A) -> bool)
    ensures
        s.filter(p).filter(p) == s.filter(p),
{
    let f = s.filter(p);
    assert forall|i: int| 0 <= i < f.len() implies p(#[trigger] f[i]) by {
        s.lemma_filter_pred(p, i);
    }
    lemma_filter_all(f, p);
}

/// Every element of a filtered sequence comes from a place of the source
/// that is not before its own place.
pub proof fn lemma_filter_origin<A>(s: Seq<A>, p: spec_fn(A) -> bool, k: int) -> (j: int)
    requires
        0 <= k < s.filter(p).len(),
    ensures
        k <= j < s.len(),
        s[j] == s.filter(p)[k],
        p(s[j]),
    decreases s.len(),
{
    reveal(Seq::filter);
    let rest = s.drop_last();
    rest.lemma_filter_len(p);
    if p(s.last()) && k == rest.filter(p).len() {
        s.len() - 1
    } else {
        lemma_filter_origin(rest, p, k)
    }
}

/// The filter of a one-element sequence.
pub proof fn lemma_filter_single<A>(a: A, p: spec_fn(A) -> bool)
    ensures
        seq![a].filter(p) == if p(a) {
            seq![a]
        } else {
            Seq::<A>::empty()
        },
{
    reveal(Seq::filter);
    let e = Seq::<A>::empty();
    assert(e.filter(p) == e);
    e.lemma_filter_push(a, p);
    assert(e.push(a) =~= seq![a]);
}

/// Number of elements of a sequence that pass a predicate.
pub open spec fn tally<A>(s: Seq<A>, p: spec_fn(A) -> bool) -> nat {
    s.filter(p).len()
}

/// Number of elements in a sequence of rows that pass a predicate.
pub open spec fn tally_rows<A>(g: Seq<Seq<A>>, p: spec_fn(A) -> bool) -> nat
    decreases g.len(),
{
    if g.len() == 0 {
        0
    } else {
        tally_rows(g.drop_last(), p) + tally(g.last(), p)
    }
}

/// One when the predicate holds of the element, zero when it does not.
pub open spec fn unit<A>(a: A, p: spec_fn(A) -> bool) -> nat {
    if p(a) {
        1
    } else {
        0
    }
}

/// Replacing one element changes the tally by what the two elements count.
pub proof fn lemma_tally_update<A>(s: Seq<A>, i: int, v: A, p: spec_fn(A) -> bool)
    requires
        0 <= i < s.len(),
    ensures
        tally(s.update(i, v), p) + unit(s[i], p) == tally(s, p) + unit(v, p),
{
    let a = s.take(i);
    let b = s.skip(i + 1);
    assert(s =~= a + seq![s[i]] + b);
    assert(s.update(i, v) =~= a + seq![v] + b);
    Seq::filter_distributes_over_add(a, seq![s[i]], p);
    Seq::filter_distributes_over_add(a + seq![s[i]], b, p);
    Seq::filter_distributes_over_add(a, seq![v], p);
    Seq::filter_distributes_over_add(a + seq![v], b, p);
    lemma_filter_single(s[i], p);
    lemma_filter_single(v, p);
}

/// Replacing one row changes the tally by the difference of the two rows.
pub proof fn lemma_tally_rows_update<A>(g: Seq<Seq<A>>, x: int, row: Seq<A>, p: spec_fn(A) -> bool)
    requires
        0 <= x < g.len(),
    ensures
        tally_rows(g.update(x, row), p) + tally(g[x], p) == tally_rows(g, p) + tally(row, p),
    decreases g.len(),
{
    let u = g.update(x, row);
    if x == g.len() - 1 {
        assert(u.drop_last() =~= g.drop_last());
    } else {
        lemma_tally_rows_update(g.drop_last(), x, row, p);
        assert(u.drop_last() =~= g.drop_last().update(x, row));
    }
}

/// The tallies of two runs of rows add up.
pub proof fn lemma_tally_rows_concat<A>(a: Seq<Seq<A>>, b: Seq<Seq<A>>, p: spec_fn(A) -> bool)
    ensures
        tally_rows(a + b, p) == tally_rows(a, p) + tally_rows(b, p),
    decreases b.len(),
{
    if b.len() == 0 {
        assert(a + b =~= a);
    } else {
        lemma_tally_rows_concat(a, b.drop_last(), p);
        assert((a + b).drop_last() =~= a + b.drop_last());
        assert((a + b).last() == b.last());
    }
}

/// Rows of width `w` hold at most `w` passing elements each.
pub proof fn lemma_tally_rows_bound<A>(g: Seq<Seq<A>>, w: nat, p: spec_fn(A) -> bool)
    requires
        forall|x: int| 0 <= x < g.len() ==> (#[trigger] g[x]).len() == w,
    ensures
        tally_rows(g, p) <= g.len() * w,
    decreases g.len(),
{
    if g.len() > 0 {
        lemma_tally_rows_bound(g.drop_last(), w, p);
        g.last().lemma_filter_len(p);
        assert((g.len() - 1) * w + w == g.len() * w) by (nonlinear_arith);
    }
}

} // verus!
