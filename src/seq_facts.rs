use vstd::prelude::*;

verus! {

/// One more element of a prefix: the prefix of length `i + 1` is the one
/// of length `i` with `s[i]` pushed.
pub(crate) proof fn lemma_take_step<A>(s: Seq<A>, i: int)
    requires
        0 <= i < s.len(),
    ensures
        s.take(i + 1).drop_last() == s.take(i),
        s.take(i + 1).last() == s[i],
{
    assert(s.take(i + 1).drop_last() =~= s.take(i));
}

/// Filtering a prefix one element longer keeps that element or not, as
/// the predicate says.
pub(crate) proof fn lemma_filter_step<A>(s: Seq<A>, i: int, p: spec_fn(A) -> bool)
    requires
        0 <= i < s.len(),
    ensures
        s.take(i + 1).filter(p) == (if p(s[i]) {
            s.take(i).filter(p).push(s[i])
        } else {
            s.take(i).filter(p)
        }),
        s.take(i).filter(p).len() <= i,
{
    lemma_take_step(s, i);
    s.take(i).lemma_filter_len(p);
    reveal(Seq::filter);
    let t = s.take(i + 1);
    assert(t.len() > 0);
    assert(t.filter(p) == (if p(t.last()) {
        t.drop_last().filter(p).push(t.last())
    } else {
        t.drop_last().filter(p)
    }));
}

} // verus!
