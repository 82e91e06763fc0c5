use vstd::prelude::*;

verus! {

broadcast use vstd::seq_lib::group_filter_ensures;

/// Keeps every address but `a`.
pub open spec fn other_than(a: usize) -> spec_fn(usize) -> bool {
    |x: usize| x != a
}

/// An element is in a filtered sequence exactly when it is in the sequence
/// and passes the filter.
pub proof fn lemma_filter_contains_iff<A>(s: Seq<A>, p: spec_fn(A) -> bool, x: A)
    ensures
        s.filter(p).contains(x) <==> (s.contains(x) && p(x)),
{
    if s.filter(p).contains(x) {
        s.lemma_filter_contains_rev(p, x);
        let k = choose|k: int| 0 <= k < s.filter(p).len() && s.filter(p)[k] == x;
        s.lemma_filter_pred(p, k);
    }
    if s.contains(x) && p(x) {
        let k = choose|k: int| 0 <= k < s.len() && s[k] == x;
        s.lemma_filter_contains(p, k);
    }
}

/// Filtering keeps a sequence free of duplicates.
pub proof fn lemma_filter_no_duplicates<A>(s: Seq<A>, p: spec_fn(A) -> bool)
    requires
        s.no_duplicates(),
    ensures
        s.filter(p).no_duplicates(),
    decreases s.len(),
{
    reveal(Seq::filter);
    if s.len() > 0 {
        let t = s.drop_last();
        assert(t.no_duplicates());
        lemma_filter_no_duplicates(t, p);
        if p(s.last()) {
            let u = t.filter(p);
            assert(!t.contains(s.last()));
            lemma_filter_contains_iff(t, p, s.last());
            assert(!u.contains(s.last()));
            let v = u.push(s.last());
            assert forall|i: int, j: int| 0 <= i < v.len() && 0 <= j < v.len() && i != j implies v[i]
                != v[j] by {
                if i == u.len() {
                    assert(u[j] == v[j]);
                } else if j == u.len() {
                    assert(u[i] == v[i]);
                }
            }
        }
    }
}

/// Filtering twice is filtering once by both conditions.
pub proof fn lemma_filter_filter<A>(s: Seq<A>, p: spec_fn(A) -> bool, q: spec_fn(A) -> bool)
    ensures
        s.filter(p).filter(q) == s.filter(|x: A| p(x) && q(x)),
    decreases s.len(),
{
    reveal(Seq::filter);
    let pq = |x: A| p(x) && q(x);
    if s.len() == 0 {
        assert(s.filter(p) == s);
        assert(s.filter(p).filter(q) == s);
        assert(s.filter(pq) == s);
    } else {
        let t = s.drop_last();
        lemma_filter_filter(t, p, q);
        let u = t.filter(p);
        if p(s.last()) {
            assert(s.filter(p) == u.push(s.last()));
            assert(u.push(s.last()).drop_last() =~= u);
            assert(u.push(s.last()).last() == s.last());
        } else {
            assert(s.filter(p) == u);
        }
    }
}

/// A filter that keeps everything leaves the sequence as it is.
pub proof fn lemma_filter_all<A>(s: Seq<A>, p: spec_fn(A) -> bool)
    requires
        forall|x: A| #[trigger] p(x),
    ensures
        s.filter(p) == s,
    decreases s.len(),
{
    reveal(Seq::filter);
    if s.len() > 0 {
        lemma_filter_all(s.drop_last(), p);
        assert(s.drop_last().push(s.last()) =~= s);
    }
}

} // verus!
