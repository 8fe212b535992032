//! Facts about sequences used across the library's specifications.
use vstd::prelude::*;

verus! {

/// The index of the first element of `s` at or after `i` that satisfies
/// `pred`, or -1 when there is none.
pub open spec fn first_where<A>(s: Seq<A>, pred: spec_fn(A) -> bool, i: int) -> int
    decreases s.len() - i,
{
    if i >= s.len() || i < 0 {
        -1
    } else if pred(s[i]) {
        i
    } else {
        first_where(s, pred, i + 1)
    }
}

/// The characterisation of `first_where`.
pub proof fn lemma_first_where<A>(s: Seq<A>, pred: spec_fn(A) -> bool, i: int)
    requires
        0 <= i <= s.len(),
    ensures
        ({
            let r = first_where(s, pred, i);
            &&& -1 <= r < s.len()
            &&& r == -1 ==> forall|j: int| i <= j < s.len() ==> !pred(#[trigger] s[j])
            &&& r != -1 ==> i <= r && pred(s[r]) && forall|j: int| i <= j < r ==> !pred(#[trigger] s[j])
        }),
    decreases s.len() - i,
{
    if i < s.len() && !pred(s[i]) {
        lemma_first_where(s, pred, i + 1);
    }
}

/// Filtering a sequence extended by one element.
pub proof fn lemma_filter_push<A>(s: Seq<A>, pred: spec_fn(A) -> bool, e: A)
    ensures
        pred(e) ==> s.push(e).filter(pred) == s.filter(pred).push(e),
        !pred(e) ==> s.push(e).filter(pred) == s.filter(pred),
{
    reveal(Seq::filter);
    assert(s.push(e).drop_last() =~= s);
}

/// Filtering twice with the same predicate changes nothing.
pub proof fn lemma_filter_idempotent<A>(s: Seq<A>, pred: spec_fn(A) -> bool)
    ensures
        s.filter(pred).filter(pred) == s.filter(pred),
    decreases s.len(),
{
    reveal(Seq::filter);
    if s.len() > 0 {
        lemma_filter_idempotent(s.drop_last(), pred);
        lemma_filter_push(s.drop_last().filter(pred), pred, s.last());
    }
}

/// Every element of a filtered sequence satisfies the predicate and comes
/// from the original sequence.
pub proof fn lemma_filter_elements<A>(s: Seq<A>, pred: spec_fn(A) -> bool)
    ensures
        forall|i: int| 0 <= i < s.filter(pred).len() ==> pred(#[trigger] s.filter(pred)[i]),
        forall|i: int| 0 <= i < s.filter(pred).len() ==> s.contains(#[trigger] s.filter(pred)[i]),
    decreases s.len(),
{
    reveal(Seq::filter);
    if s.len() > 0 {
        lemma_filter_elements(s.drop_last(), pred);
        let t = s.drop_last();
        assert forall|i: int| 0 <= i < s.filter(pred).len() implies s.contains(#[trigger] s.filter(pred)[i]) by {
            if i < t.filter(pred).len() {
                let x = t.filter(pred)[i];
                let j = choose|j: int| 0 <= j < t.len() && t[j] == x;
                assert(s[j] == x);
            } else {
                assert(s[s.len() - 1] == s.filter(pred)[i]);
            }
        }
    }
}

/// The first index in `i..n` satisfying `pred`, or -1 when there is none.
pub open spec fn first_idx(n: int, pred: spec_fn(int) -> bool, i: int) -> int
    decreases n - i,
{
    if i >= n || i < 0 {
        -1
    } else if pred(i) {
        i
    } else {
        first_idx(n, pred, i + 1)
    }
}

/// The characterisation of `first_idx`.
pub proof fn lemma_first_idx(n: int, pred: spec_fn(int) -> bool, i: int)
    requires
        0 <= i <= n,
    ensures
        ({
            let r = first_idx(n, pred, i);
            &&& r == -1 || (i <= r < n)
            &&& r == -1 ==> forall|j: int| i <= j < n ==> !#[trigger] pred(j)
            &&& r != -1 ==> pred(r) && forall|j: int| i <= j < r ==> !#[trigger] pred(j)
        }),
    decreases n - i,
{
    if i < n && !pred(i) {
        lemma_first_idx(n, pred, i + 1);
    }
}

/// The first index satisfying `pred` is `k` when `k` satisfies it and no
/// earlier index does.
pub proof fn lemma_first_where_is<A>(s: Seq<A>, pred: spec_fn(A) -> bool, k: int)
    requires
        0 <= k < s.len(),
        pred(s[k]),
        forall|j: int| 0 <= j < k ==> !pred(#[trigger] s[j]),
    ensures
        first_where(s, pred, 0) == k,
{
    lemma_first_where(s, pred, 0);
    let f = first_where(s, pred, 0);
    if f == -1 {
        assert(!pred(s[k]));
    } else if f < k {
        assert(!pred(s[f]));
    } else if f > k {
        assert(!pred(s[k]));
    }
}

/// No index satisfies `pred` when none of the elements does.
pub proof fn lemma_first_where_none<A>(s: Seq<A>, pred: spec_fn(A) -> bool)
    requires
        forall|j: int| 0 <= j < s.len() ==> !pred(#[trigger] s[j]),
    ensures
        first_where(s, pred, 0) == -1,
{
    lemma_first_where(s, pred, 0);
    let f = first_where(s, pred, 0);
    if f != -1 {
        assert(pred(s[f]));
    }
}

/// The first index below `n` satisfying `pred` is `k` when `k` satisfies
/// it and no earlier index does.
pub proof fn lemma_first_idx_is(n: int, pred: spec_fn(int) -> bool, k: int)
    requires
        0 <= k < n,
        pred(k),
        forall|j: int| 0 <= j < k ==> !#[trigger] pred(j),
    ensures
        first_idx(n, pred, 0) == k,
{
    lemma_first_idx(n, pred, 0);
    let f = first_idx(n, pred, 0);
    if f == -1 {
        assert(!pred(k));
    } else if f < k {
        assert(!pred(f));
    } else if f > k {
        assert(!pred(k));
    }
}

/// No index below `n` satisfies `pred` when none does.
pub proof fn lemma_first_idx_none(n: int, pred: spec_fn(int) -> bool)
    requires
        0 <= n,
        forall|j: int| 0 <= j < n ==> !#[trigger] pred(j),
    ensures
        first_idx(n, pred, 0) == -1,
{
    lemma_first_idx(n, pred, 0);
    let f = first_idx(n, pred, 0);
    if f != -1 {
        assert(pred(f));
    }
}

} // verus!
