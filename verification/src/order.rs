//! The lexicographic order of names, and sorted sets of names.
//!
//! `str` orders its bytes lexicographically; since UTF-8 preserves the order
//! of code points, that is the lexicographic order of the characters.
use vstd::prelude::*;
use vstd::string::StrSliceExecFns;
use crate::strings::str_eq;

verus! {

/// Whether `a` comes strictly before `b` in lexicographic order.
pub open spec fn seq_lt(a: Seq<char>, b: Seq<char>) -> bool
    decreases a.len(),
{
    if a.len() == 0 {
        b.len() > 0
    } else if b.len() == 0 {
        false
    } else if a[0] != b[0] {
        (a[0] as int) < (b[0] as int)
    } else {
        seq_lt(a.drop_first(), b.drop_first())
    }
}

/// No name comes before itself.
pub proof fn lemma_lt_irreflexive(a: Seq<char>)
    ensures
        !seq_lt(a, a),
    decreases a.len(),
{
    if a.len() > 0 {
        lemma_lt_irreflexive(a.drop_first());
    }
}

/// Of two distinct names, exactly one comes first.
pub proof fn lemma_lt_total(a: Seq<char>, b: Seq<char>)
    ensures
        a != b ==> (seq_lt(a, b) || seq_lt(b, a)),
        !(seq_lt(a, b) && seq_lt(b, a)),
    decreases a.len(),
{
    if a.len() > 0 && b.len() > 0 {
        lemma_lt_total(a.drop_first(), b.drop_first());
        if a[0] == b[0] && a != b {
            assert(a =~= seq![a[0]] + a.drop_first());
            assert(b =~= seq![b[0]] + b.drop_first());
        }
    } else if a.len() == 0 && b.len() == 0 {
        assert(a =~= b);
    }
}

/// The order is transitive.
pub proof fn lemma_lt_transitive(a: Seq<char>, b: Seq<char>, c: Seq<char>)
    requires
        seq_lt(a, b),
        seq_lt(b, c),
    ensures
        seq_lt(a, c),
    decreases a.len(),
{
    if a.len() > 0 && b.len() > 0 && c.len() > 0 {
        if a[0] == b[0] && b[0] == c[0] {
            lemma_lt_transitive(a.drop_first(), b.drop_first(), c.drop_first());
        }
    }
}

/// Whether `s` is strictly increasing: sorted with no name twice.
pub open spec fn strictly_sorted(s: Seq<Seq<char>>) -> bool {
    forall|i: int, j: int| 0 <= i < j < s.len() ==> seq_lt(#[trigger] s[i], #[trigger] s[j])
}

/// Two strictly increasing sequences of names with the same members are
/// the same sequence.
pub proof fn lemma_sorted_unique(a: Seq<Seq<char>>, b: Seq<Seq<char>>)
    requires
        strictly_sorted(a),
        strictly_sorted(b),
        forall|x: Seq<char>| a.contains(x) <==> b.contains(x),
    ensures
        a == b,
    decreases a.len(),
{
    if a.len() == 0 {
        if b.len() > 0 {
            assert(b.contains(b[0]));
        }
        assert(a =~= b);
    } else {
        assert(a.contains(a[0]));
        let j = choose|j: int| 0 <= j < b.len() && b[j] == a[0];
        assert(b.contains(b[0]));
        let i = choose|i: int| 0 <= i < a.len() && a[i] == b[0];
        if j > 0 {
            assert(seq_lt(b[0], b[j]));
            if i > 0 {
                assert(seq_lt(a[0], a[i]));
                lemma_lt_transitive(a[0], b[0], a[0]);
                lemma_lt_irreflexive(a[0]);
            } else {
                lemma_lt_irreflexive(a[0]);
            }
        }
        let a1 = a.drop_first();
        let b1 = b.drop_first();
        assert forall|x: Seq<char>| a1.contains(x) <==> b1.contains(x) by {
            if a1.contains(x) {
                let p = choose|p: int| 0 <= p < a1.len() && a1[p] == x;
                assert(a[p + 1] == x);
                assert(seq_lt(a[0], a[p + 1]));
                lemma_lt_irreflexive(a[0]);
                assert(a.contains(x));
                let q = choose|q: int| 0 <= q < b.len() && b[q] == x;
                assert(q != 0);
                assert(b1[q - 1] == x);
            }
            if b1.contains(x) {
                let p = choose|p: int| 0 <= p < b1.len() && b1[p] == x;
                assert(b[p + 1] == x);
                assert(seq_lt(b[0], b[p + 1]));
                lemma_lt_irreflexive(b[0]);
                assert(b.contains(x));
                let q = choose|q: int| 0 <= q < a.len() && a[q] == x;
                assert(q != 0);
                assert(a1[q - 1] == x);
            }
        }
        assert forall|p: int, q: int| 0 <= p < q < a1.len() implies seq_lt(#[trigger] a1[p], #[trigger] a1[q]) by {
            assert(a1[p] == a[p + 1] && a1[q] == a[q + 1]);
        }
        assert forall|p: int, q: int| 0 <= p < q < b1.len() implies seq_lt(#[trigger] b1[p], #[trigger] b1[q]) by {
            assert(b1[p] == b[p + 1] && b1[q] == b[q + 1]);
        }
        lemma_sorted_unique(a1, b1);
        assert(a =~= seq![a[0]] + a1);
        assert(b =~= seq![b[0]] + b1);
    }
}

/// The characters of each string of a vector.
pub open spec fn names_of(v: Seq<String>) -> Seq<Seq<char>> {
    v.map_values(|s: String| s@)
}

/// Whether `a` comes strictly before `b`.
pub fn str_lt(a: &str, b: &str) -> (r: bool)
    ensures
        r == seq_lt(a@, b@),
{
    let na = a.unicode_len();
    let nb = b.unicode_len();
    let mut i: usize = 0;
    assert(a@.skip(0) =~= a@);
    assert(b@.skip(0) =~= b@);
    while i < na && i < nb
        invariant
            na == a@.len(),
            nb == b@.len(),
            i <= na,
            i <= nb,
            seq_lt(a@, b@) == seq_lt(a@.skip(i as int), b@.skip(i as int)),
        decreases na - i,
    {
        let ca = a.get_char(i);
        let cb = b.get_char(i);
        proof {
            assert(a@.skip(i as int)[0] == ca);
            assert(b@.skip(i as int)[0] == cb);
            assert(a@.skip(i as int).drop_first() =~= a@.skip(i as int + 1));
            assert(b@.skip(i as int).drop_first() =~= b@.skip(i as int + 1));
        }
        if ca != cb {
            return (ca as u32) < (cb as u32);
        }
        i = i + 1;
    }
    proof {
        assert(a@.skip(i as int).len() == na - i);
        assert(b@.skip(i as int).len() == nb - i);
    }
    i == na && i < nb
}

/// Adds `s` to a strictly sorted vector of names, at its place, unless it
/// is already there.
pub fn insert_sorted(v: &mut Vec<String>, s: &str)
    requires
        strictly_sorted(names_of(old(v)@)),
    ensures
        strictly_sorted(names_of(final(v)@)),
        names_of(final(v)@).to_set() == names_of(old(v)@).to_set().insert(s@),
{
    let ghost old_names = names_of(v@);
    let mut i: usize = 0;
    while i < v.len() && str_lt(v[i].as_str(), s)
        invariant
            i <= v.len(),
            v@ == old(v)@,
            old_names == names_of(v@),
            strictly_sorted(old_names),
            forall|j: int| 0 <= j < i ==> seq_lt(#[trigger] old_names[j], s@),
        decreases v.len() - i,
    {
        i = i + 1;
    }
    if i < v.len() && str_eq(v[i].as_str(), s) {
        proof {
            assert(old_names[i as int] == s@);
            assert(old_names.to_set().insert(s@) =~= old_names.to_set()) by {
                assert(old_names.contains(s@));
            }
        }
        return;
    }
    proof {
        if i < v.len() {
            lemma_lt_total(old_names[i as int], s@);
        }
    }
    v.insert(i, s.to_owned());
    proof {
        let nn = names_of(v@);
        assert(nn =~= old_names.insert(i as int, s@));
        assert forall|a: int, b: int| 0 <= a < b < nn.len() implies seq_lt(#[trigger] nn[a], #[trigger] nn[b]) by {
            if b < i {
            } else if b == i {
            } else if a < i {
                lemma_lt_transitive(nn[a], s@, old_names[i as int]);
                if b - 1 > i {
                    lemma_lt_transitive(nn[a], old_names[i as int], nn[b]);
                }
            } else if a == i {
                if b - 1 > i {
                    lemma_lt_transitive(s@, old_names[i as int], nn[b]);
                }
            } else {
            }
        }
        assert(nn.to_set() =~= old_names.to_set().insert(s@)) by {
            assert forall|x: Seq<char>| nn.to_set().contains(x) implies old_names.to_set().insert(s@).contains(x) by {
                let k = choose|k: int| 0 <= k < nn.len() && nn[k] == x;
                if k < i {
                    assert(old_names[k] == x);
                } else if k > i {
                    assert(old_names[k - 1] == x);
                }
            }
            assert forall|x: Seq<char>| old_names.to_set().insert(s@).contains(x) implies nn.to_set().contains(x) by {
                if x == s@ {
                    assert(nn[i as int] == x);
                } else {
                    let k = choose|k: int| 0 <= k < old_names.len() && old_names[k] == x;
                    if k < i {
                        assert(nn[k] == x);
                    } else {
                        assert(nn[k + 1] == x);
                    }
                }
            }
        }
    }
}

/// The position of `s` in a vector of names, if it is there.
pub fn position_of(v: &Vec<String>, s: &str) -> (r: Option<usize>)
    ensures
        match r {
            Some(i) => i < v.len() && v@[i as int]@ == s@ && forall|j: int| 0 <= j < i ==> #[trigger] v@[j]@ != s@,
            None => forall|j: int| 0 <= j < v.len() ==> #[trigger] v@[j]@ != s@,
        },
{
    let mut i: usize = 0;
    while i < v.len()
        invariant
            i <= v.len(),
            forall|j: int| 0 <= j < i ==> #[trigger] v@[j]@ != s@,
        decreases v.len() - i,
    {
        if str_eq(v[i].as_str(), s) {
            return Some(i);
        }
        i = i + 1;
    }
    None
}

/// The lexicographic order of pairs of names.
pub open spec fn pair_lt(a: (Seq<char>, Seq<char>), b: (Seq<char>, Seq<char>)) -> bool {
    seq_lt(a.0, b.0) || (a.0 == b.0 && seq_lt(a.1, b.1))
}

/// Whether a sequence of pairs is strictly increasing.
pub open spec fn pairs_sorted(s: Seq<(Seq<char>, Seq<char>)>) -> bool {
    forall|i: int, j: int| 0 <= i < j < s.len() ==> pair_lt(#[trigger] s[i], #[trigger] s[j])
}

/// The characters of each pair of strings.
pub open spec fn pairs_of(v: Seq<(String, String)>) -> Seq<(Seq<char>, Seq<char>)> {
    v.map_values(|p: (String, String)| (p.0@, p.1@))
}

pub proof fn lemma_pair_lt_props(a: (Seq<char>, Seq<char>), b: (Seq<char>, Seq<char>), c: (Seq<char>, Seq<char>))
    ensures
        !pair_lt(a, a),
        a != b ==> pair_lt(a, b) || pair_lt(b, a),
        !(pair_lt(a, b) && pair_lt(b, a)),
        pair_lt(a, b) && pair_lt(b, c) ==> pair_lt(a, c),
{
    lemma_lt_irreflexive(a.0);
    lemma_lt_irreflexive(a.1);
    lemma_lt_total(a.0, b.0);
    lemma_lt_total(a.1, b.1);
    if pair_lt(a, b) && pair_lt(b, c) {
        if seq_lt(a.0, b.0) && seq_lt(b.0, c.0) {
            lemma_lt_transitive(a.0, b.0, c.0);
        } else if a.0 == b.0 && b.0 == c.0 {
            lemma_lt_transitive(a.1, b.1, c.1);
        }
    }
}

/// Whether `(a, b)` comes strictly before `(c, d)`.
pub fn pair_less(a: &str, b: &str, c: &str, d: &str) -> (r: bool)
    ensures
        r == pair_lt((a@, b@), (c@, d@)),
{
    str_lt(a, c) || (str_eq(a, c) && str_lt(b, d))
}

/// Adds the pair `(a, b)` to a strictly increasing vector of pairs, at its
/// place, unless it is already there.
pub fn insert_sorted_pair(v: &mut Vec<(String, String)>, a: &str, b: &str)
    requires
        pairs_sorted(pairs_of(old(v)@)),
    ensures
        pairs_sorted(pairs_of(final(v)@)),
        forall|x: (Seq<char>, Seq<char>)| pairs_of(final(v)@).contains(x) <==> (pairs_of(old(v)@).contains(x) || x == (a@, b@)),
{
    let ghost old_p = pairs_of(v@);
    let ghost e = (a@, b@);
    let mut i: usize = 0;
    while i < v.len() && pair_less(v[i].0.as_str(), v[i].1.as_str(), a, b)
        invariant
            i <= v.len(),
            v@ == old(v)@,
            old_p == pairs_of(v@),
            pairs_sorted(old_p),
            e == (a@, b@),
            forall|j: int| 0 <= j < i ==> pair_lt(#[trigger] old_p[j], e),
        decreases v.len() - i,
    {
        i = i + 1;
    }
    if i < v.len() && str_eq(v[i].0.as_str(), a) && str_eq(v[i].1.as_str(), b) {
        proof {
            assert(old_p[i as int] == e);
        }
        return;
    }
    proof {
        if i < v.len() {
            lemma_pair_lt_props(old_p[i as int], e, e);
        }
    }
    v.insert(i, (a.to_owned(), b.to_owned()));
    proof {
        let nn = pairs_of(v@);
        assert(nn =~= old_p.insert(i as int, e));
        assert forall|x: int, y: int| 0 <= x < y < nn.len() implies pair_lt(#[trigger] nn[x], #[trigger] nn[y]) by {
            if y < i {
            } else if y == i {
            } else if x < i {
                lemma_pair_lt_props(nn[x], e, old_p[i as int]);
                if y - 1 > i {
                    lemma_pair_lt_props(nn[x], old_p[i as int], nn[y]);
                }
            } else if x == i {
                if y - 1 > i {
                    lemma_pair_lt_props(e, old_p[i as int], nn[y]);
                }
            } else {
            }
        }
        assert forall|x: (Seq<char>, Seq<char>)| nn.contains(x) <==> (old_p.contains(x) || x == e) by {
            if nn.contains(x) {
                let k = choose|k: int| 0 <= k < nn.len() && nn[k] == x;
                if k < i {
                    assert(old_p[k] == x);
                } else if k > i {
                    assert(old_p[k - 1] == x);
                }
            }
            if x == e {
                assert(nn[i as int] == x);
            } else if old_p.contains(x) {
                let k = choose|k: int| 0 <= k < old_p.len() && old_p[k] == x;
                if k < i {
                    assert(nn[k] == x);
                } else {
                    assert(nn[k + 1] == x);
                }
            }
        }
    }
}

} // verus!

verus! {

/// The names of the degree-limited link kinds and of the two directions,
/// in lexicographic order.
pub proof fn lemma_kind_names_ordered()
    ensures
        seq_lt("CasFreeRing"@, "Channel"@),
        seq_lt("Channel"@, "Inline"@),
        seq_lt("CasFreeRing"@, "Inline"@),
        seq_lt("input"@, "output"@),
{
    reveal_strlit("CasFreeRing");
    reveal_strlit("Channel");
    reveal_strlit("Inline");
    reveal_strlit("input");
    reveal_strlit("output");
    assert("CasFreeRing"@.drop_first()[0] == 'a');
    assert("Channel"@.drop_first()[0] == 'h');
    assert(seq_lt("CasFreeRing"@.drop_first(), "Channel"@.drop_first()));
    assert("CasFreeRing"@[0] == "Channel"@[0]);
}

} // verus!
