//! A map from names to values that keeps its entries in increasing order of
//! name, as an ordered map walks them.
use vstd::prelude::*;
use crate::order::{seq_lt, str_lt, lemma_lt_irreflexive, lemma_lt_total, lemma_lt_transitive};
use crate::strings::str_eq;
use crate::seq_util::{first_where, lemma_first_where, lemma_first_where_is, lemma_first_where_none};

verus! {

/// Whether the names of `s` strictly increase.
pub open spec fn keys_sorted<V>(s: Seq<(Seq<char>, V)>) -> bool {
    forall|i: int, j: int| 0 <= i < j < s.len() ==> seq_lt(#[trigger] s[i].0, #[trigger] s[j].0)
}

/// Whether an entry is named `k`.
pub open spec fn key_is<V>(k: Seq<char>) -> spec_fn((Seq<char>, V)) -> bool {
    |e: (Seq<char>, V)| e.0 == k
}

/// Whether an entry's name does not come before `k`.
pub open spec fn key_not_before<V>(k: Seq<char>) -> spec_fn((Seq<char>, V)) -> bool {
    |e: (Seq<char>, V)| !seq_lt(e.0, k)
}

/// The value of the entry named `k`.
pub open spec fn lookup<V>(s: Seq<(Seq<char>, V)>, k: Seq<char>) -> Option<V> {
    let i = first_where(s, key_is::<V>(k), 0);
    if i >= 0 {
        Some(s[i].1)
    } else {
        None
    }
}

/// The entries after setting `k` to `v`: the entry of that name replaced in
/// place, or a new entry at the place of its name.
pub open spec fn map_insert<V>(s: Seq<(Seq<char>, V)>, k: Seq<char>, v: V) -> Seq<(Seq<char>, V)> {
    let i = first_where(s, key_not_before::<V>(k), 0);
    if i < 0 {
        s.push((k, v))
    } else if s[i].0 == k {
        s.update(i, (k, v))
    } else {
        s.insert(i, (k, v))
    }
}

/// Names to values, in increasing order of name.
#[derive(Debug)]
pub struct NameMap<V: View> {
    entries: Vec<(String, V)>,
}

impl<V: View> View for NameMap<V> {
    type V = Seq<(Seq<char>, V::V)>;

    closed spec fn view(&self) -> Seq<(Seq<char>, V::V)> {
        self.entries@.map_values(|e: (String, V)| (e.0@, e.1@))
    }
}

impl<V: View> NameMap<V> {
    #[verifier::type_invariant]
    spec fn inv(self) -> bool {
        keys_sorted(self.entries@.map_values(|e: (String, V)| (e.0@, e.1@)))
    }

    /// A map with no entry.
    pub fn new() -> (m: Self)
        ensures
            m@ == Seq::<(Seq<char>, V::V)>::empty(),
    {
        let m = NameMap { entries: Vec::new() };
        assert(m@ =~= Seq::<(Seq<char>, V::V)>::empty());
        m
    }

    /// The number of entries.
    pub fn len(&self) -> (r: usize)
        ensures
            r == self@.len(),
    {
        self.entries.len()
    }

    /// Whether there is no entry.
    pub fn is_empty(&self) -> (r: bool)
        ensures
            r == (self@.len() == 0),
    {
        self.entries.len() == 0
    }

    /// The name of entry `i`.
    pub fn key_at(&self, i: usize) -> (r: &str)
        requires
            i < self@.len(),
        ensures
            r@ == self@[i as int].0,
    {
        self.entries[i].0.as_str()
    }

    /// The value of entry `i`.
    pub fn value_at(&self, i: usize) -> (r: &V)
        requires
            i < self@.len(),
        ensures
            r@ == self@[i as int].1,
    {
        &self.entries[i].1
    }

    /// The position of the entry named `k`.
    fn position(&self, k: &str) -> (r: Option<usize>)
        ensures
            match r {
                Some(i) => i < self@.len() && first_where(self@, key_is::<V::V>(k@), 0) == i as int,
                None => first_where(self@, key_is::<V::V>(k@), 0) == -1,
            },
    {
        let ghost v = self@;
        let ghost pred = key_is::<V::V>(k@);
        let mut i: usize = 0;
        while i < self.entries.len()
            invariant
                i <= self.entries.len(),
                v == self@,
                v == self.entries@.map_values(|e: (String, V)| (e.0@, e.1@)),
                pred == key_is::<V::V>(k@),
                forall|j: int| 0 <= j < i ==> !pred(#[trigger] v[j]),
            decreases self.entries.len() - i,
        {
            if str_eq(self.entries[i].0.as_str(), k) {
                proof {
                    lemma_first_where_is(v, pred, i as int);
                }
                return Some(i);
            }
            i = i + 1;
        }
        proof {
            lemma_first_where_none(v, pred);
        }
        None
    }

    /// Whether some entry is named `k`.
    pub fn contains_key(&self, k: &str) -> (r: bool)
        ensures
            r == lookup(self@, k@) is Some,
    {
        self.position(k).is_some()
    }

    /// The value of the entry named `k`.
    pub fn get(&self, k: &str) -> (r: Option<&V>)
        ensures
            match r {
                Some(v) => lookup(self@, k@) == Some(v@),
                None => lookup(self@, k@) is None,
            },
    {
        match self.position(k) {
            Some(i) => Some(&self.entries[i].1),
            None => None,
        }
    }

    /// Sets the entry named `k` to `value`, replacing the value it had.
    pub fn insert(&mut self, k: &str, value: V)
        ensures
            final(self)@ == map_insert(old(self)@, k@, value@),
            keys_sorted(final(self)@),
    {
        proof {
            use_type_invariant(&*self);
        }
        let ghost s = self@;
        let ghost pred = key_not_before::<V::V>(k@);
        let mut i: usize = 0;
        while i < self.entries.len() && str_lt(self.entries[i].0.as_str(), k)
            invariant
                i <= self.entries.len(),
                s == self@,
                s == self.entries@.map_values(|e: (String, V)| (e.0@, e.1@)),
                pred == key_not_before::<V::V>(k@),
                keys_sorted(s),
                forall|j: int| 0 <= j < i ==> !pred(#[trigger] s[j]),
            decreases self.entries.len() - i,
        {
            i = i + 1;
        }
        proof {
            if i < s.len() {
                lemma_first_where_is(s, pred, i as int);
            } else {
                lemma_first_where_none(s, pred);
            }
        }
        let mut entries: Vec<(String, V)> = Vec::new();
        core::mem::swap(&mut entries, &mut self.entries);
        if i < entries.len() && str_eq(entries[i].0.as_str(), k) {
            entries.set(i, (k.to_owned(), value));
            proof {
                let nv = entries@.map_values(|e: (String, V)| (e.0@, e.1@));
                assert(nv =~= s.update(i as int, (k@, value@)));
                assert forall|a: int, b: int| 0 <= a < b < nv.len() implies seq_lt(#[trigger] nv[a].0, #[trigger] nv[b].0) by {
                    assert(nv[a].0 == s[a].0 && nv[b].0 == s[b].0);
                }
            }
        } else {
            entries.insert(i, (k.to_owned(), value));
            proof {
                let nv = entries@.map_values(|e: (String, V)| (e.0@, e.1@));
                assert(nv =~= s.insert(i as int, (k@, value@)));
                if i < s.len() {
                    assert(!seq_lt(s[i as int].0, k@));
                    lemma_lt_total(s[i as int].0, k@);
                    assert(seq_lt(k@, s[i as int].0));
                }
                assert forall|a: int, b: int| 0 <= a < b < nv.len() implies seq_lt(#[trigger] nv[a].0, #[trigger] nv[b].0) by {
                    if a < i && b == i {
                        assert(!pred(s[a]));
                    } else if a == i && b > i {
                        assert(nv[b].0 == s[b - 1].0);
                        if b - 1 > i {
                            assert(seq_lt(s[i as int].0, s[b - 1].0));
                            lemma_lt_transitive(k@, s[i as int].0, s[b - 1].0);
                        }
                    } else if a < i && b > i {
                        assert(nv[b].0 == s[b - 1].0);
                    } else if a > i {
                        assert(nv[a].0 == s[a - 1].0 && nv[b].0 == s[b - 1].0);
                    }
                }
            }
        }
        self.entries = entries;
    }
}

/// What a read of a name map gives back of a write: the value just set for
/// `k`, and for any other name what it had before.
pub proof fn lemma_insert_lookup<V>(s: Seq<(Seq<char>, V)>, k: Seq<char>, v: V, other: Seq<char>)
    requires
        keys_sorted(s),
    ensures
        lookup(map_insert(s, k, v), k) == Some(v),
        other != k ==> lookup(map_insert(s, k, v), other) == lookup(s, other),
        keys_sorted(map_insert(s, k, v)),
{
    let pn = key_not_before::<V>(k);
    let pk = key_is::<V>(k);
    let po = key_is::<V>(other);
    let i = first_where(s, pn, 0);
    let r = map_insert(s, k, v);
    lemma_first_where(s, pn, 0);
    lemma_first_where(s, po, 0);
    let f = first_where(s, po, 0);
    // Entries before `i` come before `k`, so none is named `k`.
    assert forall|j: int| 0 <= j < s.len() && (i < 0 || j < i) implies seq_lt(#[trigger] s[j].0, k) && s[j].0 != k by {
        assert(!pn(s[j]));
        lemma_lt_irreflexive(k);
    }
    if i < 0 {
        assert(r =~= s.push((k, v)));
        lemma_first_where_is(r, pk, s.len() as int);
        if other != k {
            if f >= 0 {
                assert forall|j: int| 0 <= j < f implies !po(#[trigger] r[j]) by {
                    assert(r[j] == s[j]);
                }
                lemma_first_where_is(r, po, f);
            } else {
                assert forall|j: int| 0 <= j < r.len() implies !po(#[trigger] r[j]) by {
                    if j < s.len() {
                        assert(r[j] == s[j]);
                    }
                }
                lemma_first_where_none(r, po);
            }
        }
        assert forall|a: int, b: int| 0 <= a < b < r.len() implies seq_lt(#[trigger] r[a].0, #[trigger] r[b].0) by {
            if b == s.len() {
                assert(r[a] == s[a]);
            } else {
                assert(r[a] == s[a] && r[b] == s[b]);
            }
        }
    } else if s[i].0 == k {
        assert(r =~= s.update(i, (k, v)));
        assert forall|j: int| 0 <= j < i implies !pk(#[trigger] r[j]) by {
            assert(r[j] == s[j]);
        }
        lemma_first_where_is(r, pk, i);
        if other != k {
            if f >= 0 {
                assert(f != i);
                assert forall|j: int| 0 <= j < f implies !po(#[trigger] r[j]) by {
                    if j != i {
                        assert(r[j] == s[j]);
                    }
                }
                assert(r[f] == s[f]);
                lemma_first_where_is(r, po, f);
            } else {
                assert forall|j: int| 0 <= j < r.len() implies !po(#[trigger] r[j]) by {
                    if j != i {
                        assert(r[j] == s[j]);
                    }
                }
                lemma_first_where_none(r, po);
            }
        }
        assert forall|a: int, b: int| 0 <= a < b < r.len() implies seq_lt(#[trigger] r[a].0, #[trigger] r[b].0) by {
            assert(r[a].0 == s[a].0 && r[b].0 == s[b].0);
        }
    } else {
        assert(r =~= s.insert(i, (k, v)));
        lemma_lt_total(s[i].0, k);
        assert(seq_lt(k, s[i].0));
        assert forall|j: int| 0 <= j < i implies !pk(#[trigger] r[j]) by {
            assert(r[j] == s[j]);
        }
        lemma_first_where_is(r, pk, i);
        if other != k {
            if f >= 0 {
                if f < i {
                    assert forall|j: int| 0 <= j < f implies !po(#[trigger] r[j]) by {
                        assert(r[j] == s[j]);
                    }
                    assert(r[f] == s[f]);
                    lemma_first_where_is(r, po, f);
                } else {
                    assert forall|j: int| 0 <= j < f + 1 implies !po(#[trigger] r[j]) by {
                        if j < i {
                            assert(r[j] == s[j]);
                        } else if j > i {
                            assert(r[j] == s[j - 1]);
                        }
                    }
                    assert(r[f + 1] == s[f]);
                    lemma_first_where_is(r, po, f + 1);
                }
            } else {
                assert forall|j: int| 0 <= j < r.len() implies !po(#[trigger] r[j]) by {
                    if j < i {
                        assert(r[j] == s[j]);
                    } else if j > i {
                        assert(r[j] == s[j - 1]);
                    }
                }
                lemma_first_where_none(r, po);
            }
        }
        assert forall|a: int, b: int| 0 <= a < b < r.len() implies seq_lt(#[trigger] r[a].0, #[trigger] r[b].0) by {
            if a < i && b == i {
                assert(r[a] == s[a]);
            } else if a == i && b > i {
                assert(r[b] == s[b - 1]);
                if b - 1 > i {
                    lemma_lt_transitive(k, s[i].0, s[b - 1].0);
                }
            } else if a < i && b > i {
                assert(r[a] == s[a] && r[b] == s[b - 1]);
            } else if a > i {
                assert(r[a] == s[a - 1] && r[b] == s[b - 1]);
            } else {
                assert(r[a] == s[a] && r[b] == s[b]);
            }
        }
    }
}

} // verus!
