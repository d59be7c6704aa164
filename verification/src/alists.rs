//! Association sequences keyed by character sequences: the mathematical model
//! of the index's lookup tables, together with the sorted variant used for a
//! node's children and data keys.
use vstd::prelude::*;
use crate::strs::str_eq;

verus! {

/// The mathematical value of a keyed vector: each entry as the views of its
/// key and its value.
pub open spec fn pair_model<V: View>(s: Seq<(String, V)>) -> Seq<(Seq<char>, <V as View>::V)> {
    Seq::new(s.len(), |i: int| (s[i].0@, s[i].1@))
}

/// The value bound to `k`, if any: the first entry whose key is `k`.
pub open spec fn alist_get<V>(s: Seq<(Seq<char>, V)>, k: Seq<char>) -> Option<V>
    decreases s.len(),
{
    if s.len() == 0 {
        None
    } else if s[0].0 == k {
        Some(s[0].1)
    } else {
        alist_get(s.drop_first(), k)
    }
}

/// Whether `k` is bound in `s`.
pub open spec fn alist_has<V>(s: Seq<(Seq<char>, V)>, k: Seq<char>) -> bool {
    alist_get(s, k) is Some
}

/// Binds `k` to `v`: replaces the first entry for `k` in place, or appends a
/// new entry at the end.
pub open spec fn alist_put<V>(s: Seq<(Seq<char>, V)>, k: Seq<char>, v: V) -> Seq<(Seq<char>, V)>
    decreases s.len(),
{
    if s.len() == 0 {
        seq![(k, v)]
    } else if s[0].0 == k {
        seq![(k, v)] + s.drop_first()
    } else {
        seq![s[0]] + alist_put(s.drop_first(), k, v)
    }
}

/// All keys of `s` are distinct.
pub open spec fn keys_unique<V>(s: Seq<(Seq<char>, V)>) -> bool {
    forall|i: int, j: int| 0 <= i < j < s.len() ==> s[i].0 != s[j].0
}

/// A key that no entry of the first `i` entries holds is found, if at all,
/// past them.
pub proof fn lemma_alist_get_skip<V>(s: Seq<(Seq<char>, V)>, k: Seq<char>, i: int)
    requires
        0 <= i <= s.len(),
        forall|j: int| 0 <= j < i ==> s[j].0 != k,
    ensures
        alist_get(s, k) == alist_get(s.skip(i), k),
    decreases i,
{
    if i > 0 {
        assert(s[0].0 != k);
        assert forall|j: int| 0 <= j < i - 1 implies s.drop_first()[j].0 != k by {
            assert(s.drop_first()[j] == s[j + 1]);
        }
        lemma_alist_get_skip(s.drop_first(), k, i - 1);
        assert(s.drop_first().skip(i - 1) =~= s.skip(i));
        assert(alist_get(s, k) == alist_get(s.drop_first(), k));
    } else {
        assert(s.skip(0) =~= s);
    }
}

/// An entry holding `k` with no earlier entry for `k` is the one `alist_get`
/// returns.
pub proof fn lemma_alist_get_at<V>(s: Seq<(Seq<char>, V)>, k: Seq<char>, i: int)
    requires
        0 <= i < s.len(),
        s[i].0 == k,
        forall|j: int| 0 <= j < i ==> s[j].0 != k,
    ensures
        alist_get(s, k) == Some(s[i].1),
{
    lemma_alist_get_skip(s, k, i);
    assert(s.skip(i)[0] == s[i]);
}

/// Putting a key that is absent appends the new entry.
pub proof fn lemma_alist_put_absent<V>(s: Seq<(Seq<char>, V)>, k: Seq<char>, v: V)
    requires
        forall|j: int| 0 <= j < s.len() ==> s[j].0 != k,
    ensures
        alist_put(s, k, v) =~= s.push((k, v)),
    decreases s.len(),
{
    if s.len() > 0 {
        lemma_alist_put_absent(s.drop_first(), k, v);
    }
}

/// Putting a key bound at position `i` (and nowhere earlier) replaces that
/// entry in place.
pub proof fn lemma_alist_put_found<V>(s: Seq<(Seq<char>, V)>, k: Seq<char>, v: V, i: int)
    requires
        0 <= i < s.len(),
        s[i].0 == k,
        forall|j: int| 0 <= j < i ==> s[j].0 != k,
    ensures
        alist_put(s, k, v) =~= s.update(i, (k, v)),
    decreases i,
{
    if i > 0 {
        lemma_alist_put_found(s.drop_first(), k, v, i - 1);
        assert(s.drop_first().update(i - 1, (k, v)) =~= s.update(i, (k, v)).drop_first());
    }
}

/// After a put, the key reads back as the new value.
pub proof fn lemma_alist_get_put_same<V>(s: Seq<(Seq<char>, V)>, k: Seq<char>, v: V)
    ensures
        alist_get(alist_put(s, k, v), k) == Some(v),
    decreases s.len(),
{
    if s.len() > 0 && s[0].0 != k {
        lemma_alist_get_put_same(s.drop_first(), k, v);
        assert((seq![s[0]] + alist_put(s.drop_first(), k, v)).drop_first() =~= alist_put(
            s.drop_first(),
            k,
            v,
        ));
    }
}

/// A put leaves every other key's binding as it was.
pub proof fn lemma_alist_get_put_other<V>(s: Seq<(Seq<char>, V)>, k: Seq<char>, v: V, k2: Seq<char>)
    requires
        k2 != k,
    ensures
        alist_get(alist_put(s, k, v), k2) == alist_get(s, k2),
    decreases s.len(),
{
    if s.len() == 0 {
        let t = seq![(k, v)];
        assert(alist_put(s, k, v) == t);
        assert(t[0].0 == k);
        assert(t.drop_first().len() == 0);
        assert(alist_get(t, k2) == alist_get(t.drop_first(), k2));
    } else {
        if s[0].0 == k {
            let t = seq![(k, v)] + s.drop_first();
            assert(alist_put(s, k, v) == t);
            assert(t[0].0 == k);
            assert(t.drop_first() =~= s.drop_first());
            assert(alist_get(t, k2) == alist_get(t.drop_first(), k2));
            assert(alist_get(s, k2) == alist_get(s.drop_first(), k2));
        } else {
            lemma_alist_get_put_other(s.drop_first(), k, v, k2);
            let t = seq![s[0]] + alist_put(s.drop_first(), k, v);
            assert(alist_put(s, k, v) == t);
            assert(t[0] == s[0]);
            assert(t.drop_first() =~= alist_put(s.drop_first(), k, v));
            if s[0].0 == k2 {
                assert(alist_get(t, k2) == Some(t[0].1));
                assert(alist_get(s, k2) == Some(s[0].1));
            } else {
                assert(alist_get(t, k2) == alist_get(t.drop_first(), k2));
                assert(alist_get(s, k2) == alist_get(s.drop_first(), k2));
            }
        }
    }
}

/// A bound key appears at some position.
pub proof fn lemma_alist_has_to_index<V>(s: Seq<(Seq<char>, V)>, k: Seq<char>)
    requires
        alist_has(s, k),
    ensures
        exists|i: int| 0 <= i < s.len() && s[i].0 == k && alist_get(s, k) == Some(s[i].1),
    decreases s.len(),
{
    if s.len() > 0 {
        if s[0].0 == k {
            assert(s[0].0 == k && alist_get(s, k) == Some(s[0].1));
        } else {
            lemma_alist_has_to_index(s.drop_first(), k);
            let i = choose|i: int|
                0 <= i < s.drop_first().len() && s.drop_first()[i].0 == k && alist_get(
                    s.drop_first(),
                    k,
                ) == Some(s.drop_first()[i].1);
            assert(s[i + 1].0 == k && alist_get(s, k) == Some(s[i + 1].1));
        }
    }
}

/// Any entry's key is bound.
pub proof fn lemma_alist_has_of_index<V>(s: Seq<(Seq<char>, V)>, i: int)
    requires
        0 <= i < s.len(),
    ensures
        alist_has(s, s[i].0),
    decreases i,
{
    if s[0].0 != s[i].0 {
        assert(i > 0);
        lemma_alist_has_of_index(s.drop_first(), i - 1);
        assert(s.drop_first()[i - 1] == s[i]);
        assert(alist_get(s, s[i].0) == alist_get(s.drop_first(), s[i].0));
    }
}

/// What a put is, over positions: with distinct keys it replaces the one
/// entry for a bound key in place, and appends an entry for an unbound one.
/// Either way the keys stay distinct.
pub proof fn lemma_alist_put_shape<V>(s: Seq<(Seq<char>, V)>, k: Seq<char>, v: V)
    requires
        keys_unique(s),
    ensures
        alist_has(s, k) ==> exists|i: int|
            0 <= i < s.len() && s[i].0 == k && alist_put(s, k, v) == s.update(i, (k, v)),
        !alist_has(s, k) ==> alist_put(s, k, v) == s.push((k, v)),
        keys_unique(alist_put(s, k, v)),
{
    if alist_has(s, k) {
        lemma_alist_has_to_index(s, k);
        let i = choose|i: int|
            0 <= i < s.len() && s[i].0 == k && alist_get(s, k) == Some(s[i].1);
        assert forall|j: int| 0 <= j < i implies s[j].0 != k by {
            assert(s[j].0 != s[i].0);
        }
        lemma_alist_put_found(s, k, v, i);
        let t = s.update(i, (k, v));
        assert(alist_put(s, k, v) == t);
        assert forall|x: int, y: int| 0 <= x < y < t.len() implies t[x].0 != t[y].0 by {
            assert(t[x].0 == s[x].0 && t[y].0 == s[y].0);
        }
        assert(0 <= i < s.len() && s[i].0 == k && alist_put(s, k, v) == s.update(i, (k, v)));
    } else {
        assert forall|j: int| 0 <= j < s.len() implies s[j].0 != k by {
            if s[j].0 == k {
                lemma_alist_has_of_index(s, j);
            }
        }
        lemma_alist_put_absent(s, k, v);
        let t = s.push((k, v));
        assert(alist_put(s, k, v) == t);
        assert forall|x: int, y: int| 0 <= x < y < t.len() implies t[x].0 != t[y].0 by {
            assert(t[x] == s[x]);
            if y < s.len() {
                assert(t[y] == s[y]);
            }
        }
    }
}

/// A key held by no entry is unbound.
pub proof fn lemma_alist_get_absent<V>(s: Seq<(Seq<char>, V)>, k: Seq<char>)
    requires
        forall|j: int| 0 <= j < s.len() ==> s[j].0 != k,
    ensures
        alist_get(s, k) is None,
{
    lemma_alist_get_skip(s, k, s.len() as int);
    assert(s.skip(s.len() as int).len() == 0);
}

/// Finds the position of the first entry for `k`, if any.
pub fn find_entry<V>(v: &Vec<(String, V)>, k: &str) -> (r: Option<usize>)
    ensures
        match r {
            Some(i) => i < v@.len() && v@[i as int].0@ == k@ && (forall|j: int|
                0 <= j < i ==> v@[j].0@ != k@),
            None => forall|j: int| 0 <= j < v@.len() ==> v@[j].0@ != k@,
        },
{
    let mut i: usize = 0;
    while i < v.len()
        invariant
            i <= v@.len(),
            forall|j: int| 0 <= j < i ==> v@[j].0@ != k@,
        decreases v@.len() - i,
    {
        if str_eq(v[i].0.as_str(), k) {
            return Some(i);
        }
        i = i + 1;
    }
    None
}

/// Binds `k` to `val` in the vector, as `alist_put` does in the model.
pub fn put_entry<V: View>(v: &mut Vec<(String, V)>, k: String, val: V)
    requires
        keys_unique(pair_model(old(v)@)),
    ensures
        pair_model(final(v)@) == alist_put(pair_model(old(v)@), k@, val@),
        keys_unique(pair_model(final(v)@)),
{
    let ghost m0 = pair_model(v@);
    match find_entry(v, k.as_str()) {
        Some(i) => {
            v.remove(i);
            v.insert(i, (k, val));
            proof {
                assert(v@ =~= old(v)@.update(i as int, (k, val)));
                lemma_alist_put_found(m0, k@, val@, i as int);
                assert(pair_model(v@) =~= m0.update(i as int, (k@, val@)));
                assert(pair_model(v@) =~= alist_put(m0, k@, val@));
                lemma_alist_put_shape(m0, k@, val@);
            }
        },
        None => {
            v.push((k, val));
            proof {
                lemma_alist_put_absent(m0, k@, val@);
                assert(pair_model(v@) =~= m0.push((k@, val@)));
                assert(pair_model(v@) =~= alist_put(m0, k@, val@));
                lemma_alist_put_shape(m0, k@, val@);
            }
        },
    }
}

} // verus!
