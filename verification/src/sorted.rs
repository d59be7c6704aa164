//! Sorted sequences of names and of keyed entries: the model of a node's
//! `child_names` (an ordered set) and `data_keys` (an ordered map).
use vstd::prelude::*;
use crate::strs::{chars_lt, lemma_chars_lt_asym, lemma_chars_lt_irrefl, lemma_chars_lt_total,
    lemma_chars_lt_trans, str_eq, str_lt};
use crate::alists::{alist_get, alist_has, lemma_alist_has_of_index, pair_model};

verus! {

/// The mathematical value of a vector of strings: each as its characters.
pub open spec fn names_model(s: Seq<String>) -> Seq<Seq<char>> {
    Seq::new(s.len(), |i: int| s[i]@)
}

/// The names appear in strictly increasing order (hence without repetition).
pub open spec fn sorted_names(s: Seq<Seq<char>>) -> bool {
    forall|i: int, j: int| 0 <= i < j < s.len() ==> chars_lt(s[i], s[j])
}

/// Inserts a name at its place in the order; a name already present leaves
/// the sequence as it was.
pub open spec fn insert_name(s: Seq<Seq<char>>, x: Seq<char>) -> Seq<Seq<char>>
    decreases s.len(),
{
    if s.len() == 0 {
        seq![x]
    } else if x == s[0] {
        s
    } else if chars_lt(x, s[0]) {
        seq![x] + s
    } else {
        seq![s[0]] + insert_name(s.drop_first(), x)
    }
}

/// What the insertion of a name is, stated over positions: everything before
/// the insertion point stays, `x` stands at it, the rest shifts by one.
pub proof fn lemma_insert_name_at(s: Seq<Seq<char>>, x: Seq<char>, p: int)
    requires
        0 <= p <= s.len(),
        forall|j: int| 0 <= j < p ==> chars_lt(s[j], x),
        p < s.len() ==> chars_lt(x, s[p]),
    ensures
        insert_name(s, x) =~= s.subrange(0, p) + seq![x] + s.skip(p),
    decreases p,
{
    if p == 0 {
        if s.len() > 0 {
            lemma_chars_lt_irrefl(x);
        }
        assert(insert_name(s, x) =~= seq![x] + s);
    } else {
        lemma_chars_lt_asym(s[0], x);
        lemma_chars_lt_irrefl(x);
        lemma_insert_name_at(s.drop_first(), x, p - 1);
        assert(s.drop_first().subrange(0, p - 1) =~= s.subrange(1, p));
        assert(s.drop_first().skip(p - 1) =~= s.skip(p));
        assert(seq![s[0]] + (s.subrange(1, p) + seq![x] + s.skip(p)) =~= s.subrange(0, p)
            + seq![x] + s.skip(p));
    }
}

/// Inserting a name that is already present changes nothing.
pub proof fn lemma_insert_name_present(s: Seq<Seq<char>>, x: Seq<char>, i: int)
    requires
        sorted_names(s),
        0 <= i < s.len(),
        s[i] == x,
    ensures
        insert_name(s, x) == s,
    decreases i,
{
    if i == 0 {
    } else {
        lemma_chars_lt_asym(s[0], x);
        lemma_chars_lt_irrefl(x);
        lemma_insert_name_present(s.drop_first(), x, i - 1);
        assert(seq![s[0]] + s.drop_first() =~= s);
    }
}

/// Insertion keeps the order.
pub proof fn lemma_insert_name_sorted(s: Seq<Seq<char>>, x: Seq<char>)
    requires
        sorted_names(s),
    ensures
        sorted_names(insert_name(s, x)),
    decreases s.len(),
{
    if s.len() == 0 {
    } else if x == s[0] {
    } else if chars_lt(x, s[0]) {
        let t = seq![x] + s;
        assert forall|i: int, j: int| 0 <= i < j < t.len() implies chars_lt(t[i], t[j]) by {
            if i == 0 {
                if j > 1 {
                    lemma_chars_lt_trans(x, s[0], s[j - 1]);
                }
            }
        }
    } else {
        lemma_chars_lt_total(x, s[0]);
        lemma_insert_name_sorted(s.drop_first(), x);
        lemma_insert_name_members(s.drop_first(), x);
        let r = insert_name(s.drop_first(), x);
        let t = seq![s[0]] + r;
        assert forall|i: int, j: int| 0 <= i < j < t.len() implies chars_lt(t[i], t[j]) by {
            if i == 0 {
                assert(t[j] == r[j - 1]);
                if r[j - 1] == x {
                } else {
                    let w = choose|w: int| 0 <= w < s.drop_first().len() && s.drop_first()[w] == r[
                        j - 1];
                    assert(chars_lt(s[0], s[w + 1]));
                }
            } else {
                assert(t[i] == r[i - 1] && t[j] == r[j - 1]);
            }
        }
    }
}

/// Each name of the insertion result is `x` or one of the old names.
pub proof fn lemma_insert_name_members(s: Seq<Seq<char>>, x: Seq<char>)
    ensures
        forall|i: int|
            0 <= i < insert_name(s, x).len() ==> insert_name(s, x)[i] == x || exists|w: int|
                0 <= w < s.len() && s[w] == #[trigger] insert_name(s, x)[i],
    decreases s.len(),
{
    if s.len() == 0 {
    } else if x == s[0] {
        assert forall|i: int| 0 <= i < s.len() implies insert_name(s, x)[i] == x || exists|w: int|
            0 <= w < s.len() && s[w] == insert_name(s, x)[i] by {
            assert(s[i] == insert_name(s, x)[i]);
        }
    } else if chars_lt(x, s[0]) {
        let t = seq![x] + s;
        assert forall|i: int| 0 <= i < t.len() implies t[i] == x || exists|w: int|
            0 <= w < s.len() && s[w] == t[i] by {
            if i > 0 {
                assert(s[i - 1] == t[i]);
            }
        }
    } else {
        lemma_insert_name_members(s.drop_first(), x);
        let r = insert_name(s.drop_first(), x);
        let t = seq![s[0]] + r;
        assert forall|i: int| 0 <= i < t.len() implies t[i] == x || exists|w: int|
            0 <= w < s.len() && s[w] == t[i] by {
            if i == 0 {
                assert(s[0] == t[0]);
            } else {
                assert(t[i] == r[i - 1]);
                if r[i - 1] != x {
                    let w = choose|w: int| 0 <= w < s.drop_first().len() && s.drop_first()[w] == r[
                        i - 1];
                    assert(s[w + 1] == t[i]);
                }
            }
        }
    }
}

/// A name is among the result exactly when it is `x` or was already present.
pub proof fn lemma_insert_name_contains(s: Seq<Seq<char>>, x: Seq<char>, y: Seq<char>)
    ensures
        insert_name(s, x).contains(y) <==> (y == x || s.contains(y)),
    decreases s.len(),
{
    if s.len() == 0 {
        assert(insert_name(s, x)[0] == x);
    } else if x == s[0] {
    } else if chars_lt(x, s[0]) {
        let t = seq![x] + s;
        if y == x || s.contains(y) {
            if y == x {
                assert(t[0] == y);
            } else {
                let w = choose|w: int| 0 <= w < s.len() && s[w] == y;
                assert(t[w + 1] == y);
            }
        }
        if t.contains(y) {
            let w = choose|w: int| 0 <= w < t.len() && t[w] == y;
            if w > 0 {
                assert(s[w - 1] == y);
            }
        }
    } else {
        lemma_insert_name_contains(s.drop_first(), x, y);
        let r = insert_name(s.drop_first(), x);
        let t = seq![s[0]] + r;
        if y == x || s.contains(y) {
            if y != x {
                let w = choose|w: int| 0 <= w < s.len() && s[w] == y;
                if w == 0 {
                    assert(t[0] == y);
                } else {
                    assert(s.drop_first()[w - 1] == y);
                    assert(s.drop_first().contains(y));
                    let u = choose|u: int| 0 <= u < r.len() && r[u] == y;
                    assert(t[u + 1] == y);
                }
            } else {
                let u = choose|u: int| 0 <= u < r.len() && r[u] == y;
                assert(t[u + 1] == y);
            }
        }
        if t.contains(y) {
            let w = choose|w: int| 0 <= w < t.len() && t[w] == y;
            if w == 0 {
                assert(s[0] == y);
            } else {
                assert(r[w - 1] == y);
                assert(r.contains(y));
                if y != x {
                    let u = choose|u: int| 0 <= u < s.drop_first().len() && s.drop_first()[u] == y;
                    assert(s[u + 1] == y);
                }
            }
        }
    }
}

/// The entries appear with strictly increasing keys.
pub open spec fn sorted_keys<V>(s: Seq<(Seq<char>, V)>) -> bool {
    forall|i: int, j: int| 0 <= i < j < s.len() ==> chars_lt(s[i].0, s[j].0)
}

/// Inserts an entry for a key that is not yet bound, at its place in the
/// order.
pub open spec fn insert_key<V>(s: Seq<(Seq<char>, V)>, k: Seq<char>, v: V) -> Seq<(Seq<char>, V)>
    decreases s.len(),
{
    if s.len() == 0 {
        seq![(k, v)]
    } else if chars_lt(k, s[0].0) {
        seq![(k, v)] + s
    } else {
        seq![s[0]] + insert_key(s.drop_first(), k, v)
    }
}

/// What the insertion of an entry is, stated over positions.
pub proof fn lemma_insert_key_at<V>(s: Seq<(Seq<char>, V)>, k: Seq<char>, v: V, p: int)
    requires
        0 <= p <= s.len(),
        forall|j: int| 0 <= j < p ==> chars_lt(s[j].0, k),
        p < s.len() ==> chars_lt(k, s[p].0),
    ensures
        insert_key(s, k, v) =~= s.subrange(0, p) + seq![(k, v)] + s.skip(p),
    decreases p,
{
    if p == 0 {
        if s.len() > 0 {
        } else {
        }
        assert(insert_key(s, k, v) =~= seq![(k, v)] + s);
    } else {
        lemma_chars_lt_asym(s[0].0, k);
        lemma_insert_key_at(s.drop_first(), k, v, p - 1);
        assert(s.drop_first().subrange(0, p - 1) =~= s.subrange(1, p));
        assert(s.drop_first().skip(p - 1) =~= s.skip(p));
        assert(seq![s[0]] + (s.subrange(1, p) + seq![(k, v)] + s.skip(p)) =~= s.subrange(0, p)
            + seq![(k, v)] + s.skip(p));
    }
}

/// Insertion of an unbound key keeps the order.
pub proof fn lemma_insert_key_sorted<V>(s: Seq<(Seq<char>, V)>, k: Seq<char>, v: V)
    requires
        sorted_keys(s),
        !alist_has(s, k),
    ensures
        sorted_keys(insert_key(s, k, v)),
    decreases s.len(),
{
    if s.len() == 0 {
    } else if chars_lt(k, s[0].0) {
        let t = seq![(k, v)] + s;
        assert forall|i: int, j: int| 0 <= i < j < t.len() implies chars_lt(t[i].0, t[j].0) by {
            if i == 0 && j > 1 {
                lemma_chars_lt_trans(k, s[0].0, s[j - 1].0);
            }
        }
    } else {
        lemma_chars_lt_total(k, s[0].0);
        assert(alist_get(s, k) == alist_get(s.drop_first(), k));
        lemma_insert_key_sorted(s.drop_first(), k, v);
        lemma_insert_key_members(s.drop_first(), k, v);
        let r = insert_key(s.drop_first(), k, v);
        let t = seq![s[0]] + r;
        assert forall|i: int, j: int| 0 <= i < j < t.len() implies chars_lt(t[i].0, t[j].0) by {
            if i == 0 {
                assert(t[j] == r[j - 1]);
                if r[j - 1].0 == k {
                    assert(chars_lt(s[0].0, k));
                } else {
                    let w = choose|w: int|
                        0 <= w < s.drop_first().len() && s.drop_first()[w] == r[j - 1];
                    assert(chars_lt(s[0].0, s[w + 1].0));
                }
            } else {
                assert(t[i] == r[i - 1] && t[j] == r[j - 1]);
            }
        }
    }
}

/// Each entry of the insertion result is the new entry or an old one.
pub proof fn lemma_insert_key_members<V>(s: Seq<(Seq<char>, V)>, k: Seq<char>, v: V)
    ensures
        forall|i: int|
            0 <= i < insert_key(s, k, v).len() ==> insert_key(s, k, v)[i] == (k, v) || exists|
                w: int,
            | 0 <= w < s.len() && s[w] == #[trigger] insert_key(s, k, v)[i],
    decreases s.len(),
{
    if s.len() == 0 {
    } else if chars_lt(k, s[0].0) {
        let t = seq![(k, v)] + s;
        assert forall|i: int| 0 <= i < t.len() implies t[i] == (k, v) || exists|w: int|
            0 <= w < s.len() && s[w] == t[i] by {
            if i > 0 {
                assert(s[i - 1] == t[i]);
            }
        }
    } else {
        lemma_insert_key_members(s.drop_first(), k, v);
        let r = insert_key(s.drop_first(), k, v);
        let t = seq![s[0]] + r;
        assert forall|i: int| 0 <= i < t.len() implies t[i] == (k, v) || exists|w: int|
            0 <= w < s.len() && s[w] == t[i] by {
            if i == 0 {
                assert(s[0] == t[0]);
            } else {
                assert(t[i] == r[i - 1]);
                if r[i - 1] != (k, v) {
                    let w = choose|w: int|
                        0 <= w < s.drop_first().len() && s.drop_first()[w] == r[i - 1];
                    assert(s[w + 1] == t[i]);
                }
            }
        }
    }
}

/// Inserts a fully-qualified name into a sorted vector of names, keeping the
/// order; a name already present leaves the vector as it was.
pub fn insert_child_name(v: &mut Vec<String>, x: String)
    requires
        sorted_names(names_model(old(v)@)),
    ensures
        names_model(final(v)@) == insert_name(names_model(old(v)@), x@),
        sorted_names(names_model(final(v)@)),
{
    let ghost m0 = names_model(v@);
    proof {
        lemma_insert_name_sorted(m0, x@);
    }
    let mut p: usize = 0;
    while p < v.len() && str_lt(v[p].as_str(), x.as_str())
        invariant
            p <= v@.len(),
            forall|j: int| 0 <= j < p ==> chars_lt(names_model(v@)[j], x@),
        decreases v@.len() - p,
    {
        p = p + 1;
    }
    if p < v.len() && str_eq(v[p].as_str(), x.as_str()) {
        proof {
            lemma_insert_name_present(m0, x@, p as int);
        }
        return ;
    }
    proof {
        if p < v@.len() {
            lemma_chars_lt_total(x@, m0[p as int]);
        }
        lemma_insert_name_at(m0, x@, p as int);
    }
    v.insert(p, x);
    proof {
        assert(names_model(v@) =~= m0.subrange(0, p as int) + seq![x@] + m0.skip(p as int));
    }
}

/// Inserts an entry for an unbound label into a sorted keyed vector, keeping
/// the order.
pub fn insert_data_entry<V: View>(v: &mut Vec<(String, V)>, k: String, val: V)
    requires
        sorted_keys(pair_model(old(v)@)),
        !alist_has(pair_model(old(v)@), k@),
    ensures
        pair_model(final(v)@) == insert_key(pair_model(old(v)@), k@, val@),
        sorted_keys(pair_model(final(v)@)),
{
    let ghost m0 = pair_model(v@);
    proof {
        lemma_insert_key_sorted(m0, k@, val@);
        assert forall|j: int| 0 <= j < m0.len() implies m0[j].0 != k@ by {
            if m0[j].0 == k@ {
                lemma_alist_has_of_index(m0, j);
            }
        }
    }
    let mut p: usize = 0;
    while p < v.len() && str_lt(v[p].0.as_str(), k.as_str())
        invariant
            p <= v@.len(),
            forall|j: int| 0 <= j < p ==> chars_lt(pair_model(v@)[j].0, k@),
        decreases v@.len() - p,
    {
        p = p + 1;
    }
    proof {
        if p < v@.len() {
            lemma_chars_lt_total(k@, m0[p as int].0);
        }
        lemma_insert_key_at(m0, k@, val@, p as int);
    }
    v.insert(p, (k, val));
    proof {
        assert(pair_model(v@) =~= m0.subrange(0, p as int) + seq![(k@, val@)] + m0.skip(p as int));
    }
}

} // verus!
