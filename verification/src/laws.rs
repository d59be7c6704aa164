//! The structural laws of the tree: a well-formed index names every node
//! consistently, connects every node to the root, survives any sequence of
//! well-formed, causally-ordered mints, and treats a re-delivered mint as
//! an overwrite, not a no-op.
use vstd::prelude::*;
use crate::alists::{alist_get, alist_has, alist_put, lemma_alist_get_put_other,
    lemma_alist_get_put_same, lemma_alist_put_shape};
use crate::node::{DataKeyModel, NodeModel, full_name_of, node_wf};
use crate::sorted::{insert_name, lemma_insert_name_contains, lemma_insert_name_sorted};
use crate::spec_root_hash;
use crate::state::{StateModel, spec_mint, spec_parent_path, state_wf};

verus! {

/// The fully-qualified name of a node's parent: nothing for a child of the
/// root, otherwise the node's ancestry chain without its leading dot.
pub open spec fn parent_full(n: NodeModel) -> Seq<char> {
    if n.parent_path.len() == 0 {
        Seq::<char>::empty()
    } else {
        n.parent_path.skip(1)
    }
}

/// One entry's place in the tree. The root carries the empty name and
/// chain. Every other node has a non-empty label, its fully-qualified name
/// bound to its hash in the lookup, and a parent — found through the
/// lookup — that lists it among its children and whose position its chain
/// records.
pub open spec fn node_linked(m: StateModel, h: Seq<char>, n: NodeModel) -> bool {
    if h == spec_root_hash() {
        n.name.len() == 0 && n.parent_path.len() == 0
    } else {
        &&& n.name.len() > 0
        &&& alist_get(m.names, full_name_of(n)) == Option::Some(h)
        &&& match alist_get(m.names, parent_full(n)) {
            Option::Some(ph) => match alist_get(m.index, ph) {
                Option::Some(pn) => pn.child_names.contains(full_name_of(n)) && n.parent_path
                    == spec_parent_path(pn, ph),
                Option::None => false,
            },
            Option::None => false,
        }
    }
}

/// The whole tree's well-formedness: internally consistent state, the root
/// present under the well-known hash with the empty name bound to it, and
/// every node linked into the tree.
pub open spec fn tree_wf(m: StateModel) -> bool {
    &&& state_wf(m)
    &&& match alist_get(m.index, spec_root_hash()) {
        Option::Some(root) => root.name.len() == 0 && root.parent_path.len() == 0,
        Option::None => false,
    }
    &&& alist_get(m.names, Seq::<char>::empty()) == Option::Some(spec_root_hash())
    &&& forall|i: int|
        0 <= i < m.index.len() ==> node_linked(m, #[trigger] m.index[i].0, m.index[i].1)
}

/// Whether `h` reaches the root through at most `k` parent links, each
/// confirmed by the parent's own child list.
pub open spec fn reaches_root(m: StateModel, h: Seq<char>, k: nat) -> bool
    decreases k,
{
    h == spec_root_hash() || (k > 0 && match alist_get(m.index, h) {
        Option::Some(n) => match alist_get(m.names, parent_full(n)) {
            Option::Some(ph) => match alist_get(m.index, ph) {
                Option::Some(pn) => pn.child_names.contains(full_name_of(n)) && reaches_root(
                    m,
                    ph,
                    (k - 1) as nat,
                ),
                Option::None => false,
            },
            Option::None => false,
        },
        Option::None => false,
    })
}

/// More budget never hurts.
pub proof fn lemma_reaches_root_mono(m: StateModel, h: Seq<char>, k: nat, k2: nat)
    requires
        reaches_root(m, h, k),
        k <= k2,
    ensures
        reaches_root(m, h, k2),
    decreases k,
{
    if h != spec_root_hash() {
        let n = alist_get(m.index, h)->0;
        let ph = alist_get(m.names, parent_full(n))->0;
        lemma_reaches_root_mono(m, ph, (k - 1) as nat, (k2 - 1) as nat);
    }
}

/// In a well-formed tree every node reaches the root: each parent link
/// shortens the fully-qualified name, so the chain can only end at the
/// root.
pub proof fn lemma_wf_reaches_root(m: StateModel, h: Seq<char>)
    requires
        tree_wf(m),
        alist_has(m.index, h),
    ensures
        reaches_root(m, h, full_name_of(alist_get(m.index, h)->0).len() + 1),
    decreases full_name_of(alist_get(m.index, h)->0).len(),
{
    if h != spec_root_hash() {
        let n = alist_get(m.index, h)->0;
        crate::alists::lemma_alist_has_to_index(m.index, h);
        let i = choose|i: int|
            0 <= i < m.index.len() && m.index[i].0 == h && alist_get(m.index, h) == Option::Some(
                m.index[i].1,
            );
        assert(node_linked(m, h, n));
        let ph = alist_get(m.names, parent_full(n))->0;
        let pn = alist_get(m.index, ph)->0;
        assert(alist_has(m.index, ph));
        if ph == spec_root_hash() {
            assert(reaches_root(m, ph, full_name_of(n).len() as nat));
        } else {
            crate::alists::lemma_alist_has_to_index(m.index, ph);
            let w = choose|w: int|
                0 <= w < m.index.len() && m.index[w].0 == ph && alist_get(m.index, ph)
                    == Option::Some(m.index[w].1);
            assert(node_linked(m, ph, pn));
            // The parent's fully-qualified name is the child's chain less
            // its leading dot, so it is strictly shorter.
            assert(n.parent_path == spec_parent_path(pn, ph));
            proof_parent_path_len(pn, ph);
            assert(parent_full(n) =~= full_name_of(pn));
            lemma_wf_reaches_root(m, ph);
            lemma_reaches_root_mono(
                m,
                ph,
                full_name_of(pn).len() + 1,
                full_name_of(n).len() as nat,
            );
        }
        assert(reaches_root(m, h, full_name_of(n).len() + 1));
    }
}

/// The chain of a child under a non-root parent is a dot and the parent's
/// fully-qualified name.
proof fn proof_parent_path_len(pn: NodeModel, ph: Seq<char>)
    requires
        ph != spec_root_hash(),
    ensures
        spec_parent_path(pn, ph).len() == 1 + full_name_of(pn).len(),
        spec_parent_path(pn, ph).skip(1) =~= full_name_of(pn),
{
    reveal_strlit(".");
    assert(spec_parent_path(pn, ph) == "."@ + pn.name + pn.parent_path);
    assert(("."@ + pn.name + pn.parent_path).skip(1) =~= pn.name + pn.parent_path);
}

/// Re-delivering a mint for a child already present is no no-op: the
/// child's hash is rebound to a fresh node, and whatever children or
/// annotations the old node held are gone from it.
pub proof fn lemma_remint_overwrites(m: StateModel, p: Seq<char>, c: Seq<char>, l: Seq<char>)
    requires
        state_wf(m),
        alist_has(m.index, p),
    ensures
        match alist_get(spec_mint(m, p, c, l).index, c) {
            Option::Some(n) => n.child_names.len() == 0 && n.data_keys.len() == 0 && n.name == l,
            Option::None => false,
        },
{
    let pn = alist_get(m.index, p)->0;
    let pp = spec_parent_path(pn, p);
    let full = l + pp;
    let pn2 = NodeModel {
        parent_path: pn.parent_path,
        name: pn.name,
        child_names: insert_name(pn.child_names, full),
        data_keys: pn.data_keys,
    };
    let child = NodeModel {
        parent_path: pp,
        name: l,
        child_names: Seq::<Seq<char>>::empty(),
        data_keys: Seq::<(Seq<char>, DataKeyModel)>::empty(),
    };
    lemma_alist_get_put_same(alist_put(m.index, p, pn2), c, child);
    assert(spec_mint(m, p, c, l).index == alist_put(alist_put(m.index, p, pn2), c, child));
}

/// One well-formed, causally-fresh mint: a non-empty label, a child hash
/// that is not the root's and not yet indexed, and — when the parent is
/// indexed — a fully-qualified name not yet bound.
pub open spec fn mint_ev_ok(m: StateModel, p: Seq<char>, c: Seq<char>, l: Seq<char>) -> bool {
    &&& l.len() > 0
    &&& c != spec_root_hash()
    &&& !alist_has(m.index, c)
    &&& match alist_get(m.index, p) {
        Option::Some(pn) => !alist_has(m.names, l + spec_parent_path(pn, p)),
        Option::None => true,
    }
}

/// A mint of a fresh child keeps the tree well formed.
pub proof fn lemma_mint_preserves_tree_wf(m: StateModel, p: Seq<char>, c: Seq<char>, l: Seq<char>)
    requires
        tree_wf(m),
        mint_ev_ok(m, p, c, l),
    ensures
        tree_wf(spec_mint(m, p, c, l)),
{
    reveal_strlit(".");
    if alist_get(m.index, p) is Some {
        let pn = alist_get(m.index, p)->0;
        let pp = spec_parent_path(pn, p);
        let full = l + pp;
        let pn2 = NodeModel {
            parent_path: pn.parent_path,
            name: pn.name,
            child_names: insert_name(pn.child_names, full),
            data_keys: pn.data_keys,
        };
        let child = NodeModel {
            parent_path: pp,
            name: l,
            child_names: Seq::<Seq<char>>::empty(),
            data_keys: Seq::<(Seq<char>, DataKeyModel)>::empty(),
        };
        let i1 = alist_put(m.index, p, pn2);
        let i2 = alist_put(i1, c, child);
        let n2 = alist_put(m.names, full, c);
        let m2 = spec_mint(m, p, c, l);
        assert(m2.index == i2 && m2.names == n2 && m2.user_facing_api_keys
            == m.user_facing_api_keys && m2.remote_api_keys == m.remote_api_keys);

        // The two puts: the parent's entry replaced in place, the child's
        // appended; keys stay unique throughout.
        lemma_alist_put_shape(m.index, p, pn2);
        assert forall|j: int| 0 <= j < m.index.len() implies m.index[j].0 != c by {
            if m.index[j].0 == c {
                crate::alists::lemma_alist_has_of_index(m.index, j);
            }
        }
        let wp = choose|wp: int|
            0 <= wp < m.index.len() && m.index[wp].0 == p && i1 == m.index.update(wp, (p, pn2));
        assert forall|j: int| 0 <= j < i1.len() implies i1[j].0 != c by {
            if j != wp {
                assert(i1[j] == m.index[j]);
            }
        }
        crate::alists::lemma_alist_get_absent(i1, c);
        lemma_alist_put_shape(i1, c, child);
        assert(i2 =~= i1.push((c, child)));
        lemma_alist_put_shape(m.names, full, c);

        // Lookups in the new state.
        lemma_alist_get_put_same(m.names, full, c);
        lemma_alist_get_put_same(i1, c, child);
        assert(alist_get(i1, p) == Option::Some(pn2)) by {
            lemma_alist_get_put_same(m.index, p, pn2);
        }
        assert(alist_get(i2, p) == Option::Some(pn2)) by {
            lemma_alist_get_put_other(i1, c, child, p);
        }

        // Any name that the old lookup binds is not the fresh name, so its
        // binding carries over.
        assert(alist_get(m.names, full) is None);
        assert forall|k: Seq<char>| k != full implies alist_get(n2, k) == alist_get(
            m.names,
            k,
        ) by {
            lemma_alist_get_put_other(m.names, full, c, k);
        }
        assert forall|k: Seq<char>| k != c && k != p implies alist_get(i2, k) == alist_get(
            m.index,
            k,
        ) by {
            lemma_alist_get_put_other(i1, c, child, k);
            lemma_alist_get_put_other(m.index, p, pn2, k);
        }

        // Internal consistency: unique keys, well-formed nodes.
        let wpi = choose|wpi: int|
            0 <= wpi < m.index.len() && m.index[wpi].0 == p && alist_get(m.index, p)
                == Option::Some(m.index[wpi].1);
        crate::alists::lemma_alist_has_to_index(m.index, p);
        assert(node_wf(pn)) by {
            crate::alists::lemma_alist_has_to_index(m.index, p);
            let w = choose|w: int|
                0 <= w < m.index.len() && m.index[w].0 == p && alist_get(m.index, p)
                    == Option::Some(m.index[w].1);
            assert(node_wf(m.index[w].1));
        }
        lemma_insert_name_sorted(pn.child_names, full);
        assert(node_wf(pn2));
        assert(node_wf(child));
        crate::state::lemma_put_preserves_nodes_wf(m.index, p, pn2);
        crate::state::lemma_put_preserves_nodes_wf(i1, c, child);
        assert(state_wf(m2));

        // The root's entry and the empty name's binding carry over.
        assert(full.len() > 0);
        assert(alist_get(n2, Seq::<char>::empty()) == Option::Some(spec_root_hash()));
        if p == spec_root_hash() {
            assert(alist_get(i2, spec_root_hash()) == Option::Some(pn2));
        } else {
            assert(alist_get(i2, spec_root_hash()) == alist_get(m.index, spec_root_hash()));
        }

        // The parent's position in the tree, as the old state records it.
        assert(node_linked(m, p, pn)) by {
            assert(node_linked(m, m.index[wpi].0, m.index[wpi].1));
        }

        // Every entry of the new index is linked.
        assert forall|i: int| 0 <= i < i2.len() implies node_linked(m2, i2[i].0, i2[i].1) by {
            if i == i2.len() - 1 {
                // The fresh child.
                assert(i2[i] == (c, child));
                assert(full_name_of(child) =~= full);
                if p == spec_root_hash() {
                    assert(parent_full(child) =~= Seq::<char>::empty());
                    assert(alist_get(n2, parent_full(child)) == Option::Some(spec_root_hash()));
                    lemma_insert_name_contains(pn.child_names, full, full);
                    assert(node_linked(m2, c, child));
                } else {
                    proof_parent_path_len(pn, p);
                    assert(parent_full(child) =~= full_name_of(pn));
                    assert(alist_get(m.names, full_name_of(pn)) == Option::Some(p));
                    assert(alist_get(n2, full_name_of(pn)) == Option::Some(p));
                    lemma_insert_name_contains(pn.child_names, full, full);
                    assert(spec_parent_path(pn2, p) == pp);
                    assert(node_linked(m2, c, child));
                }
            } else {
                let h = i2[i].0;
                let n_old = m.index[i].1;
                let n_new = i2[i].1;
                assert(i2[i] == i1[i]);
                assert(h == m.index[i].0);
                assert(node_linked(m, h, n_old));
                assert(n_new == if i == wp {
                    pn2
                } else {
                    n_old
                });
                if h == spec_root_hash() {
                    assert(node_linked(m2, h, n_new));
                } else {
                    // The node's own name binding carries over.
                    assert(full_name_of(n_new) == full_name_of(n_old));
                    assert(alist_get(m.names, full_name_of(n_old)) == Option::Some(h));
                    assert(alist_get(n2, full_name_of(n_old)) == Option::Some(h));
                    // Its parent link carries over, through the reworked
                    // parent node if need be.
                    let pf = parent_full(n_old);
                    assert(parent_full(n_new) == pf);
                    let ph = alist_get(m.names, pf)->0;
                    assert(alist_get(m.names, pf) == Option::Some(ph));
                    assert(alist_get(n2, pf) == Option::Some(ph));
                    let pgn = alist_get(m.index, ph)->0;
                    assert(alist_get(m.index, ph) == Option::Some(pgn));
                    assert(ph != c) by {
                        if ph == c {
                            assert(alist_has(m.index, c));
                        }
                    }
                    if ph == p {
                        assert(alist_get(i2, ph) == Option::Some(pn2));
                        assert(pgn == pn);
                        lemma_insert_name_contains(pn.child_names, full, full_name_of(n_old));
                        assert(pn2.child_names.contains(full_name_of(n_new)));
                        assert(n_new.parent_path == spec_parent_path(pn2, ph));
                        assert(node_linked(m2, h, n_new));
                    } else {
                        assert(alist_get(i2, ph) == alist_get(m.index, ph));
                        assert(node_linked(m2, h, n_new));
                    }
                }
            }
        }
        assert(tree_wf(m2));
    }
}

/// A sequence of mint events, each well formed and causally fresh in the
/// state left by those before it.
pub open spec fn mints_ok(m: StateModel, evs: Seq<(Seq<char>, Seq<char>, Seq<char>)>) -> bool
    decreases evs.len(),
{
    evs.len() == 0 || (mint_ev_ok(m, evs[0].0, evs[0].1, evs[0].2) && mints_ok(
        spec_mint(m, evs[0].0, evs[0].1, evs[0].2),
        evs.drop_first(),
    ))
}

/// The state after a sequence of mints, each a `(parent, child, label)`
/// triple, applied in order.
pub open spec fn apply_mints(m: StateModel, evs: Seq<(Seq<char>, Seq<char>, Seq<char>)>) -> StateModel
    decreases evs.len(),
{
    if evs.len() == 0 {
        m
    } else {
        apply_mints(spec_mint(m, evs[0].0, evs[0].1, evs[0].2), evs.drop_first())
    }
}

/// Any sequence of well-formed, causally-ordered mints keeps the tree well
/// formed.
pub proof fn lemma_mint_sequence_tree_wf(m: StateModel, evs: Seq<(Seq<char>, Seq<char>, Seq<char>)>)
    requires
        tree_wf(m),
        mints_ok(m, evs),
    ensures
        tree_wf(apply_mints(m, evs)),
    decreases evs.len(),
{
    if evs.len() > 0 {
        lemma_mint_preserves_tree_wf(m, evs[0].0, evs[0].1, evs[0].2);
        lemma_mint_sequence_tree_wf(spec_mint(m, evs[0].0, evs[0].1, evs[0].2), evs.drop_first());
    }
}

/// The freshly seeded state — the root alone, its empty name bound to the
/// root hash — is a well-formed tree.
pub proof fn lemma_initial_tree_wf(m: StateModel)
    requires
        m.index == seq![
            (
                spec_root_hash(),
                NodeModel {
                    parent_path: Seq::<char>::empty(),
                    name: Seq::<char>::empty(),
                    child_names: Seq::<Seq<char>>::empty(),
                    data_keys: Seq::<(Seq<char>, DataKeyModel)>::empty(),
                },
            ),
        ],
        m.names == seq![(Seq::<char>::empty(), spec_root_hash())],
        m.remote_api_keys == Seq::<(Seq<char>, Seq<char>)>::empty(),
    ensures
        tree_wf(m),
{
    assert(alist_get(m.index, spec_root_hash()) == Option::Some(m.index[0].1));
    assert(alist_get(m.names, Seq::<char>::empty()) == Option::Some(spec_root_hash()));
    assert forall|i: int| 0 <= i < m.index.len() implies node_linked(
        m,
        m.index[i].0,
        m.index[i].1,
    ) by {
        assert(i == 0);
    }
}

/// After any sequence of well-formed, causally-ordered mints from a
/// well-formed tree: each node's fully-qualified name is the lookup's key
/// for its hash, and each node reaches the root through child links.
pub proof fn lemma_mint_sequence_names_and_reach(
    m: StateModel,
    evs: Seq<(Seq<char>, Seq<char>, Seq<char>)>,
    h: Seq<char>,
)
    requires
        tree_wf(m),
        mints_ok(m, evs),
        alist_has(apply_mints(m, evs).index, h),
        h != spec_root_hash(),
    ensures
        alist_get(
            apply_mints(m, evs).names,
            full_name_of(alist_get(apply_mints(m, evs).index, h)->0),
        ) == Option::Some(h),
        reaches_root(
            apply_mints(m, evs),
            h,
            full_name_of(alist_get(apply_mints(m, evs).index, h)->0).len() + 1,
        ),
{
    lemma_mint_sequence_tree_wf(m, evs);
    let m2 = apply_mints(m, evs);
    crate::alists::lemma_alist_has_to_index(m2.index, h);
    let i = choose|i: int|
        0 <= i < m2.index.len() && m2.index[i].0 == h && alist_get(m2.index, h) == Option::Some(
            m2.index[i].1,
        );
    assert(node_linked(m2, m2.index[i].0, m2.index[i].1));
    lemma_wf_reaches_root(m2, h);
}

} // verus!
