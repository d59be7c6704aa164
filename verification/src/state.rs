//! The namespace index: a hash-addressed registry of nodes, with a derived
//! lookup from fully-qualified dotted names to namehashes, and the three
//! mutations that the on-chain event log drives.
use vstd::prelude::*;
use vstd::string::StringExecFns;
use crate::alists::{alist_get, alist_has, alist_put, find_entry, keys_unique,
    lemma_alist_get_absent, lemma_alist_get_at, lemma_alist_put_found, lemma_alist_put_shape,
    pair_model, put_entry};
use crate::errors::IndexError;
use crate::node::{DataKey, DataKeyModel, Node, NodeModel, node_wf};
use crate::sorted::{insert_child_name, insert_data_entry, insert_key, lemma_insert_key_members,
    names_model, sorted_names};
use crate::spec_root_hash;
use crate::strs::str_eq;

verus! {

/// The whole application state: the namespace index, its derived name
/// lookup, and the gateway's key stores.
#[derive(Debug)]
pub struct ResellerState {
    /// Lookup table from fully-qualified name to namehash.
    pub names: Vec<(String, String)>,
    /// Map from a namehash to its corresponding node.
    pub index: Vec<(String, Node)>,
    /// The user-facing API keys.
    pub user_facing_api_keys: Vec<String>,
    /// The remote API keys, one per provider.
    pub remote_api_keys: Vec<(String, String)>,
}

/// The mathematical value of the state.
#[verifier::ext_equal]
pub struct StateModel {
    pub names: Seq<(Seq<char>, Seq<char>)>,
    pub index: Seq<(Seq<char>, NodeModel)>,
    pub user_facing_api_keys: Seq<Seq<char>>,
    pub remote_api_keys: Seq<(Seq<char>, Seq<char>)>,
}

impl View for ResellerState {
    type V = StateModel;

    open spec fn view(&self) -> StateModel {
        StateModel {
            names: pair_model(self.names@),
            index: pair_model(self.index@),
            user_facing_api_keys: names_model(self.user_facing_api_keys@),
            remote_api_keys: pair_model(self.remote_api_keys@),
        }
    }
}

/// The state's internal consistency: each lookup table binds a key at most
/// once, and every node is itself well formed.
pub open spec fn state_wf(m: StateModel) -> bool {
    &&& keys_unique(m.index)
    &&& keys_unique(m.names)
    &&& keys_unique(m.remote_api_keys)
    &&& forall|i: int| 0 <= i < m.index.len() ==> node_wf(#[trigger] m.index[i].1)
}

/// The ancestry chain of a child minted under `parent`: empty under the
/// root, otherwise the parent's own label and chain behind a leading dot.
pub open spec fn spec_parent_path(parent: NodeModel, parent_hash: Seq<char>) -> Seq<char> {
    if parent_hash == spec_root_hash() {
        Seq::<char>::empty()
    } else {
        "."@ + parent.name + parent.parent_path
    }
}

/// What a mint does to the state. With the parent absent, nothing: the state
/// is returned unchanged. Otherwise the fully-qualified name of the child
/// joins the parent's children, the name lookup binds it to the child's
/// hash, and a fresh empty node is bound to the child's hash — replacing any
/// node that hash held before.
pub open spec fn spec_mint(
    m: StateModel,
    parent_hash: Seq<char>,
    child_hash: Seq<char>,
    label: Seq<char>,
) -> StateModel {
    match alist_get(m.index, parent_hash) {
        Option::None => m,
        Option::Some(parent) => {
            let pp = spec_parent_path(parent, parent_hash);
            let full = label + pp;
            let parent2 = NodeModel {
                parent_path: parent.parent_path,
                name: parent.name,
                child_names: crate::sorted::insert_name(parent.child_names, full),
                data_keys: parent.data_keys,
            };
            let child = NodeModel {
                parent_path: pp,
                name: label,
                child_names: Seq::<Seq<char>>::empty(),
                data_keys: Seq::<(Seq<char>, DataKeyModel)>::empty(),
            };
            StateModel {
                names: alist_put(m.names, full, child_hash),
                index: alist_put(alist_put(m.index, parent_hash, parent2), child_hash, child),
                user_facing_api_keys: m.user_facing_api_keys,
                remote_api_keys: m.remote_api_keys,
            }
        },
    }
}

/// The value bound to `label` on the node at `parent_hash`, if both exist.
pub open spec fn spec_data_key_of(m: StateModel, parent_hash: Seq<char>, label: Seq<char>) -> Option<
    DataKeyModel,
> {
    match alist_get(m.index, parent_hash) {
        Option::None => Option::None,
        Option::Some(parent) => alist_get(parent.data_keys, label),
    }
}

/// Whether `label` already holds an immutable fact on that node.
pub open spec fn spec_label_is_fact(m: StateModel, parent_hash: Seq<char>, label: Seq<char>) -> bool {
    match spec_data_key_of(m, parent_hash, label) {
        Option::Some(DataKeyModel::Fact(_)) => true,
        _ => false,
    }
}

/// Whether `label` holds anything on that node.
pub open spec fn spec_label_present(m: StateModel, parent_hash: Seq<char>, label: Seq<char>) -> bool {
    spec_data_key_of(m, parent_hash, label) is Some
}

/// What a note does to the state. With the parent absent, or the label
/// holding a fact, nothing. A new label starts a one-version history; an
/// existing note gains one more version at the end.
pub open spec fn spec_note(
    m: StateModel,
    parent_hash: Seq<char>,
    label: Seq<char>,
    data: Seq<u8>,
) -> StateModel {
    match alist_get(m.index, parent_hash) {
        Option::None => m,
        Option::Some(parent) => match alist_get(parent.data_keys, label) {
            Option::Some(DataKeyModel::Fact(_)) => m,
            Option::Some(DataKeyModel::Note(ns)) => state_with_node(
                m,
                parent_hash,
                node_with_data_keys(
                    parent,
                    alist_put(parent.data_keys, label, DataKeyModel::Note(ns.push(data))),
                ),
            ),
            Option::None => state_with_node(
                m,
                parent_hash,
                node_with_data_keys(
                    parent,
                    insert_key(parent.data_keys, label, DataKeyModel::Note(seq![data])),
                ),
            ),
        },
    }
}

/// What a fact does to the state. With the parent absent, or the label
/// already bound to anything, nothing: a fact is written at most once.
pub open spec fn spec_fact(
    m: StateModel,
    parent_hash: Seq<char>,
    label: Seq<char>,
    data: Seq<u8>,
) -> StateModel {
    match alist_get(m.index, parent_hash) {
        Option::None => m,
        Option::Some(parent) => match alist_get(parent.data_keys, label) {
            Option::Some(_) => m,
            Option::None => state_with_node(
                m,
                parent_hash,
                node_with_data_keys(
                    parent,
                    insert_key(parent.data_keys, label, DataKeyModel::Fact(data)),
                ),
            ),
        },
    }
}

/// The node with its annotations replaced.
pub open spec fn node_with_data_keys(n: NodeModel, dk: Seq<(Seq<char>, DataKeyModel)>) -> NodeModel {
    NodeModel { parent_path: n.parent_path, name: n.name, child_names: n.child_names, data_keys: dk }
}

/// The state with one node rebound.
pub open spec fn state_with_node(m: StateModel, hash: Seq<char>, n: NodeModel) -> StateModel {
    StateModel {
        names: m.names,
        index: alist_put(m.index, hash, n),
        user_facing_api_keys: m.user_facing_api_keys,
        remote_api_keys: m.remote_api_keys,
    }
}

/// A put of a well-formed node among well-formed nodes leaves every node
/// well formed.
pub proof fn lemma_put_preserves_nodes_wf(
    s: Seq<(Seq<char>, NodeModel)>,
    k: Seq<char>,
    v: NodeModel,
)
    requires
        keys_unique(s),
        forall|i: int| 0 <= i < s.len() ==> node_wf(#[trigger] s[i].1),
        node_wf(v),
    ensures
        forall|i: int|
            0 <= i < alist_put(s, k, v).len() ==> node_wf(#[trigger] alist_put(s, k, v)[i].1),
{
    lemma_alist_put_shape(s, k, v);
    let t = alist_put(s, k, v);
    if alist_has(s, k) {
        let w = choose|w: int| 0 <= w < s.len() && s[w].0 == k && t == s.update(w, (k, v));
        assert forall|i: int| 0 <= i < t.len() implies node_wf(t[i].1) by {
            if i != w {
                assert(t[i] == s[i]);
            }
        }
    } else {
        assert forall|i: int| 0 <= i < t.len() implies node_wf(t[i].1) by {
            if i < s.len() {
                assert(t[i] == s[i]);
            }
        }
    }
}

impl ResellerState {
    /// The state's internal consistency.
    pub open spec fn wf(&self) -> bool {
        state_wf(self@)
    }

    /// The state at process start: only the root node, under the well-known
    /// root hash, with the empty name bound to it; no API keys.
    pub fn new() -> (r: ResellerState)
        ensures
            r@.index == seq![
                (
                    spec_root_hash(),
                    NodeModel {
                        parent_path: Seq::<char>::empty(),
                        name: Seq::<char>::empty(),
                        child_names: Seq::<Seq<char>>::empty(),
                        data_keys: Seq::<(Seq<char>, DataKeyModel)>::empty(),
                    },
                ),
            ],
            r@.names == seq![(Seq::<char>::empty(), spec_root_hash())],
            r@.user_facing_api_keys == Seq::<Seq<char>>::empty(),
            r@.remote_api_keys == Seq::<(Seq<char>, Seq<char>)>::empty(),
            r.wf(),
            crate::laws::tree_wf(r@),
    {
        let mut names: Vec<(String, String)> = Vec::new();
        names.push((String::new(), crate::root_hash()));
        let mut index: Vec<(String, Node)> = Vec::new();
        index.push((crate::root_hash(), Node::empty(String::new(), String::new())));
        let r = ResellerState {
            names,
            index,
            user_facing_api_keys: Vec::new(),
            remote_api_keys: Vec::new(),
        };
        proof {
            assert(r@.names =~= seq![(Seq::<char>::empty(), spec_root_hash())]);
            assert(r@.index =~~= seq![
                (
                    spec_root_hash(),
                    NodeModel {
                        parent_path: Seq::<char>::empty(),
                        name: Seq::<char>::empty(),
                        child_names: Seq::<Seq<char>>::empty(),
                        data_keys: Seq::<(Seq<char>, DataKeyModel)>::empty(),
                    },
                ),
            ]);
            assert(r@.user_facing_api_keys =~= Seq::<Seq<char>>::empty());
            assert(r@.remote_api_keys =~= Seq::<(Seq<char>, Seq<char>)>::empty());
            crate::laws::lemma_initial_tree_wf(r@);
        }
        r
    }

    /// Mints a new entry under an existing parent. The parent must already
    /// be indexed: with it absent nothing changes and `ParentNotFound` comes
    /// back. On success the child's fully-qualified name is computed from
    /// the parent's chain, the parent's children and the name lookup gain
    /// it, and a fresh node is bound to the child's hash.
    pub fn add_mint(&mut self, parent_hash: &str, child_hash: String, name: String) -> (r: Result<
        (),
        IndexError,
    >)
        requires
            old(self).wf(),
        ensures
            final(self)@ == spec_mint(old(self)@, parent_hash@, child_hash@, name@),
            final(self).wf(),
            alist_has(old(self)@.index, parent_hash@) ==> r == Ok::<(), IndexError>(()),
            !alist_has(old(self)@.index, parent_hash@) ==> r == Err::<(), IndexError>(
                IndexError::ParentNotFound,
            ),
    {
        let ghost m0 = self@;
        let pi = match find_entry(&self.index, parent_hash) {
            Option::Some(i) => i,
            Option::None => {
                proof {
                    lemma_alist_get_absent(m0.index, parent_hash@);
                }
                return Err(IndexError::ParentNotFound);
            },
        };
        proof {
            lemma_alist_get_at(m0.index, parent_hash@, pi as int);
        }
        let (pkey, mut pnode) = self.index.remove(pi);
        let ghost parent = pnode@;

        // The ancestry chain of the new child, per the parent's position.
        let mut parent_path = String::new();
        if !str_eq(parent_hash, "0x0000000000000000000000000000000000000000000000000000000000000000")
        {
            parent_path.append(".");
            parent_path.append(pnode.name.as_str());
            parent_path.append(pnode.parent_path.as_str());
        }
        proof {
            assert(parent_path@ =~= spec_parent_path(parent, parent_hash@));
        }

        let mut full_name = name.clone();
        full_name.append(parent_path.as_str());

        insert_child_name(&mut pnode.child_names, full_name.clone());
        self.index.insert(pi, (pkey, pnode));
        let ghost parent2 = NodeModel {
            parent_path: parent.parent_path,
            name: parent.name,
            child_names: crate::sorted::insert_name(parent.child_names, full_name@),
            data_keys: parent.data_keys,
        };
        proof {
            assert(self.index@ =~= old(self).index@.update(pi as int, self.index@[pi as int]));
            assert(pair_model(self.index@) =~= m0.index.update(pi as int, (parent_hash@, parent2)));
            lemma_alist_put_found(m0.index, parent_hash@, parent2, pi as int);
            lemma_alist_put_shape(m0.index, parent_hash@, parent2);
            assert(pair_model(self.index@) == alist_put(m0.index, parent_hash@, parent2));
        }
        let ghost index1 = pair_model(self.index@);

        put_entry(&mut self.names, full_name, child_hash.clone());
        let fresh = Node::empty(parent_path, name);
        let ghost child = fresh@;
        put_entry(&mut self.index, child_hash, fresh);

        proof {
            assert(self@ =~~= spec_mint(m0, parent_hash@, child_hash@, name@));
            // Well-formedness: both puts bind well-formed nodes.
            assert(node_wf(parent2));
            lemma_put_preserves_nodes_wf(m0.index, parent_hash@, parent2);
            lemma_put_preserves_nodes_wf(index1, child_hash@, child);
        }
        Ok(())
    }

    /// Appends one version to a note on an existing entry. The parent must
    /// be indexed (`ParentNotFound` otherwise), and the label must not hold
    /// a fact (`KindMismatch` otherwise); in either failure the state is
    /// left exactly as it was. A new label starts its history with this one
    /// version.
    pub fn add_note(&mut self, parent_hash: &str, note_label: String, data: Vec<u8>) -> (r: Result<
        (),
        IndexError,
    >)
        requires
            old(self).wf(),
        ensures
            final(self)@ == spec_note(old(self)@, parent_hash@, note_label@, data@),
            final(self).wf(),
            !alist_has(old(self)@.index, parent_hash@) ==> r == Err::<(), IndexError>(
                IndexError::ParentNotFound,
            ),
            spec_label_is_fact(old(self)@, parent_hash@, note_label@) ==> r == Err::<(),
                IndexError,
            >(IndexError::KindMismatch),
            alist_has(old(self)@.index, parent_hash@) && !spec_label_is_fact(
                old(self)@,
                parent_hash@,
                note_label@,
            ) ==> r == Ok::<(), IndexError>(()),
    {
        let ghost m0 = self@;
        let pi = match find_entry(&self.index, parent_hash) {
            Option::Some(i) => i,
            Option::None => {
                proof {
                    lemma_alist_get_absent(m0.index, parent_hash@);
                }
                return Err(IndexError::ParentNotFound);
            },
        };
        proof {
            lemma_alist_get_at(m0.index, parent_hash@, pi as int);
        }
        let ghost parent = m0.index[pi as int].1;

        let li = find_entry(&self.index[pi].1.data_keys, note_label.as_str());
        match li {
            Option::Some(j) => {
                proof {
                    lemma_alist_get_at(parent.data_keys, note_label@, j as int);
                }
                let is_fact = match &self.index[pi].1.data_keys[j].1 {
                    DataKey::Fact(_) => true,
                    DataKey::Note(_) => false,
                };
                if is_fact {
                    return Err(IndexError::KindMismatch);
                }
                let (pkey, mut pnode) = self.index.remove(pi);
                let (lkey, dk) = pnode.data_keys.remove(j);
                match dk {
                    DataKey::Note(mut ns) => {
                        ns.push(data);
                        pnode.data_keys.insert(j, (lkey, DataKey::Note(ns)));
                    },
                    DataKey::Fact(_) => {
                        proof {
                            assert(false);
                        }
                    },
                }
                let ghost ns0 = match parent.data_keys[j as int].1 {
                    DataKeyModel::Note(ns) => ns,
                    DataKeyModel::Fact(b) => seq![b],
                };
                let ghost dk2 = alist_put(
                    parent.data_keys,
                    note_label@,
                    DataKeyModel::Note(ns0.push(data@)),
                );
                let ghost parent2 = node_with_data_keys(parent, dk2);
                proof {
                    assert(pair_model(pnode.data_keys@) =~~= parent.data_keys.update(
                        j as int,
                        (note_label@, DataKeyModel::Note(ns0.push(data@))),
                    ));
                    lemma_alist_put_found(
                        parent.data_keys,
                        note_label@,
                        DataKeyModel::Note(ns0.push(data@)),
                        j as int,
                    );
                    assert(pnode@ =~~= parent2);
                }
                self.index.insert(pi, (pkey, pnode));
                proof {
                    self.finish_node_update(m0, parent_hash@, pi as int, parent2);
                    assert(self@ =~~= spec_note(m0, parent_hash@, note_label@, data@));
                }
                Ok(())
            },
            Option::None => {
                proof {
                    lemma_alist_get_absent(parent.data_keys, note_label@);
                }
                let (pkey, mut pnode) = self.index.remove(pi);
                let mut first_version: Vec<Vec<u8>> = Vec::new();
                first_version.push(data);
                proof {
                    assert(crate::node::blobs_model(first_version@) =~= seq![data@]);
                }
                insert_data_entry(&mut pnode.data_keys, note_label, DataKey::Note(first_version));
                let ghost dk2 = insert_key(
                    parent.data_keys,
                    note_label@,
                    DataKeyModel::Note(seq![data@]),
                );
                let ghost parent2 = node_with_data_keys(parent, dk2);
                proof {
                    assert(pnode@ =~~= parent2);
                }
                self.index.insert(pi, (pkey, pnode));
                proof {
                    lemma_insert_key_members(
                        parent.data_keys,
                        note_label@,
                        DataKeyModel::Note(seq![data@]),
                    );
                    self.finish_node_update(m0, parent_hash@, pi as int, parent2);
                    assert(self@ =~~= spec_note(m0, parent_hash@, note_label@, data@));
                }
                Ok(())
            },
        }
    }

    /// Writes an immutable fact on an existing entry. The parent must be
    /// indexed (`ParentNotFound` otherwise), and the label must be entirely
    /// new on that node (`DuplicateFact` otherwise); in either failure the
    /// state is left exactly as it was.
    pub fn add_fact(&mut self, parent_hash: &str, fact_label: String, data: Vec<u8>) -> (r: Result<
        (),
        IndexError,
    >)
        requires
            old(self).wf(),
        ensures
            final(self)@ == spec_fact(old(self)@, parent_hash@, fact_label@, data@),
            final(self).wf(),
            !alist_has(old(self)@.index, parent_hash@) ==> r == Err::<(), IndexError>(
                IndexError::ParentNotFound,
            ),
            alist_has(old(self)@.index, parent_hash@) && spec_label_present(
                old(self)@,
                parent_hash@,
                fact_label@,
            ) ==> r == Err::<(), IndexError>(IndexError::DuplicateFact),
            alist_has(old(self)@.index, parent_hash@) && !spec_label_present(
                old(self)@,
                parent_hash@,
                fact_label@,
            ) ==> r == Ok::<(), IndexError>(()),
    {
        let ghost m0 = self@;
        let pi = match find_entry(&self.index, parent_hash) {
            Option::Some(i) => i,
            Option::None => {
                proof {
                    lemma_alist_get_absent(m0.index, parent_hash@);
                }
                return Err(IndexError::ParentNotFound);
            },
        };
        proof {
            lemma_alist_get_at(m0.index, parent_hash@, pi as int);
        }
        let ghost parent = m0.index[pi as int].1;

        match find_entry(&self.index[pi].1.data_keys, fact_label.as_str()) {
            Option::Some(j) => {
                proof {
                    lemma_alist_get_at(parent.data_keys, fact_label@, j as int);
                }
                Err(IndexError::DuplicateFact)
            },
            Option::None => {
                proof {
                    lemma_alist_get_absent(parent.data_keys, fact_label@);
                }
                let (pkey, mut pnode) = self.index.remove(pi);
                insert_data_entry(&mut pnode.data_keys, fact_label, DataKey::Fact(data));
                let ghost dk2 = insert_key(
                    parent.data_keys,
                    fact_label@,
                    DataKeyModel::Fact(data@),
                );
                let ghost parent2 = node_with_data_keys(parent, dk2);
                proof {
                    assert(pnode@ =~~= parent2);
                }
                self.index.insert(pi, (pkey, pnode));
                proof {
                    lemma_insert_key_members(
                        parent.data_keys,
                        fact_label@,
                        DataKeyModel::Fact(data@),
                    );
                    self.finish_node_update(m0, parent_hash@, pi as int, parent2);
                    assert(self@ =~~= spec_fact(m0, parent_hash@, fact_label@, data@));
                }
                Ok(())
            },
        }
    }

    /// The common tail of a data-key mutation: rebinding the parent's entry
    /// in place is exactly a put of the reworked node, and the state stays
    /// well formed when that node is.
    proof fn finish_node_update(
        &self,
        m0: StateModel,
        parent_hash: Seq<char>,
        pi: int,
        parent2: NodeModel,
    )
        requires
            state_wf(m0),
            0 <= pi < m0.index.len(),
            m0.index[pi].0 == parent_hash,
            forall|j: int| 0 <= j < pi ==> m0.index[j].0 != parent_hash,
            node_wf(parent2),
            self@.index =~= m0.index.update(pi, (parent_hash, parent2)),
            self@.names == m0.names,
            self@.user_facing_api_keys == m0.user_facing_api_keys,
            self@.remote_api_keys == m0.remote_api_keys,
        ensures
            self@.index == alist_put(m0.index, parent_hash, parent2),
            state_wf(self@),
    {
        lemma_alist_put_found(m0.index, parent_hash, parent2, pi);
        lemma_alist_put_shape(m0.index, parent_hash, parent2);
        lemma_put_preserves_nodes_wf(m0.index, parent_hash, parent2);
    }
}

} // verus!
