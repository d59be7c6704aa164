//! Namespace entries: a `Node` is one entry of the tree, and a `DataKey` is
//! one annotation bound to a label on an entry.
use vstd::prelude::*;
use crate::alists::pair_model;
use crate::sorted::{names_model, sorted_keys, sorted_names};

verus! {

/// The mathematical value of a vector of byte strings.
pub open spec fn blobs_model(s: Seq<Vec<u8>>) -> Seq<Seq<u8>> {
    Seq::new(s.len(), |i: int| s[i]@)
}

/// A value bound to a label on a namespace entry.
#[derive(Debug, Clone, PartialEq)]
pub enum DataKey {
    /// Facts are immutable: written once, kept forever.
    Fact(Vec<u8>),
    /// Notes are mutable: every version is kept, the most recent last.
    Note(Vec<Vec<u8>>),
}

/// The mathematical value of a `DataKey`.
#[verifier::ext_equal]
pub enum DataKeyModel {
    Fact(Seq<u8>),
    Note(Seq<Seq<u8>>),
}

impl View for DataKey {
    type V = DataKeyModel;

    open spec fn view(&self) -> DataKeyModel {
        match self {
            DataKey::Fact(b) => DataKeyModel::Fact(b@),
            DataKey::Note(ns) => DataKeyModel::Note(blobs_model(ns@)),
        }
    }
}

/// A note always holds at least one version; a fact is always well formed.
pub open spec fn data_key_wf(d: DataKeyModel) -> bool {
    match d {
        DataKeyModel::Fact(_) => true,
        DataKeyModel::Note(ns) => ns.len() > 0,
    }
}

/// The byte length of the current value: a fact's bytes, or the most recent
/// version of a note.
pub open spec fn current_value_len(d: DataKeyModel) -> nat {
    match d {
        DataKeyModel::Fact(b) => b.len(),
        DataKeyModel::Note(ns) => ns.last().len(),
    }
}

/// One namespace entry.
#[derive(Debug, Clone, PartialEq)]
pub struct Node {
    /// The dotted ancestry chain of this node's parent, most specific first,
    /// each segment led by a dot; empty for a child of the root.
    pub parent_path: String,
    /// This node's own label; empty only for the root.
    pub name: String,
    /// Fully-qualified dotted names of the direct children, in sorted order.
    pub child_names: Vec<String>,
    /// The annotations on this node, sorted by label.
    pub data_keys: Vec<(String, DataKey)>,
}

/// The mathematical value of a `Node`.
#[verifier::ext_equal]
pub struct NodeModel {
    pub parent_path: Seq<char>,
    pub name: Seq<char>,
    pub child_names: Seq<Seq<char>>,
    pub data_keys: Seq<(Seq<char>, DataKeyModel)>,
}

impl View for Node {
    type V = NodeModel;

    open spec fn view(&self) -> NodeModel {
        NodeModel {
            parent_path: self.parent_path@,
            name: self.name@,
            child_names: names_model(self.child_names@),
            data_keys: pair_model(self.data_keys@),
        }
    }
}

/// A node keeps its children sorted, its labels sorted, and its notes
/// non-empty.
pub open spec fn node_wf(n: NodeModel) -> bool {
    &&& sorted_names(n.child_names)
    &&& sorted_keys(n.data_keys)
    &&& forall|i: int| 0 <= i < n.data_keys.len() ==> data_key_wf(#[trigger] n.data_keys[i].1)
}

/// The node's fully-qualified dotted name: its own label followed by its
/// parent's ancestry chain.
pub open spec fn full_name_of(n: NodeModel) -> Seq<char> {
    n.name + n.parent_path
}

impl Node {
    /// A fresh entry with no children and no annotations.
    pub fn empty(parent_path: String, name: String) -> (r: Node)
        ensures
            r@ == (NodeModel {
                parent_path: parent_path@,
                name: name@,
                child_names: Seq::<Seq<char>>::empty(),
                data_keys: Seq::<(Seq<char>, DataKeyModel)>::empty(),
            }),
            node_wf(r@),
    {
        let r = Node { parent_path, name, child_names: Vec::new(), data_keys: Vec::new() };
        proof {
            assert(r@.child_names =~= Seq::<Seq<char>>::empty());
            assert(r@.data_keys =~= Seq::<(Seq<char>, DataKeyModel)>::empty());
        }
        r
    }
}

/// Copies a byte string.
pub fn clone_bytes(v: &Vec<u8>) -> (r: Vec<u8>)
    ensures
        r@ == v@,
{
    let mut r: Vec<u8> = Vec::new();
    let mut i: usize = 0;
    while i < v.len()
        invariant
            i <= v.len(),
            r@ =~= v@.subrange(0, i as int),
        decreases v.len() - i,
    {
        r.push(v[i]);
        i = i + 1;
    }
    proof {
        assert(r@ =~= v@);
    }
    r
}

/// Copies a data key.
pub fn clone_data_key(d: &DataKey) -> (r: DataKey)
    ensures
        r@ == d@,
{
    match d {
        DataKey::Fact(b) => DataKey::Fact(clone_bytes(b)),
        DataKey::Note(ns) => {
            let mut copies: Vec<Vec<u8>> = Vec::new();
            let mut i: usize = 0;
            while i < ns.len()
                invariant
                    i <= ns.len(),
                    copies@.len() == i,
                    forall|j: int| 0 <= j < i ==> copies@[j]@ == ns@[j]@,
                decreases ns.len() - i,
            {
                copies.push(clone_bytes(&ns[i]));
                i = i + 1;
            }
            let r = DataKey::Note(copies);
            proof {
                assert(r@ =~~= d@);
            }
            r
        },
    }
}

/// Copies a node.
pub fn clone_node(n: &Node) -> (r: Node)
    ensures
        r@ == n@,
{
    let mut child_names: Vec<String> = Vec::new();
    let mut i: usize = 0;
    while i < n.child_names.len()
        invariant
            i <= n.child_names.len(),
            child_names@.len() == i,
            forall|j: int| 0 <= j < i ==> child_names@[j] == n.child_names@[j],
        decreases n.child_names.len() - i,
    {
        child_names.push(n.child_names[i].clone());
        i = i + 1;
    }
    let mut data_keys: Vec<(String, DataKey)> = Vec::new();
    let mut k: usize = 0;
    while k < n.data_keys.len()
        invariant
            k <= n.data_keys.len(),
            data_keys@.len() == k,
            forall|j: int|
                0 <= j < k ==> data_keys@[j].0 == n.data_keys@[j].0 && data_keys@[j].1@
                    == n.data_keys@[j].1@,
        decreases n.data_keys.len() - k,
    {
        data_keys.push((n.data_keys[k].0.clone(), clone_data_key(&n.data_keys[k].1)));
        k = k + 1;
    }
    let r = Node {
        parent_path: n.parent_path.clone(),
        name: n.name.clone(),
        child_names,
        data_keys,
    };
    proof {
        assert(r@ =~~= n@);
    }
    r
}

} // verus!
