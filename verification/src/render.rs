//! The diagnostic rendering of a subtree: the node's label and chain, one
//! line per data key with the byte length of its current value, and each
//! child's rendering, indented four spaces per nesting level.
use vstd::prelude::*;
use crate::alists::{alist_get, find_entry, lemma_alist_get_absent, lemma_alist_get_at, pair_model};
use crate::node::{DataKey, DataKeyModel, NodeModel, blobs_model, current_value_len, data_key_wf,
    node_wf};
use crate::numfmt::{dec_chars, push_decimal};
use crate::sorted::names_model;
use crate::state::{ResellerState, StateModel};

verus! {

/// A run of spaces.
pub open spec fn spaces(n: nat) -> Seq<char> {
    Seq::new(n, |i: int| ' ')
}

/// Appends `n` spaces.
fn push_spaces(out: &mut String, n: usize)
    ensures
        final(out)@ == old(out)@ + spaces(n as nat),
{
    let mut i: usize = 0;
    while i < n
        invariant
            i <= n,
            out@ =~= old(out)@ + spaces(i as nat),
        decreases n - i,
    {
        out.append(" ");
        i = i + 1;
        proof {
            reveal_strlit(" ");
            assert(out@ =~= old(out)@ + spaces(i as nat));
        }
    }
    proof {
        assert(out@ =~= old(out)@ + spaces(n as nat));
    }
}

/// The first line of a node's rendering: a lone dot for the root, otherwise
/// the node's own label, followed by its ancestry chain.
pub open spec fn render_head(n: NodeModel) -> Seq<char> {
    (if n.name.len() == 0 {
        "."@
    } else {
        n.name
    }) + n.parent_path
}

/// One data-key line: the label and the byte length of its current value.
pub open spec fn render_key_line(nest: nat, label: Seq<char>, d: DataKeyModel) -> Seq<char> {
    spaces(4 * nest) + "└─ "@ + label + ": "@ + dec_chars(current_value_len(d)) + " bytes"@
}

/// The first `k` data-key lines, separated by `\r\n`.
pub open spec fn render_key_lines(
    nest: nat,
    dks: Seq<(Seq<char>, DataKeyModel)>,
    k: int,
) -> Seq<char>
    decreases k,
{
    if k <= 0 {
        Seq::<char>::empty()
    } else if k == 1 {
        render_key_line(nest, dks[0].0, dks[0].1)
    } else {
        render_key_lines(nest, dks, k - 1) + "\r\n"@ + render_key_line(
            nest,
            dks[k - 1].0,
            dks[k - 1].1,
        )
    }
}

/// What one node renders to: its head line, its data-key block, and its
/// children's blocks, each child looked up by name and rendered one level
/// deeper. `fuel` bounds the recursion depth; a subtree deeper than the
/// fuel renders as nothing, which a well-formed index never reaches when
/// the fuel exceeds the number of nodes.
pub open spec fn spec_render(m: StateModel, hash: Seq<char>, nest: nat, fuel: nat) -> Seq<char>
    decreases fuel, 1int, 0int,
{
    match alist_get(m.index, hash) {
        Option::None => Seq::<char>::empty(),
        Option::Some(node) => render_head(node) + (if node.data_keys.len() == 0 {
            Seq::<char>::empty()
        } else {
            "\r\n"@ + render_key_lines(nest, node.data_keys, node.data_keys.len() as int)
        }) + (if node.child_names.len() == 0 {
            Seq::<char>::empty()
        } else {
            "\r\n"@ + render_children(
                m,
                node.child_names,
                nest,
                fuel,
                node.child_names.len() as int,
            )
        }),
    }
}

/// One child's block: nothing if the name is not in the lookup, or the
/// indentation and the child's own rendering, one level deeper.
pub open spec fn render_child_block(
    m: StateModel,
    name: Seq<char>,
    nest: nat,
    fuel: nat,
) -> Seq<char>
    decreases fuel, 0int, 0int,
{
    match alist_get(m.names, name) {
        Option::None => Seq::<char>::empty(),
        Option::Some(h) => if fuel == 0 {
            Seq::<char>::empty()
        } else {
            spaces(4 * nest) + spec_render(m, h, nest + 1, (fuel - 1) as nat)
        },
    }
}

/// The blocks of the first `k` children, separated by `\r\n`.
pub open spec fn render_children(
    m: StateModel,
    names: Seq<Seq<char>>,
    nest: nat,
    fuel: nat,
    k: int,
) -> Seq<char>
    decreases fuel, 0int, k,
{
    if k <= 0 {
        Seq::<char>::empty()
    } else if k == 1 {
        render_child_block(m, names[0], nest, fuel)
    } else {
        render_children(m, names, nest, fuel, k - 1) + "\r\n"@ + render_child_block(
            m,
            names[k - 1],
            nest,
            fuel,
        )
    }
}

impl ResellerState {
    /// Renders the subtree rooted at `root_hash`, or the empty string for
    /// an unknown hash. Purely a read: the state is not touched.
    pub fn tree(&self, root_hash: &str, nest_level: usize) -> (r: String)
        requires
            self.wf(),
            4 * (nest_level as int) + 4 * (self.index@.len() as int) + 4 <= usize::MAX as int,
        ensures
            r@ == spec_render(
                self@,
                root_hash@,
                nest_level as nat,
                (self.index@.len() + 1) as nat,
            ),
    {
        let fuel = self.index.len() + 1;
        self.tree_rec(root_hash, nest_level, fuel)
    }

    /// Renders one node with a recursion budget.
    fn tree_rec(&self, hash: &str, nest: usize, fuel: usize) -> (r: String)
        requires
            self.wf(),
            4 * (nest as int) + 4 * (fuel as int) <= usize::MAX as int,
        ensures
            r@ == spec_render(self@, hash@, nest as nat, fuel as nat),
        decreases fuel,
    {
        let ghost m = self@;
        let i = match find_entry(&self.index, hash) {
            Option::None => {
                proof {
                    lemma_alist_get_absent(m.index, hash@);
                }
                return String::new();
            },
            Option::Some(i) => i,
        };
        proof {
            lemma_alist_get_at(m.index, hash@, i as int);
        }
        let ghost node = m.index[i as int].1;
        let n = &self.index[i].1;
        proof {
            assert(n@ == node);
            assert(node_wf(node));
        }
        let mut out = String::new();
        if n.name.as_str().is_empty() {
            out.append(".");
        } else {
            out.append(n.name.as_str());
        }
        out.append(n.parent_path.as_str());
        proof {
            assert(out@ =~= render_head(node));
        }

        let ghost mid1 = if node.data_keys.len() == 0 {
            Seq::<char>::empty()
        } else {
            "\r\n"@ + render_key_lines(nest as nat, node.data_keys, node.data_keys.len() as int)
        };
        if n.data_keys.len() > 0 {
            out.append("\r\n");
            let ghost base1 = out@;
            let mut k: usize = 0;
            while k < n.data_keys.len()
                invariant
                    k <= n.data_keys@.len(),
                    node_wf(node),
                    pair_model(n.data_keys@) == node.data_keys,
                    4 * (nest as int) <= usize::MAX as int,
                    out@ =~= base1 + render_key_lines(nest as nat, node.data_keys, k as int),
                decreases n.data_keys@.len() - k,
            {
                if k > 0 {
                    out.append("\r\n");
                }
                push_spaces(&mut out, 4 * nest);
                out.append("└─ ");
                out.append(n.data_keys[k].0.as_str());
                out.append(": ");
                let vlen = match &n.data_keys[k].1 {
                    DataKey::Fact(b) => b.len(),
                    DataKey::Note(ns) => {
                        proof {
                            assert(data_key_wf(node.data_keys[k as int].1));
                            assert(blobs_model(ns@).len() == ns@.len());
                        }
                        ns[ns.len() - 1].len()
                    },
                };
                push_decimal(&mut out, vlen);
                out.append(" bytes");
                proof {
                    assert(vlen as nat == current_value_len(node.data_keys[k as int].1));
                    assert(out@ =~= base1 + render_key_lines(
                        nest as nat,
                        node.data_keys,
                        k + 1 as int,
                    ));
                }
                k = k + 1;
            }
            proof {
                assert(out@ =~= render_head(node) + mid1);
            }
        }
        proof {
            assert(out@ =~= render_head(node) + mid1);
        }

        let ghost mid2 = if node.child_names.len() == 0 {
            Seq::<char>::empty()
        } else {
            "\r\n"@ + render_children(
                m,
                node.child_names,
                nest as nat,
                fuel as nat,
                node.child_names.len() as int,
            )
        };
        if n.child_names.len() > 0 {
            out.append("\r\n");
            let ghost base2 = out@;
            let mut c: usize = 0;
            while c < n.child_names.len()
                invariant
                    c <= n.child_names@.len(),
                    self.wf(),
                    m == self@,
                    names_model(n.child_names@) == node.child_names,
                    4 * (nest as int) + 4 * (fuel as int) <= usize::MAX as int,
                    out@ =~= base2 + render_children(
                        m,
                        node.child_names,
                        nest as nat,
                        fuel as nat,
                        c as int,
                    ),
                decreases n.child_names@.len() - c,
            {
                if c > 0 {
                    out.append("\r\n");
                }
                let ghost joined = out@;
                let cname = &n.child_names[c];
                proof {
                    assert(node.child_names[c as int] == cname@);
                }
                match find_entry(&self.names, cname.as_str()) {
                    Option::None => {
                        proof {
                            lemma_alist_get_absent(m.names, cname@);
                            assert(render_child_block(m, cname@, nest as nat, fuel as nat)
                                =~= Seq::<char>::empty());
                        }
                    },
                    Option::Some(ni) => {
                        proof {
                            lemma_alist_get_at(m.names, cname@, ni as int);
                        }
                        let ghost h = m.names[ni as int].1;
                        if fuel > 0 {
                            push_spaces(&mut out, 4 * nest);
                            let sub = self.tree_rec(self.names[ni].1.as_str(), nest + 1, fuel - 1);
                            out.append(sub.as_str());
                            proof {
                                assert(sub@ == spec_render(
                                    m,
                                    h,
                                    (nest + 1) as nat,
                                    (fuel - 1) as nat,
                                ));
                                assert(render_child_block(m, cname@, nest as nat, fuel as nat)
                                    =~= spaces(4 * nest as nat) + sub@);
                                assert(out@ =~= joined + render_child_block(
                                    m,
                                    cname@,
                                    nest as nat,
                                    fuel as nat,
                                ));
                            }
                        } else {
                            proof {
                                assert(render_child_block(m, cname@, nest as nat, fuel as nat)
                                    =~= Seq::<char>::empty());
                            }
                        }
                    },
                }
                proof {
                    assert(out@ =~= joined + render_child_block(m, cname@, nest as nat, fuel as nat));
                    if c == 0 {
                        assert(render_children(
                            m,
                            node.child_names,
                            nest as nat,
                            fuel as nat,
                            1int,
                        ) == render_child_block(m, node.child_names[0], nest as nat, fuel as nat));
                    } else {
                        assert(render_children(
                            m,
                            node.child_names,
                            nest as nat,
                            fuel as nat,
                            (c + 1) as int,
                        ) == render_children(m, node.child_names, nest as nat, fuel as nat, c as int)
                            + "\r\n"@ + render_child_block(
                            m,
                            node.child_names[c as int],
                            nest as nat,
                            fuel as nat,
                        ));
                    }
                    assert(out@ =~= base2 + render_children(
                        m,
                        node.child_names,
                        nest as nat,
                        fuel as nat,
                        (c + 1) as int,
                    ));
                }
                c = c + 1;
            }
            proof {
                assert(out@ =~= render_head(node) + mid1 + mid2);
            }
        }
        proof {
            assert(out@ =~= render_head(node) + mid1 + mid2);
            assert(spec_render(m, hash@, nest as nat, fuel as nat) == render_head(node) + mid1
                + mid2);
        }
        out
    }
}

} // verus!
