//! The persistence sink's serialization: the entire index — nodes, the
//! name lookup, and the key stores — written as one deterministic byte
//! blob, little-endian counts and length-prefixed fields throughout, ready
//! to hand to the durable store after every accepted mutation.
use vstd::prelude::*;
use vstd::string::{StrSliceExecFns, StringSliceAdditionalSpecFns};
use crate::abi::pow256;
use crate::node::{DataKey, DataKeyModel, NodeModel};
use crate::state::{ResellerState, StateModel};

verus! {

/// Eight little-endian bytes of a count or length.
pub open spec fn le64(n: nat) -> Seq<u8> {
    Seq::new(8, |i: int| ((n / pow256(i as nat)) % 256) as u8)
}

/// A string: the length of its UTF-8 bytes, then the bytes.
pub open spec fn str_block(s: Seq<char>) -> Seq<u8> {
    le64(vstd::utf8::encode_utf8(s).len()) + vstd::utf8::encode_utf8(s)
}

/// A byte string: its length, then the bytes.
pub open spec fn bytes_block(b: Seq<u8>) -> Seq<u8> {
    le64(b.len()) + b
}

/// The first `k` byte strings of a note's history, each a block.
pub open spec fn enc_blobs(ns: Seq<Seq<u8>>, k: int) -> Seq<u8>
    decreases k,
{
    if k <= 0 {
        Seq::<u8>::empty()
    } else {
        enc_blobs(ns, k - 1) + bytes_block(ns[k - 1])
    }
}

/// One data key: a tag byte, then a fact's bytes, or a note's counted
/// version history.
pub open spec fn dk_block(d: DataKeyModel) -> Seq<u8> {
    match d {
        DataKeyModel::Fact(b) => seq![0u8] + bytes_block(b),
        DataKeyModel::Note(ns) => seq![1u8] + le64(ns.len()) + enc_blobs(ns, ns.len() as int),
    }
}

/// The first `k` strings of a list, each a block.
pub open spec fn enc_strs(s: Seq<Seq<char>>, k: int) -> Seq<u8>
    decreases k,
{
    if k <= 0 {
        Seq::<u8>::empty()
    } else {
        enc_strs(s, k - 1) + str_block(s[k - 1])
    }
}

/// The first `k` entries of a string-to-string table.
pub open spec fn enc_pairs(s: Seq<(Seq<char>, Seq<char>)>, k: int) -> Seq<u8>
    decreases k,
{
    if k <= 0 {
        Seq::<u8>::empty()
    } else {
        enc_pairs(s, k - 1) + str_block(s[k - 1].0) + str_block(s[k - 1].1)
    }
}

/// The first `k` data keys of a node, each its label and its value.
pub open spec fn enc_dks(dks: Seq<(Seq<char>, DataKeyModel)>, k: int) -> Seq<u8>
    decreases k,
{
    if k <= 0 {
        Seq::<u8>::empty()
    } else {
        enc_dks(dks, k - 1) + str_block(dks[k - 1].0) + dk_block(dks[k - 1].1)
    }
}

/// One node: its chain, its label, its counted children, its counted data
/// keys.
pub open spec fn node_block(n: NodeModel) -> Seq<u8> {
    str_block(n.parent_path) + str_block(n.name) + le64(n.child_names.len()) + enc_strs(
        n.child_names,
        n.child_names.len() as int,
    ) + le64(n.data_keys.len()) + enc_dks(n.data_keys, n.data_keys.len() as int)
}

/// The first `k` entries of the index, each its hash and its node.
pub open spec fn enc_index(s: Seq<(Seq<char>, NodeModel)>, k: int) -> Seq<u8>
    decreases k,
{
    if k <= 0 {
        Seq::<u8>::empty()
    } else {
        enc_index(s, k - 1) + str_block(s[k - 1].0) + node_block(s[k - 1].1)
    }
}

/// The whole snapshot: the counted name lookup, the counted index, and the
/// two counted key stores.
pub open spec fn spec_snapshot(m: StateModel) -> Seq<u8> {
    le64(m.names.len()) + enc_pairs(m.names, m.names.len() as int) + le64(m.index.len())
        + enc_index(m.index, m.index.len() as int) + le64(m.user_facing_api_keys.len()) + enc_strs(
        m.user_facing_api_keys,
        m.user_facing_api_keys.len() as int,
    ) + le64(m.remote_api_keys.len()) + enc_pairs(
        m.remote_api_keys,
        m.remote_api_keys.len() as int,
    )
}

/// Appends a count's eight little-endian bytes.
fn push_le64(out: &mut Vec<u8>, n: u64)
    ensures
        final(out)@ == old(out)@ + le64(n as nat),
{
    let mut m: u64 = n;
    let mut i: usize = 0;
    proof {
        assert(pow256(0) == 1);
        assert((n as nat) / 1 == n as nat);
    }
    while i < 8
        invariant
            i <= 8,
            out@ =~= old(out)@ + le64(n as nat).take(i as int),
            m as nat == (n as nat) / pow256(i as nat),
        decreases 8 - i,
    {
        let ghost m_old = m as nat;
        out.push((m % 256) as u8);
        m = m / 256;
        i = i + 1;
        proof {
            assert(le64(n as nat)[i - 1] == ((m_old % 256) as u8));
            assert(le64(n as nat).take(i as int) =~= le64(n as nat).take(i - 1).push(
                le64(n as nat)[i - 1],
            ));
            assert(out@ =~= old(out)@ + le64(n as nat).take(i as int));
            assert(pow256(i as nat) == 256 * pow256((i - 1) as nat));
            crate::abi::lemma_pow256_pos((i - 1) as nat);
            vstd::arithmetic::div_mod::lemma_div_denominator(
                n as int,
                pow256((i - 1) as nat) as int,
                256,
            );
            assert(m as nat == (n as nat) / pow256(i as nat));
        }
    }
    proof {
        assert(le64(n as nat).take(8) =~= le64(n as nat));
    }
}

/// Appends a string block.
fn push_str_block(out: &mut Vec<u8>, s: &String)
    ensures
        final(out)@ == old(out)@ + str_block(s@),
{
    let mut bv = s.as_str().as_bytes_vec();
    push_le64(out, bv.len() as u64);
    out.append(&mut bv);
}

/// Appends a byte-string block.
fn push_bytes_block(out: &mut Vec<u8>, b: &Vec<u8>)
    ensures
        final(out)@ == old(out)@ + bytes_block(b@),
{
    push_le64(out, b.len() as u64);
    let mut copy = crate::node::clone_bytes(b);
    out.append(&mut copy);
}

/// Appends one data key's block.
fn push_dk_block(out: &mut Vec<u8>, d: &DataKey)
    ensures
        final(out)@ == old(out)@ + dk_block(d@),
{
    match d {
        DataKey::Fact(b) => {
            out.push(0u8);
            push_bytes_block(out, b);
            proof {
                assert(out@ =~= old(out)@ + dk_block(d@));
            }
        },
        DataKey::Note(ns) => {
            out.push(1u8);
            push_le64(out, ns.len() as u64);
            let ghost nsm = crate::node::blobs_model(ns@);
            let mut i: usize = 0;
            while i < ns.len()
                invariant
                    i <= ns@.len(),
                    nsm == crate::node::blobs_model(ns@),
                    out@ =~= old(out)@ + seq![1u8] + le64(ns@.len()) + enc_blobs(nsm, i as int),
                decreases ns@.len() - i,
            {
                push_bytes_block(out, &ns[i]);
                i = i + 1;
                proof {
                    assert(nsm[i - 1] == ns@[i - 1]@);
                    assert(out@ =~= old(out)@ + seq![1u8] + le64(ns@.len()) + enc_blobs(
                        nsm,
                        i as int,
                    ));
                }
            }
            proof {
                assert(nsm.len() == ns@.len());
                assert(out@ =~= old(out)@ + dk_block(d@));
            }
        },
    }
}

/// Appends one node's block.
fn push_node_block(out: &mut Vec<u8>, n: &crate::node::Node)
    ensures
        final(out)@ == old(out)@ + node_block(n@),
{
    push_str_block(out, &n.parent_path);
    push_str_block(out, &n.name);
    push_le64(out, n.child_names.len() as u64);
    let ghost cn = n@.child_names;
    let mut i: usize = 0;
    proof {
        assert(cn.len() == n.child_names@.len());
    }
    while i < n.child_names.len()
        invariant
            i <= n.child_names@.len(),
            cn == n@.child_names,
            cn.len() == n.child_names@.len(),
            out@ =~= old(out)@ + str_block(n@.parent_path) + str_block(n@.name) + le64(cn.len())
                + enc_strs(cn, i as int),
        decreases n.child_names@.len() - i,
    {
        push_str_block(out, &n.child_names[i]);
        i = i + 1;
        proof {
            assert(cn[i - 1] == n.child_names@[i - 1]@);
            assert(out@ =~= old(out)@ + str_block(n@.parent_path) + str_block(n@.name) + le64(
                cn.len(),
            ) + enc_strs(cn, i as int));
        }
    }
    push_le64(out, n.data_keys.len() as u64);
    let ghost dks = n@.data_keys;
    let ghost base = out@;
    proof {
        assert(dks.len() == n.data_keys@.len());
    }
    let mut k: usize = 0;
    while k < n.data_keys.len()
        invariant
            k <= n.data_keys@.len(),
            dks == n@.data_keys,
            dks.len() == n.data_keys@.len(),
            out@ =~= base + enc_dks(dks, k as int),
        decreases n.data_keys@.len() - k,
    {
        push_str_block(out, &n.data_keys[k].0);
        push_dk_block(out, &n.data_keys[k].1);
        k = k + 1;
        proof {
            assert(dks[k - 1] == (n.data_keys@[k - 1].0@, n.data_keys@[k - 1].1@));
            assert(out@ =~= base + enc_dks(dks, k as int));
        }
    }
    proof {
        assert(out@ =~= old(out)@ + node_block(n@));
    }
}

impl ResellerState {
    /// Serializes the whole state to its snapshot blob, for the caller to
    /// hand to the durable store after every accepted mutation.
    pub fn save(&self) -> (blob: Vec<u8>)
        ensures
            blob@ == spec_snapshot(self@),
    {
        let ghost m = self@;
        let mut out: Vec<u8> = Vec::new();
        push_le64(&mut out, self.names.len() as u64);
        let mut i: usize = 0;
        proof {
            assert(m.names.len() == self.names@.len());
        }
        while i < self.names.len()
            invariant
                i <= self.names@.len(),
                m == self@,
                m.names.len() == self.names@.len(),
                out@ =~= le64(m.names.len()) + enc_pairs(m.names, i as int),
            decreases self.names@.len() - i,
        {
            push_str_block(&mut out, &self.names[i].0);
            push_str_block(&mut out, &self.names[i].1);
            i = i + 1;
            proof {
                assert(m.names[i - 1] == (self.names@[i - 1].0@, self.names@[i - 1].1@));
                assert(out@ =~= le64(m.names.len()) + enc_pairs(m.names, i as int));
            }
        }
        push_le64(&mut out, self.index.len() as u64);
        let ghost base1 = out@;
        proof {
            assert(m.index.len() == self.index@.len());
        }
        let mut k: usize = 0;
        while k < self.index.len()
            invariant
                k <= self.index@.len(),
                m == self@,
                m.index.len() == self.index@.len(),
                out@ =~= base1 + enc_index(m.index, k as int),
            decreases self.index@.len() - k,
        {
            push_str_block(&mut out, &self.index[k].0);
            push_node_block(&mut out, &self.index[k].1);
            k = k + 1;
            proof {
                assert(m.index[k - 1] == (self.index@[k - 1].0@, self.index@[k - 1].1@));
                assert(out@ =~= base1 + enc_index(m.index, k as int));
            }
        }
        push_le64(&mut out, self.user_facing_api_keys.len() as u64);
        let ghost base2 = out@;
        proof {
            assert(m.user_facing_api_keys.len() == self.user_facing_api_keys@.len());
        }
        let mut u: usize = 0;
        while u < self.user_facing_api_keys.len()
            invariant
                u <= self.user_facing_api_keys@.len(),
                m == self@,
                m.user_facing_api_keys.len() == self.user_facing_api_keys@.len(),
                out@ =~= base2 + enc_strs(m.user_facing_api_keys, u as int),
            decreases self.user_facing_api_keys@.len() - u,
        {
            push_str_block(&mut out, &self.user_facing_api_keys[u]);
            u = u + 1;
            proof {
                assert(m.user_facing_api_keys[u - 1] == self.user_facing_api_keys@[u - 1]@);
                assert(out@ =~= base2 + enc_strs(m.user_facing_api_keys, u as int));
            }
        }
        push_le64(&mut out, self.remote_api_keys.len() as u64);
        let ghost base3 = out@;
        proof {
            assert(m.remote_api_keys.len() == self.remote_api_keys@.len());
        }
        let mut w: usize = 0;
        while w < self.remote_api_keys.len()
            invariant
                w <= self.remote_api_keys@.len(),
                m == self@,
                m.remote_api_keys.len() == self.remote_api_keys@.len(),
                out@ =~= base3 + enc_pairs(m.remote_api_keys, w as int),
            decreases self.remote_api_keys@.len() - w,
        {
            push_str_block(&mut out, &self.remote_api_keys[w].0);
            push_str_block(&mut out, &self.remote_api_keys[w].1);
            w = w + 1;
            proof {
                assert(m.remote_api_keys[w - 1] == (self.remote_api_keys@[w - 1].0@,
                self.remote_api_keys@[w - 1].1@));
                assert(out@ =~= base3 + enc_pairs(m.remote_api_keys, w as int));
            }
        }
        proof {
            assert(out@ =~= spec_snapshot(m));
        }
        out
    }
}

} // verus!
