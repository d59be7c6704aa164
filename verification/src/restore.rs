//! Reading a snapshot blob back into a state: the inverse of the
//! persistence sink's serialization, so a process can resume from what it
//! last persisted.
use vstd::prelude::*;
use vstd::arithmetic::div_mod::{lemma_breakdown, lemma_div_denominator};
use vstd::utf8::{decode_utf8, valid_utf8};
use crate::abi::{lemma_pow256_pos, pow256};
use crate::node::{DataKey, DataKeyModel, Node, NodeModel};
use crate::snapshot::le64;
use crate::state::{ResellerState, StateModel};

verus! {

/// The value of a little-endian byte string.
pub open spec fn le_val(s: Seq<u8>) -> nat
    decreases s.len(),
{
    if s.len() == 0 {
        0
    } else {
        (s[0] as nat) + 256 * le_val(s.drop_first())
    }
}

/// A little-endian value is bounded by the width of its bytes.
pub proof fn lemma_le_val_upper(s: Seq<u8>)
    ensures
        le_val(s) < pow256(s.len()),
    decreases s.len(),
{
    if s.len() == 0 {
    } else {
        lemma_le_val_upper(s.drop_first());
        let p = pow256((s.len() - 1) as nat);
        assert(pow256(s.len()) == 256 * p);
        assert(256 * le_val(s.drop_first()) <= 256 * (p - 1)) by (nonlinear_arith)
            requires
                le_val(s.drop_first()) <= p - 1,
        ;
    }
}

/// The digits of a count, little-endian, `k` bytes wide.
pub open spec fn le_digits(n: nat, k: nat) -> Seq<u8> {
    Seq::new(k, |i: int| ((n / pow256(i as nat)) % 256) as u8)
}

/// Reading the digits back gives the count, up to the width.
pub proof fn lemma_le_val_le_digits(n: nat, k: nat)
    ensures
        le_val(le_digits(n, k)) == n % pow256(k),
    decreases k,
{
    if k == 0 {
        assert(pow256(0) == 1);
        assert(n % 1 == 0nat);
    } else {
        lemma_le_val_le_digits(n / 256, (k - 1) as nat);
        assert forall|i: int| 0 <= i < k - 1 implies le_digits(n, k).drop_first()[i] == le_digits(
            n / 256,
            (k - 1) as nat,
        )[i] by {
            assert(le_digits(n, k).drop_first()[i] == le_digits(n, k)[i + 1]);
            lemma_pow256_pos(i as nat);
            lemma_div_denominator(n as int, 256, pow256(i as nat) as int);
            assert(pow256((i + 1) as nat) == 256 * pow256(i as nat));
            assert(n / pow256((i + 1) as nat) == (n / 256) / pow256(i as nat));
        }
        assert(le_digits(n, k).drop_first() =~= le_digits(n / 256, (k - 1) as nat));
        assert(le_digits(n, k)[0] == ((n % 256) as u8)) by {
            assert(pow256(0) == 1);
            assert(n / 1 == n);
        }
        lemma_pow256_pos((k - 1) as nat);
        lemma_breakdown(n as int, 256, pow256((k - 1) as nat) as int);
        assert(pow256(k) == 256 * pow256((k - 1) as nat));
    }
}

/// Eight stored bytes read back as the stored count.
pub proof fn lemma_le_val_le64(n: nat)
    requires
        n < pow256(8),
    ensures
        le_val(le64(n)) == n,
{
    assert(le64(n) =~= le_digits(n, 8));
    lemma_le_val_le_digits(n, 8);
    vstd::arithmetic::div_mod::lemma_small_mod(n, pow256(8));
}

/// Reads one eight-byte count at `pos`: its value and the position after
/// it, or nothing if the blob ends first.
pub open spec fn sp_le64(b: Seq<u8>, pos: int) -> Option<(nat, int)> {
    if 0 <= pos && pos + 8 <= b.len() {
        Option::Some((le_val(b.subrange(pos, pos + 8)), pos + 8))
    } else {
        Option::None
    }
}

/// Reads one eight-byte count.
pub fn read_le64(data: &Vec<u8>, pos: usize) -> (r: Option<(u64, usize)>)
    ensures
        match r {
            Option::Some((v, p2)) => sp_le64(data@, pos as int) == Option::Some(
                (v as nat, p2 as int),
            ),
            Option::None => sp_le64(data@, pos as int) is None,
        },
{
    let dlen = data.len();
    if dlen < 8 || pos > dlen - 8 {
        return None;
    }
    let ghost w = data@.subrange(pos as int, pos as int + 8);
    proof {
        lemma_le_val_upper(w);
        assert(pow256(0) == 1);
        assert(pow256(1) == 256);
        assert(pow256(2) == 65536);
        assert(pow256(3) == 16777216);
        assert(pow256(4) == 4294967296);
        assert(pow256(5) == 1099511627776);
        assert(pow256(6) == 281474976710656);
        assert(pow256(7) == 72057594037927936);
        assert(pow256(8) == 18446744073709551616);
    }
    let mut v: u64 = 0;
    let mut i: usize = 8;
    proof {
        assert(w.subrange(8, 8).len() == 0);
    }
    while i > 0
        invariant
            i <= 8,
            dlen == data@.len(),
            pos + 8 <= dlen,
            w == data@.subrange(pos as int, pos as int + 8),
            v as nat == le_val(w.subrange(i as int, 8)),
            (v as nat) < pow256((8 - i) as nat),
            pow256(7) == 72057594037927936,
        decreases i,
    {
        i = i - 1;
        let b = data[pos + i];
        proof {
            assert(w[i as int] == data@[pos + i]);
            crate::abi::lemma_pow256_le((7 - i) as nat, 7);
            assert(pow256((7 - i) as nat) <= 72057594037927936);
        }
        v = v * 256 + (b as u64);
        proof {
            assert(w.subrange(i as int, 8).drop_first() =~= w.subrange(i as int + 1, 8));
            assert(w.subrange(i as int, 8)[0] == w[i as int]);
            assert(pow256((8 - i) as nat) == 256 * pow256((7 - i) as nat));
        }
    }
    proof {
        assert(w.subrange(0, 8) =~= w);
    }
    Some((v, pos + 8))
}

/// Reads a counted byte string.
pub open spec fn sp_bytes(b: Seq<u8>, pos: int) -> Option<(Seq<u8>, int)> {
    match sp_le64(b, pos) {
        Option::None => Option::None,
        Option::Some((n, p2)) => if p2 + n <= b.len() {
            Option::Some((b.subrange(p2, p2 + n as int), p2 + n as int))
        } else {
            Option::None
        },
    }
}

/// Reads a counted string, which must hold valid UTF-8.
pub open spec fn sp_str(b: Seq<u8>, pos: int) -> Option<(Seq<char>, int)> {
    match sp_bytes(b, pos) {
        Option::None => Option::None,
        Option::Some((bs, p2)) => if valid_utf8(bs) {
            Option::Some((decode_utf8(bs), p2))
        } else {
            Option::None
        },
    }
}

/// Reads `cnt` byte strings in a row.
pub open spec fn sp_blobs(b: Seq<u8>, pos: int, cnt: nat) -> Option<(Seq<Seq<u8>>, int)>
    decreases cnt,
{
    if cnt == 0 {
        Option::Some((Seq::<Seq<u8>>::empty(), pos))
    } else {
        match sp_bytes(b, pos) {
            Option::None => Option::None,
            Option::Some((x, p2)) => match sp_blobs(b, p2, (cnt - 1) as nat) {
                Option::None => Option::None,
                Option::Some((rest, p3)) => Option::Some((seq![x] + rest, p3)),
            },
        }
    }
}

/// Reads `cnt` strings in a row.
pub open spec fn sp_strs(b: Seq<u8>, pos: int, cnt: nat) -> Option<(Seq<Seq<char>>, int)>
    decreases cnt,
{
    if cnt == 0 {
        Option::Some((Seq::<Seq<char>>::empty(), pos))
    } else {
        match sp_str(b, pos) {
            Option::None => Option::None,
            Option::Some((x, p2)) => match sp_strs(b, p2, (cnt - 1) as nat) {
                Option::None => Option::None,
                Option::Some((rest, p3)) => Option::Some((seq![x] + rest, p3)),
            },
        }
    }
}

/// Reads `cnt` string pairs in a row.
pub open spec fn sp_pairs(b: Seq<u8>, pos: int, cnt: nat) -> Option<
    (Seq<(Seq<char>, Seq<char>)>, int),
>
    decreases cnt,
{
    if cnt == 0 {
        Option::Some((Seq::<(Seq<char>, Seq<char>)>::empty(), pos))
    } else {
        match sp_str(b, pos) {
            Option::None => Option::None,
            Option::Some((k, p2)) => match sp_str(b, p2) {
                Option::None => Option::None,
                Option::Some((v, p3)) => match sp_pairs(b, p3, (cnt - 1) as nat) {
                    Option::None => Option::None,
                    Option::Some((rest, p4)) => Option::Some((seq![(k, v)] + rest, p4)),
                },
            },
        }
    }
}

/// Reads one data key: its tag, then a fact's bytes or a note's counted
/// history.
pub open spec fn sp_dk(b: Seq<u8>, pos: int) -> Option<(DataKeyModel, int)> {
    if pos < 0 || pos >= b.len() {
        Option::None
    } else if b[pos] == 0 {
        match sp_bytes(b, pos + 1) {
            Option::None => Option::None,
            Option::Some((bs, p2)) => Option::Some((DataKeyModel::Fact(bs), p2)),
        }
    } else if b[pos] == 1 {
        match sp_le64(b, pos + 1) {
            Option::None => Option::None,
            Option::Some((cnt, p2)) => match sp_blobs(b, p2, cnt) {
                Option::None => Option::None,
                Option::Some((ns, p3)) => Option::Some((DataKeyModel::Note(ns), p3)),
            },
        }
    } else {
        Option::None
    }
}

/// Reads `cnt` labelled data keys in a row.
pub open spec fn sp_dks(b: Seq<u8>, pos: int, cnt: nat) -> Option<
    (Seq<(Seq<char>, DataKeyModel)>, int),
>
    decreases cnt,
{
    if cnt == 0 {
        Option::Some((Seq::<(Seq<char>, DataKeyModel)>::empty(), pos))
    } else {
        match sp_str(b, pos) {
            Option::None => Option::None,
            Option::Some((k, p2)) => match sp_dk(b, p2) {
                Option::None => Option::None,
                Option::Some((d, p3)) => match sp_dks(b, p3, (cnt - 1) as nat) {
                    Option::None => Option::None,
                    Option::Some((rest, p4)) => Option::Some((seq![(k, d)] + rest, p4)),
                },
            },
        }
    }
}

/// Reads one node: its chain, its label, its counted children, its counted
/// data keys.
pub open spec fn sp_node(b: Seq<u8>, pos: int) -> Option<(NodeModel, int)> {
    match sp_str(b, pos) {
        Option::None => Option::None,
        Option::Some((pp, p2)) => match sp_str(b, p2) {
            Option::None => Option::None,
            Option::Some((name, p3)) => match sp_le64(b, p3) {
                Option::None => Option::None,
                Option::Some((ccnt, p4)) => match sp_strs(b, p4, ccnt) {
                    Option::None => Option::None,
                    Option::Some((cn, p5)) => match sp_le64(b, p5) {
                        Option::None => Option::None,
                        Option::Some((dcnt, p6)) => match sp_dks(b, p6, dcnt) {
                            Option::None => Option::None,
                            Option::Some((dks, p7)) => Option::Some(
                                (
                                    NodeModel {
                                        parent_path: pp,
                                        name: name,
                                        child_names: cn,
                                        data_keys: dks,
                                    },
                                    p7,
                                ),
                            ),
                        },
                    },
                },
            },
        },
    }
}

/// Reads `cnt` index entries in a row.
pub open spec fn sp_index(b: Seq<u8>, pos: int, cnt: nat) -> Option<
    (Seq<(Seq<char>, NodeModel)>, int),
>
    decreases cnt,
{
    if cnt == 0 {
        Option::Some((Seq::<(Seq<char>, NodeModel)>::empty(), pos))
    } else {
        match sp_str(b, pos) {
            Option::None => Option::None,
            Option::Some((h, p2)) => match sp_node(b, p2) {
                Option::None => Option::None,
                Option::Some((n, p3)) => match sp_index(b, p3, (cnt - 1) as nat) {
                    Option::None => Option::None,
                    Option::Some((rest, p4)) => Option::Some((seq![(h, n)] + rest, p4)),
                },
            },
        }
    }
}

/// Reads a whole snapshot: the four counted sections, consuming the blob
/// exactly.
pub open spec fn spec_parse_snapshot(b: Seq<u8>) -> Option<StateModel> {
    match sp_le64(b, 0) {
        Option::None => Option::None,
        Option::Some((ncnt, p1)) => match sp_pairs(b, p1, ncnt) {
            Option::None => Option::None,
            Option::Some((names, p2)) => match sp_le64(b, p2) {
                Option::None => Option::None,
                Option::Some((icnt, p3)) => match sp_index(b, p3, icnt) {
                    Option::None => Option::None,
                    Option::Some((index, p4)) => match sp_le64(b, p4) {
                        Option::None => Option::None,
                        Option::Some((ucnt, p5)) => match sp_strs(b, p5, ucnt) {
                            Option::None => Option::None,
                            Option::Some((user, p6)) => match sp_le64(b, p6) {
                                Option::None => Option::None,
                                Option::Some((rcnt, p7)) => match sp_pairs(b, p7, rcnt) {
                                    Option::None => Option::None,
                                    Option::Some((remote, p8)) => if p8 == b.len() {
                                        Option::Some(
                                            StateModel {
                                                names: names,
                                                index: index,
                                                user_facing_api_keys: user,
                                                remote_api_keys: remote,
                                            },
                                        )
                                    } else {
                                        Option::None
                                    },
                                },
                            },
                        },
                    },
                },
            },
        },
    }
}

/// Reads a counted byte string.
fn read_bytes(data: &Vec<u8>, pos: usize) -> (r: Option<(Vec<u8>, usize)>)
    ensures
        match r {
            Option::Some((v, p2)) => sp_bytes(data@, pos as int) == Option::Some(
                (v@, p2 as int),
            ),
            Option::None => sp_bytes(data@, pos as int) is None,
        },
{
    let dlen = data.len();
    let (n, p2) = match read_le64(data, pos) {
        Option::Some(x) => x,
        Option::None => {
            return None;
        },
    };
    if n > (dlen - p2) as u64 {
        return None;
    }
    let len = n as usize;
    proof {
        assert(len as nat == n as nat);
    }
    let v = crate::abi::copy_range(data, p2, len);
    Some((v, p2 + len))
}

/// Reads a counted string, which must hold valid UTF-8.
fn read_string(data: &Vec<u8>, pos: usize) -> (r: Option<(String, usize)>)
    ensures
        match r {
            Option::Some((s, p2)) => sp_str(data@, pos as int) == Option::Some((s@, p2 as int)),
            Option::None => sp_str(data@, pos as int) is None,
        },
{
    let (bs, p2) = match read_bytes(data, pos) {
        Option::Some(x) => x,
        Option::None => {
            return None;
        },
    };
    match crate::decode::utf8_to_string(bs) {
        Option::Some(s) => Some((s, p2)),
        Option::None => None,
    }
}

/// Reads `cnt` byte strings in a row.
fn read_blobs(data: &Vec<u8>, pos: usize, cnt: u64) -> (r: Option<(Vec<Vec<u8>>, usize)>)
    ensures
        match r {
            Option::Some((vs, p2)) => sp_blobs(data@, pos as int, cnt as nat) == Option::Some(
                (crate::node::blobs_model(vs@), p2 as int),
            ),
            Option::None => sp_blobs(data@, pos as int, cnt as nat) is None,
        },
    decreases cnt,
{
    if cnt == 0 {
        let vs: Vec<Vec<u8>> = Vec::new();
        proof {
            assert(crate::node::blobs_model(vs@) =~= Seq::<Seq<u8>>::empty());
        }
        return Some((vs, pos));
    }
    let (x, p2) = match read_bytes(data, pos) {
        Option::Some(y) => y,
        Option::None => {
            return None;
        },
    };
    let (mut rest, p3) = match read_blobs(data, p2, cnt - 1) {
        Option::Some(y) => y,
        Option::None => {
            return None;
        },
    };
    let ghost tail = crate::node::blobs_model(rest@);
    rest.insert(0, x);
    proof {
        assert(crate::node::blobs_model(rest@) =~= seq![x@] + tail);
    }
    Some((rest, p3))
}

/// Reads `cnt` strings in a row.
fn read_strs(data: &Vec<u8>, pos: usize, cnt: u64) -> (r: Option<(Vec<String>, usize)>)
    ensures
        match r {
            Option::Some((vs, p2)) => sp_strs(data@, pos as int, cnt as nat) == Option::Some(
                (crate::sorted::names_model(vs@), p2 as int),
            ),
            Option::None => sp_strs(data@, pos as int, cnt as nat) is None,
        },
    decreases cnt,
{
    if cnt == 0 {
        let vs: Vec<String> = Vec::new();
        proof {
            assert(crate::sorted::names_model(vs@) =~= Seq::<Seq<char>>::empty());
        }
        return Some((vs, pos));
    }
    let (x, p2) = match read_string(data, pos) {
        Option::Some(y) => y,
        Option::None => {
            return None;
        },
    };
    let (mut rest, p3) = match read_strs(data, p2, cnt - 1) {
        Option::Some(y) => y,
        Option::None => {
            return None;
        },
    };
    let ghost tail = crate::sorted::names_model(rest@);
    rest.insert(0, x);
    proof {
        assert(crate::sorted::names_model(rest@) =~= seq![rest@[0]@] + tail);
    }
    Some((rest, p3))
}

/// Reads `cnt` string pairs in a row.
fn read_pairs(data: &Vec<u8>, pos: usize, cnt: u64) -> (r: Option<(Vec<(String, String)>, usize)>)
    ensures
        match r {
            Option::Some((vs, p2)) => sp_pairs(data@, pos as int, cnt as nat) == Option::Some(
                (crate::alists::pair_model(vs@), p2 as int),
            ),
            Option::None => sp_pairs(data@, pos as int, cnt as nat) is None,
        },
    decreases cnt,
{
    if cnt == 0 {
        let vs: Vec<(String, String)> = Vec::new();
        proof {
            assert(crate::alists::pair_model(vs@) =~= Seq::<(Seq<char>, Seq<char>)>::empty());
        }
        return Some((vs, pos));
    }
    let (k, p2) = match read_string(data, pos) {
        Option::Some(y) => y,
        Option::None => {
            return None;
        },
    };
    let (v, p3) = match read_string(data, p2) {
        Option::Some(y) => y,
        Option::None => {
            return None;
        },
    };
    let (mut rest, p4) = match read_pairs(data, p3, cnt - 1) {
        Option::Some(y) => y,
        Option::None => {
            return None;
        },
    };
    let ghost tail = crate::alists::pair_model(rest@);
    rest.insert(0, (k, v));
    proof {
        assert(crate::alists::pair_model(rest@) =~= seq![(rest@[0].0@, rest@[0].1@)] + tail);
    }
    Some((rest, p4))
}

/// Reads one data key.
fn read_dk(data: &Vec<u8>, pos: usize) -> (r: Option<(DataKey, usize)>)
    ensures
        match r {
            Option::Some((d, p2)) => sp_dk(data@, pos as int) == Option::Some((d@, p2 as int)),
            Option::None => sp_dk(data@, pos as int) is None,
        },
{
    if pos >= data.len() {
        return None;
    }
    let tag = data[pos];
    if tag == 0 {
        match read_bytes(data, pos + 1) {
            Option::Some((bs, p2)) => Some((DataKey::Fact(bs), p2)),
            Option::None => None,
        }
    } else if tag == 1 {
        let (cnt, p2) = match read_le64(data, pos + 1) {
            Option::Some(y) => y,
            Option::None => {
                return None;
            },
        };
        match read_blobs(data, p2, cnt) {
            Option::Some((ns, p3)) => Some((DataKey::Note(ns), p3)),
            Option::None => None,
        }
    } else {
        None
    }
}

/// Reads `cnt` labelled data keys in a row.
fn read_dks(data: &Vec<u8>, pos: usize, cnt: u64) -> (r: Option<(Vec<(String, DataKey)>, usize)>)
    ensures
        match r {
            Option::Some((vs, p2)) => sp_dks(data@, pos as int, cnt as nat) == Option::Some(
                (crate::alists::pair_model(vs@), p2 as int),
            ),
            Option::None => sp_dks(data@, pos as int, cnt as nat) is None,
        },
    decreases cnt,
{
    if cnt == 0 {
        let vs: Vec<(String, DataKey)> = Vec::new();
        proof {
            assert(crate::alists::pair_model(vs@) =~= Seq::<(Seq<char>, DataKeyModel)>::empty());
        }
        return Some((vs, pos));
    }
    let (k, p2) = match read_string(data, pos) {
        Option::Some(y) => y,
        Option::None => {
            return None;
        },
    };
    let (d, p3) = match read_dk(data, p2) {
        Option::Some(y) => y,
        Option::None => {
            return None;
        },
    };
    let (mut rest, p4) = match read_dks(data, p3, cnt - 1) {
        Option::Some(y) => y,
        Option::None => {
            return None;
        },
    };
    let ghost tail = crate::alists::pair_model(rest@);
    rest.insert(0, (k, d));
    proof {
        assert(crate::alists::pair_model(rest@) =~= seq![(rest@[0].0@, rest@[0].1@)] + tail);
    }
    Some((rest, p4))
}

/// Reads one node.
fn read_node(data: &Vec<u8>, pos: usize) -> (r: Option<(Node, usize)>)
    ensures
        match r {
            Option::Some((n, p2)) => sp_node(data@, pos as int) == Option::Some((n@, p2 as int)),
            Option::None => sp_node(data@, pos as int) is None,
        },
{
    let (pp, p2) = match read_string(data, pos) {
        Option::Some(y) => y,
        Option::None => {
            return None;
        },
    };
    let (name, p3) = match read_string(data, p2) {
        Option::Some(y) => y,
        Option::None => {
            return None;
        },
    };
    let (ccnt, p4) = match read_le64(data, p3) {
        Option::Some(y) => y,
        Option::None => {
            return None;
        },
    };
    let (cn, p5) = match read_strs(data, p4, ccnt) {
        Option::Some(y) => y,
        Option::None => {
            return None;
        },
    };
    let (dcnt, p6) = match read_le64(data, p5) {
        Option::Some(y) => y,
        Option::None => {
            return None;
        },
    };
    let (dks, p7) = match read_dks(data, p6, dcnt) {
        Option::Some(y) => y,
        Option::None => {
            return None;
        },
    };
    let n = Node { parent_path: pp, name, child_names: cn, data_keys: dks };
    Some((n, p7))
}

/// Reads `cnt` index entries in a row.
fn read_index(data: &Vec<u8>, pos: usize, cnt: u64) -> (r: Option<(Vec<(String, Node)>, usize)>)
    ensures
        match r {
            Option::Some((vs, p2)) => sp_index(data@, pos as int, cnt as nat) == Option::Some(
                (crate::alists::pair_model(vs@), p2 as int),
            ),
            Option::None => sp_index(data@, pos as int, cnt as nat) is None,
        },
    decreases cnt,
{
    if cnt == 0 {
        let vs: Vec<(String, Node)> = Vec::new();
        proof {
            assert(crate::alists::pair_model(vs@) =~= Seq::<(Seq<char>, NodeModel)>::empty());
        }
        return Some((vs, pos));
    }
    let (h, p2) = match read_string(data, pos) {
        Option::Some(y) => y,
        Option::None => {
            return None;
        },
    };
    let (n, p3) = match read_node(data, p2) {
        Option::Some(y) => y,
        Option::None => {
            return None;
        },
    };
    let (mut rest, p4) = match read_index(data, p3, cnt - 1) {
        Option::Some(y) => y,
        Option::None => {
            return None;
        },
    };
    let ghost tail = crate::alists::pair_model(rest@);
    rest.insert(0, (h, n));
    proof {
        assert(crate::alists::pair_model(rest@) =~~= seq![(rest@[0].0@, rest@[0].1@)] + tail);
    }
    Some((rest, p4))
}

impl ResellerState {
    /// Reads a snapshot blob back into a state: the exact inverse of what
    /// `save` wrote, or nothing for a blob that does not parse to its end.
    /// The caller is owed no well-formedness of the result unless the blob
    /// came from `save` on a well-formed state, whose model the result then
    /// carries unchanged.
    pub fn from_snapshot(data: &Vec<u8>) -> (r: Option<ResellerState>)
        ensures
            match spec_parse_snapshot(data@) {
                Option::Some(m) => r matches Some(s) && s@ == m,
                Option::None => r is None,
            },
    {
        let (ncnt, p1) = match read_le64(data, 0) {
            Option::Some(y) => y,
            Option::None => {
                return None;
            },
        };
        let (names, p2) = match read_pairs(data, p1, ncnt) {
            Option::Some(y) => y,
            Option::None => {
                return None;
            },
        };
        let (icnt, p3) = match read_le64(data, p2) {
            Option::Some(y) => y,
            Option::None => {
                return None;
            },
        };
        let (index, p4) = match read_index(data, p3, icnt) {
            Option::Some(y) => y,
            Option::None => {
                return None;
            },
        };
        let (ucnt, p5) = match read_le64(data, p4) {
            Option::Some(y) => y,
            Option::None => {
                return None;
            },
        };
        let (user, p6) = match read_strs(data, p5, ucnt) {
            Option::Some(y) => y,
            Option::None => {
                return None;
            },
        };
        let (rcnt, p7) = match read_le64(data, p6) {
            Option::Some(y) => y,
            Option::None => {
                return None;
            },
        };
        let (remote, p8) = match read_pairs(data, p7, rcnt) {
            Option::Some(y) => y,
            Option::None => {
                return None;
            },
        };
        if p8 != data.len() {
            return None;
        }
        let s = ResellerState { names, index, user_facing_api_keys: user, remote_api_keys: remote };
        Some(s)
    }
}

/// A string whose stored length fits its eight bytes.
pub open spec fn str_fits(s: Seq<char>) -> bool {
    vstd::utf8::encode_utf8(s).len() < pow256(8)
}

/// A data key whose stored lengths fit.
pub open spec fn dk_fits(d: DataKeyModel) -> bool {
    match d {
        DataKeyModel::Fact(bs) => bs.len() < pow256(8),
        DataKeyModel::Note(ns) => ns.len() < pow256(8) && forall|i: int|
            0 <= i < ns.len() ==> (#[trigger] ns[i]).len() < pow256(8),
    }
}

/// A node whose stored counts and lengths fit.
pub open spec fn node_fits(n: NodeModel) -> bool {
    &&& str_fits(n.parent_path)
    &&& str_fits(n.name)
    &&& n.child_names.len() < pow256(8)
    &&& forall|i: int| 0 <= i < n.child_names.len() ==> str_fits(#[trigger] n.child_names[i])
    &&& n.data_keys.len() < pow256(8)
    &&& forall|i: int|
        0 <= i < n.data_keys.len() ==> str_fits(#[trigger] n.data_keys[i].0) && dk_fits(
            n.data_keys[i].1,
        )
}

/// A state whose stored counts and lengths all fit — true of any state the
/// process can actually hold.
pub open spec fn snapshot_fits(m: StateModel) -> bool {
    &&& m.names.len() < pow256(8)
    &&& forall|i: int|
        0 <= i < m.names.len() ==> str_fits(#[trigger] m.names[i].0) && str_fits(m.names[i].1)
    &&& m.index.len() < pow256(8)
    &&& forall|i: int|
        0 <= i < m.index.len() ==> str_fits(#[trigger] m.index[i].0) && node_fits(m.index[i].1)
    &&& m.user_facing_api_keys.len() < pow256(8)
    &&& forall|i: int|
        0 <= i < m.user_facing_api_keys.len() ==> str_fits(#[trigger] m.user_facing_api_keys[i])
    &&& m.remote_api_keys.len() < pow256(8)
    &&& forall|i: int|
        0 <= i < m.remote_api_keys.len() ==> str_fits(#[trigger] m.remote_api_keys[i].0)
            && str_fits(m.remote_api_keys[i].1)
}

/// A stored count reads back as itself.
proof fn rt_le64(b: Seq<u8>, pos: int, n: nat)
    requires
        0 <= pos,
        pos + 8 <= b.len(),
        b.subrange(pos, pos + 8) == le64(n),
        n < pow256(8),
    ensures
        sp_le64(b, pos) == Option::Some((n, pos + 8)),
{
    lemma_le_val_le64(n);
}

/// A stored byte string reads back as itself.
proof fn rt_bytes(b: Seq<u8>, pos: int, x: Seq<u8>)
    requires
        0 <= pos,
        pos + 8 + x.len() <= b.len(),
        b.subrange(pos, pos + 8 + x.len()) == crate::snapshot::bytes_block(x),
        x.len() < pow256(8),
    ensures
        sp_bytes(b, pos) == Option::Some((x, pos + 8 + x.len())),
{
    assert(b.subrange(pos, pos + 8) =~= le64(x.len() as nat)) by {
        assert forall|i: int| 0 <= i < 8 implies b.subrange(pos, pos + 8)[i] == le64(
            x.len() as nat,
        )[i] by {
            assert(b.subrange(pos, pos + 8)[i] == b.subrange(pos, pos + 8 + x.len())[i]);
        }
    }
    rt_le64(b, pos, x.len());
    assert(b.subrange(pos + 8, pos + 8 + x.len()) =~= x) by {
        assert forall|i: int| 0 <= i < x.len() implies b.subrange(pos + 8, pos + 8 + x.len())[i]
            == x[i] by {
            assert(b.subrange(pos + 8, pos + 8 + x.len())[i] == b.subrange(
                pos,
                pos + 8 + x.len(),
            )[i + 8]);
        }
    }
}

/// A stored string reads back as itself.
proof fn rt_str(b: Seq<u8>, pos: int, s: Seq<char>)
    requires
        0 <= pos,
        pos + crate::snapshot::str_block(s).len() <= b.len(),
        b.subrange(pos, pos + crate::snapshot::str_block(s).len()) == crate::snapshot::str_block(s),
        str_fits(s),
    ensures
        sp_str(b, pos) == Option::Some((s, pos + crate::snapshot::str_block(s).len())),
{
    let e = vstd::utf8::encode_utf8(s);
    assert(crate::snapshot::str_block(s) =~= crate::snapshot::bytes_block(e));
    rt_bytes(b, pos, e);
    vstd::utf8::encode_utf8_valid_utf8(s);
    vstd::utf8::encode_utf8_decode_utf8(s);
}

/// A stored concatenation splits into its stored halves.
proof fn sub_split(b: Seq<u8>, pos: int, x: Seq<u8>, y: Seq<u8>)
    requires
        0 <= pos,
        pos + x.len() + y.len() <= b.len(),
        b.subrange(pos, pos + x.len() + y.len()) == x + y,
    ensures
        b.subrange(pos, pos + x.len()) == x,
        b.subrange(pos + x.len(), pos + x.len() + y.len()) == y,
{
    assert(b.subrange(pos, pos + x.len()) =~= x) by {
        assert forall|i: int| 0 <= i < x.len() implies b.subrange(pos, pos + x.len())[i]
            == x[i] by {
            assert(b.subrange(pos, pos + x.len())[i] == b.subrange(
                pos,
                pos + x.len() + y.len(),
            )[i]);
        }
    }
    assert(b.subrange(pos + x.len(), pos + x.len() + y.len()) =~= y) by {
        assert forall|i: int| 0 <= i < y.len() implies b.subrange(
            pos + x.len(),
            pos + x.len() + y.len(),
        )[i] == y[i] by {
            assert(b.subrange(pos + x.len(), pos + x.len() + y.len())[i] == b.subrange(
                pos,
                pos + x.len() + y.len(),
            )[i + x.len()]);
        }
    }
}

/// The encoding of the first `k` byte strings, seen from the front.
proof fn enc_blobs_front(ns: Seq<Seq<u8>>, k: int)
    requires
        1 <= k <= ns.len(),
    ensures
        crate::snapshot::enc_blobs(ns, k) =~= crate::snapshot::bytes_block(ns[0])
            + crate::snapshot::enc_blobs(ns.drop_first(), k - 1),
    decreases k,
{
    if k == 1 {
        assert(crate::snapshot::enc_blobs(ns, 0).len() == 0);
        assert(crate::snapshot::enc_blobs(ns.drop_first(), 0).len() == 0);
    } else {
        enc_blobs_front(ns, k - 1);
        assert(ns.drop_first()[k - 2] == ns[k - 1]);
    }
}

/// Stored byte strings read back as themselves, in order.
proof fn rt_blobs(b: Seq<u8>, pos: int, ns: Seq<Seq<u8>>)
    requires
        0 <= pos,
        pos + crate::snapshot::enc_blobs(ns, ns.len() as int).len() <= b.len(),
        b.subrange(pos, pos + crate::snapshot::enc_blobs(ns, ns.len() as int).len())
            == crate::snapshot::enc_blobs(ns, ns.len() as int),
        forall|i: int| 0 <= i < ns.len() ==> (#[trigger] ns[i]).len() < pow256(8),
    ensures
        sp_blobs(b, pos, ns.len() as nat) == Option::Some(
            (ns, pos + crate::snapshot::enc_blobs(ns, ns.len() as int).len()),
        ),
    decreases ns.len(),
{
    if ns.len() > 0 {
        let first = crate::snapshot::bytes_block(ns[0]);
        let nsd = ns.drop_first();
        let rest = crate::snapshot::enc_blobs(nsd, nsd.len() as int);
        enc_blobs_front(ns, ns.len() as int);
        sub_split(b, pos, first, rest);
        rt_bytes(b, pos, ns[0]);
        rt_blobs(b, pos + first.len(), nsd);
        assert(seq![ns[0]] + nsd =~= ns);
    }
}

/// The encoding of the first `k` strings, seen from the front.
proof fn enc_strs_front(ss: Seq<Seq<char>>, k: int)
    requires
        1 <= k <= ss.len(),
    ensures
        crate::snapshot::enc_strs(ss, k) =~= crate::snapshot::str_block(ss[0])
            + crate::snapshot::enc_strs(ss.drop_first(), k - 1),
    decreases k,
{
    if k == 1 {
        assert(crate::snapshot::enc_strs(ss, 0).len() == 0);
        assert(crate::snapshot::enc_strs(ss.drop_first(), 0).len() == 0);
    } else {
        enc_strs_front(ss, k - 1);
        assert(ss.drop_first()[k - 2] == ss[k - 1]);
    }
}

/// Stored strings read back as themselves, in order.
proof fn rt_strs(b: Seq<u8>, pos: int, ss: Seq<Seq<char>>)
    requires
        0 <= pos,
        pos + crate::snapshot::enc_strs(ss, ss.len() as int).len() <= b.len(),
        b.subrange(pos, pos + crate::snapshot::enc_strs(ss, ss.len() as int).len())
            == crate::snapshot::enc_strs(ss, ss.len() as int),
        forall|i: int| 0 <= i < ss.len() ==> str_fits(#[trigger] ss[i]),
    ensures
        sp_strs(b, pos, ss.len() as nat) == Option::Some(
            (ss, pos + crate::snapshot::enc_strs(ss, ss.len() as int).len()),
        ),
    decreases ss.len(),
{
    if ss.len() > 0 {
        let first = crate::snapshot::str_block(ss[0]);
        let ssd = ss.drop_first();
        let rest = crate::snapshot::enc_strs(ssd, ssd.len() as int);
        enc_strs_front(ss, ss.len() as int);
        sub_split(b, pos, first, rest);
        rt_str(b, pos, ss[0]);
        rt_strs(b, pos + first.len(), ssd);
        assert(seq![ss[0]] + ssd =~= ss);
    }
}

/// The encoding of the first `k` string pairs, seen from the front.
proof fn enc_pairs_front(ps: Seq<(Seq<char>, Seq<char>)>, k: int)
    requires
        1 <= k <= ps.len(),
    ensures
        crate::snapshot::enc_pairs(ps, k) =~= crate::snapshot::str_block(ps[0].0)
            + crate::snapshot::str_block(ps[0].1) + crate::snapshot::enc_pairs(
            ps.drop_first(),
            k - 1,
        ),
    decreases k,
{
    if k == 1 {
        assert(crate::snapshot::enc_pairs(ps, 0).len() == 0);
        assert(crate::snapshot::enc_pairs(ps.drop_first(), 0).len() == 0);
    } else {
        enc_pairs_front(ps, k - 1);
        assert(ps.drop_first()[k - 2] == ps[k - 1]);
    }
}

/// Stored string pairs read back as themselves, in order.
proof fn rt_pairs(b: Seq<u8>, pos: int, ps: Seq<(Seq<char>, Seq<char>)>)
    requires
        0 <= pos,
        pos + crate::snapshot::enc_pairs(ps, ps.len() as int).len() <= b.len(),
        b.subrange(pos, pos + crate::snapshot::enc_pairs(ps, ps.len() as int).len())
            == crate::snapshot::enc_pairs(ps, ps.len() as int),
        forall|i: int|
            0 <= i < ps.len() ==> str_fits(#[trigger] ps[i].0) && str_fits(ps[i].1),
    ensures
        sp_pairs(b, pos, ps.len() as nat) == Option::Some(
            (ps, pos + crate::snapshot::enc_pairs(ps, ps.len() as int).len()),
        ),
    decreases ps.len(),
{
    if ps.len() > 0 {
        let ka = crate::snapshot::str_block(ps[0].0);
        let va = crate::snapshot::str_block(ps[0].1);
        let psd = ps.drop_first();
        let rest = crate::snapshot::enc_pairs(psd, psd.len() as int);
        enc_pairs_front(ps, ps.len() as int);
        assert(ka + va + rest =~= ka + (va + rest));
        sub_split(b, pos, ka, va + rest);
        sub_split(b, pos + ka.len(), va, rest);
        rt_str(b, pos, ps[0].0);
        rt_str(b, pos + ka.len(), ps[0].1);
        rt_pairs(b, pos + ka.len() + va.len(), psd);
        assert(seq![(ps[0].0, ps[0].1)] + psd =~= ps);
    }
}

/// A stored data key reads back as itself.
proof fn rt_dk(b: Seq<u8>, pos: int, d: DataKeyModel)
    requires
        0 <= pos,
        pos + crate::snapshot::dk_block(d).len() <= b.len(),
        b.subrange(pos, pos + crate::snapshot::dk_block(d).len()) == crate::snapshot::dk_block(d),
        dk_fits(d),
    ensures
        sp_dk(b, pos) == Option::Some((d, pos + crate::snapshot::dk_block(d).len())),
{
    match d {
        DataKeyModel::Fact(bs) => {
            let inner = crate::snapshot::bytes_block(bs);
            assert(crate::snapshot::dk_block(d) =~= seq![0u8] + inner);
            sub_split(b, pos, seq![0u8], inner);
            assert(b[pos] == b.subrange(pos, pos + 1)[0]);
            rt_bytes(b, pos + 1, bs);
        },
        DataKeyModel::Note(ns) => {
            let cntw = le64(ns.len() as nat);
            let inner = crate::snapshot::enc_blobs(ns, ns.len() as int);
            assert(crate::snapshot::dk_block(d) =~= seq![1u8] + (cntw + inner));
            sub_split(b, pos, seq![1u8], cntw + inner);
            sub_split(b, pos + 1, cntw, inner);
            assert(b[pos] == b.subrange(pos, pos + 1)[0]);
            rt_le64(b, pos + 1, ns.len() as nat);
            rt_blobs(b, pos + 9, ns);
        },
    }
}

/// The encoding of the first `k` labelled data keys, seen from the front.
proof fn enc_dks_front(ds: Seq<(Seq<char>, DataKeyModel)>, k: int)
    requires
        1 <= k <= ds.len(),
    ensures
        crate::snapshot::enc_dks(ds, k) =~= crate::snapshot::str_block(ds[0].0)
            + crate::snapshot::dk_block(ds[0].1) + crate::snapshot::enc_dks(
            ds.drop_first(),
            k - 1,
        ),
    decreases k,
{
    if k == 1 {
        assert(crate::snapshot::enc_dks(ds, 0).len() == 0);
        assert(crate::snapshot::enc_dks(ds.drop_first(), 0).len() == 0);
    } else {
        enc_dks_front(ds, k - 1);
        assert(ds.drop_first()[k - 2] == ds[k - 1]);
    }
}

/// Stored labelled data keys read back as themselves, in order.
proof fn rt_dks(b: Seq<u8>, pos: int, ds: Seq<(Seq<char>, DataKeyModel)>)
    requires
        0 <= pos,
        pos + crate::snapshot::enc_dks(ds, ds.len() as int).len() <= b.len(),
        b.subrange(pos, pos + crate::snapshot::enc_dks(ds, ds.len() as int).len())
            == crate::snapshot::enc_dks(ds, ds.len() as int),
        forall|i: int|
            0 <= i < ds.len() ==> str_fits(#[trigger] ds[i].0) && dk_fits(ds[i].1),
    ensures
        sp_dks(b, pos, ds.len() as nat) == Option::Some(
            (ds, pos + crate::snapshot::enc_dks(ds, ds.len() as int).len()),
        ),
    decreases ds.len(),
{
    if ds.len() > 0 {
        let ka = crate::snapshot::str_block(ds[0].0);
        let da = crate::snapshot::dk_block(ds[0].1);
        let dsd = ds.drop_first();
        let rest = crate::snapshot::enc_dks(dsd, dsd.len() as int);
        enc_dks_front(ds, ds.len() as int);
        assert(ka + da + rest =~= ka + (da + rest));
        sub_split(b, pos, ka, da + rest);
        sub_split(b, pos + ka.len(), da, rest);
        rt_str(b, pos, ds[0].0);
        rt_dk(b, pos + ka.len(), ds[0].1);
        rt_dks(b, pos + ka.len() + da.len(), dsd);
        assert(seq![(ds[0].0, ds[0].1)] + dsd =~= ds);
    }
}

/// A stored node reads back as itself.
proof fn rt_node(b: Seq<u8>, pos: int, n: NodeModel)
    requires
        0 <= pos,
        pos + crate::snapshot::node_block(n).len() <= b.len(),
        b.subrange(pos, pos + crate::snapshot::node_block(n).len())
            == crate::snapshot::node_block(n),
        node_fits(n),
    ensures
        sp_node(b, pos) == Option::Some((n, pos + crate::snapshot::node_block(n).len())),
{
    let a1 = crate::snapshot::str_block(n.parent_path);
    let a2 = crate::snapshot::str_block(n.name);
    let a3 = le64(n.child_names.len() as nat);
    let a4 = crate::snapshot::enc_strs(n.child_names, n.child_names.len() as int);
    let a5 = le64(n.data_keys.len() as nat);
    let a6 = crate::snapshot::enc_dks(n.data_keys, n.data_keys.len() as int);
    assert(crate::snapshot::node_block(n) =~= a1 + (a2 + (a3 + (a4 + (a5 + a6)))));
    sub_split(b, pos, a1, a2 + (a3 + (a4 + (a5 + a6))));
    let p2 = pos + a1.len();
    sub_split(b, p2, a2, a3 + (a4 + (a5 + a6)));
    let p3 = p2 + a2.len();
    sub_split(b, p3, a3, a4 + (a5 + a6));
    let p4 = p3 + a3.len();
    sub_split(b, p4, a4, a5 + a6);
    let p5 = p4 + a4.len();
    sub_split(b, p5, a5, a6);
    let p6 = p5 + a5.len();
    rt_str(b, pos, n.parent_path);
    rt_str(b, p2, n.name);
    rt_le64(b, p3, n.child_names.len() as nat);
    rt_strs(b, p4, n.child_names);
    rt_le64(b, p5, n.data_keys.len() as nat);
    rt_dks(b, p6, n.data_keys);
}

/// The encoding of the first `k` index entries, seen from the front.
proof fn enc_index_front(es: Seq<(Seq<char>, NodeModel)>, k: int)
    requires
        1 <= k <= es.len(),
    ensures
        crate::snapshot::enc_index(es, k) =~= crate::snapshot::str_block(es[0].0)
            + crate::snapshot::node_block(es[0].1) + crate::snapshot::enc_index(
            es.drop_first(),
            k - 1,
        ),
    decreases k,
{
    if k == 1 {
        assert(crate::snapshot::enc_index(es, 0).len() == 0);
        assert(crate::snapshot::enc_index(es.drop_first(), 0).len() == 0);
    } else {
        enc_index_front(es, k - 1);
        assert(es.drop_first()[k - 2] == es[k - 1]);
    }
}

/// Stored index entries read back as themselves, in order.
proof fn rt_index(b: Seq<u8>, pos: int, es: Seq<(Seq<char>, NodeModel)>)
    requires
        0 <= pos,
        pos + crate::snapshot::enc_index(es, es.len() as int).len() <= b.len(),
        b.subrange(pos, pos + crate::snapshot::enc_index(es, es.len() as int).len())
            == crate::snapshot::enc_index(es, es.len() as int),
        forall|i: int|
            0 <= i < es.len() ==> str_fits(#[trigger] es[i].0) && node_fits(es[i].1),
    ensures
        sp_index(b, pos, es.len() as nat) == Option::Some(
            (es, pos + crate::snapshot::enc_index(es, es.len() as int).len()),
        ),
    decreases es.len(),
{
    if es.len() > 0 {
        let ka = crate::snapshot::str_block(es[0].0);
        let na = crate::snapshot::node_block(es[0].1);
        let esd = es.drop_first();
        let rest = crate::snapshot::enc_index(esd, esd.len() as int);
        enc_index_front(es, es.len() as int);
        assert(ka + na + rest =~= ka + (na + rest));
        sub_split(b, pos, ka, na + rest);
        sub_split(b, pos + ka.len(), na, rest);
        rt_str(b, pos, es[0].0);
        rt_node(b, pos + ka.len(), es[0].1);
        rt_index(b, pos + ka.len() + na.len(), esd);
        assert(seq![(es[0].0, es[0].1)] + esd =~= es);
    }
}

/// The persistence round trip: parsing what `save` serializes gives the
/// state back, for any state whose counts and lengths fit their stored
/// width — as every state the process can hold does.
#[verifier::rlimit(60)]
pub proof fn lemma_snapshot_round_trip(m: StateModel)
    requires
        snapshot_fits(m),
    ensures
        spec_parse_snapshot(crate::snapshot::spec_snapshot(m)) == Option::Some(m),
{
    let b = crate::snapshot::spec_snapshot(m);
    let a1 = le64(m.names.len() as nat);
    let a2 = crate::snapshot::enc_pairs(m.names, m.names.len() as int);
    let a3 = le64(m.index.len() as nat);
    let a4 = crate::snapshot::enc_index(m.index, m.index.len() as int);
    let a5 = le64(m.user_facing_api_keys.len() as nat);
    let a6 = crate::snapshot::enc_strs(
        m.user_facing_api_keys,
        m.user_facing_api_keys.len() as int,
    );
    let a7 = le64(m.remote_api_keys.len() as nat);
    let a8 = crate::snapshot::enc_pairs(m.remote_api_keys, m.remote_api_keys.len() as int);
    assert(b =~= a1 + (a2 + (a3 + (a4 + (a5 + (a6 + (a7 + a8)))))));
    assert(b.subrange(0, b.len() as int) =~= b);
    sub_split(b, 0, a1, a2 + (a3 + (a4 + (a5 + (a6 + (a7 + a8))))));
    let p1 = a1.len() as int;
    sub_split(b, p1, a2, a3 + (a4 + (a5 + (a6 + (a7 + a8)))));
    let p2 = p1 + a2.len();
    sub_split(b, p2, a3, a4 + (a5 + (a6 + (a7 + a8))));
    let p3 = p2 + a3.len();
    sub_split(b, p3, a4, a5 + (a6 + (a7 + a8)));
    let p4 = p3 + a4.len();
    sub_split(b, p4, a5, a6 + (a7 + a8));
    let p5 = p4 + a5.len();
    sub_split(b, p5, a6, a7 + a8);
    let p6 = p5 + a6.len();
    sub_split(b, p6, a7, a8);
    let p7 = p6 + a7.len();
    rt_le64(b, 0, m.names.len() as nat);
    rt_pairs(b, p1, m.names);
    rt_le64(b, p2, m.index.len() as nat);
    rt_index(b, p3, m.index);
    rt_le64(b, p4, m.user_facing_api_keys.len() as nat);
    rt_strs(b, p5, m.user_facing_api_keys);
    rt_le64(b, p6, m.remote_api_keys.len() as nat);
    rt_pairs(b, p7, m.remote_api_keys);
    assert(p7 + a8.len() == b.len());
}

} // verus!
