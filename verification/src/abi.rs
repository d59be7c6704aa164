//! The canonical wire form of an event payload: 32-byte big-endian words,
//! offsets to dynamic tails, and length-prefixed, zero-padded byte strings.
use vstd::prelude::*;
use vstd::arithmetic::div_mod::lemma_fundamental_div_mod;

verus! {

/// 256 to a power.
pub open spec fn pow256(n: nat) -> nat
    decreases n,
{
    if n == 0 {
        1
    } else {
        256 * pow256((n - 1) as nat)
    }
}

/// The value of a big-endian byte string.
pub open spec fn be_val(s: Seq<u8>) -> nat
    decreases s.len(),
{
    if s.len() == 0 {
        0
    } else {
        (be_val(s.drop_last()) * 256 + s.last()) as nat
    }
}

/// Leading zero bytes do not change the value.
pub proof fn lemma_be_val_leading_zeros(s: Seq<u8>, k: int)
    requires
        0 <= k <= s.len(),
        forall|j: int| 0 <= j < k ==> s[j] == 0,
    ensures
        be_val(s) == be_val(s.skip(k)),
    decreases s.len(),
{
    if s.len() == k {
        lemma_be_val_all_zero(s);
        assert(s.skip(k).len() == 0);
    } else {
        assert(s.len() > k);
        lemma_be_val_leading_zeros(s.drop_last(), k);
        assert(s.drop_last().skip(k) =~= s.skip(k).drop_last());
        assert(s.skip(k).last() == s.last());
        assert(be_val(s.skip(k)) == be_val(s.skip(k).drop_last()) * 256 + s.skip(k).last());
    }
}

/// A string of zero bytes has value zero.
pub proof fn lemma_be_val_all_zero(s: Seq<u8>)
    requires
        forall|j: int| 0 <= j < s.len() ==> s[j] == 0,
    ensures
        be_val(s) == 0,
    decreases s.len(),
{
    if s.len() > 0 {
        lemma_be_val_all_zero(s.drop_last());
    }
}

/// A non-zero byte puts a floor under the value.
pub proof fn lemma_be_val_lower(s: Seq<u8>, j: int)
    requires
        0 <= j < s.len(),
        s[j] != 0,
    ensures
        be_val(s) >= pow256((s.len() - 1 - j) as nat),
    decreases s.len(),
{
    if j == s.len() - 1 {
        assert(be_val(s) >= s.last());
    } else {
        lemma_be_val_lower(s.drop_last(), j);
        let p = pow256((s.len() - 2 - j) as nat);
        assert(pow256((s.len() - 1 - j) as nat) == 256 * p);
        assert(be_val(s.drop_last()) * 256 >= p * 256) by (nonlinear_arith)
            requires
                be_val(s.drop_last()) >= p,
        ;
        assert(be_val(s) >= be_val(s.drop_last()) * 256);
    }
}

/// Powers of 256 are positive.
pub proof fn lemma_pow256_pos(n: nat)
    ensures
        pow256(n) > 0,
    decreases n,
{
    if n > 0 {
        lemma_pow256_pos((n - 1) as nat);
    }
}

/// Powers of 256 grow with the exponent.
pub proof fn lemma_pow256_le(a: nat, b: nat)
    requires
        a <= b,
    ensures
        pow256(a) <= pow256(b),
    decreases b,
{
    if a < b {
        lemma_pow256_le(a, (b - 1) as nat);
        assert(pow256(b) == 256 * pow256((b - 1) as nat));
    }
}

/// A byte-string length rounded up to whole 32-byte words.
pub open spec fn pad32(n: nat) -> nat {
    ((n + 31) / 32) * 32
}

/// The padded length covers the length and adds less than a word.
pub proof fn lemma_pad32_bounds(n: nat)
    ensures
        n <= pad32(n),
        pad32(n) < n + 32,
{
    lemma_fundamental_div_mod((n + 31) as int, 32);
}

/// Reads one 32-byte big-endian word whose value fits a `u64`; a larger
/// value reads as nothing, with its floor recorded.
pub fn read_word(data: &Vec<u8>, off: usize) -> (r: Option<u64>)
    requires
        off + 32 <= data@.len(),
    ensures
        match r {
            Option::Some(v) => be_val(data@.subrange(off as int, off + 32)) == v as nat,
            Option::None => be_val(data@.subrange(off as int, off + 32)) >= pow256(8),
        },
{
    let dlen = data.len();
    let ghost w = data@.subrange(off as int, off + 32);
    let mut i: usize = 0;
    while i < 24
        invariant
            i <= 24,
            dlen == data@.len(),
            off + 32 <= data@.len(),
            w == data@.subrange(off as int, off + 32),
            forall|j: int| 0 <= j < i ==> w[j] == 0,
        decreases 24 - i,
    {
        if data[off + i] != 0 {
            proof {
                assert(w[i as int] == data@[off + i]);
                lemma_be_val_lower(w, i as int);
                lemma_pow256_le(8, (w.len() - 1 - i) as nat);
            }
            return None;
        }
        proof {
            assert(w[i as int] == data@[off + i]);
        }
        i = i + 1;
    }
    proof {
        lemma_be_val_leading_zeros(w, 24);
        assert(pow256(0) == 1);
        assert(pow256(1) == 256);
        assert(pow256(2) == 65536);
        assert(pow256(3) == 16777216);
        assert(pow256(4) == 4294967296);
        assert(pow256(5) == 1099511627776);
        assert(pow256(6) == 281474976710656);
        assert(pow256(7) == 72057594037927936);
        assert(pow256(8) == 18446744073709551616);
    }
    let mut v: u64 = 0;
    let mut k: usize = 24;
    proof {
        assert(w.subrange(24, 24).len() == 0);
    }
    while k < 32
        invariant
            24 <= k <= 32,
            dlen == data@.len(),
            off + 32 <= data@.len(),
            w == data@.subrange(off as int, off + 32),
            v as nat == be_val(w.subrange(24, k as int)),
            (v as nat) < pow256((k - 24) as nat),
            pow256(7) == 72057594037927936,
        decreases 32 - k,
    {
        let b = data[off + k];
        proof {
            assert(w[k as int] == data@[off + k]);
            lemma_pow256_le((k - 24) as nat, 7);
            assert(pow256((k - 24) as nat) <= 72057594037927936);
        }
        v = v * 256 + (b as u64);
        k = k + 1;
        proof {
            assert(w.subrange(24, k as int).drop_last() =~= w.subrange(24, k - 1));
            assert(w.subrange(24, k as int).last() == w[k - 1]);
            assert(pow256((k - 24) as nat) == 256 * pow256((k - 25) as nat));
        }
    }
    proof {
        assert(w.subrange(24, 32) =~= w.skip(24));
    }
    Some(v)
}

/// Copies `len` bytes starting at `start`.
pub fn copy_range(data: &Vec<u8>, start: usize, len: usize) -> (r: Vec<u8>)
    requires
        start + len <= data@.len(),
    ensures
        r@ == data@.subrange(start as int, start + len),
{
    let dlen = data.len();
    let mut r: Vec<u8> = Vec::new();
    let mut i: usize = 0;
    while i < len
        invariant
            i <= len,
            dlen == data@.len(),
            start + len <= data@.len(),
            r@ =~= data@.subrange(start as int, start + i),
        decreases len - i,
    {
        r.push(data[start + i]);
        i = i + 1;
        proof {
            assert(r@ =~= data@.subrange(start as int, start + i));
        }
    }
    proof {
        assert(r@ =~= data@.subrange(start as int, start + len));
    }
    r
}

/// The payload of an event with one dynamic `bytes` field, in canonical
/// form: one head word holding the offset 32, the length, and the bytes
/// padded to whole words.
pub open spec fn spec_abi_one_bytes(data: Seq<u8>) -> Option<Seq<u8>> {
    if data.len() < 64 {
        Option::None
    } else if be_val(data.subrange(0, 32)) != 32 {
        Option::None
    } else {
        let l = be_val(data.subrange(32, 64));
        if data.len() == 64 + pad32(l) {
            Option::Some(data.subrange(64, 64 + l as int))
        } else {
            Option::None
        }
    }
}

/// The payload of an event with two dynamic `bytes` fields, in canonical
/// form: two head words holding the offsets of the two tails, each tail a
/// length and the bytes padded to whole words.
pub open spec fn spec_abi_two_bytes(data: Seq<u8>) -> Option<(Seq<u8>, Seq<u8>)> {
    if data.len() < 128 {
        Option::None
    } else if be_val(data.subrange(0, 32)) != 64 {
        Option::None
    } else {
        let l = be_val(data.subrange(64, 96));
        if be_val(data.subrange(32, 64)) != 96 + pad32(l) {
            Option::None
        } else if data.len() < 96 + pad32(l) + 32 {
            Option::None
        } else {
            let doff = 96 + pad32(l);
            let d = be_val(data.subrange(doff as int, doff as int + 32));
            if data.len() == doff + 32 + pad32(d) {
                Option::Some(
                    (data.subrange(96, 96 + l as int), data.subrange(doff as int + 32, doff as int + 32 + d)),
                )
            } else {
                Option::None
            }
        }
    }
}

/// Parses a one-field payload.
pub fn parse_one_bytes(data: &Vec<u8>) -> (r: Option<Vec<u8>>)
    ensures
        (r is Some) == (spec_abi_one_bytes(data@) is Some),
        r is Some ==> Option::Some(r->0@) == spec_abi_one_bytes(data@),
{
    if data.len() < 64 {
        return None;
    }
    let w0 = match read_word(data, 0) {
        Option::Some(v) => v,
        Option::None => {
            proof {
                lemma_pow256_unfold8();
            }
            return None;
        },
    };
    if w0 != 32 {
        return None;
    }
    let dl = data.len();
    let w1 = match read_word(data, 32) {
        Option::Some(v) => v,
        Option::None => {
            proof {
                let l = be_val(data@.subrange(32, 64));
                lemma_pad32_bounds(l);
                lemma_pow256_unfold8();
                assert(data@.len() == dl as nat);
                assert((usize::MAX as nat) < 18446744073709551616 || (usize::MAX as nat)
                    == 18446744073709551615);
                assert(data@.len() < 64 + pad32(l));
            }
            return None;
        },
    };
    let l128: u128 = w1 as u128;
    let total: u128 = 64 + ((l128 + 31) / 32) * 32;
    proof {
        lemma_pad32_bounds(w1 as nat);
        assert(total as nat == 64 + pad32(w1 as nat));
    }
    if (data.len() as u128) != total {
        return None;
    }
    proof {
        assert(w1 as nat <= data@.len());
    }
    let l: usize = w1 as usize;
    proof {
        assert(l as nat == w1 as nat);
    }
    Some(copy_range(data, 64, l))
}

/// Helper: the value of the ninth power-of-256, spelled out.
proof fn lemma_pow256_unfold8()
    ensures
        pow256(8) == 18446744073709551616,
{
    assert(pow256(0) == 1);
    assert(pow256(1) == 256);
    assert(pow256(2) == 65536);
    assert(pow256(3) == 16777216);
    assert(pow256(4) == 4294967296);
    assert(pow256(5) == 1099511627776);
    assert(pow256(6) == 281474976710656);
    assert(pow256(7) == 72057594037927936);
}

/// Parses a two-field payload.
pub fn parse_two_bytes(data: &Vec<u8>) -> (r: Option<(Vec<u8>, Vec<u8>)>)
    ensures
        (r is Some) == (spec_abi_two_bytes(data@) is Some),
        r is Some ==> Option::Some(((r->0).0@, (r->0).1@)) == spec_abi_two_bytes(data@),
{
    if data.len() < 128 {
        return None;
    }
    let w0 = match read_word(data, 0) {
        Option::Some(v) => v,
        Option::None => {
            proof {
                lemma_pow256_unfold8();
            }
            return None;
        },
    };
    if w0 != 64 {
        return None;
    }
    let wl = match read_word(data, 64) {
        Option::Some(v) => v,
        Option::None => {
            proof {
                let l = be_val(data@.subrange(64, 96));
                lemma_pad32_bounds(l);
                lemma_pow256_unfold8();
                let w1v = be_val(data@.subrange(32, 64));
                if w1v == 96 + pad32(l) {
                    assert(w1v >= pow256(8));
                    assert(data@.len() < 96 + pad32(l) + 32);
                }
            }
            return None;
        },
    };
    let l128: u128 = wl as u128;
    let padl: u128 = ((l128 + 31) / 32) * 32;
    proof {
        lemma_pad32_bounds(wl as nat);
        assert(padl as nat == pad32(wl as nat));
    }
    let w1 = match read_word(data, 32) {
        Option::Some(v) => v,
        Option::None => {
            proof {
                lemma_pow256_unfold8();
            }
            return None;
        },
    };
    if (w1 as u128) != 96 + padl {
        return None;
    }
    if (data.len() as u128) < 96 + padl + 32 {
        return None;
    }
    let doff: usize = 96 + (padl as usize);
    proof {
        assert(padl <= data@.len() as u128);
        assert(doff as nat == 96 + pad32(wl as nat));
    }
    let wd = match read_word(data, doff) {
        Option::Some(v) => v,
        Option::None => {
            proof {
                let d = be_val(data@.subrange(doff as int, doff + 32));
                lemma_pad32_bounds(d);
                lemma_pow256_unfold8();
                assert(data@.len() < doff + 32 + pad32(d));
            }
            return None;
        },
    };
    let d128: u128 = wd as u128;
    let total: u128 = (doff as u128) + 32 + ((d128 + 31) / 32) * 32;
    proof {
        lemma_pad32_bounds(wd as nat);
        assert(total as nat == doff as nat + 32 + pad32(wd as nat));
    }
    if (data.len() as u128) != total {
        return None;
    }
    proof {
        assert(wl as nat <= data@.len());
        assert(wd as nat <= data@.len());
    }
    let label = copy_range(data, 96, wl as usize);
    let payload = copy_range(data, doff + 32, wd as usize);
    Some((label, payload))
}

} // verus!
