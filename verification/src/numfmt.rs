//! Decimal rendering of byte counts, proved against the usual recursive
//! definition of a number's digits.
use vstd::prelude::*;

verus! {

/// The character of one decimal digit.
pub open spec fn dec_digit(d: nat) -> char {
    if d == 0 {
        '0'
    } else if d == 1 {
        '1'
    } else if d == 2 {
        '2'
    } else if d == 3 {
        '3'
    } else if d == 4 {
        '4'
    } else if d == 5 {
        '5'
    } else if d == 6 {
        '6'
    } else if d == 7 {
        '7'
    } else if d == 8 {
        '8'
    } else {
        '9'
    }
}

/// The decimal digits of a number, most significant first.
pub open spec fn dec_chars(n: nat) -> Seq<char>
    decreases n,
{
    if n < 10 {
        seq![dec_digit(n)]
    } else {
        dec_chars(n / 10) + seq![dec_digit(n % 10)]
    }
}

/// The digits written so far, in the order they will be emitted: the digits
/// collected in `digs` were peeled least-significant-first.
spec fn rev_digit_chars(digs: Seq<usize>) -> Seq<char> {
    Seq::new(digs.len(), |i: int| dec_digit(digs[digs.len() - 1 - i] as nat))
}

/// One digit as a string slice.
fn digit_str(d: usize) -> (r: &'static str)
    requires
        d < 10,
    ensures
        r@ == seq![dec_digit(d as nat)],
{
    let r: &'static str = if d == 0 {
        "0"
    } else if d == 1 {
        "1"
    } else if d == 2 {
        "2"
    } else if d == 3 {
        "3"
    } else if d == 4 {
        "4"
    } else if d == 5 {
        "5"
    } else if d == 6 {
        "6"
    } else if d == 7 {
        "7"
    } else if d == 8 {
        "8"
    } else {
        "9"
    };
    proof {
        reveal_strlit("0");
        reveal_strlit("1");
        reveal_strlit("2");
        reveal_strlit("3");
        reveal_strlit("4");
        reveal_strlit("5");
        reveal_strlit("6");
        reveal_strlit("7");
        reveal_strlit("8");
        reveal_strlit("9");
        assert(r@ =~= seq![dec_digit(d as nat)]);
    }
    r
}

/// Appends the decimal rendering of `n`.
pub fn push_decimal(out: &mut String, n: usize)
    ensures
        final(out)@ == old(out)@ + dec_chars(n as nat),
{
    let ghost base = old(out)@;
    let mut digs: Vec<usize> = Vec::new();
    let mut m: usize = n;
    proof {
        assert(dec_chars(n as nat) =~= dec_chars(m as nat) + rev_digit_chars(digs@));
    }
    while m >= 10
        invariant
            dec_chars(n as nat) =~= dec_chars(m as nat) + rev_digit_chars(digs@),
            forall|i: int| 0 <= i < digs@.len() ==> digs@[i] < 10,
        decreases m,
    {
        let ghost m_old = m as nat;
        let ghost tail0 = rev_digit_chars(digs@);
        digs.push(m % 10);
        m = m / 10;
        proof {
            let tail1 = rev_digit_chars(digs@);
            assert(digs@[digs@.len() - 1] == m_old % 10);
            assert forall|i: int| 1 <= i < tail1.len() implies tail1[i] == tail0[i - 1] by {
                assert(digs@[digs@.len() - 1 - i] == digs@.subrange(0, digs@.len() - 1)[digs@.len()
                    - 1 - i]);
            }
            assert(tail1 =~= seq![dec_digit(m_old % 10)] + tail0);
            assert(dec_chars(m_old) == dec_chars(m_old / 10) + seq![dec_digit(m_old % 10)]);
            assert(dec_chars(n as nat) =~= dec_chars(m as nat) + tail1);
        }
    }
    let ghost full = dec_chars(n as nat);
    proof {
        assert(dec_chars(m as nat) == seq![dec_digit(m as nat)]);
        assert(full.len() == digs@.len() + 1);
        assert forall|i: int| 0 <= i < digs@.len() implies full[full.len() - 1 - i] == dec_digit(
            digs@[i] as nat,
        ) by {
            let tail = rev_digit_chars(digs@);
            assert(full[full.len() - 1 - i] == tail[digs@.len() - 1 - i]);
        }
        assert(full[0] == dec_digit(m as nat));
    }
    out.append(digit_str(m));
    let mut k: usize = digs.len();
    proof {
        assert(out@ =~= base + full.take(full.len() - k));
    }
    while k > 0
        invariant
            k <= digs@.len(),
            full == dec_chars(n as nat),
            full.len() == digs@.len() + 1,
            forall|i: int| 0 <= i < digs@.len() ==> digs@[i] < 10,
            forall|i: int|
                0 <= i < digs@.len() ==> full[full.len() - 1 - i] == dec_digit(digs@[i] as nat),
            out@ =~= base + full.take(full.len() - k),
        decreases k,
    {
        k = k - 1;
        out.append(digit_str(digs[k]));
        proof {
            assert(full.take(full.len() - k) =~= full.take(full.len() - (k + 1)).push(
                full[full.len() - 1 - k],
            ));
            assert(out@ =~= base + full.take(full.len() - k));
        }
    }
    proof {
        assert(full.take(full.len() - 0) =~= full);
    }
}

} // verus!
