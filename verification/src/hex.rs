//! Lowercase hexadecimal encoding of digests (two digits per byte), with a
//! proved round trip.

use vstd::prelude::*;

verus! {

/// The ASCII code of a lowercase hex digit for a value below 16.
pub open spec fn hex_digit(d: nat) -> u8
    recommends
        d < 16,
{
    if d < 10 {
        (0x30 + d) as u8
    } else {
        (0x57 + d) as u8
    }
}

/// Lowercase hex rendering of a byte string, most significant digit of each
/// byte first.
pub open spec fn hex_rep(b: Seq<u8>) -> Seq<u8>
    decreases b.len(),
{
    if b.len() == 0 {
        Seq::empty()
    } else {
        hex_rep(b.drop_last()) + seq![
            hex_digit((b.last() / 16) as nat),
            hex_digit((b.last() % 16) as nat),
        ]
    }
}

/// Is `c` the ASCII code of a lowercase hex digit?
pub open spec fn is_hex_digit(c: u8) -> bool {
    (0x30 <= c <= 0x39) || (0x61 <= c <= 0x66)
}

pub open spec fn all_hex_digits(s: Seq<u8>) -> bool {
    forall|i: int| 0 <= i < s.len() ==> is_hex_digit(#[trigger] s[i])
}

/// Value of one hex digit.
pub open spec fn hex_digit_val(c: u8) -> nat
    recommends
        is_hex_digit(c),
{
    if 0x30 <= c <= 0x39 {
        (c - 0x30) as nat
    } else if 0x61 <= c <= 0x66 {
        (c - 0x57) as nat
    } else {
        0
    }
}

proof fn lemma_hex_digit_inverse(d: nat)
    requires
        d < 16,
    ensures
        is_hex_digit(hex_digit(d)),
        hex_digit_val(hex_digit(d)) == d,
{
}

/// The rendering of `b` is twice as long as `b` and made of hex digits.
pub proof fn lemma_hex_rep_valid(b: Seq<u8>)
    ensures
        hex_rep(b).len() == 2 * b.len(),
        all_hex_digits(hex_rep(b)),
    decreases b.len(),
{
    if b.len() > 0 {
        lemma_hex_rep_valid(b.drop_last());
        assert forall|i: int| 0 <= i < hex_rep(b).len() implies is_hex_digit(
            #[trigger] hex_rep(b)[i],
        ) by {
            if i < hex_rep(b.drop_last()).len() {
                assert(hex_rep(b)[i] == hex_rep(b.drop_last())[i]);
            } else {
                lemma_hex_digit_inverse((b.last() / 16) as nat);
                lemma_hex_digit_inverse((b.last() % 16) as nat);
            }
        }
    }
}

/// Specification-level decoding of a lowercase hex string.
pub open spec fn hex_parse(s: Seq<u8>) -> Option<Seq<u8>>
    decreases s.len(),
{
    if s.len() % 2 != 0 {
        None
    } else if s.len() == 0 {
        Some(Seq::empty())
    } else {
        let c1 = s[s.len() - 2];
        let c2 = s[s.len() - 1];
        if is_hex_digit(c1) && is_hex_digit(c2) {
            match hex_parse(s.take(s.len() - 2)) {
                None => None,
                Some(b) => Some(b.push((hex_digit_val(c1) * 16 + hex_digit_val(c2)) as u8)),
            }
        } else {
            None
        }
    }
}

/// Decoding inverts encoding.
pub proof fn lemma_hex_parse_of_rep(b: Seq<u8>)
    ensures
        hex_parse(hex_rep(b)) == Some(b),
    decreases b.len(),
{
    lemma_hex_rep_valid(b);
    if b.len() == 0 {
        assert(hex_rep(b) =~= Seq::<u8>::empty());
    } else {
        let s = hex_rep(b);
        lemma_hex_rep_valid(b.drop_last());
        assert(s.take(s.len() - 2) =~= hex_rep(b.drop_last()));
        lemma_hex_parse_of_rep(b.drop_last());
        let hi = (b.last() / 16) as nat;
        let lo = (b.last() % 16) as nat;
        lemma_hex_digit_inverse(hi);
        lemma_hex_digit_inverse(lo);
        assert(s[s.len() - 2] == hex_digit(hi));
        assert(s[s.len() - 1] == hex_digit(lo));
        assert(hi * 16 + lo == b.last()) by {
            vstd::arithmetic::div_mod::lemma_fundamental_div_mod(b.last() as int, 16);
        }
        assert(b.drop_last().push(b.last()) =~= b);
    }
}

/// A string that decodes is of even length and all lowercase hex digits.
pub proof fn lemma_hex_parse_valid(s: Seq<u8>)
    requires
        hex_parse(s) is Some,
    ensures
        s.len() % 2 == 0,
        all_hex_digits(s),
    decreases s.len(),
{
    if s.len() > 0 {
        lemma_hex_parse_valid(s.take(s.len() - 2));
        assert forall|i: int| 0 <= i < s.len() implies is_hex_digit(#[trigger] s[i]) by {
            if i < s.len() - 2 {
                assert(s[i] == s.take(s.len() - 2)[i]);
            }
        }
    }
}

/// Render a byte string in lowercase hex.
pub fn hex_encode(b: &[u8]) -> (r: Vec<u8>)
    ensures
        r@ == hex_rep(b@),
{
    let mut r: Vec<u8> = Vec::new();
    let mut i: usize = 0;
    proof {
        assert(r@ =~= hex_rep(b@.take(0)));
    }
    while i < b.len()
        invariant
            i <= b@.len(),
            r@ =~= hex_rep(b@.take(i as int)),
        decreases b@.len() - i,
    {
        let byte = b[i];
        let hi: u8 = byte / 16;
        let lo: u8 = byte % 16;
        r.push(if hi < 10 {
            0x30 + hi
        } else {
            0x57 + hi
        });
        r.push(if lo < 10 {
            0x30 + lo
        } else {
            0x57 + lo
        });
        proof {
            assert(b@.take(i + 1).drop_last() =~= b@.take(i as int));
            assert(b@.take(i + 1).last() == b@[i as int]);
            assert(r@ =~= hex_rep(b@.take(i + 1)));
        }
        i = i + 1;
    }
    proof {
        assert(b@.take(b@.len() as int) =~= b@);
    }
    r
}

/// Decode a lowercase hex string. Succeeds exactly on strings of even length
/// made of lowercase hex digits; the decoded bytes re-encode to the input.
pub fn hex_decode(s: &[u8]) -> (r: Option<Vec<u8>>)
    ensures
        (s@.len() % 2 == 0 && all_hex_digits(s@)) <==> r is Some,
        r matches Some(b) ==> hex_rep(b@) == s@ && 2 * b@.len() == s@.len() && hex_parse(s@)
            == Some(b@),
        r is None ==> hex_parse(s@) is None,
{
    if s.len() % 2 != 0 {
        proof {
            if hex_parse(s@) is Some {
                lemma_hex_parse_valid(s@);
            }
        }
        return None;
    }
    let mut out: Vec<u8> = Vec::new();
    let mut i: usize = 0;
    proof {
        assert(hex_rep(out@) =~= s@.take(0));
    }
    while i < s.len() / 2
        invariant
            2 * i <= s@.len(),
            s@.len() % 2 == 0,
            out@.len() == i,
            hex_rep(out@) =~= s@.take(2 * i),
            all_hex_digits(s@.take(2 * i)),
        decreases s@.len() - 2 * i,
    {
        let c_hi = s[2 * i];
        let c_lo = s[2 * i + 1];
        let hi: u8 = if 0x30 <= c_hi && c_hi <= 0x39 {
            c_hi - 0x30
        } else if 0x61 <= c_hi && c_hi <= 0x66 {
            c_hi - 0x57
        } else {
            proof {
                assert(!is_hex_digit(s@[2 * i]));
                if hex_parse(s@) is Some {
                    lemma_hex_parse_valid(s@);
                }
            }
            return None;
        };
        let lo: u8 = if 0x30 <= c_lo && c_lo <= 0x39 {
            c_lo - 0x30
        } else if 0x61 <= c_lo && c_lo <= 0x66 {
            c_lo - 0x57
        } else {
            proof {
                assert(!is_hex_digit(s@[2 * i + 1]));
                if hex_parse(s@) is Some {
                    lemma_hex_parse_valid(s@);
                }
            }
            return None;
        };
        let byte: u8 = hi * 16 + lo;
        let ghost old_out = out@;
        out.push(byte);
        proof {
            assert(byte / 16 == hi && byte % 16 == lo) by (nonlinear_arith)
                requires
                    hi < 16,
                    lo < 16,
                    byte == hi * 16 + lo,
            ;
            assert(hex_digit(hi as nat) == c_hi);
            assert(hex_digit(lo as nat) == c_lo);
            assert(out@.drop_last() =~= old_out);
            assert(hex_rep(out@) =~= s@.take(2 * (i + 1)));
            assert(forall|j: int|
                0 <= j < 2 * (i + 1) ==> is_hex_digit(#[trigger] s@.take(2 * (i + 1))[j]));
        }
        i = i + 1;
    }
    proof {
        assert(s@.take(2 * (i as int)) =~= s@);
        lemma_hex_parse_of_rep(out@);
    }
    Some(out)
}

} // verus!
