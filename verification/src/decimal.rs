//! Decimal (base-10, ASCII) encoding of unsigned counters and timestamps,
//! as they appear in snapshot lines, with a proved round trip.

use vstd::prelude::*;

verus! {

/// The ASCII code of a single decimal digit value.
pub open spec fn digit_byte(d: nat) -> u8
    recommends
        d < 10,
{
    (0x30 + d) as u8
}

/// Canonical decimal representation of `n`: no leading zeros, `"0"` for zero.
pub open spec fn dec_rep(n: nat) -> Seq<u8>
    decreases n,
{
    if n < 10 {
        seq![digit_byte(n)]
    } else {
        dec_rep(n / 10).push(digit_byte(n % 10))
    }
}

/// Is `b` the ASCII code of a decimal digit?
pub open spec fn is_digit(b: u8) -> bool {
    0x30 <= b <= 0x39
}

pub open spec fn all_digits(s: Seq<u8>) -> bool {
    forall|i: int| 0 <= i < s.len() ==> is_digit(#[trigger] s[i])
}

/// Numeric value of a digit string (most significant digit first).
pub open spec fn dec_val(s: Seq<u8>) -> nat
    decreases s.len(),
{
    if s.len() == 0 {
        0
    } else {
        (dec_val(s.drop_last()) * 10 + if s.last() >= 0x30 {
            (s.last() - 0x30) as nat
        } else {
            0
        }) as nat
    }
}

proof fn lemma_dec_rep_digits(n: nat)
    ensures
        dec_rep(n).len() >= 1,
        all_digits(dec_rep(n)),
    decreases n,
{
    if n >= 10 {
        lemma_dec_rep_digits(n / 10);
        assert forall|i: int| 0 <= i < dec_rep(n).len() implies is_digit(#[trigger] dec_rep(n)[i]) by {
            if i < dec_rep(n / 10).len() {
                assert(dec_rep(n)[i] == dec_rep(n / 10)[i]);
            }
        }
    }
}

proof fn lemma_dec_val_of_rep(n: nat)
    ensures
        dec_val(dec_rep(n)) == n,
    decreases n,
{
    if n < 10 {
        assert(dec_rep(n).drop_last() =~= Seq::<u8>::empty());
        assert(dec_val(Seq::<u8>::empty()) == 0);
        assert(dec_rep(n).last() == digit_byte(n));
        assert(digit_byte(n) == 0x30 + n);
        assert(dec_val(dec_rep(n)) == n);
    } else {
        lemma_dec_val_of_rep(n / 10);
        assert(dec_rep(n).drop_last() =~= dec_rep(n / 10));
        assert(dec_rep(n).last() == digit_byte(n % 10));
        assert(digit_byte(n % 10) == 0x30 + n % 10);
        assert(dec_val(dec_rep(n)) == (n / 10) * 10 + n % 10);
        assert((n / 10) * 10 + n % 10 == n) by {
            vstd::arithmetic::div_mod::lemma_fundamental_div_mod(n as int, 10);
        }
    }
}

/// Render `n` in decimal ASCII.
pub fn to_decimal(n: u64) -> (r: Vec<u8>)
    ensures
        r@ == dec_rep(n as nat),
{
    let mut rev: Vec<u8> = Vec::new();
    let mut m: u64 = n;
    proof {
        assert(dec_rep(n as nat) =~= dec_rep(m as nat) + rev@.reverse());
    }
    loop
        invariant_except_break
            dec_rep(n as nat) =~= dec_rep(m as nat) + rev@.reverse(),
        ensures
            dec_rep(n as nat) =~= rev@.reverse(),
        decreases m,
    {
        let d: u8 = (m % 10) as u8;
        let ghost old_m = m as nat;
        let ghost old_rev = rev@;
        rev.push(0x30 + d);
        m = m / 10;
        proof {
            assert(rev@.reverse() =~= seq![digit_byte(old_m % 10)] + old_rev.reverse());
        }
        if m == 0 {
            proof {
                assert(old_m < 10);
                assert(old_m % 10 == old_m);
                assert(dec_rep(old_m) =~= seq![digit_byte(old_m)]);
                assert(dec_rep(n as nat) =~= rev@.reverse());
            }
            break;
        }
        proof {
            assert(old_m >= 10);
            assert(dec_rep(old_m) =~= dec_rep(old_m / 10).push(digit_byte(old_m % 10)));
            assert(dec_rep(old_m) + old_rev.reverse() =~= dec_rep(m as nat) + rev@.reverse());
            assert(dec_rep(n as nat) =~= dec_rep(m as nat) + rev@.reverse());
        }
    }
    let mut r: Vec<u8> = Vec::new();
    let mut i: usize = rev.len();
    proof {
        assert(r@ =~= rev@.reverse().take(rev@.len() - i));
    }
    while i > 0
        invariant
            i <= rev.len(),
            dec_rep(n as nat) =~= rev@.reverse(),
            r@ =~= rev@.reverse().take(rev@.len() - i),
        decreases i,
    {
        i = i - 1;
        r.push(rev[i]);
        proof {
            assert(r@ =~= rev@.reverse().take(rev@.len() - i));
        }
    }
    proof {
        assert(r@ =~= rev@.reverse());
    }
    r
}

/// Parse a decimal ASCII string. Returns the value when `s` is a nonempty
/// all-digit string whose value fits in `u64`; `None` otherwise.
pub fn parse_decimal(s: &[u8]) -> (r: Option<u64>)
    ensures
        (s@.len() >= 1 && all_digits(s@) && dec_val(s@) <= u64::MAX) ==> r == Some(
            dec_val(s@) as u64,
        ),
        (s@.len() == 0 || !all_digits(s@) || dec_val(s@) > u64::MAX) ==> r is None,
{
    if s.len() == 0 {
        return None;
    }
    let mut acc: u64 = 0;
    let mut i: usize = 0;
    while i < s.len()
        invariant
            i <= s@.len(),
            all_digits(s@.take(i as int)),
            acc == dec_val(s@.take(i as int)),
        decreases s@.len() - i,
    {
        let b = s[i];
        if b < 0x30 || b > 0x39 {
            proof {
                assert(!is_digit(s@[i as int]));
            }
            return None;
        }
        let d: u64 = (b - 0x30) as u64;
        if acc > (u64::MAX - d) / 10 {
            proof {
                assert(s@.take(i + 1).drop_last() =~= s@.take(i as int));
                assert(dec_val(s@.take(i + 1)) == acc * 10 + d);
                assert(acc * 10 + d > u64::MAX) by (nonlinear_arith)
                    requires
                        acc > (u64::MAX - d) / 10,
                        d < 10,
                ;
                lemma_prefix_val_le(s@, i + 1);
            }
            return None;
        }
        proof {
            assert(acc * 10 + d <= u64::MAX) by (nonlinear_arith)
                requires
                    acc <= (u64::MAX - d) / 10,
                    d < 10,
            ;
            assert(s@.take(i + 1).drop_last() =~= s@.take(i as int));
            assert(forall|j: int| 0 <= j < i + 1 ==> is_digit(#[trigger] s@.take(i + 1)[j]));
        }
        acc = acc * 10 + d;
        i = i + 1;
    }
    proof {
        assert(s@.take(s@.len() as int) =~= s@);
    }
    Some(acc)
}

/// The value of a prefix never exceeds the value of the whole string.
proof fn lemma_prefix_val_le(s: Seq<u8>, k: int)
    requires
        0 <= k <= s.len(),
    ensures
        dec_val(s.take(k)) <= dec_val(s),
    decreases s.len() - k,
{
    if k == s.len() {
        assert(s.take(k) =~= s);
    } else {
        assert(s.take(k + 1).drop_last() =~= s.take(k));
        assert(dec_val(s.take(k)) * 10 >= dec_val(s.take(k))) by (nonlinear_arith);
        assert(dec_val(s.take(k)) <= dec_val(s.take(k + 1)));
        lemma_prefix_val_le(s, k + 1);
    }
}

/// Round trip: parsing the canonical rendering of `n` gives back `n`.
pub proof fn lemma_decimal_round_trip(n: u64)
    ensures
        dec_rep(n as nat).len() >= 1,
        all_digits(dec_rep(n as nat)),
        dec_val(dec_rep(n as nat)) == n,
{
    lemma_dec_rep_digits(n as nat);
    lemma_dec_val_of_rep(n as nat);
}

} // verus!
