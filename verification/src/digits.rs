//! Decimal digit runs: the shared ground of the wire grammar.
//!
//! Both the integer form `i<digits>e` and the string-length prefix
//! `<digits>:` rest on the same canonical decimal notation: a nonempty
//! run of ASCII digits with no leading zero (except for `0` itself).
//! This module defines that notation as a spec function, its value, and
//! the executable scanning and printing routines, together with the
//! lemmas that make the notation canonical (value and digits determine
//! each other uniquely).

use vstd::prelude::*;

verus! {

pub const COLON_CHAR: u8 = 0x3a;
pub const D_CHAR: u8 = 0x64;
pub const E_CHAR: u8 = 0x65;
pub const I_CHAR: u8 = 0x69;
pub const L_CHAR: u8 = 0x6c;
pub const MINUS_SIGN: u8 = 0x2d;
pub const ZERO_CHAR: u8 = 0x30;

pub open spec fn is_digit(b: u8) -> bool {
    ZERO_CHAR <= b && b <= 0x39
}

/// The canonical decimal notation of `n`: most significant digit first,
/// no leading zero.
pub open spec fn dec_digits(n: nat) -> Seq<u8>
    decreases n,
{
    if n < 10 {
        seq![(ZERO_CHAR + n) as u8]
    } else {
        dec_digits(n / 10) + seq![(ZERO_CHAR + n % 10) as u8]
    }
}

/// The numeric value of a digit run, most significant digit first.
pub open spec fn digits_val(d: Seq<u8>) -> int
    decreases d.len(),
{
    if d.len() == 0 {
        0
    } else {
        digits_val(d.drop_last()) * 10 + (d.last() - ZERO_CHAR)
    }
}

pub open spec fn all_digits(d: Seq<u8>) -> bool {
    forall|i: int| 0 <= i < d.len() ==> is_digit(#[trigger] d[i])
}

/// `d` is a canonical decimal notation: nonempty, digits only, and no
/// leading zero unless the run is exactly "0".
pub open spec fn canonical_digits(d: Seq<u8>) -> bool {
    &&& d.len() >= 1
    &&& all_digits(d)
    &&& (d.len() > 1 ==> d[0] != ZERO_CHAR)
}

/// The length of the digit run at the head of `s`.
pub open spec fn digit_run_len(s: Seq<u8>) -> nat
    decreases s.len(),
{
    if s.len() > 0 && is_digit(s[0]) {
        1 + digit_run_len(s.drop_first())
    } else {
        0
    }
}

pub proof fn lemma_digits_val_nonneg(d: Seq<u8>)
    requires
        all_digits(d),
    ensures
        digits_val(d) >= 0,
    decreases d.len(),
{
    if d.len() > 0 {
        assert(all_digits(d.drop_last())) by {
            assert(forall|i: int| 0 <= i < d.len() - 1 ==> d.drop_last()[i] == d[i]);
        }
        lemma_digits_val_nonneg(d.drop_last());
    }
}

/// The canonical notation of `n` is a canonical digit run with value `n`.
pub proof fn lemma_dec_digits_props(n: nat)
    ensures
        canonical_digits(dec_digits(n)),
        digits_val(dec_digits(n)) == n,
        n > 0 ==> dec_digits(n)[0] != ZERO_CHAR,
    decreases n,
{
    if n < 10 {
        let d = dec_digits(n);
        assert(d == seq![(ZERO_CHAR + n) as u8]);
        assert(d.drop_last() =~= Seq::<u8>::empty());
        assert(digits_val(Seq::<u8>::empty()) == 0);
        assert(d.last() == (ZERO_CHAR + n) as u8);
        assert((ZERO_CHAR + n) as u8 == ZERO_CHAR + n);
        assert(digits_val(d) == n);
    } else {
        lemma_dec_digits_props(n / 10);
        let p = dec_digits(n / 10);
        let d = p + seq![(ZERO_CHAR + n % 10) as u8];
        assert(d.drop_last() == p);
        assert(d.last() == (ZERO_CHAR + n % 10) as u8);
        vstd::arithmetic::div_mod::lemma_fundamental_div_mod(n as int, 10);
        assert(digits_val(d) == (n / 10) * 10 + n % 10);
        assert(n / 10 >= 1);
        assert(d[0] == p[0]);
        assert(all_digits(d)) by {
            assert(forall|i: int| 0 <= i < p.len() ==> d[i] == p[i]);
        }
    }
}

/// A canonical digit run is the canonical notation of its value: the
/// notation is unique.
pub proof fn lemma_dec_digits_unique(d: Seq<u8>)
    requires
        canonical_digits(d),
    ensures
        digits_val(d) >= 0,
        dec_digits(digits_val(d) as nat) == d,
    decreases d.len(),
{
    lemma_digits_val_nonneg(d);
    let p = d.drop_last();
    let last: u8 = d.last();
    if d.len() == 1 {
        assert(d.drop_last() =~= Seq::<u8>::empty());
        assert(digits_val(Seq::<u8>::empty()) == 0);
        assert(digits_val(d) == last - ZERO_CHAR);
        assert(dec_digits(digits_val(d) as nat) == seq![last]);
        assert(seq![last] =~= d);
    } else {
        assert(all_digits(p) && p[0] == d[0]) by {
            assert(forall|i: int| 0 <= i < p.len() ==> p[i] == d[i]);
        }
        assert(canonical_digits(p));
        lemma_dec_digits_unique(p);
        lemma_digits_val_first_digit(p);
        let v: int = digits_val(d);
        assert(v == digits_val(p) * 10 + (last - ZERO_CHAR));
        assert(digits_val(p) >= 1);
        assert(v >= 10);
        vstd::arithmetic::div_mod::lemma_fundamental_div_mod(v, 10);
        assert(v / 10 == digits_val(p) && v % 10 == last - ZERO_CHAR) by {
            vstd::arithmetic::div_mod::lemma_fundamental_div_mod_converse(
                v, 10, digits_val(p), last - ZERO_CHAR);
        }
        assert(dec_digits(v as nat) == dec_digits(digits_val(p) as nat) + seq![last]);
        assert(dec_digits(digits_val(p) as nat) + seq![last] == d) by {
            assert(dec_digits(digits_val(p) as nat) == p);
            assert(p + seq![last] =~= d);
        }
    }
}

/// A digit run that does not start with '0' has value at least 1.
pub proof fn lemma_digits_val_first_digit(d: Seq<u8>)
    requires
        all_digits(d),
        d.len() >= 1,
        d[0] != ZERO_CHAR,
    ensures
        digits_val(d) >= 1,
    decreases d.len(),
{
    let p = d.drop_last();
    if d.len() == 1 {
        assert(p =~= Seq::<u8>::empty());
        assert(digits_val(Seq::<u8>::empty()) == 0);
        assert(d.last() == d[0]);
        assert(digits_val(d) == d.last() - ZERO_CHAR);
    } else {
        assert(all_digits(p) && p[0] == d[0]) by {
            assert(forall|i: int| 0 <= i < p.len() ==> p[i] == d[i]);
        }
        lemma_digits_val_first_digit(p);
        assert(digits_val(d) >= 10 * 1 + 0);
    }
}

/// The value of a proper prefix of a digit run never exceeds the value
/// of the whole run.
pub proof fn lemma_digits_val_prefix_le(d: Seq<u8>, j: int)
    requires
        all_digits(d),
        0 <= j <= d.len(),
    ensures
        digits_val(d.take(j)) <= digits_val(d),
    decreases d.len() - j,
{
    if j < d.len() {
        lemma_digits_val_prefix_le(d, j + 1);
        let a = d.take(j);
        let b = d.take(j + 1);
        assert(b.drop_last() == a);
        assert(is_digit(b.last()));
        lemma_digits_val_nonneg(a);
        assert(digits_val(b) == digits_val(a) * 10 + (b.last() - ZERO_CHAR));
        assert(digits_val(a) <= digits_val(b));
    } else {
        assert(d.take(j) == d);
    }
}

/// The digit run at the head of a run of digits followed by a non-digit
/// (or by nothing) is exactly that run.
pub proof fn lemma_digit_run_of(d: Seq<u8>, rest: Seq<u8>)
    requires
        all_digits(d),
        rest.len() == 0 || !is_digit(rest[0]),
    ensures
        digit_run_len(d + rest) == d.len(),
    decreases d.len(),
{
    let s = d + rest;
    if d.len() == 0 {
        assert(s == rest);
    } else {
        assert(is_digit(s[0]));
        assert(s.drop_first() == d.drop_first() + rest) by {
            assert(s.drop_first() =~= d.drop_first() + rest);
        }
        assert(all_digits(d.drop_first())) by {
            assert(forall|i: int| 0 <= i < d.len() - 1 ==> d.drop_first()[i] == d[i + 1]);
        }
        lemma_digit_run_of(d.drop_first(), rest);
    }
}

/// Evaluates a run of digits, detecting values that do not fit in u64.
pub fn eval_digits_u64(d: &Vec<u8>) -> (r: Option<u64>)
    requires
        all_digits(d@),
    ensures
        match r {
            Some(v) => v == digits_val(d@),
            None => digits_val(d@) > u64::MAX,
        },
{
    let mut val: u64 = 0;
    let mut i: usize = 0;
    proof {
        assert(d@.take(0) == Seq::<u8>::empty());
    }
    while i < d.len()
        invariant
            0 <= i <= d@.len(),
            all_digits(d@),
            val == digits_val(d@.take(i as int)),
        decreases d@.len() - i,
    {
        let dig: u8 = d[i] - ZERO_CHAR;
        proof {
            let a = d@.take(i as int);
            let b = d@.take(i + 1);
            assert(b.drop_last() == a);
            assert(b.last() == d@[i as int]);
            assert(digits_val(b) == digits_val(a) * 10 + dig);
        }
        if val > (u64::MAX - (dig as u64)) / 10 {
            proof {
                let b = d@.take(i + 1);
                assert(digits_val(b) == val * 10 + dig);
                assert(val * 10 + dig > u64::MAX) by {
                    assert(val >= (u64::MAX - dig) / 10 + 1);
                    vstd::arithmetic::div_mod::lemma_fundamental_div_mod(
                        u64::MAX - dig, 10);
                    assert(val * 10 >= ((u64::MAX - dig) / 10 + 1) * 10) by (nonlinear_arith)
                        requires val >= (u64::MAX - dig) / 10 + 1;
                }
                lemma_digits_val_prefix_le(d@, i + 1);
                assert(digits_val(d@) > u64::MAX);
            }
            return None;
        }
        proof {
            assert(val * 10 + dig <= u64::MAX) by {
                assert(val <= (u64::MAX - dig) / 10);
                vstd::arithmetic::div_mod::lemma_fundamental_div_mod(u64::MAX - dig, 10);
                assert(val * 10 <= ((u64::MAX - dig) / 10) * 10) by (nonlinear_arith)
                    requires val <= (u64::MAX - dig) / 10;
            }
        }
        val = val * 10 + (dig as u64);
        i = i + 1;
    }
    proof {
        assert(d@.take(i as int) == d@);
    }
    Some(val)
}

/// Appends the canonical decimal notation of `n` to `out`.
pub fn push_decimal_u64(out: &mut Vec<u8>, n: u64)
    ensures
        final(out)@ == old(out)@ + dec_digits(n as nat),
    decreases n,
{
    if n < 10 {
        out.push(ZERO_CHAR + (n as u8));
        proof {
            assert(old(out)@ + dec_digits(n as nat) =~= out@);
        }
    } else {
        push_decimal_u64(out, n / 10);
        out.push(ZERO_CHAR + ((n % 10) as u8));
        proof {
            assert(old(out)@ + dec_digits(n as nat) =~= out@);
        }
    }
}

/// The digit run at the head of `t` is at least `k` long if the first
/// `k` bytes are digits.
pub proof fn lemma_digit_run_ge(t: Seq<u8>, k: int)
    requires
        0 <= k <= t.len(),
        all_digits(t.take(k)),
    ensures
        digit_run_len(t) >= k,
    decreases k,
{
    if k > 0 {
        assert(is_digit(t.take(k)[0]));
        assert(t[0] == t.take(k)[0]);
        assert(t.drop_first().take(k - 1) =~= t.take(k).drop_first());
        assert(all_digits(t.drop_first().take(k - 1))) by {
            assert(forall|j: int| 0 <= j < k - 1
                ==> #[trigger] t.drop_first().take(k - 1)[j] == t.take(k)[j + 1]);
        }
        lemma_digit_run_ge(t.drop_first(), k - 1);
    }
}

} // verus!
