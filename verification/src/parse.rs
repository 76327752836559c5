//! The wire grammar as a mathematical parser.
//!
//! `pv` decides, for any byte sequence, whether a single value stands
//! at its head, how many bytes that value occupies, and otherwise
//! which error of the taxonomy the grammar assigns.  It returns no
//! value tree: the streaming parser's contract instead states that the
//! tree it builds encodes, under `crate::encoding::spec_encode`, to
//! exactly the bytes consumed.  Since the grammar admits only the
//! canonical form, those bytes determine the tree uniquely.
//!
//! The functions mirror the executable parser piece for piece:
//! `pv_rawint` the digit scanner, `pv_str` and `pv_int` the two leaf
//! forms, `pitems` a list body, `ppairs` a dict body with the
//! previously seen key threaded through for the ordering rule.

use vstd::prelude::*;
use crate::digits::{
    digit_run_len, digits_val, is_digit, COLON_CHAR, D_CHAR, E_CHAR, I_CHAR, L_CHAR, MINUS_SIGN,
    ZERO_CHAR,
};
use crate::encoding::{lex_lt, spec_encode, wf};
use crate::error::BEError;
use crate::value::lossy_chars;

verus! {

/// An error of the grammar, with the offending material as plain
/// sequences: for a non-string key, the wire form of the value read;
/// for ordering and missing-value errors, the key's bytes.
pub enum SpecErr {
    Eof,
    KeyNotStr { val: Seq<u8> },
    KeysOrder { key: Seq<u8> },
    LeadZero,
    MissingSep { found: u8 },
    MissingSuffix { found: u8 },
    MissingVal { key: Seq<u8> },
    NegZero,
    NegLength { len: int },
    Malformed { digits: Seq<u8> },
    Unexpected { found: u8 },
}

/// The outcome of reading one raw integer: its value and the bytes it
/// occupies, or an error.
pub enum RawIntRes {
    RawOk { v: int, n: nat },
    RawFail { e: SpecErr },
}

/// The outcome of reading one value: the bytes it occupies, or an
/// error.
pub enum PRes {
    Val { n: nat },
    Fail { e: SpecErr },
}

/// Reads an optional minus sign and a digit run, applying the
/// canonical-form rules: no leading zero, no "-0", magnitude within
/// i64, and the run must stop before the input does.
pub open spec fn pv_rawint(s: Seq<u8>) -> RawIntRes {
    let neg = s.len() > 0 && s[0] == MINUS_SIGN;
    let t = if neg { s.subrange(1, s.len() as int) } else { s };
    let dn = digit_run_len(t) as int;
    if dn >= 2 && t[0] == ZERO_CHAR {
        RawIntRes::RawFail { e: SpecErr::LeadZero }
    } else if dn == t.len() {
        RawIntRes::RawFail { e: SpecErr::Eof }
    } else if dn == 0 {
        RawIntRes::RawFail { e: SpecErr::Malformed { digits: Seq::empty() } }
    } else {
        let d = t.take(dn);
        let m = digits_val(d);
        if m > i64::MAX {
            RawIntRes::RawFail { e: SpecErr::Malformed { digits: d } }
        } else if neg && m == 0 {
            RawIntRes::RawFail { e: SpecErr::NegZero }
        } else {
            RawIntRes::RawOk { v: if neg { -m } else { m }, n: (dn + if neg { 1int } else { 0int }) as nat }
        }
    }
}

/// Reads one string value `<len>:<bytes>` at the head of `s`.
pub open spec fn pv_str(s: Seq<u8>) -> PRes {
    match pv_rawint(s) {
        RawIntRes::RawFail { e } => PRes::Fail { e },
        RawIntRes::RawOk { v, n } => {
            if v < 0 {
                PRes::Fail { e: SpecErr::NegLength { len: v } }
            } else {
                let after = s.subrange(n as int, s.len() as int);
                if after.len() == 0 {
                    PRes::Fail { e: SpecErr::Eof }
                } else if after[0] != COLON_CHAR {
                    PRes::Fail { e: SpecErr::MissingSep { found: after[0] } }
                } else if after.len() - 1 < v {
                    PRes::Fail { e: SpecErr::Eof }
                } else {
                    PRes::Val { n: (n + 1 + v) as nat }
                }
            }
        }
    }
}

/// The bytes of the string value at the head of `s` (meaningful when
/// `pv_str(s)` succeeds).
pub open spec fn pv_str_content(s: Seq<u8>) -> Seq<u8> {
    match pv_rawint(s) {
        RawIntRes::RawOk { v, n } => s.subrange(n as int + 1, n as int + 1 + v),
        RawIntRes::RawFail { e } => Seq::empty(),
    }
}

/// Reads one integer value `i...e` at the head of `s`.
pub open spec fn pv_int(s: Seq<u8>) -> PRes {
    let inner = s.subrange(1, s.len() as int);
    match pv_rawint(inner) {
        RawIntRes::RawFail { e } => PRes::Fail { e },
        RawIntRes::RawOk { v, n } => {
            let after = inner.subrange(n as int, inner.len() as int);
            if after.len() == 0 {
                PRes::Fail { e: SpecErr::Eof }
            } else if after[0] != E_CHAR {
                PRes::Fail { e: SpecErr::MissingSuffix { found: after[0] } }
            } else {
                PRes::Val { n: (1 + n + 1) as nat }
            }
        }
    }
}

/// The value of the integer at the head of `s` (meaningful when
/// `pv_int(s)` succeeds).
pub open spec fn pv_int_val(s: Seq<u8>) -> int {
    match pv_rawint(s.subrange(1, s.len() as int)) {
        RawIntRes::RawOk { v, n } => v,
        RawIntRes::RawFail { e } => 0,
    }
}

/// Reads one value at the head of `s`, dispatching on the first byte.
pub open spec fn pv(s: Seq<u8>) -> PRes
    decreases s.len(), 0int,
{
    if s.len() == 0 {
        PRes::Fail { e: SpecErr::Eof }
    } else if is_digit(s[0]) {
        pv_str(s)
    } else if s[0] == I_CHAR {
        pv_int(s)
    } else if s[0] == L_CHAR {
        match pitems(s.subrange(1, s.len() as int)) {
            PRes::Val { n } => PRes::Val { n: n + 1 },
            PRes::Fail { e } => PRes::Fail { e },
        }
    } else if s[0] == D_CHAR {
        match ppairs(s.subrange(1, s.len() as int), Option::None) {
            PRes::Val { n } => PRes::Val { n: n + 1 },
            PRes::Fail { e } => PRes::Fail { e },
        }
    } else {
        PRes::Fail { e: SpecErr::Unexpected { found: s[0] } }
    }
}

/// Reads list elements up to and including the closing 'e'.
pub open spec fn pitems(s: Seq<u8>) -> PRes
    decreases s.len(), 1int,
{
    if s.len() == 0 {
        PRes::Fail { e: SpecErr::Eof }
    } else if s[0] == E_CHAR {
        PRes::Val { n: 1 }
    } else {
        match pv(s) {
            PRes::Fail { e } => PRes::Fail { e },
            PRes::Val { n } => {
                if 1 <= n <= s.len() {
                    match pitems(s.subrange(n as int, s.len() as int)) {
                        PRes::Fail { e } => PRes::Fail { e },
                        PRes::Val { n: m } => PRes::Val { n: n + m },
                    }
                } else {
                    PRes::Fail { e: SpecErr::Eof }
                }
            }
        }
    }
}

/// Reads dict pairs up to and including the closing 'e'.  `prev` is
/// the preceding key at this nesting level, against which the next key
/// must be strictly greater.
pub open spec fn ppairs(s: Seq<u8>, prev: Option<Seq<u8>>) -> PRes
    decreases s.len(), 1int,
{
    if s.len() == 0 {
        PRes::Fail { e: SpecErr::Eof }
    } else if s[0] == E_CHAR {
        PRes::Val { n: 1 }
    } else {
        match pv(s) {
            PRes::Fail { e } => PRes::Fail { e },
            PRes::Val { n: kn } => {
                if !is_digit(s[0]) {
                    PRes::Fail { e: SpecErr::KeyNotStr { val: s.take(kn as int) } }
                } else if 1 <= kn <= s.len() {
                    let key = pv_str_content(s);
                    let after = s.subrange(kn as int, s.len() as int);
                    if after.len() == 0 {
                        PRes::Fail { e: SpecErr::Eof }
                    } else if after[0] == E_CHAR {
                        PRes::Fail { e: SpecErr::MissingVal { key } }
                    } else {
                        match pv(after) {
                            PRes::Fail { e } => PRes::Fail { e },
                            PRes::Val { n: vn } => {
                                let order_ok = match prev {
                                    Option::Some(p) => lex_lt(p, key),
                                    Option::None => true,
                                };
                                if !order_ok {
                                    PRes::Fail { e: SpecErr::KeysOrder { key } }
                                } else if 1 <= vn <= after.len() {
                                    match ppairs(
                                        after.subrange(vn as int, after.len() as int),
                                        Option::Some(key),
                                    ) {
                                        PRes::Fail { e } => PRes::Fail { e },
                                        PRes::Val { n: m } => PRes::Val { n: kn + vn + m },
                                    }
                                } else {
                                    PRes::Fail { e: SpecErr::Eof }
                                }
                            }
                        }
                    }
                } else {
                    PRes::Fail { e: SpecErr::Eof }
                }
            }
        }
    }
}

/// How a grammar-level error is carried by the parser's error type:
/// the variants correspond one to one, and the payloads agree (keys
/// rendered as text, a non-string key carried as the well-formed value
/// whose wire form was read).
pub open spec fn err_rel(e: SpecErr, be: BEError) -> bool {
    match (e, be) {
        (SpecErr::Eof, BEError::EOFError) => true,
        (SpecErr::KeyNotStr { val }, BEError::KeyNotString(w)) =>
            wf(w) && spec_encode(w) == val,
        (SpecErr::KeysOrder { key }, BEError::KeysOutOfOrder(m)) => m@ == lossy_chars(key),
        (SpecErr::LeadZero, BEError::LeadZeroError) => true,
        (SpecErr::MissingSep { found }, BEError::MissingSeparatorError(f, exp)) =>
            f == found && exp == COLON_CHAR,
        (SpecErr::MissingSuffix { found }, BEError::MissingSuffixError(f, exp)) =>
            f == found && exp == E_CHAR,
        (SpecErr::MissingVal { key }, BEError::MissingValueError(m)) => m@ == lossy_chars(key),
        (SpecErr::NegZero, BEError::NegativeZeroError) => true,
        (SpecErr::NegLength { len }, BEError::NegativeStringLength(l)) => l == len,
        (SpecErr::Malformed { digits }, BEError::ParseIntError(d)) => d@ == digits,
        (SpecErr::Unexpected { found }, BEError::UnexpectedCharError(c)) => c == found as char,
        _ => false,
    }
}

} // verus!
