//! The typed adapter's byte grammar, as mathematical functions.
//!
//! The typed decoders share the leaf grammar with the streaming parser
//! but drive it by the requested target type rather than by the input:
//! `tp_rawuint` the digit scanner, `tp_unsigned` and `tp_signed` the
//! two integer forms, `tp_any_int` the dispatch on an optional minus
//! sign, `tp_bytes` and `tp_str` the string forms, and the composed
//! `tp_decode_*` functions which add the range check against the
//! target's bounds and the trailing-input rule: a top-level decode
//! must consume the input exactly.

use vstd::prelude::*;
use crate::digits::{
    dec_digits, digit_run_len, digits_val, COLON_CHAR, E_CHAR, I_CHAR, L_CHAR, MINUS_SIGN,
    ZERO_CHAR,
};
use crate::error::SerbeError;
use vstd::utf8::{decode_utf8, valid_utf8};

verus! {

/// An error of the typed grammar, message text as plain characters.
pub enum TErr {
    Msg { text: Seq<char> },
    Eof,
    ExpectedList,
    ExpectedListEnd,
    ExpectedNumEnd,
    ExpectedMap,
    ExpectedMapEnd,
    MissingColon { found: u8 },
    NoDigits,
    Trailing,
    UnrecognizedPrefix { found: u8 },
    UnexpectedPrefix { found: char, expected: char },
    UnexpectedSigned,
    ZeroPrefix,
    Utf8,
}

/// Outcome of reading one integer form: its value and the bytes it
/// occupies.
pub enum TIntRes {
    IntOk { v: int, n: nat },
    IntFail { e: TErr },
}

/// Outcome of reading one byte-string form.
pub enum TBytesRes {
    BytesOk { b: Seq<u8>, n: nat },
    BytesFail { e: TErr },
}

/// Outcome of reading one text-string form.
pub enum TStrRes {
    StrOk { t: Seq<char>, n: nat },
    StrFail { e: TErr },
}

/// Outcome of a whole-input decode to an integer.
pub enum TValRes {
    ValOk { v: int },
    ValFail { e: TErr },
}

/// Outcome of a whole-input decode to a list of integers.
pub enum TListRes {
    ListOk { vals: Seq<int>, n: nat },
    ListFail { e: TErr },
}

/// Outcome of a whole-input decode to a list of strings.
pub enum TStrListRes {
    StrListOk { vals: Seq<Seq<char>>, n: nat },
    StrListFail { e: TErr },
}

/// The text of the error reported when a digit run exceeds the 64-bit
/// range.
pub open spec fn overflow_text() -> Seq<char> {
    "integer overflow"@
}

/// The canonical decimal notation of `n`, as characters.
pub open spec fn digits_chars(n: nat) -> Seq<char> {
    dec_digits(n).map_values(|b: u8| b as char)
}

/// The decimal notation of a possibly negative value, as characters.
pub open spec fn int_text(v: int) -> Seq<char> {
    if v < 0 {
        seq!['-'] + digits_chars((-v) as nat)
    } else {
        digits_chars(v as nat)
    }
}

/// The text of the error reported when a decoded integer does not fit
/// the requested target type, named by `target`.
pub open spec fn invalid_value_text(v: int, target: Seq<char>) -> Seq<char> {
    "invalid value: integer `"@ + int_text(v) + "`, expected "@ + target
}

/// Reads a run of digits: no leading zero unless exactly "0", at least
/// one digit, a value within u64, and the run must stop before the
/// input does.
pub open spec fn tp_rawuint(s: Seq<u8>) -> TIntRes {
    let dn = digit_run_len(s) as int;
    if dn >= 2 && s[0] == ZERO_CHAR {
        TIntRes::IntFail { e: TErr::ZeroPrefix }
    } else if dn == s.len() {
        TIntRes::IntFail { e: TErr::Eof }
    } else if dn == 0 {
        TIntRes::IntFail { e: TErr::NoDigits }
    } else {
        let m = digits_val(s.take(dn));
        if m > u64::MAX {
            TIntRes::IntFail { e: TErr::Msg { text: overflow_text() } }
        } else {
            TIntRes::IntOk { v: m, n: dn as nat }
        }
    }
}

/// Reads `i<digits>e` with no sign permitted.
pub open spec fn tp_unsigned(s: Seq<u8>) -> TIntRes {
    if s.len() == 0 {
        TIntRes::IntFail { e: TErr::Eof }
    } else if s[0] == MINUS_SIGN {
        TIntRes::IntFail { e: TErr::UnexpectedSigned }
    } else if s[0] != I_CHAR {
        TIntRes::IntFail { e: TErr::UnexpectedPrefix { found: s[0] as char, expected: 'i' } }
    } else {
        match tp_rawuint(s.subrange(1, s.len() as int)) {
            TIntRes::IntFail { e } => TIntRes::IntFail { e },
            TIntRes::IntOk { v, n } => {
                let after = s.subrange(1 + n as int, s.len() as int);
                if after.len() == 0 {
                    TIntRes::IntFail { e: TErr::Eof }
                } else if after[0] != E_CHAR {
                    TIntRes::IntFail { e: TErr::ExpectedNumEnd }
                } else {
                    TIntRes::IntOk { v, n: (1 + n + 1) as nat }
                }
            }
        }
    }
}

/// Reads `i<digits>e` or `i-<digits>e`, the value held to the i64
/// range.
pub open spec fn tp_signed(s: Seq<u8>) -> TIntRes {
    if s.len() == 0 {
        TIntRes::IntFail { e: TErr::Eof }
    } else if s[0] != I_CHAR {
        TIntRes::IntFail { e: TErr::UnexpectedPrefix { found: s[0] as char, expected: 'i' } }
    } else {
        let t = s.subrange(1, s.len() as int);
        if t.len() == 0 {
            TIntRes::IntFail { e: TErr::Eof }
        } else {
            let neg = t[0] == MINUS_SIGN;
            let t2 = if neg { t.subrange(1, t.len() as int) } else { t };
            match tp_rawuint(t2) {
                TIntRes::IntFail { e } => TIntRes::IntFail { e },
                TIntRes::IntOk { v, n } => {
                    let after = t2.subrange(n as int, t2.len() as int);
                    if after.len() == 0 {
                        TIntRes::IntFail { e: TErr::Eof }
                    } else if after[0] != E_CHAR {
                        TIntRes::IntFail { e: TErr::ExpectedNumEnd }
                    } else {
                        let sv = if neg { -v } else { v };
                        if sv < i64::MIN || sv > i64::MAX {
                            TIntRes::IntFail { e: TErr::Msg { text: overflow_text() } }
                        } else {
                            TIntRes::IntOk {
                                v: sv,
                                n: (1 + if neg { 1int } else { 0int } + n + 1) as nat,
                            }
                        }
                    }
                }
            }
        }
    }
}

/// Reads one integer, choosing the signed form when a minus sign
/// follows the `i` and the unsigned form otherwise.
pub open spec fn tp_any_int(s: Seq<u8>) -> TIntRes {
    if s.len() == 0 {
        TIntRes::IntFail { e: TErr::Eof }
    } else if s[0] != I_CHAR {
        TIntRes::IntFail { e: TErr::UnrecognizedPrefix { found: s[0] } }
    } else if s.len() >= 2 && s[1] == MINUS_SIGN {
        tp_signed(s)
    } else {
        tp_unsigned(s)
    }
}

/// Reads `<len>:<bytes>`.
pub open spec fn tp_bytes(s: Seq<u8>) -> TBytesRes {
    match tp_rawuint(s) {
        TIntRes::IntFail { e } => TBytesRes::BytesFail { e },
        TIntRes::IntOk { v, n } => {
            let after = s.subrange(n as int, s.len() as int);
            if after.len() == 0 {
                TBytesRes::BytesFail { e: TErr::Eof }
            } else if after[0] != COLON_CHAR {
                TBytesRes::BytesFail { e: TErr::MissingColon { found: after[0] } }
            } else {
                let body = after.subrange(1, after.len() as int);
                if body.len() < v {
                    TBytesRes::BytesFail { e: TErr::Eof }
                } else {
                    TBytesRes::BytesOk { b: body.take(v), n: (n + 1 + v) as nat }
                }
            }
        }
    }
}

/// Reads `<len>:<bytes>` required to be UTF-8 text.
pub open spec fn tp_str(s: Seq<u8>) -> TStrRes {
    match tp_bytes(s) {
        TBytesRes::BytesFail { e } => TStrRes::StrFail { e },
        TBytesRes::BytesOk { b, n } => {
            if valid_utf8(b) {
                TStrRes::StrOk { t: decode_utf8(b), n }
            } else {
                TStrRes::StrFail { e: TErr::Utf8 }
            }
        }
    }
}

/// A whole-input decode to an integer within `[lo, hi]`, the target
/// type named by `target` in the mismatch message.
pub open spec fn tp_decode_int(s: Seq<u8>, lo: int, hi: int, target: Seq<char>) -> TValRes {
    match tp_any_int(s) {
        TIntRes::IntFail { e } => TValRes::ValFail { e },
        TIntRes::IntOk { v, n } => {
            if !(lo <= v <= hi) {
                TValRes::ValFail { e: TErr::Msg { text: invalid_value_text(v, target) } }
            } else if n < s.len() {
                TValRes::ValFail { e: TErr::Trailing }
            } else {
                TValRes::ValOk { v }
            }
        }
    }
}

/// A whole-input decode to a boolean: zero is false, any other integer
/// true.
pub open spec fn tp_decode_bool(s: Seq<u8>) -> TValRes {
    match tp_unsigned(s) {
        TIntRes::IntFail { e } => TValRes::ValFail { e },
        TIntRes::IntOk { v, n } => {
            if n < s.len() {
                TValRes::ValFail { e: TErr::Trailing }
            } else {
                TValRes::ValOk { v: if v == 0 { 0int } else { 1int } }
            }
        }
    }
}

/// Reads list elements (integers within `[lo, hi]`) up to but not
/// including the closing `e`.
pub open spec fn tp_list_items_int(s: Seq<u8>, lo: int, hi: int, target: Seq<char>) -> TListRes
    decreases s.len(),
{
    if s.len() == 0 {
        TListRes::ListFail { e: TErr::Eof }
    } else if s[0] == E_CHAR {
        TListRes::ListOk { vals: Seq::empty(), n: 0 }
    } else {
        match tp_any_int(s) {
            TIntRes::IntFail { e } => TListRes::ListFail { e },
            TIntRes::IntOk { v, n } => {
                if !(lo <= v <= hi) {
                    TListRes::ListFail { e: TErr::Msg { text: invalid_value_text(v, target) } }
                } else if 1 <= n <= s.len() {
                    match tp_list_items_int(s.subrange(n as int, s.len() as int), lo, hi, target) {
                        TListRes::ListFail { e } => TListRes::ListFail { e },
                        TListRes::ListOk { vals, n: m } => TListRes::ListOk {
                            vals: seq![v] + vals,
                            n: n + m,
                        },
                    }
                } else {
                    TListRes::ListFail { e: TErr::Eof }
                }
            }
        }
    }
}

/// A whole-input decode to a list of integers within `[lo, hi]`.
pub open spec fn tp_decode_int_list(s: Seq<u8>, lo: int, hi: int, target: Seq<char>) -> TListRes {
    if s.len() == 0 {
        TListRes::ListFail { e: TErr::Eof }
    } else if s[0] != L_CHAR {
        TListRes::ListFail { e: TErr::ExpectedList }
    } else {
        match tp_list_items_int(s.subrange(1, s.len() as int), lo, hi, target) {
            TListRes::ListFail { e } => TListRes::ListFail { e },
            TListRes::ListOk { vals, n } => {
                let rest = s.subrange(1 + n as int, s.len() as int);
                if rest.len() == 0 {
                    TListRes::ListFail { e: TErr::Eof }
                } else if rest[0] != E_CHAR {
                    TListRes::ListFail { e: TErr::ExpectedListEnd }
                } else if 1 + n + 1 < s.len() {
                    TListRes::ListFail { e: TErr::Trailing }
                } else {
                    TListRes::ListOk { vals, n: (1 + n + 1) as nat }
                }
            }
        }
    }
}

/// Reads list elements (UTF-8 strings) up to but not including the
/// closing `e`.
pub open spec fn tp_list_items_str(s: Seq<u8>) -> TStrListRes
    decreases s.len(),
{
    if s.len() == 0 {
        TStrListRes::StrListFail { e: TErr::Eof }
    } else if s[0] == E_CHAR {
        TStrListRes::StrListOk { vals: Seq::empty(), n: 0 }
    } else {
        match tp_str(s) {
            TStrRes::StrFail { e } => TStrListRes::StrListFail { e },
            TStrRes::StrOk { t, n } => {
                if 1 <= n <= s.len() {
                    match tp_list_items_str(s.subrange(n as int, s.len() as int)) {
                        TStrListRes::StrListFail { e } => TStrListRes::StrListFail { e },
                        TStrListRes::StrListOk { vals, n: m } => TStrListRes::StrListOk {
                            vals: seq![t] + vals,
                            n: n + m,
                        },
                    }
                } else {
                    TStrListRes::StrListFail { e: TErr::Eof }
                }
            }
        }
    }
}

/// A whole-input decode to a list of UTF-8 strings.
pub open spec fn tp_decode_str_list(s: Seq<u8>) -> TStrListRes {
    if s.len() == 0 {
        TStrListRes::StrListFail { e: TErr::Eof }
    } else if s[0] != L_CHAR {
        TStrListRes::StrListFail { e: TErr::ExpectedList }
    } else {
        match tp_list_items_str(s.subrange(1, s.len() as int)) {
            TStrListRes::StrListFail { e } => TStrListRes::StrListFail { e },
            TStrListRes::StrListOk { vals, n } => {
                let rest = s.subrange(1 + n as int, s.len() as int);
                if rest.len() == 0 {
                    TStrListRes::StrListFail { e: TErr::Eof }
                } else if rest[0] != E_CHAR {
                    TStrListRes::StrListFail { e: TErr::ExpectedListEnd }
                } else if 1 + n + 1 < s.len() {
                    TStrListRes::StrListFail { e: TErr::Trailing }
                } else {
                    TStrListRes::StrListOk { vals, n: (1 + n + 1) as nat }
                }
            }
        }
    }
}

/// A whole-input decode to a byte string.
pub open spec fn tp_decode_bytes(s: Seq<u8>) -> TBytesRes {
    match tp_bytes(s) {
        TBytesRes::BytesFail { e } => TBytesRes::BytesFail { e },
        TBytesRes::BytesOk { b, n } => {
            if n < s.len() {
                TBytesRes::BytesFail { e: TErr::Trailing }
            } else {
                TBytesRes::BytesOk { b, n }
            }
        }
    }
}

/// A whole-input decode to a UTF-8 string.
pub open spec fn tp_decode_string(s: Seq<u8>) -> TStrRes {
    match tp_str(s) {
        TStrRes::StrFail { e } => TStrRes::StrFail { e },
        TStrRes::StrOk { t, n } => {
            if n < s.len() {
                TStrRes::StrFail { e: TErr::Trailing }
            } else {
                TStrRes::StrOk { t, n }
            }
        }
    }
}

/// How a typed-grammar error is carried by the adapter's error type:
/// variants correspond one to one, payloads agree.
pub open spec fn terr_rel(e: TErr, se: SerbeError) -> bool {
    match (e, se) {
        (TErr::Msg { text }, SerbeError::Message(m)) => m@ == text,
        (TErr::Eof, SerbeError::Eof) => true,
        (TErr::ExpectedList, SerbeError::ExpectedList) => true,
        (TErr::ExpectedListEnd, SerbeError::ExpectedListEnd) => true,
        (TErr::ExpectedNumEnd, SerbeError::ExpectedNumEnd) => true,
        (TErr::ExpectedMap, SerbeError::ExpectedMap) => true,
        (TErr::ExpectedMapEnd, SerbeError::ExpectedMapEnd) => true,
        (TErr::MissingColon { found }, SerbeError::MissingColon(g)) => g == found,
        (TErr::NoDigits, SerbeError::NoDigitsInNumber) => true,
        (TErr::Trailing, SerbeError::TrailingInput) => true,
        (TErr::UnrecognizedPrefix { found }, SerbeError::UnrecognizedPrefix(g)) => g == found,
        (TErr::UnexpectedPrefix { found, expected }, SerbeError::UnexpectedPrefix(g, y)) =>
            g == found && y == expected,
        (TErr::UnexpectedSigned, SerbeError::UnexpectedSigned) => true,
        (TErr::ZeroPrefix, SerbeError::UnexpectedZeroPrefix) => true,
        (TErr::Utf8, SerbeError::Utf8Error) => true,
        _ => false,
    }
}

} // verus!
