//! The typed adapter's decode side: a byte cursor and the primitive
//! decoders that the typed `decode_*` functions and any
//! wire-to-structure bridge are built from.
//!
//! Every primitive is proved against the grammar of `crate::tspec`:
//! on success the value returned and the bytes consumed are the ones
//! the grammar assigns, on failure the error is, payload included.

use vstd::prelude::*;
use crate::digits::{
    all_digits, digit_run_len, digits_val, eval_digits_u64, is_digit, lemma_digit_run_of,
    COLON_CHAR, E_CHAR, I_CHAR, L_CHAR, MINUS_SIGN, ZERO_CHAR,
};
use crate::error::SerbeError;
use crate::tspec::{
    overflow_text, terr_rel, tp_any_int, tp_bytes, tp_rawuint, tp_signed, tp_str, tp_unsigned,
    TBytesRes, TErr, TIntRes, TStrRes,
};
use vstd::utf8::{decode_utf8, valid_utf8};

verus! {

/// Relies on `String::from_utf8`: it succeeds exactly on valid UTF-8,
/// and the resulting string reads those bytes as characters.
#[verifier::external_body]
pub(crate) fn utf8_string_of(b: Vec<u8>) -> (r: Option<String>)
    ensures
        match r {
            Some(s) => valid_utf8(b@) && s@ == decode_utf8(b@),
            None => !valid_utf8(b@),
        },
{
    String::from_utf8(b).ok()
}

/// A cursor over a byte buffer from which typed values are decoded.
pub struct Deserializer {
    bytes: Vec<u8>,
    pos: usize,
}

impl Deserializer {
    /// The whole input this cursor was built over.
    pub closed spec fn src(&self) -> Seq<u8> {
        self.bytes@
    }

    /// How many bytes have been consumed.
    pub closed spec fn position(&self) -> int {
        self.pos as int
    }

    pub open spec fn inv(&self) -> bool {
        0 <= self.position() <= self.src().len()
    }

    /// The bytes not yet consumed.
    pub open spec fn remaining(&self) -> Seq<u8> {
        self.src().skip(self.position())
    }

    pub fn from_bytes(bytes: &[u8]) -> (r: Deserializer)
        ensures
            r.inv(),
            r.src() == bytes@,
            r.position() == 0,
    {
        Deserializer { bytes: vstd::slice::slice_to_vec(bytes), pos: 0 }
    }

    /// How many bytes have been consumed, as a count.
    pub fn offset(&self) -> (r: usize)
        requires
            self.inv(),
        ensures
            r == self.position(),
    {
        self.pos
    }

    /// Whether the input is exhausted.
    pub fn at_end(&self) -> (r: bool)
        requires
            self.inv(),
        ensures
            r == (self.remaining().len() == 0),
    {
        self.pos == self.bytes.len()
    }

    /// The next byte without consuming it, the end of input reported as
    /// an error.
    pub fn peek_byte(&self) -> (r: Result<u8, SerbeError>)
        requires
            self.inv(),
        ensures
            match r {
                Ok(b) => self.remaining().len() > 0 && b == self.remaining()[0],
                Err(e) => self.remaining().len() == 0 && e is Eof,
            },
    {
        if self.pos < self.bytes.len() {
            Ok(self.bytes[self.pos])
        } else {
            Err(SerbeError::Eof)
        }
    }

    /// Consumes and returns the next byte, the end of input reported as
    /// an error.
    pub fn next_byte(&mut self) -> (r: Result<u8, SerbeError>)
        requires
            old(self).inv(),
        ensures
            final(self).inv(),
            final(self).src() == old(self).src(),
            match r {
                Ok(b) => old(self).remaining().len() > 0 && b == old(self).remaining()[0]
                    && final(self).position() == old(self).position() + 1,
                Err(e) => old(self).remaining().len() == 0 && e is Eof
                    && final(self).position() == old(self).position(),
            },
    {
        if self.pos < self.bytes.len() {
            let b = self.bytes[self.pos];
            self.pos = self.pos + 1;
            Ok(b)
        } else {
            Err(SerbeError::Eof)
        }
    }

    /// Reads a digit run and its value: at least one digit, no leading
    /// zero unless exactly "0", within u64, stopping before the input
    /// ends.
    pub fn parse_raw_integer(&mut self) -> (r: Result<u64, SerbeError>)
        requires
            old(self).inv(),
        ensures
            final(self).inv(),
            final(self).src() == old(self).src(),
            old(self).position() <= final(self).position() <= final(self).src().len(),
            match tp_rawuint(old(self).remaining()) {
                TIntRes::IntOk { v, n } => r matches Ok(x) && x == v
                    && final(self).position() == old(self).position() + n,
                TIntRes::IntFail { e } => r matches Err(se) && terr_rel(e, se),
            },
    {
        let ghost t = self.remaining();
        let mut digits: Vec<u8> = Vec::new();
        let mut lead_zero = false;
        let ghost base: int = self.position();
        proof {
            assert(t.take(0) =~= Seq::<u8>::empty());
        }
        #[verifier::loop_isolation(false)]
        while self.pos < self.bytes.len() && self.bytes[self.pos] >= ZERO_CHAR
            && self.bytes[self.pos] <= 0x39
            invariant
                self.inv(),
                self.src() == old(self).src(),
                0 <= base <= self.position() <= self.src().len(),
                digits@.len() == self.position() - base,
                digits@ == t.take(self.position() - base),
                all_digits(digits@),
                lead_zero <==> (digits@.len() > 0 && t[0] == ZERO_CHAR),
                !(digits@.len() >= 2 && t[0] == ZERO_CHAR),
                self.remaining() == t.skip(self.position() - base),
            decreases self.src().len() - self.position(),
        {
            let ghost i: int = self.position() - base;
            let ch = self.bytes[self.pos];
            proof {
                assert(ch == t[i]);
                assert(is_digit(t[i]));
            }
            if digits.len() > 0 && lead_zero {
                proof {
                    assert(digit_run_len(t) >= i + 1) by {
                        assert(all_digits(t.take(i + 1))) by {
                            assert(forall|j: int| 0 <= j < i
                                ==> t.take(i + 1)[j] == digits@[j]);
                            assert(t.take(i + 1)[i] == t[i]);
                        }
                        crate::digits::lemma_digit_run_ge(t, i + 1);
                    }
                    assert(tp_rawuint(t) == (TIntRes::IntFail { e: TErr::ZeroPrefix }));
                }
                return Err(SerbeError::UnexpectedZeroPrefix);
            }
            if digits.len() == 0 && ch == ZERO_CHAR {
                lead_zero = true;
            }
            digits.push(ch);
            self.pos = self.pos + 1;
            proof {
                assert(digits@ =~= t.take(self.position() - base));
                assert(self.remaining() =~= t.skip(self.position() - base));
            }
        }
        let ghost dn: int = digits@.len() as int;
        if self.pos == self.bytes.len() {
            proof {
                assert(self.remaining().len() == 0);
                assert(t.skip(dn).len() == 0);
                assert(t =~= t.take(dn));
                lemma_digit_run_of(digits@, Seq::<u8>::empty());
                assert(digits@ + Seq::<u8>::empty() =~= t);
                assert(digit_run_len(t) == t.len());
                assert(tp_rawuint(t) == (TIntRes::IntFail { e: TErr::Eof }));
            }
            return Err(SerbeError::Eof);
        }
        proof {
            assert(self.remaining().len() > 0);
            assert(t.skip(dn).len() > 0 && !is_digit(t.skip(dn)[0])) by {
                assert(t.skip(dn)[0] == self.remaining()[0]);
                assert(self.remaining()[0] == self.src()[self.position()]);
            }
            assert(t =~= t.take(dn) + t.skip(dn));
            lemma_digit_run_of(digits@, t.skip(dn));
            assert(digit_run_len(t) == dn);
            assert(dn < t.len());
            assert(!(dn >= 2 && t[0] == ZERO_CHAR));
        }
        if digits.len() == 0 {
            proof {
                assert(tp_rawuint(t) == (TIntRes::IntFail { e: TErr::NoDigits }));
            }
            return Err(SerbeError::NoDigitsInNumber);
        }
        match eval_digits_u64(&digits) {
            None => {
                proof {
                    assert(tp_rawuint(t) == (TIntRes::IntFail {
                        e: TErr::Msg { text: overflow_text() },
                    }));
                }
                Err(SerbeError::Message(overflow_message()))
            }
            Some(v) => {
                proof {
                    assert(tp_rawuint(t) == (TIntRes::IntOk {
                        v: digits_val(t.take(dn)),
                        n: dn as nat,
                    }));
                }
                Ok(v)
            }
        }
    }

    /// Reads `i<digits>e` with no sign permitted.
    pub fn parse_unsigned(&mut self) -> (r: Result<u64, SerbeError>)
        requires
            old(self).inv(),
        ensures
            final(self).inv(),
            final(self).src() == old(self).src(),
            old(self).position() <= final(self).position() <= final(self).src().len(),
            match tp_unsigned(old(self).remaining()) {
                TIntRes::IntOk { v, n } => r matches Ok(x) && x == v
                    && final(self).position() == old(self).position() + n && n >= 1,
                TIntRes::IntFail { e } => r matches Err(se) && terr_rel(e, se),
            },
    {
        let ghost rem0 = self.remaining();
        let first = match self.peek_byte() {
            Ok(b) => b,
            Err(e) => {
                return Err(e);
            }
        };
        if first == MINUS_SIGN {
            return Err(SerbeError::UnexpectedSigned);
        }
        let b = match self.next_byte() {
            Ok(b) => b,
            Err(_) => {
                return unreached();
            }
        };
        if b != I_CHAR {
            return Err(SerbeError::UnexpectedPrefix(b as char, 'i'));
        }
        let ghost inner = rem0.subrange(1, rem0.len() as int);
        proof {
            assert(inner =~= self.remaining());
        }
        let val = match self.parse_raw_integer() {
            Ok(v) => v,
            Err(e) => {
                return Err(e);
            }
        };
        let ghost rn: nat = (self.position() - old(self).position() - 1) as nat;
        let ghost after = inner.subrange(rn as int, inner.len() as int);
        proof {
            assert(after =~= self.remaining());
            assert(after =~= rem0.subrange(1 + rn as int, rem0.len() as int));
        }
        let b2 = match self.next_byte() {
            Ok(b2) => b2,
            Err(e) => {
                proof {
                    assert(after.len() == 0);
                }
                return Err(e);
            }
        };
        if b2 != E_CHAR {
            return Err(SerbeError::ExpectedNumEnd);
        }
        Ok(val)
    }

    /// Reads `i<digits>e` or `i-<digits>e`, the value held to the i64
    /// range.
    pub fn parse_signed(&mut self) -> (r: Result<i64, SerbeError>)
        requires
            old(self).inv(),
        ensures
            final(self).inv(),
            final(self).src() == old(self).src(),
            old(self).position() <= final(self).position() <= final(self).src().len(),
            match tp_signed(old(self).remaining()) {
                TIntRes::IntOk { v, n } => r matches Ok(x) && x == v
                    && final(self).position() == old(self).position() + n && n >= 1,
                TIntRes::IntFail { e } => r matches Err(se) && terr_rel(e, se),
            },
    {
        let ghost rem0 = self.remaining();
        let b = match self.next_byte() {
            Ok(b) => b,
            Err(e) => {
                return Err(e);
            }
        };
        if b != I_CHAR {
            return Err(SerbeError::UnexpectedPrefix(b as char, 'i'));
        }
        let ghost t = rem0.subrange(1, rem0.len() as int);
        proof {
            assert(t =~= self.remaining());
        }
        let sign = match self.peek_byte() {
            Ok(s) => s,
            Err(e) => {
                return Err(e);
            }
        };
        let neg = sign == MINUS_SIGN;
        if neg {
            let _ = self.next_byte();
        }
        let ghost t2 = if neg { t.subrange(1, t.len() as int) } else { t };
        proof {
            assert(t2 =~= self.remaining());
        }
        let uval = match self.parse_raw_integer() {
            Ok(v) => v,
            Err(e) => {
                return Err(e);
            }
        };
        let ghost rn: nat = (self.position() - old(self).position() - 1
            - if neg { 1int } else { 0int }) as nat;
        let ghost after = t2.subrange(rn as int, t2.len() as int);
        proof {
            assert(after =~= self.remaining());
        }
        let b2 = match self.next_byte() {
            Ok(b2) => b2,
            Err(e) => {
                proof {
                    assert(after.len() == 0);
                }
                return Err(e);
            }
        };
        if b2 != E_CHAR {
            return Err(SerbeError::ExpectedNumEnd);
        }
        if neg {
            if uval > 9223372036854775808u64 {
                return Err(SerbeError::Message(overflow_message()));
            }
            if uval == 9223372036854775808u64 {
                Ok(i64::MIN)
            } else {
                Ok(-(uval as i64))
            }
        } else {
            if uval > i64::MAX as u64 {
                return Err(SerbeError::Message(overflow_message()));
            }
            Ok(uval as i64)
        }
    }

    /// Reads one integer of either sign, as the sign and the magnitude.
    pub fn parse_any_int(&mut self) -> (r: Result<(bool, u64), SerbeError>)
        requires
            old(self).inv(),
        ensures
            final(self).inv(),
            final(self).src() == old(self).src(),
            old(self).position() <= final(self).position() <= final(self).src().len(),
            match tp_any_int(old(self).remaining()) {
                TIntRes::IntOk { v, n } => r matches Ok(p)
                    && v == (if p.0 { -(p.1 as int) } else { p.1 as int })
                    && (p.0 ==> p.1 > 0)
                    && final(self).position() == old(self).position() + n && n >= 1,
                TIntRes::IntFail { e } => r matches Err(se) && terr_rel(e, se),
            },
    {
        let first = match self.peek_byte() {
            Ok(b) => b,
            Err(e) => {
                return Err(e);
            }
        };
        if first != I_CHAR {
            return Err(SerbeError::UnrecognizedPrefix(first));
        }
        let rest: usize = self.bytes.len() - self.pos;
        let signed_path = if rest >= 2 {
            self.bytes[self.pos + 1] == MINUS_SIGN
        } else {
            false
        };
        proof {
            let s = self.remaining();
            assert(signed_path == (s.len() >= 2 && s[1] == MINUS_SIGN)) by {
                if rest >= 2 {
                    assert(s[1] == self.src()[self.position() + 1]);
                }
            }
        }
        if signed_path {
            match self.parse_signed() {
                Ok(v) => {
                    if v < 0 {
                        let mag: u64 = if v == i64::MIN {
                            9223372036854775808u64
                        } else {
                            (-v) as u64
                        };
                        Ok((true, mag))
                    } else {
                        Ok((false, v as u64))
                    }
                }
                Err(e) => Err(e),
            }
        } else {
            match self.parse_unsigned() {
                Ok(v) => Ok((false, v)),
                Err(e) => Err(e),
            }
        }
    }

    /// Reads `<len>:<bytes>` and returns the bytes.
    pub fn parse_bytes(&mut self) -> (r: Result<Vec<u8>, SerbeError>)
        requires
            old(self).inv(),
        ensures
            final(self).inv(),
            final(self).src() == old(self).src(),
            old(self).position() <= final(self).position() <= final(self).src().len(),
            match tp_bytes(old(self).remaining()) {
                TBytesRes::BytesOk { b, n } => r matches Ok(x) && x@ == b
                    && final(self).position() == old(self).position() + n && n >= 1,
                TBytesRes::BytesFail { e } => r matches Err(se) && terr_rel(e, se),
            },
    {
        let ghost rem0 = self.remaining();
        let length = match self.parse_raw_integer() {
            Ok(l) => l,
            Err(e) => {
                return Err(e);
            }
        };
        let ghost rn: nat = (self.position() - old(self).position()) as nat;
        let ghost after = rem0.subrange(rn as int, rem0.len() as int);
        proof {
            assert(after =~= self.remaining());
        }
        let colon = match self.next_byte() {
            Ok(c) => c,
            Err(e) => {
                proof {
                    assert(after.len() == 0);
                }
                return Err(e);
            }
        };
        if colon != COLON_CHAR {
            return Err(SerbeError::MissingColon(colon));
        }
        let ghost body = after.subrange(1, after.len() as int);
        proof {
            assert(body =~= self.remaining());
            assert(body.take(0) =~= Seq::<u8>::empty());
        }
        let mut buf: Vec<u8> = Vec::new();
        let mut k: u64 = 0;
        let ghost base: int = self.position();
        #[verifier::loop_isolation(false)]
        while k < length
            invariant
                self.inv(),
                self.src() == old(self).src(),
                0 <= k <= length,
                self.position() == base + k,
                buf@ == body.take(k as int),
                self.remaining() == body.skip(k as int),
            decreases length - k,
        {
            match self.next_byte() {
                Ok(b) => {
                    buf.push(b);
                    proof {
                        assert(buf@ =~= body.take(k as int + 1));
                        assert(self.remaining() =~= body.skip(k as int + 1));
                    }
                }
                Err(e) => {
                    proof {
                        assert(body.len() == k);
                        assert(body.len() < length);
                    }
                    return Err(e);
                }
            }
            k = k + 1;
        }
        proof {
            assert(buf@ =~= body.take(length as int));
            assert(self.position() == old(self).position() + (rn + 1 + length));
        }
        Ok(buf)
    }

    /// Reads `<len>:<bytes>` required to be UTF-8 text.
    pub fn parse_str(&mut self) -> (r: Result<String, SerbeError>)
        requires
            old(self).inv(),
        ensures
            final(self).inv(),
            final(self).src() == old(self).src(),
            old(self).position() <= final(self).position() <= final(self).src().len(),
            match tp_str(old(self).remaining()) {
                TStrRes::StrOk { t, n } => r matches Ok(x) && x@ == t
                    && final(self).position() == old(self).position() + n && n >= 1,
                TStrRes::StrFail { e } => r matches Err(se) && terr_rel(e, se),
            },
    {
        let bytes = match self.parse_bytes() {
            Ok(b) => b,
            Err(e) => {
                return Err(e);
            }
        };
        match utf8_string_of(bytes) {
            Some(s) => Ok(s),
            None => Err(SerbeError::Utf8Error),
        }
    }
}

/// The text reported when a digit run exceeds the 64-bit range.
fn overflow_message() -> (r: String)
    ensures
        r@ == overflow_text(),
{
    String::from_str("integer overflow")
}

/// Appends one decimal digit character.
fn append_digit(out: &mut String, d: u64)
    requires
        d < 10,
    ensures
        final(out)@ == old(out)@ + seq![((0x30 + d) as u8) as char],
{
    if d == 0 {
        out.append("0");
        proof {
            reveal_strlit("0");
            assert(out@ =~= old(out)@ + seq![((0x30 + d) as u8) as char]);
        }
    } else if d == 1 {
        out.append("1");
        proof {
            reveal_strlit("1");
            assert(out@ =~= old(out)@ + seq![((0x30 + d) as u8) as char]);
        }
    } else if d == 2 {
        out.append("2");
        proof {
            reveal_strlit("2");
            assert(out@ =~= old(out)@ + seq![((0x30 + d) as u8) as char]);
        }
    } else if d == 3 {
        out.append("3");
        proof {
            reveal_strlit("3");
            assert(out@ =~= old(out)@ + seq![((0x30 + d) as u8) as char]);
        }
    } else if d == 4 {
        out.append("4");
        proof {
            reveal_strlit("4");
            assert(out@ =~= old(out)@ + seq![((0x30 + d) as u8) as char]);
        }
    } else if d == 5 {
        out.append("5");
        proof {
            reveal_strlit("5");
            assert(out@ =~= old(out)@ + seq![((0x30 + d) as u8) as char]);
        }
    } else if d == 6 {
        out.append("6");
        proof {
            reveal_strlit("6");
            assert(out@ =~= old(out)@ + seq![((0x30 + d) as u8) as char]);
        }
    } else if d == 7 {
        out.append("7");
        proof {
            reveal_strlit("7");
            assert(out@ =~= old(out)@ + seq![((0x30 + d) as u8) as char]);
        }
    } else if d == 8 {
        out.append("8");
        proof {
            reveal_strlit("8");
            assert(out@ =~= old(out)@ + seq![((0x30 + d) as u8) as char]);
        }
    } else {
        out.append("9");
        proof {
            reveal_strlit("9");
            assert(out@ =~= old(out)@ + seq![((0x30 + d) as u8) as char]);
        }
    }
}

/// Appends the decimal notation of `n`, as characters.
pub(crate) fn push_decimal_chars(out: &mut String, n: u64)
    ensures
        final(out)@ == old(out)@ + crate::tspec::digits_chars(n as nat),
    decreases n,
{
    if n >= 10 {
        push_decimal_chars(out, n / 10);
        append_digit(out, n % 10);
        proof {
            assert(crate::tspec::digits_chars(n as nat)
                =~= crate::tspec::digits_chars((n / 10) as nat)
                    + seq![((0x30 + n % 10) as u8) as char]);
            assert(out@ =~= old(out)@ + crate::tspec::digits_chars(n as nat));
        }
    } else {
        append_digit(out, n);
        proof {
            assert(crate::tspec::digits_chars(n as nat)
                =~= seq![((0x30 + n) as u8) as char]);
            assert(out@ =~= old(out)@ + crate::tspec::digits_chars(n as nat));
        }
    }
}

/// The text reported when a decoded integer does not fit the target
/// type named by `target`: the value in decimal, then the target's
/// name.
fn invalid_value_message(neg: bool, mag: u64, target: &str) -> (r: String)
    requires
        neg ==> mag > 0,
    ensures
        r@ == crate::tspec::invalid_value_text(
            if neg { -(mag as int) } else { mag as int },
            target@,
        ),
{
    let mut m = String::from_str("invalid value: integer `");
    if neg {
        m.append("-");
        proof {
            reveal_strlit("-");
            assert(m@ =~= "invalid value: integer `"@ + seq!['-']);
        }
    }
    push_decimal_chars(&mut m, mag);
    m.append("`, expected ");
    m.append(target);
    proof {
        let v: int = if neg { -(mag as int) } else { mag as int };
        assert(m@ =~= "invalid value: integer `"@ + crate::tspec::int_text(v)
            + "`, expected "@ + target@);
    }
    m
}

/// A whole-input decode to an unsigned integer within `[0, hi]`.
fn decode_uint_ranged(bytes: &[u8], hi: u64, target: &str) -> (r: Result<u64, SerbeError>)
    ensures
        match crate::tspec::tp_decode_int(bytes@, 0, hi as int, target@) {
            crate::tspec::TValRes::ValOk { v } => r matches Ok(x) && x == v,
            crate::tspec::TValRes::ValFail { e } => r matches Err(se) && terr_rel(e, se),
        },
{
    let mut de = Deserializer::from_bytes(bytes);
    proof {
        assert(de.remaining() =~= bytes@);
    }
    let (neg, mag) = match de.parse_any_int() {
        Ok(p) => p,
        Err(e) => {
            return Err(e);
        }
    };
    if neg {
        return Err(SerbeError::Message(invalid_value_message(true, mag, target)));
    }
    if mag > hi {
        return Err(SerbeError::Message(invalid_value_message(false, mag, target)));
    }
    if !de.at_end() {
        return Err(SerbeError::TrailingInput);
    }
    Ok(mag)
}

/// A whole-input decode to a signed integer within
/// `[-(min_mag), hi]`.
fn decode_sint_ranged(bytes: &[u8], min_mag: u64, hi: u64, target: &str)
    -> (r: Result<i64, SerbeError>)
    requires
        min_mag <= 9223372036854775808u64,
        hi <= i64::MAX as u64,
    ensures
        match crate::tspec::tp_decode_int(bytes@, -(min_mag as int), hi as int, target@) {
            crate::tspec::TValRes::ValOk { v } => r matches Ok(x) && x == v,
            crate::tspec::TValRes::ValFail { e } => r matches Err(se) && terr_rel(e, se),
        },
{
    let mut de = Deserializer::from_bytes(bytes);
    proof {
        assert(de.remaining() =~= bytes@);
    }
    let (neg, mag) = match de.parse_any_int() {
        Ok(p) => p,
        Err(e) => {
            return Err(e);
        }
    };
    if neg {
        if mag > min_mag {
            return Err(SerbeError::Message(invalid_value_message(true, mag, target)));
        }
    } else {
        if mag > hi {
            return Err(SerbeError::Message(invalid_value_message(false, mag, target)));
        }
    }
    if !de.at_end() {
        return Err(SerbeError::TrailingInput);
    }
    if neg {
        if mag == 9223372036854775808u64 {
            Ok(i64::MIN)
        } else {
            Ok(-(mag as i64))
        }
    } else {
        Ok(mag as i64)
    }
}

/// Decodes a boolean from a whole input: an unsigned integer, zero
/// meaning false and any other value true.
pub fn decode_bool(bytes: &[u8]) -> (r: Result<bool, SerbeError>)
    ensures
        match crate::tspec::tp_decode_bool(bytes@) {
            crate::tspec::TValRes::ValOk { v } => r matches Ok(x) && x == (v != 0),
            crate::tspec::TValRes::ValFail { e } => r matches Err(se) && terr_rel(e, se),
        },
{
    let mut de = Deserializer::from_bytes(bytes);
    proof {
        assert(de.remaining() =~= bytes@);
    }
    let v = match de.parse_unsigned() {
        Ok(v) => v,
        Err(e) => {
            return Err(e);
        }
    };
    if !de.at_end() {
        return Err(SerbeError::TrailingInput);
    }
    Ok(v != 0)
}

/// Decodes a u8 from a whole input.
pub fn decode_u8(bytes: &[u8]) -> (r: Result<u8, SerbeError>)
    ensures
        match crate::tspec::tp_decode_int(bytes@, 0, u8::MAX as int, "u8"@) {
            crate::tspec::TValRes::ValOk { v } => r matches Ok(x) && x == v,
            crate::tspec::TValRes::ValFail { e } => r matches Err(se) && terr_rel(e, se),
        },
{
    match decode_uint_ranged(bytes, u8::MAX as u64, "u8") {
        Ok(v) => Ok(v as u8),
        Err(e) => Err(e),
    }
}

/// Decodes a u16 from a whole input.
pub fn decode_u16(bytes: &[u8]) -> (r: Result<u16, SerbeError>)
    ensures
        match crate::tspec::tp_decode_int(bytes@, 0, u16::MAX as int, "u16"@) {
            crate::tspec::TValRes::ValOk { v } => r matches Ok(x) && x == v,
            crate::tspec::TValRes::ValFail { e } => r matches Err(se) && terr_rel(e, se),
        },
{
    match decode_uint_ranged(bytes, u16::MAX as u64, "u16") {
        Ok(v) => Ok(v as u16),
        Err(e) => Err(e),
    }
}

/// Decodes a u32 from a whole input.
pub fn decode_u32(bytes: &[u8]) -> (r: Result<u32, SerbeError>)
    ensures
        match crate::tspec::tp_decode_int(bytes@, 0, u32::MAX as int, "u32"@) {
            crate::tspec::TValRes::ValOk { v } => r matches Ok(x) && x == v,
            crate::tspec::TValRes::ValFail { e } => r matches Err(se) && terr_rel(e, se),
        },
{
    match decode_uint_ranged(bytes, u32::MAX as u64, "u32") {
        Ok(v) => Ok(v as u32),
        Err(e) => Err(e),
    }
}

/// Decodes a u64 from a whole input.
pub fn decode_u64(bytes: &[u8]) -> (r: Result<u64, SerbeError>)
    ensures
        match crate::tspec::tp_decode_int(bytes@, 0, u64::MAX as int, "u64"@) {
            crate::tspec::TValRes::ValOk { v } => r matches Ok(x) && x == v,
            crate::tspec::TValRes::ValFail { e } => r matches Err(se) && terr_rel(e, se),
        },
{
    decode_uint_ranged(bytes, u64::MAX, "u64")
}

/// Decodes an i8 from a whole input.
pub fn decode_i8(bytes: &[u8]) -> (r: Result<i8, SerbeError>)
    ensures
        match crate::tspec::tp_decode_int(bytes@, i8::MIN as int, i8::MAX as int, "i8"@) {
            crate::tspec::TValRes::ValOk { v } => r matches Ok(x) && x == v,
            crate::tspec::TValRes::ValFail { e } => r matches Err(se) && terr_rel(e, se),
        },
{
    match decode_sint_ranged(bytes, 128, i8::MAX as u64, "i8") {
        Ok(v) => Ok(v as i8),
        Err(e) => Err(e),
    }
}

/// Decodes an i16 from a whole input.
pub fn decode_i16(bytes: &[u8]) -> (r: Result<i16, SerbeError>)
    ensures
        match crate::tspec::tp_decode_int(bytes@, i16::MIN as int, i16::MAX as int, "i16"@) {
            crate::tspec::TValRes::ValOk { v } => r matches Ok(x) && x == v,
            crate::tspec::TValRes::ValFail { e } => r matches Err(se) && terr_rel(e, se),
        },
{
    match decode_sint_ranged(bytes, 32768, i16::MAX as u64, "i16") {
        Ok(v) => Ok(v as i16),
        Err(e) => Err(e),
    }
}

/// Decodes an i32 from a whole input.
pub fn decode_i32(bytes: &[u8]) -> (r: Result<i32, SerbeError>)
    ensures
        match crate::tspec::tp_decode_int(bytes@, i32::MIN as int, i32::MAX as int, "i32"@) {
            crate::tspec::TValRes::ValOk { v } => r matches Ok(x) && x == v,
            crate::tspec::TValRes::ValFail { e } => r matches Err(se) && terr_rel(e, se),
        },
{
    match decode_sint_ranged(bytes, 2147483648, i32::MAX as u64, "i32") {
        Ok(v) => Ok(v as i32),
        Err(e) => Err(e),
    }
}

/// Decodes an i64 from a whole input.
pub fn decode_i64(bytes: &[u8]) -> (r: Result<i64, SerbeError>)
    ensures
        match crate::tspec::tp_decode_int(bytes@, i64::MIN as int, i64::MAX as int, "i64"@) {
            crate::tspec::TValRes::ValOk { v } => r matches Ok(x) && x == v,
            crate::tspec::TValRes::ValFail { e } => r matches Err(se) && terr_rel(e, se),
        },
{
    decode_sint_ranged(bytes, 9223372036854775808u64, i64::MAX as u64, "i64")
}

/// Decodes a byte string from a whole input.
pub fn decode_bytes(bytes: &[u8]) -> (r: Result<Vec<u8>, SerbeError>)
    ensures
        match crate::tspec::tp_decode_bytes(bytes@) {
            TBytesRes::BytesOk { b, n } => r matches Ok(x) && x@ == b,
            TBytesRes::BytesFail { e } => r matches Err(se) && terr_rel(e, se),
        },
{
    let mut de = Deserializer::from_bytes(bytes);
    proof {
        assert(de.remaining() =~= bytes@);
    }
    let b = match de.parse_bytes() {
        Ok(b) => b,
        Err(e) => {
            return Err(e);
        }
    };
    if !de.at_end() {
        return Err(SerbeError::TrailingInput);
    }
    Ok(b)
}

/// Decodes a UTF-8 string from a whole input.
pub fn decode_string(bytes: &[u8]) -> (r: Result<String, SerbeError>)
    ensures
        match crate::tspec::tp_decode_string(bytes@) {
            TStrRes::StrOk { t, n } => r matches Ok(x) && x@ == t,
            TStrRes::StrFail { e } => r matches Err(se) && terr_rel(e, se),
        },
{
    let mut de = Deserializer::from_bytes(bytes);
    proof {
        assert(de.remaining() =~= bytes@);
    }
    let s = match de.parse_str() {
        Ok(s) => s,
        Err(e) => {
            return Err(e);
        }
    };
    if !de.at_end() {
        return Err(SerbeError::TrailingInput);
    }
    Ok(s)
}

/// A whole-input decode to a list of unsigned integers within
/// `[0, hi]`.
#[verifier::loop_isolation(false)]
#[verifier::rlimit(100)]
#[verifier::spinoff_prover]
fn decode_uint_list_ranged(bytes: &[u8], hi: u64, target: &str)
    -> (r: Result<Vec<u64>, SerbeError>)
    ensures
        match crate::tspec::tp_decode_int_list(bytes@, 0, hi as int, target@) {
            crate::tspec::TListRes::ListOk { vals, n } => r matches Ok(rv)
                && rv@.len() == vals.len()
                && (forall|i: int| 0 <= i < vals.len()
                    ==> (#[trigger] rv@[i]) as int == vals[i] && rv@[i] <= hi),
            crate::tspec::TListRes::ListFail { e } => r matches Err(se) && terr_rel(e, se),
        },
{
    let mut de = Deserializer::from_bytes(bytes);
    proof {
        assert(de.remaining() =~= bytes@);
    }
    let b = match de.next_byte() {
        Ok(b) => b,
        Err(e) => {
            return Err(e);
        }
    };
    if b != L_CHAR {
        return Err(SerbeError::ExpectedList);
    }
    let ghost inner = bytes@.subrange(1, bytes@.len() as int);
    proof {
        assert(inner =~= de.remaining());
        assert(inner.skip(0) =~= inner);
    }
    let mut result: Vec<u64> = Vec::new();
    proof {
        let rints = result@.map_values(|x: u64| x as int);
        assert(rints =~= Seq::<int>::empty());
        match crate::tspec::tp_list_items_int(inner, 0, hi as int, target@) {
            crate::tspec::TListRes::ListOk { vals, n: m } => {
                assert(rints + vals =~= vals);
            }
            crate::tspec::TListRes::ListFail { e } => {}
        }
    }
    while de.pos < de.bytes.len() && de.bytes[de.pos] != E_CHAR
        invariant
            de.inv(),
            de.src() == bytes@,
            1 <= de.position() <= de.src().len(),
            de.remaining() == inner.skip(de.position() - 1),
            forall|i: int| 0 <= i < result@.len() ==> (#[trigger] result@[i]) <= hi,
            match crate::tspec::tp_list_items_int(
                inner.skip(de.position() - 1), 0, hi as int, target@,
            ) {
                crate::tspec::TListRes::ListOk { vals, n: m } =>
                    crate::tspec::tp_list_items_int(inner, 0, hi as int, target@)
                        == (crate::tspec::TListRes::ListOk {
                            vals: result@.map_values(|x: u64| x as int) + vals,
                            n: (de.position() - 1 + m) as nat,
                        }),
                crate::tspec::TListRes::ListFail { e } =>
                    crate::tspec::tp_list_items_int(inner, 0, hi as int, target@)
                        == (crate::tspec::TListRes::ListFail { e }),
            },
        decreases de.src().len() - de.position(),
    {
        let ghost kk: int = de.position() - 1;
        let ghost rnow = inner.skip(kk);
        proof {
            assert(rnow.len() > 0 && rnow[0] != E_CHAR) by {
                assert(rnow[0] == de.remaining()[0]);
                assert(de.remaining()[0] == de.src()[de.position()]);
            }
        }
        let (neg, mag) = match de.parse_any_int() {
            Ok(p) => p,
            Err(e) => {
                proof {
                    assert(crate::tspec::tp_any_int(rnow) is IntFail);
                }
                return Err(e);
            }
        };
        let ghost n: int = de.position() - 1 - kk;
        let ghost v: int = if neg { -(mag as int) } else { mag as int };
        proof {
            assert(crate::tspec::tp_any_int(rnow)
                == (crate::tspec::TIntRes::IntOk { v, n: n as nat }));
            assert(1 <= n <= rnow.len());
        }
        if neg {
            return Err(SerbeError::Message(invalid_value_message(true, mag, target)));
        }
        if mag > hi {
            return Err(SerbeError::Message(invalid_value_message(false, mag, target)));
        }
        let ghost pre = result@;
        result.push(mag);
        proof {
            let f = |x: u64| x as int;
            assert(result@.map_values(f) =~= pre.map_values(f) + seq![mag as int]);
            assert(rnow.subrange(n, rnow.len() as int) =~= inner.skip(kk + n));
            match crate::tspec::tp_list_items_int(inner.skip(kk + n), 0, hi as int, target@) {
                crate::tspec::TListRes::ListOk { vals, n: m } => {
                    assert(crate::tspec::tp_list_items_int(rnow, 0, hi as int, target@)
                        == (crate::tspec::TListRes::ListOk {
                            vals: seq![v] + vals,
                            n: (n + m) as nat,
                        }));
                    assert(pre.map_values(f) + (seq![v] + vals)
                        =~= result@.map_values(f) + vals);
                }
                crate::tspec::TListRes::ListFail { e } => {
                    assert(crate::tspec::tp_list_items_int(rnow, 0, hi as int, target@)
                        == (crate::tspec::TListRes::ListFail { e }));
                }
            }
        }
    }
    let ghost kk: int = de.position() - 1;
    let ghost rnow = inner.skip(kk);
    if de.pos == de.bytes.len() {
        proof {
            assert(rnow.len() == 0);
            assert(crate::tspec::tp_list_items_int(rnow, 0, hi as int, target@)
                == (crate::tspec::TListRes::ListFail { e: TErr::Eof }));
        }
        return Err(SerbeError::Eof);
    }
    proof {
        assert(rnow.len() > 0 && rnow[0] == E_CHAR) by {
            assert(rnow[0] == de.remaining()[0]);
            assert(de.remaining()[0] == de.src()[de.position()]);
        }
        assert(crate::tspec::tp_list_items_int(rnow, 0, hi as int, target@)
            == (crate::tspec::TListRes::ListOk { vals: Seq::<int>::empty(), n: 0nat }));
        let rints = result@.map_values(|x: u64| x as int);
        assert(rints + Seq::<int>::empty() =~= rints);
        assert(bytes@.subrange(1 + kk, bytes@.len() as int) =~= rnow);
    }
    let eb = match de.next_byte() {
        Ok(x) => x,
        Err(_) => {
            return unreached();
        }
    };
    if eb != E_CHAR {
        return Err(SerbeError::ExpectedListEnd);
    }
    if !de.at_end() {
        return Err(SerbeError::TrailingInput);
    }
    Ok(result)
}

/// Decodes a list of u16 values from a whole input.
pub fn decode_u16_list(bytes: &[u8]) -> (r: Result<Vec<u16>, SerbeError>)
    ensures
        match crate::tspec::tp_decode_int_list(bytes@, 0, u16::MAX as int, "u16"@) {
            crate::tspec::TListRes::ListOk { vals, n } => r matches Ok(rv)
                && rv@.len() == vals.len()
                && (forall|i: int| 0 <= i < vals.len()
                    ==> (#[trigger] rv@[i]) as int == vals[i]),
            crate::tspec::TListRes::ListFail { e } => r matches Err(se) && terr_rel(e, se),
        },
{
    let wide = match decode_uint_list_ranged(bytes, u16::MAX as u64, "u16") {
        Ok(w) => w,
        Err(e) => {
            return Err(e);
        }
    };
    let mut out: Vec<u16> = Vec::new();
    let mut i: usize = 0;
    while i < wide.len()
        invariant
            0 <= i <= wide@.len(),
            forall|j: int| 0 <= j < wide@.len() ==> (#[trigger] wide@[j]) <= u16::MAX,
            out@.len() == i,
            forall|j: int| 0 <= j < i ==> (#[trigger] out@[j]) == wide@[j] as u16,
        decreases wide@.len() - i,
    {
        out.push(wide[i] as u16);
        i = i + 1;
    }
    Ok(out)
}

/// Decodes a list of u32 values from a whole input.
pub fn decode_u32_list(bytes: &[u8]) -> (r: Result<Vec<u32>, SerbeError>)
    ensures
        match crate::tspec::tp_decode_int_list(bytes@, 0, u32::MAX as int, "u32"@) {
            crate::tspec::TListRes::ListOk { vals, n } => r matches Ok(rv)
                && rv@.len() == vals.len()
                && (forall|i: int| 0 <= i < vals.len()
                    ==> (#[trigger] rv@[i]) as int == vals[i]),
            crate::tspec::TListRes::ListFail { e } => r matches Err(se) && terr_rel(e, se),
        },
{
    let wide = match decode_uint_list_ranged(bytes, u32::MAX as u64, "u32") {
        Ok(w) => w,
        Err(e) => {
            return Err(e);
        }
    };
    let mut out: Vec<u32> = Vec::new();
    let mut i: usize = 0;
    while i < wide.len()
        invariant
            0 <= i <= wide@.len(),
            forall|j: int| 0 <= j < wide@.len() ==> (#[trigger] wide@[j]) <= u32::MAX,
            out@.len() == i,
            forall|j: int| 0 <= j < i ==> (#[trigger] out@[j]) == wide@[j] as u32,
        decreases wide@.len() - i,
    {
        out.push(wide[i] as u32);
        i = i + 1;
    }
    Ok(out)
}

/// Decodes a list of UTF-8 strings from a whole input.
#[verifier::loop_isolation(false)]
#[verifier::rlimit(100)]
#[verifier::spinoff_prover]
pub fn decode_string_list(bytes: &[u8]) -> (r: Result<Vec<String>, SerbeError>)
    ensures
        match crate::tspec::tp_decode_str_list(bytes@) {
            crate::tspec::TStrListRes::StrListOk { vals, n } => r matches Ok(rv)
                && rv@.len() == vals.len()
                && (forall|i: int| 0 <= i < vals.len() ==> (#[trigger] rv@[i])@ == vals[i]),
            crate::tspec::TStrListRes::StrListFail { e } => r matches Err(se) && terr_rel(e, se),
        },
{
    let mut de = Deserializer::from_bytes(bytes);
    proof {
        assert(de.remaining() =~= bytes@);
    }
    let b = match de.next_byte() {
        Ok(b) => b,
        Err(e) => {
            return Err(e);
        }
    };
    if b != L_CHAR {
        return Err(SerbeError::ExpectedList);
    }
    let ghost inner = bytes@.subrange(1, bytes@.len() as int);
    proof {
        assert(inner =~= de.remaining());
        assert(inner.skip(0) =~= inner);
    }
    let mut result: Vec<String> = Vec::new();
    proof {
        let rs = result@.map_values(|x: String| x@);
        assert(rs =~= Seq::<Seq<char>>::empty());
        match crate::tspec::tp_list_items_str(inner) {
            crate::tspec::TStrListRes::StrListOk { vals, n: m } => {
                assert(rs + vals =~= vals);
            }
            crate::tspec::TStrListRes::StrListFail { e } => {}
        }
    }
    while de.pos < de.bytes.len() && de.bytes[de.pos] != E_CHAR
        invariant
            de.inv(),
            de.src() == bytes@,
            1 <= de.position() <= de.src().len(),
            de.remaining() == inner.skip(de.position() - 1),
            match crate::tspec::tp_list_items_str(inner.skip(de.position() - 1)) {
                crate::tspec::TStrListRes::StrListOk { vals, n: m } =>
                    crate::tspec::tp_list_items_str(inner)
                        == (crate::tspec::TStrListRes::StrListOk {
                            vals: result@.map_values(|x: String| x@) + vals,
                            n: (de.position() - 1 + m) as nat,
                        }),
                crate::tspec::TStrListRes::StrListFail { e } =>
                    crate::tspec::tp_list_items_str(inner)
                        == (crate::tspec::TStrListRes::StrListFail { e }),
            },
        decreases de.src().len() - de.position(),
    {
        let ghost kk: int = de.position() - 1;
        let ghost rnow = inner.skip(kk);
        proof {
            assert(rnow.len() > 0 && rnow[0] != E_CHAR) by {
                assert(rnow[0] == de.remaining()[0]);
                assert(de.remaining()[0] == de.src()[de.position()]);
            }
        }
        let elem = match de.parse_str() {
            Ok(x) => x,
            Err(e) => {
                proof {
                    assert(crate::tspec::tp_str(rnow) is StrFail);
                }
                return Err(e);
            }
        };
        let ghost n: int = de.position() - 1 - kk;
        let ghost t = elem@;
        proof {
            assert(crate::tspec::tp_str(rnow)
                == (crate::tspec::TStrRes::StrOk { t, n: n as nat }));
            assert(1 <= n <= rnow.len());
        }
        let ghost pre = result@;
        result.push(elem);
        proof {
            let f = |x: String| x@;
            assert(result@.map_values(f) =~= pre.map_values(f) + seq![t]);
            assert(rnow.subrange(n, rnow.len() as int) =~= inner.skip(kk + n));
            match crate::tspec::tp_list_items_str(inner.skip(kk + n)) {
                crate::tspec::TStrListRes::StrListOk { vals, n: m } => {
                    assert(crate::tspec::tp_list_items_str(rnow)
                        == (crate::tspec::TStrListRes::StrListOk {
                            vals: seq![t] + vals,
                            n: (n + m) as nat,
                        }));
                    assert(pre.map_values(f) + (seq![t] + vals)
                        =~= result@.map_values(f) + vals);
                }
                crate::tspec::TStrListRes::StrListFail { e } => {
                    assert(crate::tspec::tp_list_items_str(rnow)
                        == (crate::tspec::TStrListRes::StrListFail { e }));
                }
            }
        }
    }
    let ghost kk: int = de.position() - 1;
    let ghost rnow = inner.skip(kk);
    if de.pos == de.bytes.len() {
        proof {
            assert(rnow.len() == 0);
            assert(crate::tspec::tp_list_items_str(rnow)
                == (crate::tspec::TStrListRes::StrListFail { e: TErr::Eof }));
        }
        return Err(SerbeError::Eof);
    }
    proof {
        assert(rnow.len() > 0 && rnow[0] == E_CHAR) by {
            assert(rnow[0] == de.remaining()[0]);
            assert(de.remaining()[0] == de.src()[de.position()]);
        }
        assert(crate::tspec::tp_list_items_str(rnow)
            == (crate::tspec::TStrListRes::StrListOk {
                vals: Seq::<Seq<char>>::empty(),
                n: 0nat,
            }));
        let rs = result@.map_values(|x: String| x@);
        assert(rs + Seq::<Seq<char>>::empty() =~= rs);
        assert(bytes@.subrange(1 + kk, bytes@.len() as int) =~= rnow);
    }
    let eb = match de.next_byte() {
        Ok(x) => x,
        Err(_) => {
            return unreached();
        }
    };
    if eb != E_CHAR {
        return Err(SerbeError::ExpectedListEnd);
    }
    if !de.at_end() {
        return Err(SerbeError::TrailingInput);
    }
    Ok(result)
}

} // verus!
