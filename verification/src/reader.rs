//! The streaming parser: reads one value at a time from a byte buffer,
//! admitting only the canonical wire form.
//!
//! Every reading function is proved against the grammar of
//! `crate::parse`: on success the value built encodes, under
//! `crate::encoding::spec_encode`, to exactly the bytes consumed; on
//! failure the error is the one the grammar assigns, payload included.
//! After a failure the cursor rests somewhere inside the input and the
//! read is not resumable, matching the no-partial-results rule.

use vstd::prelude::*;
use crate::digits::{
    all_digits, digit_run_len, digits_val, eval_digits_u64, is_digit, lemma_dec_digits_unique,
    lemma_digit_run_of, COLON_CHAR, D_CHAR, E_CHAR, I_CHAR, L_CHAR, MINUS_SIGN, ZERO_CHAR,
};
use crate::encoding::{
    enc_int_body, enc_pairs, enc_str, enc_items, int_mag, lemma_enc_items_snoc,
    lemma_enc_pairs_snoc, lemma_spec_encode_first_byte, lex_lt, pairs_sorted, spec_encode, wf,
};
use crate::error::BEError;
use crate::parse::{
    err_rel, pitems, ppairs, pv, pv_int, pv_int_val, pv_rawint, pv_str, pv_str_content, PRes,
    RawIntRes, SpecErr,
};
use crate::value::{copy_bytes, lossy_string_of, BEValue};

verus! {

/// A one-byte lookahead, described: either the end of the input or the
/// next byte.
pub enum PeekedValue {
    EOF,
    ASCII(u8),
}

/// A cursor over a byte buffer from which values are read one at a
/// time.
pub struct BEReader {
    bytes: Vec<u8>,
    pos: usize,
}

/// Which expected-byte check failed, naming the error to report.
enum ExpectKind {
    Prefix,
    Separator,
    Suffix,
}

impl BEReader {
    /// The whole input this reader was built over.
    pub closed spec fn src(&self) -> Seq<u8> {
        self.bytes@
    }

    /// How many bytes have been consumed.
    pub closed spec fn position(&self) -> int {
        self.pos as int
    }

    pub open spec fn inv(&self) -> bool {
        0 <= self.position() <= self.src().len()
    }

    /// The bytes not yet consumed.
    pub open spec fn remaining(&self) -> Seq<u8> {
        self.src().skip(self.position())
    }

    pub fn new(bytes: Vec<u8>) -> (r: BEReader)
        ensures
            r.inv(),
            r.src() == bytes@,
            r.position() == 0,
    {
        BEReader { bytes, pos: 0 }
    }

    /// The next byte, if any, without consuming it.
    fn peeked_char(&self) -> (r: PeekedValue)
        requires
            self.inv(),
        ensures
            match r {
                PeekedValue::EOF => self.remaining().len() == 0,
                PeekedValue::ASCII(b) => self.remaining().len() > 0 && b == self.remaining()[0],
            },
    {
        if self.pos < self.bytes.len() {
            PeekedValue::ASCII(self.bytes[self.pos])
        } else {
            PeekedValue::EOF
        }
    }

    /// The next byte without consuming it, the end of input reported as
    /// an error.
    fn peek_char_no_eof(&self) -> (r: Result<u8, BEError>)
        requires
            self.inv(),
        ensures
            match r {
                Ok(b) => self.remaining().len() > 0 && b == self.remaining()[0],
                Err(e) => self.remaining().len() == 0 && e is EOFError,
            },
    {
        match self.peeked_char() {
            PeekedValue::EOF => Err(BEError::EOFError),
            PeekedValue::ASCII(ch) => Ok(ch),
        }
    }

    /// Consumes and returns the next byte, the end of input reported as
    /// an error.
    fn next_char_no_eof(&mut self) -> (r: Result<u8, BEError>)
        requires
            old(self).inv(),
        ensures
            final(self).inv(),
            final(self).src() == old(self).src(),
            match r {
                Ok(b) => old(self).remaining().len() > 0 && b == old(self).remaining()[0]
                    && final(self).position() == old(self).position() + 1,
                Err(e) => old(self).remaining().len() == 0 && e is EOFError
                    && final(self).position() == old(self).position(),
            },
    {
        if self.pos < self.bytes.len() {
            let b = self.bytes[self.pos];
            self.pos = self.pos + 1;
            Ok(b)
        } else {
            Err(BEError::EOFError)
        }
    }

    /// Consumes one byte and checks it is the expected one, reporting
    /// the named error (carrying found and expected) otherwise.
    fn check_next_char(&mut self, expected: u8, kind: ExpectKind) -> (r: Result<(), BEError>)
        requires
            old(self).inv(),
        ensures
            final(self).inv(),
            final(self).src() == old(self).src(),
            match r {
                Ok(()) => old(self).remaining().len() > 0
                    && old(self).remaining()[0] == expected
                    && final(self).position() == old(self).position() + 1,
                Err(e) => match e {
                    BEError::EOFError => old(self).remaining().len() == 0
                        && final(self).position() == old(self).position(),
                    BEError::MissingPrefixError(f, x) => kind is Prefix
                        && old(self).remaining().len() > 0 && f == old(self).remaining()[0]
                        && f != expected && x == expected
                        && final(self).position() == old(self).position() + 1,
                    BEError::MissingSeparatorError(f, x) => kind is Separator
                        && old(self).remaining().len() > 0 && f == old(self).remaining()[0]
                        && f != expected && x == expected
                        && final(self).position() == old(self).position() + 1,
                    BEError::MissingSuffixError(f, x) => kind is Suffix
                        && old(self).remaining().len() > 0 && f == old(self).remaining()[0]
                        && f != expected && x == expected
                        && final(self).position() == old(self).position() + 1,
                    _ => false,
                },
            },
    {
        let ch = match self.next_char_no_eof() {
            Ok(ch) => ch,
            Err(e) => {
                return Err(e);
            }
        };
        if expected != ch {
            Err(match kind {
                ExpectKind::Prefix => BEError::MissingPrefixError(ch, expected),
                ExpectKind::Separator => BEError::MissingSeparatorError(ch, expected),
                ExpectKind::Suffix => BEError::MissingSuffixError(ch, expected),
            })
        } else {
            Ok(())
        }
    }

    /// Consumes one byte required to be the given structure prefix.
    fn check_prefix(&mut self, expected: u8) -> (r: Result<(), BEError>)
        requires
            old(self).inv(),
        ensures
            final(self).inv(),
            final(self).src() == old(self).src(),
            match r {
                Ok(()) => old(self).remaining().len() > 0
                    && old(self).remaining()[0] == expected
                    && final(self).position() == old(self).position() + 1,
                Err(e) => !(old(self).remaining().len() > 0
                    && old(self).remaining()[0] == expected),
            },
    {
        self.check_next_char(expected, ExpectKind::Prefix)
    }

    /// Reads an optional minus sign and a digit run, applying the
    /// canonical-form rules of the grammar.
    #[verifier::loop_isolation(false)]
    #[verifier::rlimit(100)]
    #[verifier::spinoff_prover]
    fn read_raw_integer(&mut self) -> (r: Result<i64, BEError>)
        requires
            old(self).inv(),
        ensures
            final(self).inv(),
            final(self).src() == old(self).src(),
            old(self).position() <= final(self).position() <= final(self).src().len(),
            match pv_rawint(old(self).remaining()) {
                RawIntRes::RawOk { v, n } => r matches Ok(x) && x == v
                    && final(self).position() == old(self).position() + n
                    && old(self).remaining().take(n as int) == enc_int_body(v),
                RawIntRes::RawFail { e } => r matches Err(be) && err_rel(e, be),
            },
    {
        let ghost rem0 = self.remaining();
        let mut minus: i64 = 1;

        if let PeekedValue::ASCII(b) = self.peeked_char() {
            if b == MINUS_SIGN {
                let _ = self.next_char_no_eof();
                minus = -1;
            }
        }
        let ghost neg = rem0.len() > 0 && rem0[0] == MINUS_SIGN;
        let ghost t = if neg { rem0.subrange(1, rem0.len() as int) } else { rem0 };
        proof {
            assert(minus == -1 <==> neg);
            assert(self.remaining() =~= t);
        }

        let mut digits: Vec<u8> = Vec::new();
        let mut lead_zero = false;
        let ghost base: int = self.position();
        proof {
            assert(t.take(0) =~= Seq::<u8>::empty());
        }
        while self.pos < self.bytes.len() && self.bytes[self.pos] >= ZERO_CHAR
            && self.bytes[self.pos] <= 0x39
            invariant
                self.inv(),
                self.src() == old(self).src(),
                base == old(self).position() + if neg { 1int } else { 0int },
                0 <= base <= self.position() <= self.src().len(),
                digits@.len() == self.position() - base,
                digits@ == t.take(self.position() - base),
                all_digits(digits@),
                lead_zero <==> (digits@.len() > 0 && t[0] == ZERO_CHAR),
                !(digits@.len() >= 2 && t[0] == ZERO_CHAR),
                self.remaining() == t.skip(self.position() - base),
            decreases self.src().len() - self.position(),
        {
            let ghost i: int = self.position() - base;
            let ch = self.bytes[self.pos];
            proof {
                assert(ch == t[i]);
                assert(is_digit(t[i]));
            }
            if digits.len() > 0 && lead_zero {
                proof {
                    assert(digit_run_len(t) >= i + 1) by {
                        assert(all_digits(t.take(i + 1))) by {
                            assert(forall|j: int| 0 <= j < i
                                ==> t.take(i + 1)[j] == digits@[j]);
                            assert(t.take(i + 1)[i] == t[i]);
                        }
                        crate::digits::lemma_digit_run_ge(t, i + 1);
                    }
                    assert(digit_run_len(t) >= 2 && t[0] == ZERO_CHAR);
                    assert(pv_rawint(rem0)
                        == (RawIntRes::RawFail { e: SpecErr::LeadZero }));
                }
                return Err(BEError::LeadZeroError);
            }
            if digits.len() == 0 && ch == ZERO_CHAR {
                lead_zero = true;
            }
            digits.push(ch);
            self.pos = self.pos + 1;
            proof {
                assert(digits@ =~= t.take(self.position() - base));
                assert(self.remaining() =~= t.skip(self.position() - base));
            }
        }

        let ghost dn: int = digits@.len() as int;
        if self.pos == self.bytes.len() {
            proof {
                assert(self.remaining().len() == 0);
                assert(t.skip(dn).len() == 0);
                assert(t =~= t.take(dn));
                lemma_digit_run_of(digits@, Seq::<u8>::empty());
                assert(digits@ + Seq::<u8>::empty() =~= t);
                assert(digit_run_len(t) == t.len());
                assert(pv_rawint(rem0) == (RawIntRes::RawFail { e: SpecErr::Eof }));
            }
            return Err(BEError::EOFError);
        }
        proof {
            assert(self.remaining().len() > 0);
            assert(t.skip(dn).len() > 0 && !is_digit(t.skip(dn)[0])) by {
                assert(t.skip(dn)[0] == self.remaining()[0]);
                assert(self.remaining()[0] == self.src()[self.position()]);
            }
            assert(t =~= t.take(dn) + t.skip(dn));
            lemma_digit_run_of(digits@, t.skip(dn));
            assert(digit_run_len(t) == dn);
            assert(dn < t.len());
            assert(!(dn >= 2 && t[0] == ZERO_CHAR));
        }

        let value_opt = eval_digits_u64(&digits);
        let value: u64 = match value_opt {
            None => {
                proof {
                    assert(digits_val(t.take(dn)) > i64::MAX);
                    assert(dn != 0) by {
                        assert(digits@ =~= t.take(dn));
                        if dn == 0 {
                            assert(digits@.len() == 0);
                            assert(digits_val(digits@) == 0);
                        }
                    }
                    assert(pv_rawint(rem0) == (RawIntRes::RawFail {
                        e: SpecErr::Malformed { digits: t.take(dn) },
                    }));
                }
                return Err(BEError::ParseIntError(digits));
            }
            Some(v) => v,
        };
        if digits.len() == 0 {
            proof {
                assert(pv_rawint(rem0) == (RawIntRes::RawFail {
                    e: SpecErr::Malformed { digits: Seq::<u8>::empty() },
                }));
                assert(digits@ =~= Seq::<u8>::empty());
            }
            return Err(BEError::ParseIntError(digits));
        }
        if value > i64::MAX as u64 {
            proof {
                assert(pv_rawint(rem0) == (RawIntRes::RawFail {
                    e: SpecErr::Malformed { digits: t.take(dn) },
                }));
            }
            return Err(BEError::ParseIntError(digits));
        }
        let value: i64 = value as i64;
        if value == 0 && minus < 0 {
            proof {
                assert(pv_rawint(rem0) == (RawIntRes::RawFail { e: SpecErr::NegZero }));
            }
            return Err(BEError::NegativeZeroError);
        }
        let result: i64 = if minus < 0 { -value } else { value };
        proof {
            let m: int = digits_val(t.take(dn));
            let n: nat = (dn + if neg { 1int } else { 0int }) as nat;
            assert(pv_rawint(rem0) == (RawIntRes::RawOk {
                v: if neg { -m } else { m },
                n,
            }));
            assert(result == if neg { -m } else { m });
            assert(self.position() == old(self).position() + n);
            assert(crate::digits::canonical_digits(t.take(dn))) by {
                assert(t.take(dn)[0] == t[0]);
            }
            lemma_dec_digits_unique(t.take(dn));
            assert(int_mag(result as int) == m);
            assert(rem0.take(n as int) == enc_int_body(result as int)) by {
                if neg {
                    assert(rem0.take(n as int) =~= seq![MINUS_SIGN] + t.take(dn));
                } else {
                    assert(rem0.take(n as int) =~= t.take(dn));
                }
            }
        }
        Ok(result)
    }

    /// Reads one string value `<len>:<bytes>`, the cursor standing at
    /// the length digits.  Reachable through `next_value` only when the
    /// next byte is a digit; called directly, a parsed negative length
    /// is rejected as such.
    pub fn read_string(&mut self) -> (r: Result<BEValue, BEError>)
        requires
            old(self).inv(),
        ensures
            final(self).inv(),
            final(self).src() == old(self).src(),
            old(self).position() <= final(self).position() <= final(self).src().len(),
            match pv_str(old(self).remaining()) {
                PRes::Val { n } => r matches Ok(v) && v is BEString
                    && v->BEString_0@ == pv_str_content(old(self).remaining())
                    && wf(v) && spec_encode(v) == old(self).remaining().take(n as int)
                    && final(self).position() == old(self).position() + n
                    && n >= 1,
                PRes::Fail { e } => r matches Err(be) && err_rel(e, be),
            },
    {
        let ghost rem0 = self.remaining();
        let len = match self.read_raw_integer() {
            Ok(l) => l,
            Err(e) => {
                return Err(e);
            }
        };
        let ghost rn: nat = (self.position() - old(self).position()) as nat;
        proof {
            assert(pv_rawint(rem0) == (RawIntRes::RawOk { v: len as int, n: rn }));
        }
        if len < 0 {
            return Err(BEError::NegativeStringLength(len));
        }
        let ghost after = rem0.subrange(rn as int, rem0.len() as int);
        proof {
            assert(after =~= self.remaining());
        }
        match self.check_next_char(COLON_CHAR, ExpectKind::Separator) {
            Ok(()) => {}
            Err(e) => {
                proof {
                    if after.len() == 0 {
                        assert(pv_str(rem0) == (PRes::Fail { e: SpecErr::Eof }));
                    } else {
                        assert(pv_str(rem0) == (PRes::Fail {
                            e: SpecErr::MissingSep { found: after[0] },
                        }));
                    }
                }
                return Err(e);
            }
        }
        let ghost body = rem0.subrange(rn as int + 1, rem0.len() as int);
        proof {
            assert(body =~= self.remaining());
        }
        let mut buf: Vec<u8> = Vec::new();
        let mut k: u64 = 0;
        let ghost base: int = self.position();
        proof {
            assert(body.take(0) =~= Seq::<u8>::empty());
        }
        #[verifier::loop_isolation(false)]
        while k < len as u64
            invariant
                self.inv(),
                self.src() == old(self).src(),
                0 <= k <= len as u64,
                self.position() == base + k,
                buf@ == body.take(k as int),
                self.remaining() == body.skip(k as int),
            decreases len as u64 - k,
        {
            match self.next_char_no_eof() {
                Ok(b) => {
                    buf.push(b);
                    proof {
                        assert(buf@ =~= body.take(k as int + 1));
                        assert(self.remaining() =~= body.skip(k as int + 1));
                    }
                }
                Err(e) => {
                    proof {
                        assert(body.len() == k);
                        assert(after.len() - 1 < len);
                        assert(pv_str(rem0) == (PRes::Fail { e: SpecErr::Eof }));
                    }
                    return Err(e);
                }
            }
            k = k + 1;
        }
        let result = BEValue::BEString(buf);
        proof {
            let n: nat = (rn + 1 + len) as nat;
            assert(after.len() > 0 && after[0] == COLON_CHAR);
            assert(after.len() - 1 >= len);
            assert(pv_str(rem0) == (PRes::Val { n }));
            assert(buf@ =~= body.take(len as int));
            assert(pv_str_content(rem0) =~= buf@);
            assert(enc_int_body(len as int) == crate::digits::dec_digits(buf@.len()));
            assert(spec_encode(result) == rem0.take(n as int)) by {
                assert(rem0.take(n as int)
                    =~= rem0.take(rn as int) + seq![COLON_CHAR] + buf@);
            }
            assert(self.position() == old(self).position() + n);
        }
        Ok(result)
    }

    /// Reads one integer value `i<digits>e`, the cursor standing at the
    /// leading `i`.
    fn read_integer(&mut self) -> (r: Result<BEValue, BEError>)
        requires
            old(self).inv(),
            old(self).remaining().len() > 0,
            old(self).remaining()[0] == I_CHAR,
        ensures
            final(self).inv(),
            final(self).src() == old(self).src(),
            old(self).position() <= final(self).position() <= final(self).src().len(),
            match pv_int(old(self).remaining()) {
                PRes::Val { n } => r matches Ok(v) && v is BEInteger
                    && v->BEInteger_0 == pv_int_val(old(self).remaining())
                    && wf(v) && spec_encode(v) == old(self).remaining().take(n as int)
                    && final(self).position() == old(self).position() + n
                    && n >= 1,
                PRes::Fail { e } => r matches Err(be) && err_rel(e, be),
            },
    {
        let ghost rem0 = self.remaining();
        let ghost inner = rem0.subrange(1, rem0.len() as int);
        match self.check_prefix(I_CHAR) {
            Ok(()) => {}
            Err(_) => {
                return unreached();
            }
        }
        proof {
            assert(inner =~= self.remaining());
        }
        let value = match self.read_raw_integer() {
            Ok(v) => v,
            Err(e) => {
                return Err(e);
            }
        };
        let ghost rn: nat = (self.position() - old(self).position() - 1) as nat;
        proof {
            assert(pv_rawint(inner) == (RawIntRes::RawOk { v: value as int, n: rn }));
        }
        let ghost after = inner.subrange(rn as int, inner.len() as int);
        proof {
            assert(after =~= self.remaining());
        }
        match self.check_next_char(E_CHAR, ExpectKind::Suffix) {
            Ok(()) => {}
            Err(e) => {
                proof {
                    if after.len() == 0 {
                        assert(pv_int(rem0) == (PRes::Fail { e: SpecErr::Eof }));
                    } else {
                        assert(pv_int(rem0) == (PRes::Fail {
                            e: SpecErr::MissingSuffix { found: after[0] },
                        }));
                    }
                }
                return Err(e);
            }
        }
        let result = BEValue::BEInteger(value);
        proof {
            let n: nat = (1 + rn + 1) as nat;
            assert(pv_int(rem0) == (PRes::Val { n }));
            assert(pv_int_val(rem0) == value as int);
            assert(spec_encode(result) == rem0.take(n as int)) by {
                assert(inner.take(rn as int) == enc_int_body(value as int));
                assert(rem0.take(n as int)
                    =~= seq![I_CHAR] + inner.take(rn as int) + seq![E_CHAR]);
            }
            assert(self.position() == old(self).position() + n);
        }
        Ok(result)
    }

    /// Reads zero or one value from the input: `Ok(None)` at a clean
    /// end of input, otherwise the value whose canonical wire form
    /// stands at the cursor, or the error the grammar assigns.
    pub fn next_value(&mut self) -> (r: Result<Option<BEValue>, BEError>)
        requires
            old(self).inv(),
        ensures
            final(self).inv(),
            final(self).src() == old(self).src(),
            old(self).position() <= final(self).position() <= final(self).src().len(),
            old(self).remaining().len() == 0 ==> (r matches Ok(x) && x is None
                && final(self).position() == old(self).position()),
            old(self).remaining().len() > 0 ==> match pv(old(self).remaining()) {
                PRes::Val { n } => r matches Ok(x) && x matches Some(v) && wf(v)
                    && spec_encode(v) == old(self).remaining().take(n as int)
                    && (v is BEString ==> v->BEString_0@
                        == pv_str_content(old(self).remaining()))
                    && final(self).position() == old(self).position() + n
                    && n >= 1,
                PRes::Fail { e } => r matches Err(be) && err_rel(e, be),
            },
        decreases old(self).remaining().len(), 1int,
    {
        match self.peeked_char() {
            PeekedValue::EOF => Ok(None),
            PeekedValue::ASCII(ch) => {
                if ch >= ZERO_CHAR && ch <= 0x39 {
                    match self.read_string() {
                        Ok(v) => Ok(Some(v)),
                        Err(e) => Err(e),
                    }
                } else if ch == I_CHAR {
                    match self.read_integer() {
                        Ok(v) => Ok(Some(v)),
                        Err(e) => Err(e),
                    }
                } else if ch == L_CHAR {
                    match self.read_list() {
                        Ok(v) => Ok(Some(v)),
                        Err(e) => Err(e),
                    }
                } else if ch == D_CHAR {
                    match self.read_dict() {
                        Ok(v) => Ok(Some(v)),
                        Err(e) => Err(e),
                    }
                } else {
                    proof {
                        assert(pv(self.remaining()) == (PRes::Fail {
                            e: SpecErr::Unexpected { found: ch },
                        }));
                    }
                    Err(BEError::UnexpectedCharError(ch as char))
                }
            }
        }
    }

    /// Reads one value, the end of input reported as an error.
    fn next_value_no_eof(&mut self) -> (r: Result<BEValue, BEError>)
        requires
            old(self).inv(),
        ensures
            final(self).inv(),
            final(self).src() == old(self).src(),
            old(self).position() <= final(self).position() <= final(self).src().len(),
            old(self).remaining().len() == 0 ==> (r matches Err(e) && e is EOFError
                && final(self).position() == old(self).position()),
            old(self).remaining().len() > 0 ==> match pv(old(self).remaining()) {
                PRes::Val { n } => r matches Ok(v) && wf(v)
                    && spec_encode(v) == old(self).remaining().take(n as int)
                    && (v is BEString ==> v->BEString_0@
                        == pv_str_content(old(self).remaining()))
                    && final(self).position() == old(self).position() + n
                    && n >= 1,
                PRes::Fail { e } => r matches Err(be) && err_rel(e, be),
            },
        decreases old(self).remaining().len(), 2int,
    {
        match self.next_value() {
            Ok(None) => Err(BEError::EOFError),
            Ok(Some(v)) => Ok(v),
            Err(e) => Err(e),
        }
    }

    /// Reads one list `l...e`, the cursor standing at the leading `l`.
    #[verifier::loop_isolation(false)]
    #[verifier::rlimit(100)]
    #[verifier::spinoff_prover]
    fn read_list(&mut self) -> (r: Result<BEValue, BEError>)
        requires
            old(self).inv(),
            old(self).remaining().len() > 0,
            old(self).remaining()[0] == L_CHAR,
        ensures
            final(self).inv(),
            final(self).src() == old(self).src(),
            old(self).position() <= final(self).position() <= final(self).src().len(),
            match pv(old(self).remaining()) {
                PRes::Val { n } => r matches Ok(v) && v is BEList && wf(v)
                    && spec_encode(v) == old(self).remaining().take(n as int)
                    && final(self).position() == old(self).position() + n
                    && n >= 1,
                PRes::Fail { e } => r matches Err(be) && err_rel(e, be),
            },
        decreases old(self).remaining().len(), 0int,
    {
        let ghost rem0 = self.remaining();
        let ghost inner = rem0.subrange(1, rem0.len() as int);
        match self.check_prefix(L_CHAR) {
            Ok(()) => {}
            Err(_) => {
                return unreached();
            }
        }
        proof {
            assert(inner =~= self.remaining());
            assert(inner.skip(0) =~= inner);
            assert(inner.take(0) =~= Seq::<u8>::empty());
            assert(enc_items(Seq::<BEValue>::empty()) =~= Seq::<u8>::empty());
        }
        let mut result: Vec<BEValue> = Vec::new();
        loop
            invariant
                self.inv(),
                self.src() == old(self).src(),
                old(self).position() + 1 <= self.position() <= self.src().len(),
                self.remaining()
                    == inner.skip(self.position() - old(self).position() - 1),
                enc_items(result@)
                    == inner.take(self.position() - old(self).position() - 1),
                forall|j: int| 0 <= j < result@.len() ==> wf(#[trigger] result@[j]),
                match pitems(inner.skip(self.position() - old(self).position() - 1)) {
                    PRes::Val { n: m } => pitems(inner) == (PRes::Val {
                        n: (self.position() - old(self).position() - 1 + m) as nat,
                    }),
                    PRes::Fail { e } => pitems(inner) == (PRes::Fail { e }),
                },
            decreases self.src().len() - self.position(),
        {
            let ghost kk: int = self.position() - old(self).position() - 1;
            let ghost rnow = inner.skip(kk);
            let b = match self.peek_char_no_eof() {
                Ok(b) => b,
                Err(e) => {
                    proof {
                        assert(rnow.len() == 0);
                        assert(pitems(rnow) == (PRes::Fail { e: SpecErr::Eof }));
                    }
                    return Err(e);
                }
            };
            proof {
                assert(rnow.len() > 0 && rnow[0] == b);
            }
            if b == E_CHAR {
                let _ = self.next_char_no_eof();
                let out = BEValue::BEList(result);
                proof {
                    assert(pitems(rnow) == (PRes::Val { n: 1nat }));
                    assert(pitems(inner) == (PRes::Val { n: (kk + 1) as nat }));
                    assert(pv(rem0) == (PRes::Val { n: (kk + 2) as nat }));
                    assert(out->BEList_0@ == result@);
                    assert(spec_encode(out) == rem0.take(kk + 2)) by {
                        assert(rem0.take(kk + 2)
                            =~= seq![L_CHAR] + inner.take(kk) + seq![E_CHAR]);
                    }
                    assert(self.position() == old(self).position() + (kk + 2));
                }
                return Ok(out);
            }
            let v = match self.next_value_no_eof() {
                Ok(v) => v,
                Err(e) => {
                    proof {
                        assert(pv(rnow) is Fail);
                        assert(pitems(rnow) == pv(rnow));
                    }
                    return Err(e);
                }
            };
            let ghost n: int = self.position() - old(self).position() - 1 - kk;
            proof {
                assert(pv(rnow) == (PRes::Val { n: n as nat }));
                assert(1 <= n <= rnow.len());
                assert(rnow.subrange(n, rnow.len() as int) =~= inner.skip(kk + n));
                assert(spec_encode(v) == rnow.take(n));
            }
            let ghost pre = result@;
            let ghost velem = v;
            result.push(v);
            proof {
                let s = result@;
                assert(s == pre.push(velem));
                assert(s.take(s.len() - 1) =~= pre);
                assert(s.take(s.len() as int) =~= s);
                assert(s[s.len() - 1] == velem);
                lemma_enc_items_snoc(s, s.len() - 1);
                assert(enc_items(s) == enc_items(pre) + spec_encode(velem));
                assert(inner.take(kk + n) =~= inner.take(kk) + rnow.take(n));
                assert(enc_items(result@) == inner.take(kk + n));
            }
        }
    }

    /// Reads one key/value pair of a dict body, the cursor standing at
    /// the first byte of the key (known not to be the closing `e`).
    /// `last` is the preceding key at this nesting level.
    #[verifier::rlimit(80)]
    fn read_pair(&mut self, last: &Option<Vec<u8>>) -> (r: Result<(Vec<u8>, BEValue), BEError>)
        requires
            old(self).inv(),
            old(self).remaining().len() > 0,
            old(self).remaining()[0] != E_CHAR,
        ensures
            final(self).inv(),
            final(self).src() == old(self).src(),
            old(self).position() <= final(self).position() <= final(self).src().len(),
            ({
                let rnow = old(self).remaining();
                let prev = match last {
                    Option::None => Option::None,
                    Option::Some(lk) => Option::Some(lk@),
                };
                match r {
                    Ok(p) => {
                        let c = final(self).position() - old(self).position();
                        &&& 1 <= c <= rnow.len()
                        &&& wf(p.1)
                        &&& p.0@.len() <= i64::MAX
                        &&& enc_str(p.0@) + spec_encode(p.1) == rnow.take(c)
                        &&& (prev matches Some(pk) ==> lex_lt(pk, p.0@))
                        &&& match ppairs(rnow.skip(c), Option::Some(p.0@)) {
                            PRes::Val { n: m } => ppairs(rnow, prev) == (PRes::Val {
                                n: (c + m) as nat,
                            }),
                            PRes::Fail { e } => ppairs(rnow, prev) == (PRes::Fail { e }),
                        }
                    },
                    Err(be) => (ppairs(rnow, prev) matches PRes::Fail { e } && err_rel(e, be)),
                }
            }),
        decreases old(self).remaining().len(), 3int,
    {
        let ghost rnow = self.remaining();
        let ghost prev: Option<Seq<u8>> = match last {
            Option::None => Option::None,
            Option::Some(lk) => Option::Some(lk@),
        };
        let kv = match self.next_value_no_eof() {
            Ok(v) => v,
            Err(e) => {
                proof {
                    assert(pv(rnow) is Fail);
                    assert(ppairs(rnow, prev) == pv(rnow));
                }
                return Err(e);
            }
        };
        let ghost kn: int = self.position() - old(self).position();
        proof {
            assert(pv(rnow) == (PRes::Val { n: kn as nat }));
            assert(1 <= kn <= rnow.len());
            assert(spec_encode(kv) == rnow.take(kn));
            lemma_spec_encode_first_byte(kv);
            assert(spec_encode(kv)[0] == rnow[0]);
        }
        let kb = match kv {
            BEValue::BEString(kb) => kb,
            v => {
                proof {
                    assert(!is_digit(rnow[0]));
                    assert(ppairs(rnow, prev) == (PRes::Fail {
                        e: SpecErr::KeyNotStr { val: rnow.take(kn) },
                    }));
                }
                return Err(BEError::KeyNotString(v));
            }
        };
        proof {
            assert(is_digit(rnow[0]));
            assert(kb@ == pv_str_content(rnow));
            assert(kb@.len() <= i64::MAX) by {
                assert(wf(BEValue::BEString(kb)));
            }
        }
        let ghost after = rnow.subrange(kn, rnow.len() as int);
        proof {
            assert(after =~= self.remaining());
        }
        let b2 = match self.peek_char_no_eof() {
            Ok(b2) => b2,
            Err(e) => {
                proof {
                    assert(after.len() == 0);
                    assert(ppairs(rnow, prev) == (PRes::Fail { e: SpecErr::Eof }));
                }
                return Err(e);
            }
        };
        proof {
            assert(after.len() > 0 && after[0] == b2);
        }
        if b2 == E_CHAR {
            proof {
                assert(ppairs(rnow, prev) == (PRes::Fail {
                    e: SpecErr::MissingVal { key: pv_str_content(rnow) },
                }));
            }
            return Err(BEError::MissingValueError(lossy_string_of(&kb)));
        }
        let vv = match self.next_value_no_eof() {
            Ok(v) => v,
            Err(e) => {
                proof {
                    assert(pv(after) is Fail);
                    assert(ppairs(rnow, prev) matches PRes::Fail { e: e2 }
                        && pv(after) == (PRes::Fail { e: e2 }));
                }
                return Err(e);
            }
        };
        let ghost vn: int = self.position() - old(self).position() - kn;
        proof {
            assert(pv(after) == (PRes::Val { n: vn as nat }));
            assert(1 <= vn <= after.len());
            assert(spec_encode(vv) == after.take(vn));
        }
        if let Some(lk) = last {
            if !crate::encoding::lex_lt_bytes(lk, &kb) {
                proof {
                    assert(!lex_lt(prev->0, pv_str_content(rnow)));
                    assert(ppairs(rnow, prev) == (PRes::Fail {
                        e: SpecErr::KeysOrder { key: pv_str_content(rnow) },
                    }));
                }
                return Err(BEError::KeysOutOfOrder(lossy_string_of(&kb)));
            }
        }
        proof {
            let c: int = kn + vn;
            assert(enc_str(kb@) == spec_encode(BEValue::BEString(kb)));
            assert(enc_str(kb@) + spec_encode(vv) == rnow.take(c)) by {
                assert(rnow.take(c) =~= rnow.take(kn) + after.take(vn));
            }
            assert(rnow.skip(c) =~= after.subrange(vn, after.len() as int));
            match prev {
                Option::Some(p) => {
                    assert(lex_lt(p, kb@));
                }
                Option::None => {}
            }
            assert(match ppairs(rnow.skip(c), Option::Some(kb@)) {
                PRes::Val { n: m } => ppairs(rnow, prev) == (PRes::Val { n: (c + m) as nat }),
                PRes::Fail { e } => ppairs(rnow, prev) == (PRes::Fail { e }),
            });
        }
        Ok((kb, vv))
    }

    /// Reads one dict `d...e`, the cursor standing at the leading `d`:
    /// each key a string, each key followed by a value, keys strictly
    /// increasing.
    #[verifier::loop_isolation(false)]
    #[verifier::rlimit(100)]
    #[verifier::spinoff_prover]
    fn read_dict(&mut self) -> (r: Result<BEValue, BEError>)
        requires
            old(self).inv(),
            old(self).remaining().len() > 0,
            old(self).remaining()[0] == D_CHAR,
        ensures
            final(self).inv(),
            final(self).src() == old(self).src(),
            old(self).position() <= final(self).position() <= final(self).src().len(),
            match pv(old(self).remaining()) {
                PRes::Val { n } => r matches Ok(v) && v is BEDict && wf(v)
                    && spec_encode(v) == old(self).remaining().take(n as int)
                    && final(self).position() == old(self).position() + n
                    && n >= 1,
                PRes::Fail { e } => r matches Err(be) && err_rel(e, be),
            },
        decreases old(self).remaining().len(), 0int,
    {
        let ghost rem0 = self.remaining();
        let ghost inner = rem0.subrange(1, rem0.len() as int);
        match self.check_prefix(D_CHAR) {
            Ok(()) => {}
            Err(_) => {
                return unreached();
            }
        }
        proof {
            assert(inner =~= self.remaining());
            assert(inner.skip(0) =~= inner);
            assert(inner.take(0) =~= Seq::<u8>::empty());
            assert(enc_pairs(Seq::<(Vec<u8>, BEValue)>::empty()) =~= Seq::<u8>::empty());
        }
        let mut result: Vec<(Vec<u8>, BEValue)> = Vec::new();
        let mut last_key: Option<Vec<u8>> = None;
        loop
            invariant
                self.inv(),
                self.src() == old(self).src(),
                old(self).position() + 1 <= self.position() <= self.src().len(),
                self.remaining()
                    == inner.skip(self.position() - old(self).position() - 1),
                enc_pairs(result@)
                    == inner.take(self.position() - old(self).position() - 1),
                forall|j: int| 0 <= j < result@.len()
                    ==> wf((#[trigger] result@[j]).1) && result@[j].0@.len() <= i64::MAX,
                pairs_sorted(result@),
                match last_key {
                    Option::None => result@.len() == 0,
                    Option::Some(lk) => result@.len() > 0
                        && lk@ == result@[result@.len() - 1].0@,
                },
                match ppairs(
                    inner.skip(self.position() - old(self).position() - 1),
                    match last_key {
                        Option::None => Option::None,
                        Option::Some(lk) => Option::Some(lk@),
                    },
                ) {
                    PRes::Val { n: m } => ppairs(inner, Option::None) == (PRes::Val {
                        n: (self.position() - old(self).position() - 1 + m) as nat,
                    }),
                    PRes::Fail { e } => ppairs(inner, Option::None) == (PRes::Fail { e }),
                },
            decreases self.src().len() - self.position(),
        {
            let ghost kk: int = self.position() - old(self).position() - 1;
            let ghost rnow = inner.skip(kk);
            let ghost prevspec: Option<Seq<u8>> = match &last_key {
                Option::None => Option::None,
                Option::Some(lk) => Option::Some(lk@),
            };
            let b = match self.peek_char_no_eof() {
                Ok(b) => b,
                Err(e) => {
                    proof {
                        assert(rnow.len() == 0);
                        assert(ppairs(rnow, prevspec) == (PRes::Fail { e: SpecErr::Eof }));
                    }
                    return Err(e);
                }
            };
            proof {
                assert(rnow.len() > 0 && rnow[0] == b);
            }
            if b == E_CHAR {
                let _ = self.next_char_no_eof();
                let out = BEValue::BEDict(result);
                proof {
                    assert(ppairs(rnow, prevspec) == (PRes::Val { n: 1nat }));
                    assert(ppairs(inner, Option::None) == (PRes::Val { n: (kk + 1) as nat }));
                    assert(pv(rem0) == (PRes::Val { n: (kk + 2) as nat }));
                    assert(out->BEDict_0@ == result@);
                    assert(spec_encode(out) == rem0.take(kk + 2)) by {
                        assert(rem0.take(kk + 2)
                            =~= seq![D_CHAR] + inner.take(kk) + seq![E_CHAR]);
                    }
                    assert(self.position() == old(self).position() + (kk + 2));
                }
                return Ok(out);
            }
            let pair = match self.read_pair(&last_key) {
                Ok(p) => p,
                Err(e) => {
                    return Err(e);
                }
            };
            let ghost c: int = self.position() - old(self).position() - 1 - kk;
            let (kb, vv) = pair;
            proof {
                assert(1 <= c <= rnow.len());
                assert(enc_str(kb@) + spec_encode(vv) == rnow.take(c));
            }
            last_key = Some(copy_bytes(&kb));
            let ghost pre = result@;
            let ghost kbv = kb@;
            let ghost vvv = vv;
            let ghost pairv = (kb, vv);
            result.push((kb, vv));
            proof {
                let s = result@;
                assert(s == pre.push(pairv));
                assert(s.take(s.len() - 1) =~= pre);
                assert(s.take(s.len() as int) =~= s);
                assert(s[s.len() - 1] == pairv);
                lemma_enc_pairs_snoc(s, s.len() - 1);
                assert(enc_pairs(s) == enc_pairs(pre) + enc_str(kbv) + spec_encode(vvv));
                assert(inner.take(kk + c) =~= inner.take(kk) + rnow.take(c));
                assert(enc_pairs(result@) == inner.take(kk + c));
                assert(pairs_sorted(s)) by {
                    assert(forall|j: int| 0 <= j < pre.len() - 1
                        ==> (#[trigger] s[j]).0@ == pre[j].0@ && s[j + 1].0@ == pre[j + 1].0@);
                    match prevspec {
                        Option::Some(p) => {
                            assert(pre.len() > 0 && p == pre[pre.len() - 1].0@);
                            assert(s[s.len() - 2].0@ == pre[pre.len() - 1].0@);
                            assert(lex_lt(s[s.len() - 2].0@, s[s.len() - 1].0@));
                        }
                        Option::None => {
                            assert(pre.len() == 0);
                        }
                    }
                }
                assert(self.remaining() =~= inner.skip(kk + c));
                assert(rnow.skip(c) =~= inner.skip(kk + c));
                let lk2 = match &last_key {
                    Option::None => Seq::<u8>::empty(),
                    Option::Some(lk) => lk@,
                };
                assert(lk2 == kbv);
                assert(s[s.len() - 1].0@ == kbv);
                match ppairs(inner.skip(kk + c), Option::Some(kbv)) {
                    PRes::Val { n: m } => {
                        assert(ppairs(rnow, prevspec) == (PRes::Val { n: (c + m) as nat }));
                        assert(ppairs(inner, Option::None)
                            == (PRes::Val { n: (kk + c + m) as nat }));
                    }
                    PRes::Fail { e } => {
                        assert(ppairs(rnow, prevspec) == (PRes::Fail { e }));
                        assert(ppairs(inner, Option::None) == (PRes::Fail { e }));
                    }
                }
            }
        }
    }
}

} // verus!
