//! The canonical wire form of a value, as a mathematical function.
//!
//! `spec_encode` maps a value tree to the unique byte sequence that the
//! wire grammar admits for it: integers as `i<digits>e`, byte strings
//! as `<len>:<bytes>`, lists as `l...e`, and dicts as `d...e` with keys
//! in strictly increasing byte-lexicographic order.  `wf` states when a
//! value has such a form at all and is reachable by the parser: dict
//! keys sorted, lengths within the signed 64-bit range the length
//! grammar can carry, and integers above `i64::MIN` (whose magnitude
//! the digit grammar cannot re-read).

use vstd::prelude::*;
use crate::digits::{
    dec_digits, lemma_dec_digits_props, COLON_CHAR, D_CHAR, E_CHAR, I_CHAR, L_CHAR, MINUS_SIGN,
    is_digit,
};
use crate::value::BEValue;

verus! {

broadcast use
    vstd::seq::axiom_seq_index_decreases,
    vstd::std_specs::vec::axiom_vec_index_decreases,
    vstd::std_specs::vec::axiom_vec_decreases_to_view;

/// Strict byte-lexicographic order on byte sequences, the order in
/// which dict keys must appear on the wire.
pub open spec fn lex_lt(a: Seq<u8>, b: Seq<u8>) -> bool
    decreases a.len(),
{
    if b.len() == 0 {
        false
    } else if a.len() == 0 {
        true
    } else if a[0] < b[0] {
        true
    } else if a[0] > b[0] {
        false
    } else {
        lex_lt(a.subrange(1, a.len() as int), b.subrange(1, b.len() as int))
    }
}

/// Adjacent keys of the pair sequence are strictly increasing.
pub open spec fn pairs_sorted(d: Seq<(Vec<u8>, BEValue)>) -> bool {
    forall|i: int| 0 <= i < d.len() - 1 ==> lex_lt(#[trigger] d[i].0@, d[i + 1].0@)
}

/// The value is well formed: it has a canonical wire form and the
/// streaming parser can produce it.
pub open spec fn wf(v: BEValue) -> bool
    decreases v,
{
    match v {
        BEValue::BEInteger(x) => x > i64::MIN,
        BEValue::BEString(s) => s@.len() <= i64::MAX,
        BEValue::BEList(l) => forall|i: int| 0 <= i < l@.len() ==> wf(#[trigger] l@[i]),
        BEValue::BEDict(d) => {
            &&& forall|i: int| 0 <= i < d@.len()
                ==> wf((#[trigger] d@[i]).1) && d@[i].0@.len() <= i64::MAX
            &&& pairs_sorted(d@)
        },
    }
}

pub open spec fn int_mag(x: int) -> nat {
    if x < 0 {
        (-x) as nat
    } else {
        x as nat
    }
}

/// The body of an encoded integer: an optional minus sign and the
/// canonical digits of the magnitude.
pub open spec fn enc_int_body(x: int) -> Seq<u8> {
    if x < 0 {
        seq![MINUS_SIGN] + dec_digits(int_mag(x))
    } else {
        dec_digits(int_mag(x))
    }
}

pub open spec fn enc_int(x: int) -> Seq<u8> {
    seq![I_CHAR] + enc_int_body(x) + seq![E_CHAR]
}

/// The wire form of a byte string: decimal length, colon, the bytes.
pub open spec fn enc_str(b: Seq<u8>) -> Seq<u8> {
    dec_digits(b.len()) + seq![COLON_CHAR] + b
}

/// The canonical wire form of a value.
pub open spec fn spec_encode(v: BEValue) -> Seq<u8>
    decreases v,
{
    match v {
        BEValue::BEInteger(x) => enc_int(x as int),
        BEValue::BEString(s) => enc_str(s@),
        BEValue::BEList(l) => seq![L_CHAR] + enc_items(l@) + seq![E_CHAR],
        BEValue::BEDict(d) => seq![D_CHAR] + enc_pairs(d@) + seq![E_CHAR],
    }
}

/// The concatenated wire forms of a sequence of values.
pub open spec fn enc_items(s: Seq<BEValue>) -> Seq<u8>
    decreases s,
{
    if s.len() == 0 {
        Seq::empty()
    } else {
        spec_encode(s[0]) + enc_items(s.subrange(1, s.len() as int))
    }
}

/// The concatenated wire forms of a sequence of key/value pairs.
pub open spec fn enc_pairs(s: Seq<(Vec<u8>, BEValue)>) -> Seq<u8>
    decreases s,
{
    if s.len() == 0 {
        Seq::empty()
    } else {
        enc_str(s[0].0@) + spec_encode(s[0].1) + enc_pairs(s.subrange(1, s.len() as int))
    }
}

pub proof fn lemma_enc_items_app(a: Seq<BEValue>, b: Seq<BEValue>)
    ensures
        enc_items(a + b) == enc_items(a) + enc_items(b),
    decreases a.len(),
{
    if a.len() == 0 {
        assert(a + b =~= b);
        assert(enc_items(a) =~= Seq::empty());
        assert(enc_items(a) + enc_items(b) =~= enc_items(b));
    } else {
        let s = a + b;
        assert(s.len() > 0 && s[0] == a[0]);
        assert(s.subrange(1, s.len() as int) =~= a.subrange(1, a.len() as int) + b);
        lemma_enc_items_app(a.subrange(1, a.len() as int), b);
        assert(enc_items(s) =~= enc_items(a) + enc_items(b));
    }
}

pub proof fn lemma_enc_items_snoc(s: Seq<BEValue>, i: int)
    requires
        0 <= i < s.len(),
    ensures
        enc_items(s.take(i + 1)) == enc_items(s.take(i)) + spec_encode(s[i]),
{
    lemma_enc_items_app(s.take(i), seq![s[i]]);
    assert(s.take(i + 1) =~= s.take(i) + seq![s[i]]);
    let u = seq![s[i]];
    assert(u.subrange(1, 1) =~= Seq::<BEValue>::empty());
    assert(enc_items(Seq::<BEValue>::empty()) =~= Seq::<u8>::empty());
    assert(enc_items(u) =~= spec_encode(s[i]));
}

pub proof fn lemma_enc_pairs_app(a: Seq<(Vec<u8>, BEValue)>, b: Seq<(Vec<u8>, BEValue)>)
    ensures
        enc_pairs(a + b) == enc_pairs(a) + enc_pairs(b),
    decreases a.len(),
{
    if a.len() == 0 {
        assert(a + b =~= b);
        assert(enc_pairs(a) =~= Seq::empty());
        assert(enc_pairs(a) + enc_pairs(b) =~= enc_pairs(b));
    } else {
        let s = a + b;
        assert(s.len() > 0 && s[0] == a[0]);
        assert(s.subrange(1, s.len() as int) =~= a.subrange(1, a.len() as int) + b);
        lemma_enc_pairs_app(a.subrange(1, a.len() as int), b);
        assert(enc_pairs(s) =~= enc_pairs(a) + enc_pairs(b));
    }
}

pub proof fn lemma_enc_pairs_snoc(s: Seq<(Vec<u8>, BEValue)>, i: int)
    requires
        0 <= i < s.len(),
    ensures
        enc_pairs(s.take(i + 1)) == enc_pairs(s.take(i)) + enc_str(s[i].0@)
            + spec_encode(s[i].1),
{
    lemma_enc_pairs_app(s.take(i), seq![s[i]]);
    assert(s.take(i + 1) =~= s.take(i) + seq![s[i]]);
    let u = seq![s[i]];
    assert(u.subrange(1, 1) =~= Seq::<(Vec<u8>, BEValue)>::empty());
    assert(enc_pairs(Seq::<(Vec<u8>, BEValue)>::empty()) =~= Seq::<u8>::empty());
    assert(enc_pairs(u) =~= enc_str(s[i].0@) + spec_encode(s[i].1));
}

/// Decides the strict byte-lexicographic order on two byte vectors.
#[verifier::loop_isolation(false)]
pub fn lex_lt_bytes(a: &Vec<u8>, b: &Vec<u8>) -> (r: bool)
    ensures
        r == lex_lt(a@, b@),
{
    let mut i: usize = 0;
    proof {
        assert(a@.skip(0) =~= a@);
        assert(b@.skip(0) =~= b@);
    }
    loop
        invariant
            0 <= i <= a@.len(),
            0 <= i <= b@.len(),
            lex_lt(a@, b@) == lex_lt(a@.skip(i as int), b@.skip(i as int)),
        decreases a@.len() - i,
    {
        if i >= b.len() {
            proof {
                assert(b@.skip(i as int).len() == 0);
            }
            return false;
        }
        if i >= a.len() {
            proof {
                assert(a@.skip(i as int).len() == 0 && b@.skip(i as int).len() > 0);
            }
            return true;
        }
        proof {
            assert(a@.skip(i as int)[0] == a@[i as int]);
            assert(b@.skip(i as int)[0] == b@[i as int]);
        }
        if a[i] < b[i] {
            return true;
        }
        if a[i] > b[i] {
            return false;
        }
        proof {
            let sa = a@.skip(i as int);
            let sb = b@.skip(i as int);
            assert(sa.subrange(1, sa.len() as int) =~= a@.skip(i + 1));
            assert(sb.subrange(1, sb.len() as int) =~= b@.skip(i + 1));
        }
        i = i + 1;
    }
}

/// The lexicographic order is total: two byte sequences compare one
/// way, the other, or are equal.
pub proof fn lemma_lex_total(a: Seq<u8>, b: Seq<u8>)
    ensures
        lex_lt(a, b) || lex_lt(b, a) || a == b,
    decreases a.len(),
{
    if b.len() == 0 {
        if a.len() == 0 {
            assert(a =~= b);
        }
    } else if a.len() == 0 {
    } else if a[0] == b[0] {
        let ta = a.subrange(1, a.len() as int);
        let tb = b.subrange(1, b.len() as int);
        lemma_lex_total(ta, tb);
        if !lex_lt(a, b) && !lex_lt(b, a) {
            assert(ta == tb);
            assert(a =~= b) by {
                assert(forall|i: int| 1 <= i < a.len() ==> a[i] == ta[i - 1]);
                assert(forall|i: int| 1 <= i < b.len() ==> b[i] == tb[i - 1]);
            }
        }
    }
}

/// The lexicographic order is strict: it never holds both ways, and
/// never of a sequence against itself.
pub proof fn lemma_lex_asym(a: Seq<u8>, b: Seq<u8>)
    requires
        lex_lt(a, b),
    ensures
        !lex_lt(b, a),
        a != b,
    decreases a.len(),
{
    if a.len() > 0 && b.len() > 0 && a[0] == b[0] {
        lemma_lex_asym(a.subrange(1, a.len() as int), b.subrange(1, b.len() as int));
        if a == b {
            assert(a.subrange(1, a.len() as int) =~= b.subrange(1, b.len() as int));
        }
    } else {
        if a == b {
            assert(a.len() == b.len());
        }
    }
}

/// Every encoding is nonempty and begins with the byte that the parser
/// dispatches on: a digit for strings, `i`, `l` or `d` otherwise.
pub proof fn lemma_spec_encode_first_byte(v: BEValue)
    ensures
        spec_encode(v).len() >= 2,
        v is BEInteger ==> spec_encode(v)[0] == I_CHAR,
        v is BEString ==> is_digit(spec_encode(v)[0]),
        v is BEList ==> spec_encode(v)[0] == L_CHAR,
        v is BEDict ==> spec_encode(v)[0] == D_CHAR,
        is_digit(spec_encode(v)[0]) || spec_encode(v)[0] == I_CHAR
            || spec_encode(v)[0] == L_CHAR || spec_encode(v)[0] == D_CHAR,
{
    match v {
        BEValue::BEInteger(x) => {
            lemma_dec_digits_props(int_mag(x as int));
        }
        BEValue::BEString(s) => {
            lemma_dec_digits_props(s@.len());
            assert(spec_encode(v)[0] == dec_digits(s@.len())[0]);
        }
        BEValue::BEList(_) => {}
        BEValue::BEDict(_) => {}
    }
}

} // verus!
