//! The laws that tie the codec's halves together.
//!
//! The central one is the round trip: the wire form of any well-formed
//! value parses back, wholly, and only to that value.  It splits into
//! completeness (the grammar accepts every canonical encoding) and
//! injectivity (no two well-formed values share a wire form), proved
//! here by mutual induction over the value tree; `lemma_parser_round_trip`
//! packages both.  The typed adapter's round-trip laws follow, one per
//! supported shape: integers of either sign within any target range,
//! booleans, byte strings, UTF-8 strings, and lists of each.

use vstd::prelude::*;
use crate::digits::{
    dec_digits, digit_run_len, digits_val, is_digit, lemma_dec_digits_props, lemma_digit_run_of,
    COLON_CHAR, D_CHAR, E_CHAR, I_CHAR, L_CHAR, MINUS_SIGN,
};
use crate::encoding::{
    enc_int, enc_int_body, enc_pairs, enc_str, enc_items, int_mag, lemma_spec_encode_first_byte,
    lex_lt, pairs_sorted, spec_encode, wf,
};
use crate::parse::{pitems, ppairs, pv, pv_int, pv_rawint, pv_str, pv_str_content, PRes, RawIntRes};
use crate::ser::{enc_int_items, enc_str_items};
use crate::tspec::{
    tp_any_int, tp_bytes, tp_decode_bool, tp_decode_bytes, tp_decode_int, tp_decode_int_list,
    tp_decode_str_list, tp_decode_string, tp_list_items_int, tp_list_items_str, tp_rawuint,
    tp_signed, tp_str, tp_unsigned, TBytesRes, TIntRes, TListRes, TStrListRes, TStrRes, TValRes,
};
use crate::value::{val_eq, BEValue};
use vstd::utf8::{decode_utf8, encode_utf8, valid_utf8};

verus! {

broadcast use
    vstd::seq::axiom_seq_index_decreases,
    vstd::std_specs::vec::axiom_vec_index_decreases,
    vstd::std_specs::vec::axiom_vec_decreases_to_view;

/// The digit grammar reads a canonically written integer body back to
/// its value, stopping exactly at its end.
proof fn lemma_pv_rawint_of(v: int, rest: Seq<u8>)
    requires
        i64::MIN < v <= i64::MAX,
        rest.len() > 0,
        !is_digit(rest[0]),
        rest[0] != MINUS_SIGN,
    ensures
        pv_rawint(enc_int_body(v) + rest)
            == (RawIntRes::RawOk { v, n: enc_int_body(v).len() as nat }),
{
    let mag = int_mag(v);
    lemma_dec_digits_props(mag);
    let d = dec_digits(mag);
    let s = enc_int_body(v) + rest;
    if v >= 0 {
        assert(s =~= d + rest);
        assert(is_digit(s[0]));
        assert(s[0] != MINUS_SIGN);
        lemma_digit_run_of(d, rest);
        assert(digit_run_len(s) == d.len());
        assert(s.take(d.len() as int) =~= d);
        assert(digits_val(d) == mag);
        assert(pv_rawint(s) == (RawIntRes::RawOk { v: mag as int, n: d.len() as nat }));
    } else {
        assert(s[0] == MINUS_SIGN);
        let t = s.subrange(1, s.len() as int);
        assert(t =~= d + rest);
        lemma_digit_run_of(d, rest);
        assert(digit_run_len(t) == d.len());
        assert(t.take(d.len() as int) =~= d);
        assert(digits_val(d) == mag);
        assert(mag > 0);
        assert(pv_rawint(s) == (RawIntRes::RawOk {
            v: -(mag as int),
            n: (d.len() + 1) as nat,
        }));
        assert(-(mag as int) == v);
        assert(enc_int_body(v).len() == d.len() + 1);
    }
}

/// The string grammar reads a canonically written string back,
/// stopping exactly at its end, with exactly its bytes as content.
proof fn lemma_pv_str_of(b: Seq<u8>, rest: Seq<u8>)
    requires
        b.len() <= i64::MAX,
    ensures
        pv_str(enc_str(b) + rest) == (PRes::Val { n: enc_str(b).len() as nat }),
        pv_str_content(enc_str(b) + rest) == b,
{
    let s = enc_str(b) + rest;
    let tail = seq![COLON_CHAR] + b + rest;
    assert(s =~= dec_digits(b.len()) + tail);
    assert(!is_digit(tail[0]) && tail[0] != MINUS_SIGN);
    assert(enc_int_body(b.len() as int) == dec_digits(b.len()));
    lemma_pv_rawint_of(b.len() as int, tail);
    let dn = dec_digits(b.len()).len() as int;
    assert(pv_rawint(s) == (RawIntRes::RawOk { v: b.len() as int, n: dn as nat }));
    let after = s.subrange(dn, s.len() as int);
    assert(after =~= tail);
    assert(after[0] == COLON_CHAR);
    assert(after.len() - 1 >= b.len());
    assert(pv_str(s) == (PRes::Val { n: (dn + 1 + b.len()) as nat }));
    assert(enc_str(b).len() == dn + 1 + b.len());
    assert(pv_str_content(s) =~= b);
}

/// Completeness: the grammar accepts the canonical wire form of any
/// well-formed value, consuming exactly its bytes.
proof fn lemma_pv_of_encoding(v: BEValue, rest: Seq<u8>)
    requires
        wf(v),
    ensures
        pv(spec_encode(v) + rest) == (PRes::Val { n: spec_encode(v).len() as nat }),
        (v is BEString ==> pv_str_content(spec_encode(v) + rest) == v->BEString_0@),
    decreases v, 0int,
{
    let s = spec_encode(v) + rest;
    lemma_spec_encode_first_byte(v);
    assert(s[0] == spec_encode(v)[0]);
    match v {
        BEValue::BEInteger(x) => {
            assert(s[0] == I_CHAR && !is_digit(s[0]));
            let inner = s.subrange(1, s.len() as int);
            assert(inner =~= enc_int_body(x as int) + (seq![E_CHAR] + rest));
            lemma_pv_rawint_of(x as int, seq![E_CHAR] + rest);
            let bn = enc_int_body(x as int).len() as int;
            let after = inner.subrange(bn, inner.len() as int);
            assert(after =~= seq![E_CHAR] + rest);
            assert(after[0] == E_CHAR);
            assert(pv_int(s) == (PRes::Val { n: (1 + bn + 1) as nat }));
            assert(spec_encode(v).len() == 1 + bn + 1);
        }
        BEValue::BEString(b) => {
            assert(is_digit(s[0]));
            assert(spec_encode(v) == enc_str(b@));
            lemma_pv_str_of(b@, rest);
            assert(enc_str(b@) + rest =~= s);
        }
        BEValue::BEList(l) => {
            assert(s[0] == L_CHAR && !is_digit(s[0]) && s[0] != I_CHAR);
            let body = s.subrange(1, s.len() as int);
            assert(body =~= enc_items(l@) + seq![E_CHAR] + rest);
            assert(forall|i: int| 0 <= i < l@.len() ==> wf(#[trigger] l@[i]));
            lemma_pitems_of_encoding(l@, rest);
            assert(pitems(body) == (PRes::Val { n: (enc_items(l@).len() + 1) as nat }));
            assert(pv(s) == (PRes::Val { n: (enc_items(l@).len() + 2) as nat }));
            assert(spec_encode(v).len() == enc_items(l@).len() + 2);
        }
        BEValue::BEDict(d) => {
            assert(s[0] == D_CHAR && !is_digit(s[0]) && s[0] != I_CHAR && s[0] != L_CHAR);
            let body = s.subrange(1, s.len() as int);
            assert(body =~= enc_pairs(d@) + seq![E_CHAR] + rest);
            lemma_ppairs_of_encoding(d@, Option::None, rest);
            assert(ppairs(body, Option::None)
                == (PRes::Val { n: (enc_pairs(d@).len() + 1) as nat }));
            assert(pv(s) == (PRes::Val { n: (enc_pairs(d@).len() + 2) as nat }));
            assert(spec_encode(v).len() == enc_pairs(d@).len() + 2);
        }
    }
}

/// Completeness for a list body: the items' encodings followed by the
/// closing `e` are accepted, consuming up to and including the `e`.
proof fn lemma_pitems_of_encoding(items: Seq<BEValue>, rest: Seq<u8>)
    requires
        forall|i: int| 0 <= i < items.len() ==> wf(#[trigger] items[i]),
    ensures
        pitems(enc_items(items) + seq![E_CHAR] + rest)
            == (PRes::Val { n: (enc_items(items).len() + 1) as nat }),
    decreases items, 1int,
{
    let s = enc_items(items) + seq![E_CHAR] + rest;
    if items.len() == 0 {
        assert(enc_items(items) =~= Seq::<u8>::empty());
        assert(s[0] == E_CHAR);
        assert(pitems(s) == (PRes::Val { n: 1nat }));
    } else {
        let h = items[0];
        let tl = items.subrange(1, items.len() as int);
        let hrest = enc_items(tl) + seq![E_CHAR] + rest;
        assert(s =~= spec_encode(h) + hrest);
        lemma_spec_encode_first_byte(h);
        assert(s[0] == spec_encode(h)[0]);
        assert(s[0] != E_CHAR);
        lemma_pv_of_encoding(h, hrest);
        let n0 = spec_encode(h).len() as int;
        assert(pv(s) == (PRes::Val { n: n0 as nat }));
        assert(1 <= n0 <= s.len());
        assert(s.subrange(n0, s.len() as int) =~= hrest);
        assert(forall|i: int| 0 <= i < tl.len() ==> wf(#[trigger] tl[i])) by {
            assert(forall|i: int| 0 <= i < tl.len() ==> tl[i] == items[i + 1]);
        }
        lemma_pitems_of_encoding(tl, rest);
        assert(pitems(hrest) == (PRes::Val { n: (enc_items(tl).len() + 1) as nat }));
        assert(pitems(s) == (PRes::Val { n: (n0 + enc_items(tl).len() + 1) as nat }));
        assert(enc_items(items).len() == n0 + enc_items(tl).len());
    }
}

/// Completeness for a dict body: sorted pairs' encodings followed by
/// the closing `e` are accepted, consuming up to and including the
/// `e`.
#[verifier::rlimit(100)]
#[verifier::spinoff_prover]
proof fn lemma_ppairs_of_encoding(
    pairs: Seq<(Vec<u8>, BEValue)>,
    prev: Option<Seq<u8>>,
    rest: Seq<u8>,
)
    requires
        forall|i: int| 0 <= i < pairs.len()
            ==> wf((#[trigger] pairs[i]).1) && pairs[i].0@.len() <= i64::MAX,
        pairs_sorted(pairs),
        prev matches Some(p) ==> (pairs.len() > 0 ==> lex_lt(p, pairs[0].0@)),
    ensures
        ppairs(enc_pairs(pairs) + seq![E_CHAR] + rest, prev)
            == (PRes::Val { n: (enc_pairs(pairs).len() + 1) as nat }),
    decreases pairs, 1int,
{
    let s = enc_pairs(pairs) + seq![E_CHAR] + rest;
    if pairs.len() == 0 {
        assert(enc_pairs(pairs) =~= Seq::<u8>::empty());
        assert(s[0] == E_CHAR);
        assert(ppairs(s, prev) == (PRes::Val { n: 1nat }));
    } else {
        let k0 = pairs[0].0;
        let v0 = pairs[0].1;
        let tl = pairs.subrange(1, pairs.len() as int);
        let vrest = spec_encode(v0) + enc_pairs(tl) + seq![E_CHAR] + rest;
        assert(s =~= enc_str(k0@) + vrest);
        lemma_dec_digits_props(k0@.len());
        assert(s[0] == dec_digits(k0@.len())[0]) by {
            assert(enc_str(k0@)[0] == dec_digits(k0@.len())[0]);
        }
        assert(is_digit(s[0]));
        assert(s[0] != E_CHAR);
        lemma_pv_str_of(k0@, vrest);
        assert(enc_str(k0@) + vrest =~= s);
        let kn = enc_str(k0@).len() as int;
        assert(pv(s) == (PRes::Val { n: kn as nat }));
        assert(pv_str_content(s) == k0@);
        assert(1 <= kn <= s.len());
        let after = s.subrange(kn, s.len() as int);
        assert(after =~= vrest);
        lemma_spec_encode_first_byte(v0);
        assert(after[0] == spec_encode(v0)[0]);
        assert(after[0] != E_CHAR);
        let prest = enc_pairs(tl) + seq![E_CHAR] + rest;
        assert(after =~= spec_encode(v0) + prest);
        lemma_pv_of_encoding(v0, prest);
        let vn = spec_encode(v0).len() as int;
        assert(pv(after) == (PRes::Val { n: vn as nat }));
        assert(1 <= vn <= after.len());
        match prev {
            Option::Some(p) => {
                assert(lex_lt(p, k0@));
            }
            Option::None => {}
        }
        assert(after.subrange(vn, after.len() as int) =~= prest);
        assert(forall|i: int| 0 <= i < tl.len()
            ==> wf((#[trigger] tl[i]).1) && tl[i].0@.len() <= i64::MAX) by {
            assert(forall|i: int| 0 <= i < tl.len() ==> tl[i] == pairs[i + 1]);
        }
        assert(pairs_sorted(tl)) by {
            assert(forall|i: int| 0 <= i < tl.len() ==> tl[i] == pairs[i + 1]);
        }
        assert(tl.len() > 0 ==> lex_lt(k0@, tl[0].0@)) by {
            if tl.len() > 0 {
                assert(tl[0] == pairs[1]);
                assert(lex_lt(pairs[0].0@, pairs[1].0@));
            }
        }
        lemma_ppairs_of_encoding(tl, Option::Some(k0@), rest);
        assert(ppairs(prest, Option::Some(k0@))
            == (PRes::Val { n: (enc_pairs(tl).len() + 1) as nat }));
        assert(ppairs(s, prev)
            == (PRes::Val { n: (kn + vn + enc_pairs(tl).len() + 1) as nat }));
        assert(enc_pairs(pairs).len() == kn + vn + enc_pairs(tl).len());
    }
}

/// No two canonically written integers share a wire body: equal
/// streams mean equal values and equal remainders.
proof fn lemma_enc_int_inj(v1: int, v2: int, x: Seq<u8>, y: Seq<u8>)
    requires
        i64::MIN < v1 <= i64::MAX,
        i64::MIN < v2 <= i64::MAX,
        enc_int(v1) + x == enc_int(v2) + y,
    ensures
        v1 == v2,
        x == y,
{
    let b1 = enc_int_body(v1);
    let b2 = enc_int_body(v2);
    let s = enc_int(v1) + x;
    lemma_dec_digits_props(int_mag(v1));
    lemma_dec_digits_props(int_mag(v2));
    assert(s =~= seq![I_CHAR] + b1 + seq![E_CHAR] + x);
    assert(s =~= seq![I_CHAR] + b2 + seq![E_CHAR] + y);
    assert(forall|j: int| 1 <= j < b1.len() ==> is_digit(#[trigger] b1[j]) && b1[j] != E_CHAR);
    assert(forall|j: int| 1 <= j < b2.len() ==> is_digit(#[trigger] b2[j]) && b2[j] != E_CHAR);
    assert(b1[0] != E_CHAR && b2[0] != E_CHAR);
    if b1.len() < b2.len() {
        assert(s[1 + b1.len() as int] == E_CHAR);
        assert(s[1 + b1.len() as int] == b2[b1.len() as int]);
        assert(false);
    }
    if b2.len() < b1.len() {
        assert(s[1 + b2.len() as int] == E_CHAR);
        assert(s[1 + b2.len() as int] == b1[b2.len() as int]);
        assert(false);
    }
    assert(b1.len() == b2.len());
    assert(b1 =~= b2) by {
        assert(forall|j: int| 0 <= j < b1.len() ==> b1[j] == s[1 + j] && b2[j] == s[1 + j]);
    }
    let neg1 = v1 < 0;
    let neg2 = v2 < 0;
    assert(neg1 == neg2) by {
        assert(b1[0] == if neg1 { MINUS_SIGN } else { dec_digits(int_mag(v1))[0] });
        assert(b2[0] == if neg2 { MINUS_SIGN } else { dec_digits(int_mag(v2))[0] });
        if neg1 != neg2 {
            assert(is_digit(MINUS_SIGN));
        }
    }
    let d1 = dec_digits(int_mag(v1));
    let d2 = dec_digits(int_mag(v2));
    assert(d1 =~= d2) by {
        if neg1 {
            assert(forall|j: int| 0 <= j < d1.len() ==> d1[j] == b1[1 + j] && d2[j] == b2[1 + j]);
        } else {
            assert(forall|j: int| 0 <= j < d1.len() ==> d1[j] == b1[j] && d2[j] == b2[j]);
        }
    }
    assert(int_mag(v1) == int_mag(v2)) by {
        assert(digits_val(d1) == int_mag(v1));
        assert(digits_val(d2) == int_mag(v2));
    }
    assert(v1 == v2);
    assert(x =~= y) by {
        assert(x.len() == y.len());
        assert(forall|j: int| 0 <= j < x.len()
            ==> x[j] == s[2 + b1.len() + j] && y[j] == s[2 + b1.len() + j]);
    }
}

/// No two byte strings share a wire form: equal streams mean equal
/// bytes and equal remainders.
proof fn lemma_enc_str_inj(a: Seq<u8>, b: Seq<u8>, x: Seq<u8>, y: Seq<u8>)
    requires
        enc_str(a) + x == enc_str(b) + y,
    ensures
        a == b,
        x == y,
{
    let s = enc_str(a) + x;
    let da = dec_digits(a.len());
    let db = dec_digits(b.len());
    lemma_dec_digits_props(a.len());
    lemma_dec_digits_props(b.len());
    assert(s =~= da + (seq![COLON_CHAR] + a + x));
    assert(s =~= db + (seq![COLON_CHAR] + b + y));
    lemma_digit_run_of(da, seq![COLON_CHAR] + a + x);
    lemma_digit_run_of(db, seq![COLON_CHAR] + b + y);
    assert(da.len() == digit_run_len(s) && db.len() == digit_run_len(s));
    assert(da =~= db) by {
        assert(forall|j: int| 0 <= j < da.len() ==> da[j] == s[j] && db[j] == s[j]);
    }
    assert(a.len() == b.len()) by {
        assert(digits_val(da) == a.len());
        assert(digits_val(db) == b.len());
    }
    assert(a =~= b) by {
        assert(forall|j: int| 0 <= j < a.len()
            ==> a[j] == s[da.len() + 1 + j] && b[j] == s[da.len() + 1 + j]);
    }
    assert(x =~= y) by {
        assert(x.len() == y.len());
        assert(forall|j: int| 0 <= j < x.len()
            ==> x[j] == s[da.len() + 1 + a.len() + j] && y[j] == s[da.len() + 1 + a.len() + j]);
    }
}

/// Injectivity: no two well-formed values share a wire form.  Equal
/// streams mean structurally equal values and equal remainders.
#[verifier::rlimit(100)]
#[verifier::spinoff_prover]
proof fn lemma_encode_inj(a: BEValue, b: BEValue, x: Seq<u8>, y: Seq<u8>)
    requires
        wf(a),
        wf(b),
        spec_encode(a) + x == spec_encode(b) + y,
    ensures
        val_eq(a, b),
        x == y,
    decreases a, 0int,
{
    let s = spec_encode(a) + x;
    lemma_spec_encode_first_byte(a);
    lemma_spec_encode_first_byte(b);
    assert(s[0] == spec_encode(a)[0] && s[0] == spec_encode(b)[0]);
    match (a, b) {
        (BEValue::BEInteger(x1), BEValue::BEInteger(x2)) => {
            lemma_enc_int_inj(x1 as int, x2 as int, x, y);
        }
        (BEValue::BEString(s1), BEValue::BEString(s2)) => {
            lemma_enc_str_inj(s1@, s2@, x, y);
        }
        (BEValue::BEList(l1), BEValue::BEList(l2)) => {
            assert(enc_items(l1@) + (seq![E_CHAR] + x) =~= enc_items(l2@) + (seq![E_CHAR] + y)) by {
                let t1 = enc_items(l1@) + (seq![E_CHAR] + x);
                let t2 = enc_items(l2@) + (seq![E_CHAR] + y);
                assert(t1.len() == s.len() - 1 && t2.len() == s.len() - 1);
                assert(forall|j: int| 0 <= j < t1.len() ==> t1[j] == s[j + 1] && t2[j] == s[j + 1]);
            }
            lemma_items_inj(l1@, l2@, x, y);
        }
        (BEValue::BEDict(d1), BEValue::BEDict(d2)) => {
            assert(enc_pairs(d1@) + (seq![E_CHAR] + x) =~= enc_pairs(d2@) + (seq![E_CHAR] + y)) by {
                let t1 = enc_pairs(d1@) + (seq![E_CHAR] + x);
                let t2 = enc_pairs(d2@) + (seq![E_CHAR] + y);
                assert(t1.len() == s.len() - 1 && t2.len() == s.len() - 1);
                assert(forall|j: int| 0 <= j < t1.len() ==> t1[j] == s[j + 1] && t2[j] == s[j + 1]);
            }
            lemma_pairs_inj(d1@, d2@, x, y);
        }
        _ => {
            assert(false);
        }
    }
}

/// Injectivity for list bodies, element by element.
#[verifier::rlimit(100)]
#[verifier::spinoff_prover]
proof fn lemma_items_inj(s1: Seq<BEValue>, s2: Seq<BEValue>, x: Seq<u8>, y: Seq<u8>)
    requires
        forall|i: int| 0 <= i < s1.len() ==> wf(#[trigger] s1[i]),
        forall|i: int| 0 <= i < s2.len() ==> wf(#[trigger] s2[i]),
        enc_items(s1) + (seq![E_CHAR] + x) == enc_items(s2) + (seq![E_CHAR] + y),
    ensures
        s1.len() == s2.len(),
        forall|i: int| 0 <= i < s1.len() ==> val_eq(#[trigger] s1[i], s2[i]),
        x == y,
    decreases s1, 1int,
{
    let s = enc_items(s1) + (seq![E_CHAR] + x);
    if s1.len() == 0 && s2.len() == 0 {
        assert(enc_items(s1) =~= Seq::<u8>::empty());
        assert(enc_items(s2) =~= Seq::<u8>::empty());
        assert(x =~= y) by {
            assert(x.len() == y.len());
            assert(forall|j: int| 0 <= j < x.len() ==> x[j] == s[j + 1] && y[j] == s[j + 1]);
        }
    } else if s1.len() == 0 {
        assert(enc_items(s1) =~= Seq::<u8>::empty());
        assert(s[0] == E_CHAR);
        lemma_spec_encode_first_byte(s2[0]);
        assert(s[0] == spec_encode(s2[0])[0]) by {
            assert(enc_items(s2)[0] == spec_encode(s2[0])[0]);
        }
        assert(false);
    } else if s2.len() == 0 {
        assert(enc_items(s2) =~= Seq::<u8>::empty());
        assert(s[0] == E_CHAR);
        lemma_spec_encode_first_byte(s1[0]);
        assert(s[0] == spec_encode(s1[0])[0]) by {
            assert(enc_items(s1)[0] == spec_encode(s1[0])[0]);
        }
        assert(false);
    } else {
        let t1 = s1.subrange(1, s1.len() as int);
        let t2 = s2.subrange(1, s2.len() as int);
        let r1 = enc_items(t1) + (seq![E_CHAR] + x);
        let r2 = enc_items(t2) + (seq![E_CHAR] + y);
        assert(spec_encode(s1[0]) + r1 =~= s);
        assert(spec_encode(s2[0]) + r2 =~= s);
        lemma_encode_inj(s1[0], s2[0], r1, r2);
        assert(forall|i: int| 0 <= i < t1.len() ==> wf(#[trigger] t1[i])) by {
            assert(forall|i: int| 0 <= i < t1.len() ==> t1[i] == s1[i + 1]);
        }
        assert(forall|i: int| 0 <= i < t2.len() ==> wf(#[trigger] t2[i])) by {
            assert(forall|i: int| 0 <= i < t2.len() ==> t2[i] == s2[i + 1]);
        }
        lemma_items_inj(t1, t2, x, y);
        assert(s1.len() == s2.len());
        assert(forall|i: int| 0 <= i < s1.len() ==> val_eq(#[trigger] s1[i], s2[i])) by {
            assert(forall|i: int| 1 <= i < s1.len()
                ==> s1[i] == t1[i - 1] && s2[i] == t2[i - 1]);
            assert(forall|i: int| 0 <= i < t1.len() ==> val_eq(#[trigger] t1[i], t2[i]));
            assert(val_eq(s1[0], s2[0]));
        }
    }
}

/// Injectivity for dict bodies, pair by pair.
#[verifier::rlimit(100)]
#[verifier::spinoff_prover]
proof fn lemma_pairs_inj(
    s1: Seq<(Vec<u8>, BEValue)>,
    s2: Seq<(Vec<u8>, BEValue)>,
    x: Seq<u8>,
    y: Seq<u8>,
)
    requires
        forall|i: int| 0 <= i < s1.len() ==> wf((#[trigger] s1[i]).1),
        forall|i: int| 0 <= i < s2.len() ==> wf((#[trigger] s2[i]).1),
        enc_pairs(s1) + (seq![E_CHAR] + x) == enc_pairs(s2) + (seq![E_CHAR] + y),
    ensures
        s1.len() == s2.len(),
        forall|i: int| 0 <= i < s1.len()
            ==> (#[trigger] s1[i]).0@ == s2[i].0@ && val_eq(s1[i].1, s2[i].1),
        x == y,
    decreases s1, 1int,
{
    let s = enc_pairs(s1) + (seq![E_CHAR] + x);
    if s1.len() == 0 && s2.len() == 0 {
        assert(enc_pairs(s1) =~= Seq::<u8>::empty());
        assert(enc_pairs(s2) =~= Seq::<u8>::empty());
        assert(x =~= y) by {
            assert(x.len() == y.len());
            assert(forall|j: int| 0 <= j < x.len() ==> x[j] == s[j + 1] && y[j] == s[j + 1]);
        }
    } else if s1.len() == 0 {
        assert(enc_pairs(s1) =~= Seq::<u8>::empty());
        assert(s[0] == E_CHAR);
        lemma_dec_digits_props(s2[0].0@.len());
        assert(s[0] == dec_digits(s2[0].0@.len())[0]) by {
            assert(enc_pairs(s2)[0] == enc_str(s2[0].0@)[0]);
            assert(enc_str(s2[0].0@)[0] == dec_digits(s2[0].0@.len())[0]);
        }
        assert(false);
    } else if s2.len() == 0 {
        assert(enc_pairs(s2) =~= Seq::<u8>::empty());
        assert(s[0] == E_CHAR);
        lemma_dec_digits_props(s1[0].0@.len());
        assert(s[0] == dec_digits(s1[0].0@.len())[0]) by {
            assert(enc_pairs(s1)[0] == enc_str(s1[0].0@)[0]);
            assert(enc_str(s1[0].0@)[0] == dec_digits(s1[0].0@.len())[0]);
        }
        assert(false);
    } else {
        let t1 = s1.subrange(1, s1.len() as int);
        let t2 = s2.subrange(1, s2.len() as int);
        let v1 = spec_encode(s1[0].1) + enc_pairs(t1) + (seq![E_CHAR] + x);
        let v2 = spec_encode(s2[0].1) + enc_pairs(t2) + (seq![E_CHAR] + y);
        assert(enc_str(s1[0].0@) + v1 =~= s);
        assert(enc_str(s2[0].0@) + v2 =~= s);
        lemma_enc_str_inj(s1[0].0@, s2[0].0@, v1, v2);
        let r1 = enc_pairs(t1) + (seq![E_CHAR] + x);
        let r2 = enc_pairs(t2) + (seq![E_CHAR] + y);
        assert(spec_encode(s1[0].1) + r1 =~= v1);
        assert(spec_encode(s2[0].1) + r2 =~= v2);
        lemma_encode_inj(s1[0].1, s2[0].1, r1, r2);
        assert(forall|i: int| 0 <= i < t1.len() ==> wf((#[trigger] t1[i]).1)) by {
            assert(forall|i: int| 0 <= i < t1.len() ==> t1[i] == s1[i + 1]);
        }
        assert(forall|i: int| 0 <= i < t2.len() ==> wf((#[trigger] t2[i]).1)) by {
            assert(forall|i: int| 0 <= i < t2.len() ==> t2[i] == s2[i + 1]);
        }
        lemma_pairs_inj(t1, t2, x, y);
        assert(s1.len() == s2.len());
        assert(forall|i: int| 0 <= i < s1.len()
            ==> (#[trigger] s1[i]).0@ == s2[i].0@ && val_eq(s1[i].1, s2[i].1)) by {
            assert(forall|i: int| 1 <= i < s1.len()
                ==> s1[i] == t1[i - 1] && s2[i] == t2[i - 1]);
            assert(forall|i: int| 0 <= i < t1.len()
                ==> (#[trigger] t1[i]).0@ == t2[i].0@ && val_eq(t1[i].1, t2[i].1));
        }
    }
}

/// Round trip of the value model through the wire: the canonical form
/// of a well-formed value is accepted by the grammar, wholly, and any
/// well-formed value whose wire form is the same is structurally the
/// same value.  With the parser's and encoder's contracts this gives:
/// re-parsing the encoder's output of a parsed value yields an equal
/// value.
pub proof fn lemma_parser_round_trip(v: BEValue)
    requires
        wf(v),
    ensures
        pv(spec_encode(v)) == (PRes::Val { n: spec_encode(v).len() as nat }),
        forall|w: BEValue| wf(w) && #[trigger] spec_encode(w) == spec_encode(v)
            ==> val_eq(w, v),
{
    assert(spec_encode(v) + Seq::<u8>::empty() =~= spec_encode(v));
    lemma_pv_of_encoding(v, Seq::<u8>::empty());
    assert forall|w: BEValue| wf(w) && spec_encode(w) == spec_encode(v)
        implies val_eq(w, v) by {
        assert(spec_encode(w) + Seq::<u8>::empty() =~= spec_encode(v) + Seq::<u8>::empty());
        lemma_encode_inj(w, v, Seq::<u8>::empty(), Seq::<u8>::empty());
    }
}

/// The typed digit scanner reads a canonically written magnitude back
/// to its value, stopping exactly at its end.
proof fn lemma_tp_rawuint_of(m: int, rest: Seq<u8>)
    requires
        0 <= m <= u64::MAX,
        rest.len() > 0,
        !is_digit(rest[0]),
    ensures
        tp_rawuint(dec_digits(m as nat) + rest)
            == (TIntRes::IntOk { v: m, n: dec_digits(m as nat).len() as nat }),
{
    lemma_dec_digits_props(m as nat);
    let d = dec_digits(m as nat);
    let s = d + rest;
    lemma_digit_run_of(d, rest);
    assert(digit_run_len(s) == d.len());
    assert(s.take(d.len() as int) =~= d);
    assert(digits_val(d) == m);
}

/// The typed unsigned form reads a canonically written non-negative
/// integer back, stopping exactly at its end.
proof fn lemma_tp_unsigned_of(v: int, rest: Seq<u8>)
    requires
        0 <= v <= u64::MAX,
    ensures
        tp_unsigned(enc_int(v) + rest) == (TIntRes::IntOk { v, n: enc_int(v).len() as nat }),
{
    let s = enc_int(v) + rest;
    lemma_dec_digits_props(v as nat);
    assert(s[0] == I_CHAR);
    assert(s[0] != MINUS_SIGN);
    let inner = s.subrange(1, s.len() as int);
    assert(int_mag(v) == v as nat);
    assert(inner =~= dec_digits(v as nat) + (seq![E_CHAR] + rest));
    lemma_tp_rawuint_of(v, seq![E_CHAR] + rest);
    let dn = dec_digits(v as nat).len() as int;
    let after = s.subrange(1 + dn, s.len() as int);
    assert(after =~= seq![E_CHAR] + rest);
    assert(after[0] == E_CHAR);
    assert(enc_int(v).len() == 1 + dn + 1);
}

/// The typed signed form reads a canonically written negative integer
/// back, stopping exactly at its end.
proof fn lemma_tp_signed_of_neg(v: int, rest: Seq<u8>)
    requires
        i64::MIN <= v < 0,
    ensures
        tp_signed(enc_int(v) + rest) == (TIntRes::IntOk { v, n: enc_int(v).len() as nat }),
{
    let s = enc_int(v) + rest;
    let mag = int_mag(v);
    lemma_dec_digits_props(mag);
    assert(s[0] == I_CHAR);
    let t = s.subrange(1, s.len() as int);
    assert(t =~= seq![MINUS_SIGN] + dec_digits(mag) + (seq![E_CHAR] + rest));
    assert(t[0] == MINUS_SIGN);
    let t2 = t.subrange(1, t.len() as int);
    assert(t2 =~= dec_digits(mag) + (seq![E_CHAR] + rest));
    assert(mag <= u64::MAX);
    lemma_tp_rawuint_of(mag as int, seq![E_CHAR] + rest);
    let dn = dec_digits(mag).len() as int;
    let after = t2.subrange(dn, t2.len() as int);
    assert(after =~= seq![E_CHAR] + rest);
    assert(after[0] == E_CHAR);
    assert(-(mag as int) == v);
    assert(enc_int(v).len() == 1 + 1 + dn + 1);
}

/// The typed dispatch reads any canonically written integer back,
/// stopping exactly at its end.
proof fn lemma_tp_any_int_of(v: int, rest: Seq<u8>)
    requires
        i64::MIN <= v <= u64::MAX,
    ensures
        tp_any_int(enc_int(v) + rest) == (TIntRes::IntOk { v, n: enc_int(v).len() as nat }),
{
    let s = enc_int(v) + rest;
    lemma_dec_digits_props(int_mag(v));
    assert(s[0] == I_CHAR);
    if v < 0 {
        assert(s[1] == MINUS_SIGN);
        lemma_tp_signed_of_neg(v, rest);
    } else {
        assert(s[1] == dec_digits(int_mag(v))[0]);
        assert(is_digit(s[1]) && s[1] != MINUS_SIGN);
        lemma_tp_unsigned_of(v, rest);
    }
}

/// The typed byte-string form reads a canonically written string back,
/// stopping exactly at its end.
proof fn lemma_tp_bytes_of(b: Seq<u8>, rest: Seq<u8>)
    requires
        b.len() <= u64::MAX,
    ensures
        tp_bytes(enc_str(b) + rest)
            == (TBytesRes::BytesOk { b, n: enc_str(b).len() as nat }),
{
    let s = enc_str(b) + rest;
    let tail = seq![COLON_CHAR] + b + rest;
    assert(s =~= dec_digits(b.len()) + tail);
    assert(!is_digit(tail[0]));
    lemma_tp_rawuint_of(b.len() as int, tail);
    let dn = dec_digits(b.len()).len() as int;
    let after = s.subrange(dn, s.len() as int);
    assert(after =~= tail);
    assert(after[0] == COLON_CHAR);
    let body = after.subrange(1, after.len() as int);
    assert(body =~= b + rest);
    assert(body.len() >= b.len());
    assert(body.take(b.len() as int) =~= b);
    assert(enc_str(b).len() == dn + 1 + b.len());
}

/// The typed text form reads a string's UTF-8 back to its characters.
proof fn lemma_tp_str_of(b: Seq<u8>, rest: Seq<u8>)
    requires
        b.len() <= u64::MAX,
        valid_utf8(b),
    ensures
        tp_str(enc_str(b) + rest)
            == (TStrRes::StrOk { t: decode_utf8(b), n: enc_str(b).len() as nat }),
{
    lemma_tp_bytes_of(b, rest);
}

/// Typed round trip for integer targets: a value within the target's
/// range decodes back from its own wire form, whatever the range
/// `[lo, hi]` and however the target is named.
pub proof fn lemma_typed_int_round_trip(v: int, lo: int, hi: int, target: Seq<char>)
    requires
        lo <= v <= hi,
        i64::MIN as int <= lo,
        hi <= u64::MAX as int,
    ensures
        tp_decode_int(enc_int(v), lo, hi, target) == (TValRes::ValOk { v }),
{
    assert(enc_int(v) + Seq::<u8>::empty() =~= enc_int(v));
    lemma_tp_any_int_of(v, Seq::<u8>::empty());
}

/// Typed round trip for booleans: `true` and `false` decode back from
/// their own wire forms.
pub proof fn lemma_typed_bool_round_trip(b: bool)
    ensures
        tp_decode_bool(enc_int(if b { 1int } else { 0int }))
            == (TValRes::ValOk { v: if b { 1int } else { 0int } }),
{
    let v: int = if b { 1int } else { 0int };
    assert(enc_int(v) + Seq::<u8>::empty() =~= enc_int(v));
    lemma_tp_unsigned_of(v, Seq::<u8>::empty());
}

/// Typed round trip for byte strings.
pub proof fn lemma_typed_bytes_round_trip(b: Seq<u8>)
    requires
        b.len() <= u64::MAX,
    ensures
        tp_decode_bytes(enc_str(b)) == (TBytesRes::BytesOk { b, n: enc_str(b).len() as nat }),
{
    assert(enc_str(b) + Seq::<u8>::empty() =~= enc_str(b));
    lemma_tp_bytes_of(b, Seq::<u8>::empty());
}

/// Typed round trip for UTF-8 strings: a string's characters decode
/// back from the wire form of their UTF-8 bytes.
pub proof fn lemma_typed_string_round_trip(t: Seq<char>)
    requires
        encode_utf8(t).len() <= u64::MAX,
    ensures
        tp_decode_string(enc_str(encode_utf8(t)))
            == (TStrRes::StrOk { t, n: enc_str(encode_utf8(t)).len() as nat }),
{
    vstd::utf8::encode_utf8_valid_utf8(t);
    vstd::utf8::encode_utf8_decode_utf8(t);
    assert(enc_str(encode_utf8(t)) + Seq::<u8>::empty() =~= enc_str(encode_utf8(t)));
    lemma_tp_str_of(encode_utf8(t), Seq::<u8>::empty());
}

/// A list body of canonically written integers reads back element by
/// element, stopping at the closing `e` without consuming it.
proof fn lemma_tp_list_items_int_of(
    vs: Seq<int>,
    lo: int,
    hi: int,
    target: Seq<char>,
    rest: Seq<u8>,
)
    requires
        forall|i: int| 0 <= i < vs.len() ==> lo <= #[trigger] vs[i] <= hi,
        i64::MIN as int <= lo,
        hi <= u64::MAX as int,
        rest.len() > 0,
        rest[0] == E_CHAR,
    ensures
        tp_list_items_int(enc_int_items(vs) + rest, lo, hi, target)
            == (TListRes::ListOk { vals: vs, n: enc_int_items(vs).len() as nat }),
    decreases vs.len(),
{
    let s = enc_int_items(vs) + rest;
    if vs.len() == 0 {
        assert(enc_int_items(vs) =~= Seq::<u8>::empty());
        assert(s[0] == E_CHAR);
        assert(tp_list_items_int(s, lo, hi, target)
            == (TListRes::ListOk { vals: Seq::<int>::empty(), n: 0nat }));
        assert(Seq::<int>::empty() =~= vs);
    } else {
        let v0 = vs[0];
        let tl = vs.subrange(1, vs.len() as int);
        let hrest = enc_int_items(tl) + rest;
        assert(s =~= enc_int(v0) + hrest);
        lemma_dec_digits_props(int_mag(v0));
        assert(s[0] == I_CHAR);
        assert(s[0] != E_CHAR);
        lemma_tp_any_int_of(v0, hrest);
        let n0 = enc_int(v0).len() as int;
        assert(tp_any_int(s) == (TIntRes::IntOk { v: v0, n: n0 as nat }));
        assert(1 <= n0 <= s.len());
        assert(s.subrange(n0, s.len() as int) =~= hrest);
        assert(forall|i: int| 0 <= i < tl.len() ==> lo <= #[trigger] tl[i] <= hi) by {
            assert(forall|i: int| 0 <= i < tl.len() ==> tl[i] == vs[i + 1]);
        }
        lemma_tp_list_items_int_of(tl, lo, hi, target, rest);
        assert(tp_list_items_int(hrest, lo, hi, target)
            == (TListRes::ListOk { vals: tl, n: enc_int_items(tl).len() as nat }));
        assert(seq![v0] + tl =~= vs);
        assert(enc_int_items(vs).len() == n0 + enc_int_items(tl).len());
    }
}

/// Typed round trip for lists of integers: a list of values within the
/// target's range decodes back from its own wire form.
pub proof fn lemma_typed_int_list_round_trip(vs: Seq<int>, lo: int, hi: int, target: Seq<char>)
    requires
        forall|i: int| 0 <= i < vs.len() ==> lo <= #[trigger] vs[i] <= hi,
        i64::MIN as int <= lo,
        hi <= u64::MAX as int,
    ensures
        tp_decode_int_list(seq![L_CHAR] + enc_int_items(vs) + seq![E_CHAR], lo, hi, target)
            == (TListRes::ListOk { vals: vs, n: (enc_int_items(vs).len() + 2) as nat }),
{
    let s = seq![L_CHAR] + enc_int_items(vs) + seq![E_CHAR];
    assert(s[0] == L_CHAR);
    let body = s.subrange(1, s.len() as int);
    assert(body =~= enc_int_items(vs) + seq![E_CHAR]);
    lemma_tp_list_items_int_of(vs, lo, hi, target, seq![E_CHAR]);
    let n = enc_int_items(vs).len() as int;
    assert(tp_list_items_int(body, lo, hi, target)
        == (TListRes::ListOk { vals: vs, n: n as nat }));
    let r2 = s.subrange(1 + n, s.len() as int);
    assert(r2 =~= seq![E_CHAR]);
    assert(r2[0] == E_CHAR);
    assert(!(1 + n + 1 < s.len()));
}

/// A list body of canonically written strings reads back element by
/// element, stopping at the closing `e` without consuming it.
proof fn lemma_tp_list_items_str_of(ts: Seq<Seq<char>>, rest: Seq<u8>)
    requires
        forall|i: int| 0 <= i < ts.len()
            ==> encode_utf8(#[trigger] ts[i]).len() <= u64::MAX,
        rest.len() > 0,
        rest[0] == E_CHAR,
    ensures
        tp_list_items_str(enc_str_items(ts.map_values(|t: Seq<char>| encode_utf8(t))) + rest)
            == (TStrListRes::StrListOk {
                vals: ts,
                n: enc_str_items(ts.map_values(|t: Seq<char>| encode_utf8(t))).len() as nat,
            }),
    decreases ts.len(),
{
    let bss = ts.map_values(|t: Seq<char>| encode_utf8(t));
    let s = enc_str_items(bss) + rest;
    if ts.len() == 0 {
        assert(bss.len() == 0);
        assert(enc_str_items(bss) =~= Seq::<u8>::empty());
        assert(s[0] == E_CHAR);
        assert(tp_list_items_str(s)
            == (TStrListRes::StrListOk { vals: Seq::<Seq<char>>::empty(), n: 0nat }));
        assert(Seq::<Seq<char>>::empty() =~= ts);
    } else {
        let b0 = bss[0];
        let tl = ts.subrange(1, ts.len() as int);
        let btl = bss.subrange(1, bss.len() as int);
        assert(btl =~= tl.map_values(|t: Seq<char>| encode_utf8(t))) by {
            assert(forall|i: int| 0 <= i < btl.len() ==> btl[i] == bss[i + 1]);
            assert(forall|i: int| 0 <= i < tl.len() ==> tl[i] == ts[i + 1]);
        }
        let hrest = enc_str_items(btl) + rest;
        assert(s =~= enc_str(b0) + hrest);
        lemma_dec_digits_props(b0.len());
        assert(s[0] == dec_digits(b0.len())[0]) by {
            assert(enc_str(b0)[0] == dec_digits(b0.len())[0]);
        }
        assert(is_digit(s[0]) && s[0] != E_CHAR);
        vstd::utf8::encode_utf8_valid_utf8(ts[0]);
        vstd::utf8::encode_utf8_decode_utf8(ts[0]);
        lemma_tp_str_of(b0, hrest);
        assert(enc_str(b0) + hrest =~= s);
        let n0 = enc_str(b0).len() as int;
        assert(tp_str(s) == (TStrRes::StrOk { t: ts[0], n: n0 as nat }));
        assert(1 <= n0 <= s.len());
        assert(s.subrange(n0, s.len() as int) =~= hrest);
        assert(forall|i: int| 0 <= i < tl.len()
            ==> encode_utf8(#[trigger] tl[i]).len() <= u64::MAX) by {
            assert(forall|i: int| 0 <= i < tl.len() ==> tl[i] == ts[i + 1]);
        }
        lemma_tp_list_items_str_of(tl, rest);
        assert(tp_list_items_str(hrest)
            == (TStrListRes::StrListOk { vals: tl, n: enc_str_items(btl).len() as nat }));
        assert(seq![ts[0]] + tl =~= ts);
        assert(enc_str_items(bss).len() == n0 + enc_str_items(btl).len());
    }
}

/// Typed round trip for lists of strings: a list of strings decodes
/// back from the wire form of its UTF-8 bytes.
pub proof fn lemma_typed_str_list_round_trip(ts: Seq<Seq<char>>)
    requires
        forall|i: int| 0 <= i < ts.len()
            ==> encode_utf8(#[trigger] ts[i]).len() <= u64::MAX,
    ensures
        tp_decode_str_list(
            seq![L_CHAR] + enc_str_items(ts.map_values(|t: Seq<char>| encode_utf8(t)))
                + seq![E_CHAR],
        ) == (TStrListRes::StrListOk {
            vals: ts,
            n: (enc_str_items(ts.map_values(|t: Seq<char>| encode_utf8(t))).len() + 2) as nat,
        }),
{
    let bss = ts.map_values(|t: Seq<char>| encode_utf8(t));
    let s = seq![L_CHAR] + enc_str_items(bss) + seq![E_CHAR];
    assert(s[0] == L_CHAR);
    let body = s.subrange(1, s.len() as int);
    assert(body =~= enc_str_items(bss) + seq![E_CHAR]);
    lemma_tp_list_items_str_of(ts, seq![E_CHAR]);
    let n = enc_str_items(bss).len() as int;
    assert(tp_list_items_str(body) == (TStrListRes::StrListOk { vals: ts, n: n as nat }));
    let r2 = s.subrange(1 + n, s.len() as int);
    assert(r2 =~= seq![E_CHAR]);
    assert(r2[0] == E_CHAR);
    assert(!(1 + n + 1 < s.len()));
}

} // verus!
