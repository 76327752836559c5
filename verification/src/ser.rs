//! The typed adapter's encode side: a byte sink with the primitive
//! writers, and the record builder that realizes field-order
//! independence.
//!
//! `Serializer` appends the wire form of each written value to its
//! buffer.  `SerializeStruct` collects a record's fields with their
//! pre-serialized bytes, keeping them sorted by key as they arrive, so
//! that closing the record emits the dict in byte-lexicographic key
//! order whatever the declaration order was; a field whose serialized
//! form is empty (an absent optional value) is left out entirely.

use vstd::prelude::*;
use crate::digits::{push_decimal_u64, COLON_CHAR, D_CHAR, E_CHAR, I_CHAR, L_CHAR, MINUS_SIGN};
use crate::encoder::push_bytes;
use crate::encoding::{
    enc_int, enc_str, int_mag, lemma_lex_asym, lemma_lex_total, lex_lt, lex_lt_bytes,
};
use vstd::pervasive::VecAdditionalExecFns;
use vstd::string::StringSliceAdditionalSpecFns;

verus! {

/// A byte sink to which wire forms are appended.
pub struct Serializer {
    bytes: Vec<u8>,
}

/// The concatenated wire forms of a sequence of integers.
pub open spec fn enc_int_items(vs: Seq<int>) -> Seq<u8>
    decreases vs.len(),
{
    if vs.len() == 0 {
        Seq::empty()
    } else {
        enc_int(vs[0]) + enc_int_items(vs.subrange(1, vs.len() as int))
    }
}

/// The concatenated wire forms of a sequence of byte strings.
pub open spec fn enc_str_items(vs: Seq<Seq<u8>>) -> Seq<u8>
    decreases vs.len(),
{
    if vs.len() == 0 {
        Seq::empty()
    } else {
        enc_str(vs[0]) + enc_str_items(vs.subrange(1, vs.len() as int))
    }
}

pub proof fn lemma_enc_int_items_app(a: Seq<int>, b: Seq<int>)
    ensures
        enc_int_items(a + b) == enc_int_items(a) + enc_int_items(b),
    decreases a.len(),
{
    if a.len() == 0 {
        assert(a + b =~= b);
        assert(enc_int_items(a) =~= Seq::empty());
        assert(enc_int_items(a) + enc_int_items(b) =~= enc_int_items(b));
    } else {
        let s = a + b;
        assert(s.len() > 0 && s[0] == a[0]);
        assert(s.subrange(1, s.len() as int) =~= a.subrange(1, a.len() as int) + b);
        lemma_enc_int_items_app(a.subrange(1, a.len() as int), b);
        assert(enc_int_items(s) =~= enc_int_items(a) + enc_int_items(b));
    }
}

pub proof fn lemma_enc_str_items_app(a: Seq<Seq<u8>>, b: Seq<Seq<u8>>)
    ensures
        enc_str_items(a + b) == enc_str_items(a) + enc_str_items(b),
    decreases a.len(),
{
    if a.len() == 0 {
        assert(a + b =~= b);
        assert(enc_str_items(a) =~= Seq::empty());
        assert(enc_str_items(a) + enc_str_items(b) =~= enc_str_items(b));
    } else {
        let s = a + b;
        assert(s.len() > 0 && s[0] == a[0]);
        assert(s.subrange(1, s.len() as int) =~= a.subrange(1, a.len() as int) + b);
        lemma_enc_str_items_app(a.subrange(1, a.len() as int), b);
        assert(enc_str_items(s) =~= enc_str_items(a) + enc_str_items(b));
    }
}

impl Serializer {
    /// The bytes written so far.
    pub closed spec fn buf(&self) -> Seq<u8> {
        self.bytes@
    }

    pub fn new() -> (r: Serializer)
        ensures
            r.buf() == Seq::<u8>::empty(),
    {
        let r = Serializer { bytes: Vec::new() };
        proof {
            assert(r.buf() =~= Seq::<u8>::empty());
        }
        r
    }

    /// Surrenders the written bytes.
    pub fn into_bytes(self) -> (r: Vec<u8>)
        ensures
            r@ == self.buf(),
    {
        self.bytes
    }

    /// Writes the bare decimal digits of `val`, no markers.
    fn write_raw_int(&mut self, val: u64)
        ensures
            final(self).buf() == old(self).buf() + crate::digits::dec_digits(val as nat),
    {
        push_decimal_u64(&mut self.bytes, val);
    }

    /// Writes `i<digits>e` for an unsigned value.
    pub fn serialize_u64(&mut self, v: u64)
        ensures
            final(self).buf() == old(self).buf() + enc_int(v as int),
    {
        self.bytes.push(I_CHAR);
        self.write_raw_int(v);
        self.bytes.push(E_CHAR);
        proof {
            assert(int_mag(v as int) == v as nat);
            assert(self.buf() =~= old(self).buf() + enc_int(v as int));
        }
    }

    pub fn serialize_u8(&mut self, v: u8)
        ensures
            final(self).buf() == old(self).buf() + enc_int(v as int),
    {
        self.serialize_u64(v as u64);
    }

    pub fn serialize_u16(&mut self, v: u16)
        ensures
            final(self).buf() == old(self).buf() + enc_int(v as int),
    {
        self.serialize_u64(v as u64);
    }

    pub fn serialize_u32(&mut self, v: u32)
        ensures
            final(self).buf() == old(self).buf() + enc_int(v as int),
    {
        self.serialize_u64(v as u64);
    }

    /// Writes `i<digits>e` or `i-<digits>e` for a signed value.
    pub fn serialize_i64(&mut self, v: i64)
        ensures
            final(self).buf() == old(self).buf() + enc_int(v as int),
    {
        self.bytes.push(I_CHAR);
        if v < 0 {
            self.bytes.push(MINUS_SIGN);
        }
        let mag: u64 = if v == i64::MIN {
            9223372036854775808u64
        } else if v < 0 {
            (-v) as u64
        } else {
            v as u64
        };
        self.write_raw_int(mag);
        self.bytes.push(E_CHAR);
        proof {
            assert(int_mag(v as int) == mag as nat);
            assert(self.buf() =~= old(self).buf() + enc_int(v as int));
        }
    }

    pub fn serialize_i8(&mut self, v: i8)
        ensures
            final(self).buf() == old(self).buf() + enc_int(v as int),
    {
        self.serialize_i64(v as i64);
    }

    pub fn serialize_i16(&mut self, v: i16)
        ensures
            final(self).buf() == old(self).buf() + enc_int(v as int),
    {
        self.serialize_i64(v as i64);
    }

    pub fn serialize_i32(&mut self, v: i32)
        ensures
            final(self).buf() == old(self).buf() + enc_int(v as int),
    {
        self.serialize_i64(v as i64);
    }

    /// Writes `i1e` for true, `i0e` for false.
    pub fn serialize_bool(&mut self, v: bool)
        ensures
            final(self).buf() == old(self).buf()
                + enc_int(if v { 1int } else { 0int }),
    {
        self.serialize_u64(if v { 1 } else { 0 });
    }

    /// Writes `<len>:<bytes>` for the UTF-8 bytes of a string.
    pub fn serialize_str(&mut self, v: &str)
        ensures
            final(self).buf() == old(self).buf() + enc_str(v.spec_bytes()),
    {
        let bv = v.as_bytes_vec();
        self.serialize_bytes(&bv);
    }

    /// Writes `<len>:<bytes>` for raw bytes.
    pub fn serialize_bytes(&mut self, v: &Vec<u8>)
        ensures
            final(self).buf() == old(self).buf() + enc_str(v@),
    {
        let n: usize = v.len();
        self.write_raw_int(n as u64);
        self.bytes.push(COLON_CHAR);
        push_bytes(&mut self.bytes, v);
        proof {
            assert(n as u64 as nat == v@.len());
            assert(self.buf() =~= old(self).buf() + enc_str(v@));
        }
    }

    /// Opens a sequence: writes `l`.
    pub fn begin_seq(&mut self)
        ensures
            final(self).buf() == old(self).buf() + seq![L_CHAR],
    {
        self.bytes.push(L_CHAR);
        proof {
            assert(self.buf() =~= old(self).buf() + seq![L_CHAR]);
        }
    }

    /// Closes a sequence: writes `e`.
    pub fn end_seq(&mut self)
        ensures
            final(self).buf() == old(self).buf() + seq![E_CHAR],
    {
        self.bytes.push(E_CHAR);
        proof {
            assert(self.buf() =~= old(self).buf() + seq![E_CHAR]);
        }
    }
}

/// Keys of the collected fields are strictly increasing.
pub open spec fn fields_sorted(m: Seq<(Seq<u8>, Seq<u8>)>) -> bool {
    forall|i: int| 0 <= i < m.len() - 1 ==> lex_lt(#[trigger] m[i].0, m[i + 1].0)
}

/// The collected fields with the entry for key `k` set to `v`: placed
/// at its ordered position, replacing an existing entry for the same
/// key.
pub open spec fn insert_field(m: Seq<(Seq<u8>, Seq<u8>)>, k: Seq<u8>, v: Seq<u8>)
    -> Seq<(Seq<u8>, Seq<u8>)>
    decreases m.len(),
{
    if m.len() == 0 {
        seq![(k, v)]
    } else if lex_lt(k, m[0].0) {
        seq![(k, v)] + m
    } else if k == m[0].0 {
        seq![(k, v)] + m.subrange(1, m.len() as int)
    } else {
        seq![m[0]] + insert_field(m.subrange(1, m.len() as int), k, v)
    }
}

/// The emitted middle of a record: each field as `<key><value bytes>`,
/// fields with empty value bytes left out.
pub open spec fn emit_fields(m: Seq<(Seq<u8>, Seq<u8>)>) -> Seq<u8>
    decreases m.len(),
{
    if m.len() == 0 {
        Seq::empty()
    } else {
        (if m[0].1.len() == 0 {
            Seq::empty()
        } else {
            enc_str(m[0].0) + m[0].1
        }) + emit_fields(m.subrange(1, m.len() as int))
    }
}

pub proof fn lemma_emit_fields_app(a: Seq<(Seq<u8>, Seq<u8>)>, b: Seq<(Seq<u8>, Seq<u8>)>)
    ensures
        emit_fields(a + b) == emit_fields(a) + emit_fields(b),
    decreases a.len(),
{
    if a.len() == 0 {
        assert(a + b =~= b);
        assert(emit_fields(a) =~= Seq::empty());
        assert(emit_fields(a) + emit_fields(b) =~= emit_fields(b));
    } else {
        let s = a + b;
        assert(s.len() > 0 && s[0] == a[0]);
        assert(s.subrange(1, s.len() as int) =~= a.subrange(1, a.len() as int) + b);
        lemma_emit_fields_app(a.subrange(1, a.len() as int), b);
        assert(emit_fields(s) =~= emit_fields(a) + emit_fields(b));
    }
}

/// Law: placing a field keeps the collected keys strictly increasing,
/// whatever order the fields arrive in; so a record's wire form lists
/// its keys in ascending byte-lexicographic order regardless of the
/// declaration order of its fields.
pub proof fn lemma_insert_field_sorted(m: Seq<(Seq<u8>, Seq<u8>)>, k: Seq<u8>, v: Seq<u8>)
    requires
        fields_sorted(m),
    ensures
        fields_sorted(insert_field(m, k, v)),
        insert_field(m, k, v).len() >= 1,
        insert_field(m, k, v)[0] == (k, v)
            || (m.len() > 0 && insert_field(m, k, v)[0] == m[0]),
    decreases m.len(),
{
    let out = insert_field(m, k, v);
    if m.len() == 0 {
        assert(fields_sorted(out));
    } else if lex_lt(k, m[0].0) {
        assert(out == seq![(k, v)] + m);
        assert(out[0].0 == k && out[1] == m[0]);
        assert(forall|i: int| 1 <= i < out.len() ==> out[i] == m[i - 1]);
        assert(fields_sorted(out));
    } else if k == m[0].0 {
        let rest = m.subrange(1, m.len() as int);
        assert(out == seq![(k, v)] + rest);
        assert(forall|i: int| 1 <= i < out.len() ==> out[i] == m[i]);
        assert(fields_sorted(out)) by {
            assert(forall|i: int| 0 <= i < out.len() - 1 && i >= 1
                ==> lex_lt((#[trigger] out[i]).0, out[i + 1].0));
            if out.len() > 1 {
                assert(out[1] == m[1]);
                assert(lex_lt(m[0].0, m[1].0));
            }
        }
    } else {
        let rest = m.subrange(1, m.len() as int);
        assert(fields_sorted(rest)) by {
            assert(forall|i: int| 0 <= i < rest.len() ==> rest[i] == m[i + 1]);
        }
        lemma_insert_field_sorted(rest, k, v);
        lemma_lex_total(k, m[0].0);
        assert(lex_lt(m[0].0, k));
        let sub = insert_field(rest, k, v);
        assert(out == seq![m[0]] + sub);
        assert(forall|i: int| 1 <= i < out.len() ==> out[i] == sub[i - 1]);
        assert(fields_sorted(out)) by {
            assert(lex_lt(out[0].0, out[1].0)) by {
                if sub[0] == (k, v) {
                } else {
                    assert(sub[0] == rest[0]);
                    assert(lex_lt(m[0].0, m[1].0));
                }
            }
            assert(forall|i: int| 1 <= i < out.len() - 1
                ==> lex_lt((#[trigger] out[i]).0, out[i + 1].0));
        }
    }
}

/// Law: a record all of whose fields carry the absent representation
/// (empty serialized bytes) emits an empty middle, so its wire form is
/// the empty dict `de`.
pub proof fn lemma_all_absent_emits_nothing(m: Seq<(Seq<u8>, Seq<u8>)>)
    requires
        forall|i: int| 0 <= i < m.len() ==> (#[trigger] m[i]).1.len() == 0,
    ensures
        emit_fields(m) == Seq::<u8>::empty(),
    decreases m.len(),
{
    if m.len() > 0 {
        let rest = m.subrange(1, m.len() as int);
        assert(forall|i: int| 0 <= i < rest.len() ==> (#[trigger] rest[i]).1.len() == 0) by {
            assert(forall|i: int| 0 <= i < rest.len() ==> rest[i] == m[i + 1]);
        }
        lemma_all_absent_emits_nothing(rest);
        assert(emit_fields(m) =~= Seq::<u8>::empty());
    }
}

/// Collects a record's fields with their pre-serialized bytes, sorted
/// by key, until the record is closed.
pub struct SerializeStruct {
    fields: Vec<(Vec<u8>, Vec<u8>)>,
}

impl SerializeStruct {
    /// The collected fields: key bytes and serialized value bytes, in
    /// ascending key order.
    pub closed spec fn model(&self) -> Seq<(Seq<u8>, Seq<u8>)> {
        self.fields@.map_values(|p: (Vec<u8>, Vec<u8>)| (p.0@, p.1@))
    }

    pub open spec fn wf(&self) -> bool {
        fields_sorted(self.model())
    }

    pub fn new() -> (r: SerializeStruct)
        ensures
            r.wf(),
            r.model() == Seq::<(Seq<u8>, Seq<u8>)>::empty(),
    {
        let r = SerializeStruct { fields: Vec::new() };
        proof {
            assert(r.model() =~= Seq::<(Seq<u8>, Seq<u8>)>::empty());
        }
        r
    }

    /// Places one field: the key's bytes with the value's serialized
    /// form, at its ordered position, replacing any earlier entry for
    /// the same key.
    #[verifier::loop_isolation(false)]
    #[verifier::rlimit(60)]
    pub fn serialize_field(&mut self, key: &str, value: Vec<u8>)
        requires
            old(self).wf(),
        ensures
            final(self).wf(),
            final(self).model() == insert_field(old(self).model(), key.spec_bytes(), value@),
    {
        let kb = key.as_bytes_vec();
        let ghost k = key.spec_bytes();
        let ghost m = self.model();
        let mut i: usize = 0;
        proof {
            assert(m.skip(0) =~= m);
            assert(m.take(0) =~= Seq::<(Seq<u8>, Seq<u8>)>::empty());
            assert(insert_field(m, k, value@)
                =~= m.take(0) + insert_field(m.skip(0), k, value@));
        }
        while i < self.fields.len() && lex_lt_bytes(&self.fields[i].0, &kb)
            invariant
                self.fields@ == old(self).fields@,
                0 <= i <= self.fields@.len(),
                forall|j: int| 0 <= j < i ==> lex_lt((#[trigger] m[j]).0, k),
                insert_field(m, k, value@)
                    == m.take(i as int) + insert_field(m.skip(i as int), k, value@),
            decreases self.fields@.len() - i,
        {
            proof {
                let rest = m.skip(i as int);
                assert(rest[0] == m[i as int]);
                assert(m[i as int].0 == self.fields@[i as int].0@);
                assert(lex_lt(rest[0].0, k));
                lemma_lex_asym(rest[0].0, k);
                assert(insert_field(rest, k, value@)
                    == seq![rest[0]] + insert_field(rest.subrange(1, rest.len() as int), k, value@));
                assert(rest.subrange(1, rest.len() as int) =~= m.skip(i + 1));
                assert(m.take(i + 1) =~= m.take(i as int) + seq![m[i as int]]);
                assert(m.take(i as int) + insert_field(rest, k, value@)
                    =~= m.take(i + 1) + insert_field(m.skip(i + 1), k, value@));
            }
            i = i + 1;
        }
        let ghost rest = m.skip(i as int);
        if i < self.fields.len() && crate::value::bytes_eq(&kb, self.fields[i].0.as_slice()) {
            proof {
                assert(rest[0] == m[i as int]);
                assert(k == rest[0].0);
                assert(insert_field(rest, k, value@)
                    == seq![(k, value@)] + rest.subrange(1, rest.len() as int));
            }
            self.fields.set(i, (kb, value));
            proof {
                assert(self.model() =~= m.take(i as int) + (seq![(k, value@)]
                    + rest.subrange(1, rest.len() as int)));
                lemma_sorted_after_insert(m, k, value@);
            }
        } else {
            proof {
                if i < self.fields@.len() {
                    assert(rest[0] == m[i as int]);
                    assert(!lex_lt(rest[0].0, k));
                    assert(k != rest[0].0);
                    lemma_lex_total(k, rest[0].0);
                    assert(lex_lt(k, rest[0].0));
                    assert(insert_field(rest, k, value@) == seq![(k, value@)] + rest);
                } else {
                    assert(rest =~= Seq::<(Seq<u8>, Seq<u8>)>::empty());
                    assert(insert_field(rest, k, value@) =~= seq![(k, value@)]);
                    assert(seq![(k, value@)] + rest =~= seq![(k, value@)]);
                }
            }
            self.fields.insert(i, (kb, value));
            proof {
                assert(self.model() =~= m.take(i as int) + (seq![(k, value@)] + rest));
                lemma_sorted_after_insert(m, k, value@);
            }
        }
    }

    /// Closes the record: writes `d`, the collected fields in ascending
    /// key order with empty-valued fields left out, then `e`.
    #[verifier::loop_isolation(false)]
    pub fn end(self, out: &mut Serializer)
        requires
            self.wf(),
        ensures
            final(out).buf() == old(out).buf() + seq![D_CHAR] + emit_fields(self.model())
                + seq![E_CHAR],
    {
        let ghost m = self.model();
        out.bytes.push(D_CHAR);
        proof {
            assert(emit_fields(m.take(0)) =~= Seq::<u8>::empty()) by {
                assert(m.take(0) =~= Seq::<(Seq<u8>, Seq<u8>)>::empty());
            }
            assert(out.buf() =~= old(out).buf() + seq![D_CHAR] + emit_fields(m.take(0)));
        }
        let mut i: usize = 0;
        while i < self.fields.len()
            invariant
                0 <= i <= self.fields@.len(),
                out.buf() == old(out).buf() + seq![D_CHAR] + emit_fields(m.take(i as int)),
            decreases self.fields@.len() - i,
        {
            let ghost mid = out.buf();
            if self.fields[i].1.len() > 0 {
                let klen: usize = self.fields[i].0.len();
                push_decimal_u64(&mut out.bytes, klen as u64);
                out.bytes.push(COLON_CHAR);
                push_bytes(&mut out.bytes, &self.fields[i].0);
                push_bytes(&mut out.bytes, &self.fields[i].1);
                proof {
                    assert(klen as u64 as nat == m[i as int].0.len());
                    assert(out.buf() =~= mid + enc_str(m[i as int].0) + m[i as int].1);
                }
            }
            proof {
                lemma_emit_fields_app(m.take(i as int), seq![m[i as int]]);
                assert(m.take(i + 1) =~= m.take(i as int) + seq![m[i as int]]);
                let u = seq![m[i as int]];
                assert(u.subrange(1, 1) =~= Seq::<(Seq<u8>, Seq<u8>)>::empty());
                assert(emit_fields(Seq::<(Seq<u8>, Seq<u8>)>::empty()) =~= Seq::<u8>::empty());
                if m[i as int].1.len() == 0 {
                    assert(emit_fields(u) =~= Seq::<u8>::empty());
                    assert(out.buf() =~= old(out).buf() + seq![D_CHAR]
                        + emit_fields(m.take(i + 1)));
                } else {
                    assert(emit_fields(u) =~= enc_str(m[i as int].0) + m[i as int].1);
                    assert(out.buf() =~= old(out).buf() + seq![D_CHAR]
                        + emit_fields(m.take(i + 1)));
                }
            }
            i = i + 1;
        }
        out.bytes.push(E_CHAR);
        proof {
            assert(m.take(i as int) =~= m);
            assert(out.buf() =~= old(out).buf() + seq![D_CHAR] + emit_fields(m)
                + seq![E_CHAR]);
        }
    }
}

/// Serializes a boolean to its whole wire form.
pub fn encode_bool(v: bool) -> (r: Vec<u8>)
    ensures
        r@ == enc_int(if v { 1int } else { 0int }),
{
    let mut s = Serializer::new();
    s.serialize_bool(v);
    s.into_bytes()
}

/// Serializes a u8 to its whole wire form.
pub fn encode_u8(v: u8) -> (r: Vec<u8>)
    ensures
        r@ == enc_int(v as int),
{
    let mut s = Serializer::new();
    s.serialize_u8(v);
    s.into_bytes()
}

/// Serializes a u16 to its whole wire form.
pub fn encode_u16(v: u16) -> (r: Vec<u8>)
    ensures
        r@ == enc_int(v as int),
{
    let mut s = Serializer::new();
    s.serialize_u16(v);
    s.into_bytes()
}

/// Serializes a u32 to its whole wire form.
pub fn encode_u32(v: u32) -> (r: Vec<u8>)
    ensures
        r@ == enc_int(v as int),
{
    let mut s = Serializer::new();
    s.serialize_u32(v);
    s.into_bytes()
}

/// Serializes a u64 to its whole wire form.
pub fn encode_u64(v: u64) -> (r: Vec<u8>)
    ensures
        r@ == enc_int(v as int),
{
    let mut s = Serializer::new();
    s.serialize_u64(v);
    s.into_bytes()
}

/// Serializes an i8 to its whole wire form.
pub fn encode_i8(v: i8) -> (r: Vec<u8>)
    ensures
        r@ == enc_int(v as int),
{
    let mut s = Serializer::new();
    s.serialize_i8(v);
    s.into_bytes()
}

/// Serializes an i16 to its whole wire form.
pub fn encode_i16(v: i16) -> (r: Vec<u8>)
    ensures
        r@ == enc_int(v as int),
{
    let mut s = Serializer::new();
    s.serialize_i16(v);
    s.into_bytes()
}

/// Serializes an i32 to its whole wire form.
pub fn encode_i32(v: i32) -> (r: Vec<u8>)
    ensures
        r@ == enc_int(v as int),
{
    let mut s = Serializer::new();
    s.serialize_i32(v);
    s.into_bytes()
}

/// Serializes an i64 to its whole wire form.
pub fn encode_i64(v: i64) -> (r: Vec<u8>)
    ensures
        r@ == enc_int(v as int),
{
    let mut s = Serializer::new();
    s.serialize_i64(v);
    s.into_bytes()
}

/// Serializes a string to its whole wire form.
pub fn encode_str(v: &str) -> (r: Vec<u8>)
    ensures
        r@ == enc_str(v.spec_bytes()),
{
    let mut s = Serializer::new();
    s.serialize_str(v);
    s.into_bytes()
}

/// Serializes a list of u16 values to its whole wire form.
#[verifier::loop_isolation(false)]
pub fn encode_u16_list(v: &Vec<u16>) -> (r: Vec<u8>)
    ensures
        r@ == seq![L_CHAR] + enc_int_items(v@.map_values(|x: u16| x as int)) + seq![E_CHAR],
{
    let ghost ints = v@.map_values(|x: u16| x as int);
    let mut s = Serializer::new();
    s.begin_seq();
    let mut i: usize = 0;
    proof {
        assert(enc_int_items(ints.take(0)) =~= Seq::<u8>::empty()) by {
            assert(ints.take(0) =~= Seq::<int>::empty());
        }
        assert(s.buf() =~= seq![L_CHAR] + enc_int_items(ints.take(0)));
    }
    while i < v.len()
        invariant
            0 <= i <= v@.len(),
            s.buf() == seq![L_CHAR] + enc_int_items(ints.take(i as int)),
        decreases v@.len() - i,
    {
        s.serialize_u16(v[i]);
        proof {
            lemma_enc_int_items_app(ints.take(i as int), seq![ints[i as int]]);
            assert(ints.take(i + 1) =~= ints.take(i as int) + seq![ints[i as int]]);
            let u = seq![ints[i as int]];
            assert(u.subrange(1, 1) =~= Seq::<int>::empty());
            assert(enc_int_items(Seq::<int>::empty()) =~= Seq::<u8>::empty());
            assert(enc_int_items(u) =~= enc_int(ints[i as int]));
        }
        i = i + 1;
    }
    s.end_seq();
    proof {
        assert(ints.take(i as int) =~= ints);
    }
    s.into_bytes()
}

/// Serializes a list of u32 values to its whole wire form.
#[verifier::loop_isolation(false)]
pub fn encode_u32_list(v: &Vec<u32>) -> (r: Vec<u8>)
    ensures
        r@ == seq![L_CHAR] + enc_int_items(v@.map_values(|x: u32| x as int)) + seq![E_CHAR],
{
    let ghost ints = v@.map_values(|x: u32| x as int);
    let mut s = Serializer::new();
    s.begin_seq();
    let mut i: usize = 0;
    proof {
        assert(enc_int_items(ints.take(0)) =~= Seq::<u8>::empty()) by {
            assert(ints.take(0) =~= Seq::<int>::empty());
        }
        assert(s.buf() =~= seq![L_CHAR] + enc_int_items(ints.take(0)));
    }
    while i < v.len()
        invariant
            0 <= i <= v@.len(),
            s.buf() == seq![L_CHAR] + enc_int_items(ints.take(i as int)),
        decreases v@.len() - i,
    {
        s.serialize_u32(v[i]);
        proof {
            lemma_enc_int_items_app(ints.take(i as int), seq![ints[i as int]]);
            assert(ints.take(i + 1) =~= ints.take(i as int) + seq![ints[i as int]]);
            let u = seq![ints[i as int]];
            assert(u.subrange(1, 1) =~= Seq::<int>::empty());
            assert(enc_int_items(Seq::<int>::empty()) =~= Seq::<u8>::empty());
            assert(enc_int_items(u) =~= enc_int(ints[i as int]));
        }
        i = i + 1;
    }
    s.end_seq();
    proof {
        assert(ints.take(i as int) =~= ints);
    }
    s.into_bytes()
}

/// Serializes a list of strings to its whole wire form.
#[verifier::loop_isolation(false)]
pub fn encode_str_list(v: &Vec<String>) -> (r: Vec<u8>)
    ensures
        r@ == seq![L_CHAR]
            + enc_str_items(v@.map_values(|s: String| vstd::utf8::encode_utf8(s@)))
            + seq![E_CHAR],
{
    let ghost bss = v@.map_values(|s: String| vstd::utf8::encode_utf8(s@));
    let mut s = Serializer::new();
    s.begin_seq();
    let mut i: usize = 0;
    proof {
        assert(enc_str_items(bss.take(0)) =~= Seq::<u8>::empty()) by {
            assert(bss.take(0) =~= Seq::<Seq<u8>>::empty());
        }
        assert(s.buf() =~= seq![L_CHAR] + enc_str_items(bss.take(0)));
    }
    while i < v.len()
        invariant
            0 <= i <= v@.len(),
            s.buf() == seq![L_CHAR] + enc_str_items(bss.take(i as int)),
        decreases v@.len() - i,
    {
        s.serialize_str(v[i].as_str());
        proof {
            lemma_enc_str_items_app(bss.take(i as int), seq![bss[i as int]]);
            assert(bss.take(i + 1) =~= bss.take(i as int) + seq![bss[i as int]]);
            let u = seq![bss[i as int]];
            assert(u.subrange(1, 1) =~= Seq::<Seq<u8>>::empty());
            assert(enc_str_items(Seq::<Seq<u8>>::empty()) =~= Seq::<u8>::empty());
            assert(enc_str_items(u) =~= enc_str(bss[i as int]));
        }
        i = i + 1;
    }
    s.end_seq();
    proof {
        assert(bss.take(i as int) =~= bss);
    }
    s.into_bytes()
}

/// Helper: the scan's decomposition of `insert_field` stays sorted.
proof fn lemma_sorted_after_insert(m: Seq<(Seq<u8>, Seq<u8>)>, k: Seq<u8>, v: Seq<u8>)
    requires
        fields_sorted(m),
    ensures
        fields_sorted(insert_field(m, k, v)),
{
    lemma_insert_field_sorted(m, k, v);
}

} // verus!
