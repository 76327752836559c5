//! The decoded value tree: a tagged union of the four bencode kinds.
//!
//! A dict stores its pairs as a vector already in strictly increasing
//! key order: the parser only ever produces them that way, and the
//! well-formedness predicate `crate::encoding::wf` keeps that order as
//! the dict invariant.  The typed accessors are contracts on the
//! caller: calling one against the wrong variant is a programming
//! error, excluded by `requires` rather than reported.

use vstd::prelude::*;

verus! {

broadcast use
    vstd::seq::axiom_seq_index_decreases,
    vstd::std_specs::vec::axiom_vec_index_decreases,
    vstd::std_specs::vec::axiom_vec_decreases_to_view;

#[derive(Debug)]
pub enum BEValue {
    BEDict(Vec<(Vec<u8>, BEValue)>),
    BEInteger(i64),
    BEList(Vec<BEValue>),
    BEString(Vec<u8>),
}

/// Structural equality of two value trees: integers by value, strings
/// byte for byte, lists element by element, dicts pair by pair.
pub open spec fn val_eq(a: BEValue, b: BEValue) -> bool
    decreases a,
{
    match (a, b) {
        (BEValue::BEInteger(x), BEValue::BEInteger(y)) => x == y,
        (BEValue::BEString(s), BEValue::BEString(t)) => s@ == t@,
        (BEValue::BEList(l), BEValue::BEList(m)) => l@.len() == m@.len()
            && (forall|i: int| 0 <= i < l@.len() ==> val_eq(#[trigger] l@[i], m@[i])),
        (BEValue::BEDict(d), BEValue::BEDict(e)) => d@.len() == e@.len()
            && (forall|i: int| 0 <= i < d@.len()
                ==> (#[trigger] d@[i]).0@ == e@[i].0@ && val_eq(d@[i].1, e@[i].1)),
        _ => false,
    }
}

/// What `String::from_utf8_lossy` yields on the given bytes: a pure
/// function of the bytes alone.
pub uninterp spec fn lossy_chars(b: Seq<u8>) -> Seq<char>;

/// Relies on `String::from_utf8_lossy`: the result depends only on the
/// bytes, and valid UTF-8 passes through unchanged, reading as its own
/// characters; only invalid sequences are replaced.
#[verifier::external_body]
pub(crate) fn lossy_string_of(b: &Vec<u8>) -> (r: String)
    ensures
        r@ == lossy_chars(b@),
        vstd::utf8::valid_utf8(b@) ==> r@ == vstd::utf8::decode_utf8(b@),
{
    String::from_utf8_lossy(b.as_slice()).into_owned()
}

/// Copies a byte vector.
pub fn copy_bytes(v: &Vec<u8>) -> (r: Vec<u8>)
    ensures
        r@ == v@,
{
    let mut r: Vec<u8> = Vec::new();
    let mut i: usize = 0;
    while i < v.len()
        invariant
            0 <= i <= v@.len(),
            r@ == v@.take(i as int),
        decreases v@.len() - i,
    {
        r.push(v[i]);
        proof {
            assert(v@.take(i + 1) =~= v@.take(i as int) + seq![v@[i as int]]);
        }
        i = i + 1;
    }
    proof {
        assert(v@.take(i as int) =~= v@);
    }
    r
}

/// Compares a stored key with a probe key byte for byte.
pub fn bytes_eq(a: &Vec<u8>, b: &[u8]) -> (r: bool)
    ensures
        r == (a@ == b@),
{
    if a.len() != b.len() {
        proof {
            assert(a@.len() != b@.len());
        }
        return false;
    }
    let mut i: usize = 0;
    while i < a.len()
        invariant
            0 <= i <= a@.len(),
            a@.len() == b@.len(),
            forall|j: int| 0 <= j < i ==> a@[j] == b@[j],
        decreases a@.len() - i,
    {
        if a[i] != b[i] {
            return false;
        }
        i = i + 1;
    }
    proof {
        assert(a@ =~= b@);
    }
    true
}

impl BEValue {
    /// The held byte string, interpreted as text: valid UTF-8 reads as
    /// itself, invalid sequences are replaced.
    pub fn string(&self) -> (r: String)
        requires
            self is BEString,
        ensures
            r@ == lossy_chars(self->BEString_0@),
            vstd::utf8::valid_utf8(self->BEString_0@)
                ==> r@ == vstd::utf8::decode_utf8(self->BEString_0@),
    {
        match self {
            BEValue::BEString(s) => lossy_string_of(s),
            _ => unreached(),
        }
    }

    pub fn integer(&self) -> (r: i64)
        requires
            self is BEInteger,
        ensures
            r == self->BEInteger_0,
    {
        match self {
            BEValue::BEInteger(i) => *i,
            _ => unreached(),
        }
    }

    pub fn is_string(&self) -> (r: bool)
        ensures
            r == (self is BEString),
    {
        matches!(self, BEValue::BEString(_))
    }

    pub fn is_integer(&self) -> (r: bool)
        ensures
            r == (self is BEInteger),
    {
        matches!(self, BEValue::BEInteger(_))
    }

    pub fn is_list(&self) -> (r: bool)
        ensures
            r == (self is BEList),
    {
        matches!(self, BEValue::BEList(_))
    }

    pub fn is_dict(&self) -> (r: bool)
        ensures
            r == (self is BEDict),
    {
        matches!(self, BEValue::BEDict(_))
    }

    /// The length of the value: an integer counts as 1, a string as its
    /// byte count, a list as its element count, a dict as its pair
    /// count.
    pub open spec fn spec_len(&self) -> nat {
        match self {
            BEValue::BEInteger(_) => 1,
            BEValue::BEString(s) => s@.len(),
            BEValue::BEList(l) => l@.len(),
            BEValue::BEDict(d) => d@.len(),
        }
    }

    pub fn len(&self) -> (r: usize)
        ensures
            r == self.spec_len(),
    {
        match self {
            BEValue::BEInteger(_) => 1,
            BEValue::BEString(s) => s.len(),
            BEValue::BEList(l) => l.len(),
            BEValue::BEDict(d) => d.len(),
        }
    }

    pub fn is_empty(&self) -> (r: bool)
        ensures
            r == (self.spec_len() == 0),
    {
        self.len() == 0
    }

    /// The keys of a dict, in storage order (strictly increasing on any
    /// parser-produced value).
    pub fn keys(&self) -> (r: Vec<Vec<u8>>)
        requires
            self is BEDict,
        ensures
            r@.len() == self->BEDict_0@.len(),
            forall|i: int| 0 <= i < r@.len() ==> r@[i]@ == self->BEDict_0@[i].0@,
    {
        match self {
            BEValue::BEDict(d) => {
                let mut r: Vec<Vec<u8>> = Vec::new();
                let mut i: usize = 0;
                while i < d.len()
                    invariant
                        0 <= i <= d@.len(),
                        r@.len() == i,
                        forall|j: int| 0 <= j < i ==> r@[j]@ == d@[j].0@,
                    decreases d@.len() - i,
                {
                    r.push(copy_bytes(&d[i].0));
                    i = i + 1;
                }
                r
            }
            _ => unreached(),
        }
    }

    /// Looks a key up in a dict.
    #[verifier::loop_isolation(false)]
    pub fn get(&self, key: &[u8]) -> (r: Option<&BEValue>)
        requires
            self is BEDict,
        ensures
            match r {
                Some(v) => exists|j: int|
                    0 <= j < self->BEDict_0@.len() && (#[trigger] self->BEDict_0@[j]).0@ == key@
                        && *v == self->BEDict_0@[j].1,
                None => forall|j: int|
                    0 <= j < self->BEDict_0@.len() ==> (#[trigger] self->BEDict_0@[j]).0@ != key@,
            },
    {
        match self {
            BEValue::BEDict(d) => {
                let mut i: usize = 0;
                while i < d.len()
                    invariant
                        0 <= i <= d@.len(),
                        forall|j: int| 0 <= j < i ==> (#[trigger] d@[j]).0@ != key@,
                    decreases d@.len() - i,
                {
                    if bytes_eq(&d[i].0, key) {
                        proof {
                            assert((self->BEDict_0@[i as int]).0@ == key@);
                        }
                        return Some(&d[i].1);
                    }
                    i = i + 1;
                }
                None
            }
            _ => unreached(),
        }
    }

    /// An element of a list, by position.
    pub fn item(&self, i: usize) -> (r: &BEValue)
        requires
            self is BEList,
            i < self->BEList_0@.len(),
        ensures
            *r == self->BEList_0@[i as int],
    {
        match self {
            BEValue::BEList(l) => &l[i],
            _ => unreached(),
        }
    }
}

/// The textual reading of raw bytes: valid UTF-8 as its characters
/// (quoted on request), anything else as a byte-count placeholder.
pub open spec fn maybe_string_text(b: Seq<u8>, quoted: bool) -> Seq<char> {
    if vstd::utf8::valid_utf8(b) {
        if quoted {
            "\""@ + vstd::utf8::decode_utf8(b) + "\""@
        } else {
            vstd::utf8::decode_utf8(b)
        }
    } else {
        "["@ + crate::tspec::digits_chars(b.len()) + " bytes]"@
    }
}

/// Renders raw bytes as text: a valid UTF-8 string reads as itself
/// (quoted on request), invalid bytes as their count.
pub fn maybe_string(bytes: &Vec<u8>, quoted: bool) -> (r: String)
    ensures
        r@ == maybe_string_text(bytes@, quoted),
{
    match crate::de::utf8_string_of(copy_bytes(bytes)) {
        Some(s) => {
            if quoted {
                let mut out = String::from_str("\"");
                out.append(s.as_str());
                out.append("\"");
                proof {
                    assert(out@ =~= maybe_string_text(bytes@, quoted));
                }
                out
            } else {
                s
            }
        }
        None => {
            let mut out = String::from_str("[");
            crate::de::push_decimal_chars(&mut out, bytes.len() as u64);
            out.append(" bytes]");
            proof {
                assert(bytes.len() as u64 as nat == bytes@.len());
                assert(out@ =~= maybe_string_text(bytes@, quoted));
            }
            out
        }
    }
}

impl PartialEq for BEValue {
    /// Structural equality, deep: integers by value, strings byte for
    /// byte, lists in order, dicts pair by pair.
    #[verifier::loop_isolation(false)]
    fn eq(&self, other: &BEValue) -> (r: bool)
        decreases self,
    {
        match (self, other) {
            (BEValue::BEInteger(x), BEValue::BEInteger(y)) => x == y,
            (BEValue::BEString(a), BEValue::BEString(b)) => bytes_eq(a, b.as_slice()),
            (BEValue::BEList(l), BEValue::BEList(m)) => {
                if l.len() != m.len() {
                    return false;
                }
                let mut i: usize = 0;
                while i < l.len()
                    invariant
                        0 <= i <= l@.len(),
                        forall|j: int| 0 <= j < i ==> val_eq(#[trigger] l@[j], m@[j]),
                    decreases l@.len() - i,
                {
                    proof {
                        assert(decreases_to!(*self => self->BEList_0));
                        assert(self->BEList_0 == *l);
                        assert(decreases_to!(*l => l@));
                        assert(decreases_to!(l@ => l@[i as int]));
                    }
                    if !l[i].eq(&m[i]) {
                        return false;
                    }
                    i = i + 1;
                }
                true
            }
            (BEValue::BEDict(d), BEValue::BEDict(e)) => {
                if d.len() != e.len() {
                    return false;
                }
                let mut i: usize = 0;
                while i < d.len()
                    invariant
                        0 <= i <= d@.len(),
                        forall|j: int| 0 <= j < i
                            ==> (#[trigger] d@[j]).0@ == e@[j].0@ && val_eq(d@[j].1, e@[j].1),
                    decreases d@.len() - i,
                {
                    if !bytes_eq(&d[i].0, e[i].0.as_slice()) {
                        return false;
                    }
                    proof {
                        assert(decreases_to!(*self => self->BEDict_0));
                        assert(self->BEDict_0 == *d);
                        assert(decreases_to!(*d => d@));
                        assert(decreases_to!(d@ => d@[i as int]));
                        assert(decreases_to!(d@[i as int] => d@[i as int].1));
                    }
                    if !d[i].1.eq(&e[i].1) {
                        return false;
                    }
                    i = i + 1;
                }
                true
            }
            _ => false,
        }
    }
}

impl vstd::std_specs::cmp::PartialEqSpecImpl for BEValue {
    open spec fn obeys_eq_spec() -> bool {
        true
    }

    open spec fn eq_spec(&self, other: &BEValue) -> bool {
        val_eq(*self, *other)
    }
}

} // verus!
