//! The value encoder: serializes a well-formed value tree to its
//! canonical wire form.
//!
//! Total for every well-formed value: the output is exactly
//! `crate::encoding::spec_encode` of the input, so by the round-trip
//! law of `crate::parse` the streaming parser reads it back to an
//! equal value.

use vstd::prelude::*;
use crate::digits::{push_decimal_u64, COLON_CHAR, D_CHAR, E_CHAR, I_CHAR, L_CHAR, MINUS_SIGN};
use crate::encoding::{
    enc_pairs, enc_str, enc_items, int_mag, lemma_enc_items_snoc, lemma_enc_pairs_snoc,
    spec_encode, wf,
};
use crate::value::BEValue;

verus! {

broadcast use
    vstd::seq::axiom_seq_index_decreases,
    vstd::std_specs::vec::axiom_vec_index_decreases,
    vstd::std_specs::vec::axiom_vec_decreases_to_view;

/// Appends all of `b` to `out`.
pub(crate) fn push_bytes(out: &mut Vec<u8>, b: &Vec<u8>)
    ensures
        final(out)@ == old(out)@ + b@,
{
    let mut i: usize = 0;
    proof {
        assert(b@.take(0) =~= Seq::<u8>::empty());
        assert(out@ + b@.take(0) =~= out@);
    }
    while i < b.len()
        invariant
            0 <= i <= b@.len(),
            out@ == old(out)@ + b@.take(i as int),
        decreases b@.len() - i,
    {
        out.push(b[i]);
        proof {
            assert(old(out)@ + b@.take(i + 1)
                =~= old(out)@ + b@.take(i as int) + seq![b@[i as int]]);
        }
        i = i + 1;
    }
    proof {
        assert(b@.take(i as int) =~= b@);
    }
}

/// Appends the canonical wire form of `v` to `out`.
#[verifier::loop_isolation(false)]
fn encode_into(v: &BEValue, out: &mut Vec<u8>)
    requires
        wf(*v),
    ensures
        final(out)@ == old(out)@ + spec_encode(*v),
    decreases v,
{
    match v {
        BEValue::BEInteger(x) => {
            out.push(I_CHAR);
            let m: i64 = if *x < 0 {
                out.push(MINUS_SIGN);
                -*x
            } else {
                *x
            };
            push_decimal_u64(out, m as u64);
            out.push(E_CHAR);
            proof {
                assert(int_mag(*x as int) == m as u64 as nat);
                assert(out@ =~= old(out)@ + spec_encode(*v));
            }
        }
        BEValue::BEString(s) => {
            push_decimal_u64(out, s.len() as u64);
            out.push(COLON_CHAR);
            push_bytes(out, s);
            proof {
                assert(s@.len() == s.len() as u64 as nat);
                assert(out@ =~= old(out)@ + enc_str(s@));
            }
        }
        BEValue::BEList(l) => {
            out.push(L_CHAR);
            let mut i: usize = 0;
            proof {
                assert(enc_items(l@.take(0)) =~= Seq::<u8>::empty()) by {
                    assert(l@.take(0) =~= Seq::<BEValue>::empty());
                }
                assert(out@ =~= old(out)@ + seq![L_CHAR] + enc_items(l@.take(0)));
            }
            while i < l.len()
                invariant
                    0 <= i <= l@.len(),
                    out@ == old(out)@ + seq![L_CHAR] + enc_items(l@.take(i as int)),
                decreases l@.len() - i,
            {
                proof {
                    assert(decreases_to!(*v => v->BEList_0));
                    assert(v->BEList_0 == *l);
                    assert(decreases_to!(*l => l@));
                    assert(decreases_to!(l@ => l@[i as int]));
                    assert(wf(l@[i as int]));
                }
                encode_into(&l[i], out);
                proof {
                    lemma_enc_items_snoc(l@, i as int);
                }
                i = i + 1;
            }
            out.push(E_CHAR);
            proof {
                assert(l@.take(i as int) =~= l@);
                assert(out@ =~= old(out)@ + spec_encode(*v));
            }
        }
        BEValue::BEDict(d) => {
            out.push(D_CHAR);
            let mut i: usize = 0;
            proof {
                assert(enc_pairs(d@.take(0)) =~= Seq::<u8>::empty()) by {
                    assert(d@.take(0) =~= Seq::<(Vec<u8>, BEValue)>::empty());
                }
                assert(out@ =~= old(out)@ + seq![D_CHAR] + enc_pairs(d@.take(0)));
            }
            while i < d.len()
                invariant
                    0 <= i <= d@.len(),
                    out@ == old(out)@ + seq![D_CHAR] + enc_pairs(d@.take(i as int)),
                decreases d@.len() - i,
            {
                let ghost mid = out@;
                let klen: usize = d[i].0.len();
                push_decimal_u64(out, klen as u64);
                out.push(COLON_CHAR);
                push_bytes(out, &d[i].0);
                proof {
                    assert(klen as u64 as nat == d@[i as int].0@.len());
                    assert(out@ =~= mid + enc_str(d@[i as int].0@));
                }
                proof {
                    assert(decreases_to!(*v => v->BEDict_0));
                    assert(v->BEDict_0 == *d);
                    assert(decreases_to!(*d => d@));
                    assert(decreases_to!(d@ => d@[i as int]));
                    assert(decreases_to!(d@[i as int] => d@[i as int].1));
                    assert(wf(d@[i as int].1));
                }
                encode_into(&d[i].1, out);
                proof {
                    lemma_enc_pairs_snoc(d@, i as int);
                    assert(out@ =~= old(out)@ + seq![D_CHAR] + enc_pairs(d@.take(i + 1)));
                }
                i = i + 1;
            }
            out.push(E_CHAR);
            proof {
                assert(d@.take(i as int) =~= d@);
                assert(out@ =~= old(out)@ + spec_encode(*v));
            }
        }
    }
}

/// Serializes a well-formed value to canonical bencode bytes.  Never
/// fails: every well-formed value has a wire form.
pub fn encode(v: &BEValue) -> (r: Vec<u8>)
    requires
        wf(*v),
    ensures
        r@ == spec_encode(*v),
{
    let mut out: Vec<u8> = Vec::new();
    encode_into(v, &mut out);
    proof {
        assert(out@ =~= spec_encode(*v));
    }
    out
}

} // verus!
