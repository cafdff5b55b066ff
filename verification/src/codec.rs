//! The wire codec's specification: `enc` gives the exact byte sequence a
//! value occupies when encoded at a given offset from message start, and
//! `dec` gives the value a signature-directed decoder reads back. Alignment
//! is computed from message start, never from the current container.

use vstd::prelude::*;
use crate::sig::{
    C_BYTE, C_BOOL, C_INT16, C_UINT16, C_INT32, C_UINT32, C_INT64, C_UINT64, C_DOUBLE,
    C_STRING, C_PATH, C_SIG, C_VARIANT, C_ARRAY, C_STRUCT_OPEN, C_STRUCT_CLOSE, C_DICT_OPEN,
    C_DICT_CLOSE, is_basic_code, align_of_code, sig_one_len,
};
use crate::value::{V, sig_of, sig_of_list, align_of_value, wf, wf_list, max_size, max_size_list,
    lemma_max_size_pos, lemma_max_size_list_pos, lemma_wf_list_index};
use crate::scalar::{Endian, u16_bytes, u32_bytes, u64_bytes, u16_of, u32_of, u64_of};

verus! {

/// `n` zero bytes.
pub open spec fn zeros(n: int) -> Seq<u8> {
    if n <= 0 {
        Seq::<u8>::empty()
    } else {
        Seq::new(n as nat, |i: int| 0u8)
    }
}

/// The number of padding bytes that bring `off` up to a multiple of `a`.
pub open spec fn pad_len(off: int, a: int) -> int {
    if a <= 0 {
        0
    } else {
        let r = off % a;
        if r == 0 {
            0
        } else {
            a - r
        }
    }
}

/// Padding is shorter than the alignment it serves, and lands exactly on a
/// multiple of it.
pub proof fn lemma_pad(off: int, a: int)
    requires
        a >= 1,
    ensures
        0 <= pad_len(off, a) < a,
        (off + pad_len(off, a)) % a == 0,
{
    let r = off % a;
    vstd::arithmetic::div_mod::lemma_fundamental_div_mod(off, a);
    if r != 0 {
        let q = off / a;
        vstd::arithmetic::mul::lemma_mul_is_distributive_add(a, q, 1);
        assert(off + (a - r) == a * (q + 1));
        vstd::arithmetic::div_mod::lemma_mod_multiples_basic(q + 1, a);
        assert((a * (q + 1)) % a == ((q + 1) * a) % a) by {
            vstd::arithmetic::mul::lemma_mul_is_commutative(a, q + 1);
        }
    }
}

/// The length-prefixed, NUL-terminated shape shared by strings and object
/// paths: a 4-byte byte-count, the bytes, one zero byte.
pub open spec fn str_enc(e: Endian, s: Seq<u8>) -> Seq<u8> {
    u32_bytes(e, s.len() as u32) + s + seq![0u8]
}

/// The shape of a signature on the wire: a 1-byte byte-count, the bytes,
/// one zero byte; never padded.
pub open spec fn sig_enc(s: Seq<u8>) -> Seq<u8> {
    seq![s.len() as u8] + s + seq![0u8]
}

/// The bytes of `v` encoded at offset `off` from message start, under byte
/// order `e`: zero padding up to `v`'s alignment, then the payload. An
/// array's 4-byte length covers only the element bytes, after the padding
/// that aligns the first element (present even when the array is empty).
pub open spec fn enc(e: Endian, v: V, off: int) -> Seq<u8>
    decreases v, 0int,
{
    let p = pad_len(off, align_of_value(v));
    zeros(p) + match v {
        V::Byte(b) => seq![b],
        V::Boolean(b) => u32_bytes(e, if b { 1u32 } else { 0u32 }),
        V::Int16(x) => u16_bytes(e, x as u16),
        V::Uint16(x) => u16_bytes(e, x),
        V::Int32(x) => u32_bytes(e, x as u32),
        V::Uint32(x) => u32_bytes(e, x),
        V::Int64(x) => u64_bytes(e, x as u64),
        V::Uint64(x) => u64_bytes(e, x),
        V::Double(x) => u64_bytes(e, x),
        V::Str(s) => str_enc(e, s),
        V::ObjectPath(s) => str_enc(e, s),
        V::Signature(s) => sig_enc(s),
        V::Array(es, elems) => {
            let q = pad_len(off + p + 4, align_of_code(es[0]));
            let el = enc_list(e, elems, off + p + 4 + q);
            u32_bytes(e, el.len() as u32) + zeros(q) + el
        },
        V::Struct(fields) => enc_list(e, fields, off + p),
        V::DictEntry(k, val) => {
            let kb = enc(e, *k, off + p);
            kb + enc(e, *val, off + p + kb.len())
        },
        V::Variant(sv, inner) => {
            let sb = sig_enc(sv);
            sb + enc(e, *inner, off + sb.len())
        },
    }
}

/// The values of a list encoded one after the other, each at the offset
/// where the previous one ended.
pub open spec fn enc_list(e: Endian, vs: Seq<V>, off: int) -> Seq<u8>
    decreases vs, 1int,
{
    if vs.len() == 0 {
        Seq::<u8>::empty()
    } else {
        let b0 = enc(e, vs[0], off);
        b0 + enc_list(e, vs.skip(1), off + b0.len())
    }
}

/// An encoded value takes at least one byte and at most its worst-case
/// size.
#[verifier::spinoff_prover]
#[verifier::rlimit(100)]
pub proof fn lemma_enc_size(e: Endian, v: V, off: int)
    requires
        wf(v),
    ensures
        1 <= enc(e, v, off).len() <= max_size(v),
    decreases v, 0int,
{
    lemma_pad(off, align_of_value(v));
    match v {
        V::Array(es, elems) => {
            let p = pad_len(off, 4);
            lemma_pad(off + p + 4, align_of_code(es[0]));
            assert(align_of_code(es[0]) >= 1);
            let q = pad_len(off + p + 4, align_of_code(es[0]));
            lemma_wf_list_index(elems);
            lemma_enc_list_size(e, elems, off + p + 4 + q);
        },
        V::Struct(fields) => {
            let p = pad_len(off, 8);
            lemma_enc_list_size(e, fields, off + p);
        },
        V::DictEntry(k, val) => {
            let p = pad_len(off, 8);
            lemma_enc_size(e, *k, off + p);
            lemma_enc_size(e, *val, off + p + enc(e, *k, off + p).len());
        },
        V::Variant(sv, inner) => {
            lemma_enc_size(e, *inner, off + sig_enc(sv).len());
        },
        _ => {},
    }
}

/// An encoded list takes at least one byte per value, and at most the sum
/// of their worst-case sizes. Well-formedness of the values is only needed
/// for the lower bound, via non-empty structs.
pub proof fn lemma_enc_list_size(e: Endian, vs: Seq<V>, off: int)
    requires
        wf_list(vs),
    ensures
        vs.len() <= enc_list(e, vs, off).len() <= max_size_list(vs),
    decreases vs, 1int,
{
    if vs.len() > 0 {
        lemma_enc_size(e, vs[0], off);
        lemma_enc_list_size(e, vs.skip(1), off + enc(e, vs[0], off).len());
    }
}

/// Splitting an encoded list: the first `i` values, then the rest encoded
/// where they ended.
pub proof fn lemma_enc_list_split(e: Endian, vs: Seq<V>, i: int, off: int)
    requires
        0 <= i <= vs.len(),
    ensures
        enc_list(e, vs, off) == enc_list(e, vs.subrange(0, i), off)
            + enc_list(e, vs.skip(i), off + enc_list(e, vs.subrange(0, i), off).len()),
    decreases i,
{
    if i == 0 {
        assert(vs.subrange(0, 0) =~= Seq::<V>::empty());
        assert(vs.skip(0) =~= vs);
    } else {
        let b0 = enc(e, vs[0], off);
        lemma_enc_list_split(e, vs.skip(1), i - 1, off + b0.len());
        let head = vs.subrange(0, i);
        assert(head[0] == vs[0]);
        assert(head.skip(1) =~= vs.skip(1).subrange(0, i - 1));
        assert(vs.skip(1).skip(i - 1) =~= vs.skip(i));
        assert(enc_list(e, vs, off) =~= enc_list(e, head, off)
            + enc_list(e, vs.skip(i), off + enc_list(e, head, off).len()));
    }
}

/// Appending one value to an encoded prefix.
pub proof fn lemma_enc_list_snoc(e: Endian, vs: Seq<V>, i: int, off: int)
    requires
        0 <= i < vs.len(),
    ensures
        enc_list(e, vs.subrange(0, i + 1), off) == enc_list(e, vs.subrange(0, i), off)
            + enc(e, vs[i], off + enc_list(e, vs.subrange(0, i), off).len()),
    decreases i,
{
    let w = vs.subrange(0, i + 1);
    lemma_enc_list_split(e, w, i, off);
    assert(w.subrange(0, i) =~= vs.subrange(0, i));
    let pre = enc_list(e, vs.subrange(0, i), off);
    let tail = w.skip(i);
    assert(tail =~= seq![vs[i]]);
    assert(tail.len() == 1 && tail[0] == vs[i]);
    let b0 = enc(e, vs[i], off + pre.len());
    assert(enc_list(e, tail, off + pre.len())
        == b0 + enc_list(e, tail.skip(1), off + pre.len() + b0.len()));
    assert(tail.skip(1) =~= Seq::<V>::empty());
    assert(enc_list(e, tail.skip(1), off + pre.len() + b0.len()) == Seq::<u8>::empty());
    assert(enc_list(e, tail, off + pre.len()) =~= b0);
}

/// The signature-directed reading of one single complete type from `data`
/// at `off`: the value read, the number of signature bytes its type used,
/// and the offset just past it. `None` wherever a declared length leaves
/// the supplied range, a boolean is not 0 or 1, a terminator is missing, an
/// embedded signature is not one complete type, or the signature itself is
/// not one.
pub open spec fn dec(e: Endian, sig: Seq<u8>, data: Seq<u8>, off: int) -> Option<(V, int, int)>
    decreases data.len() - off, sig.len(), 0int,
{
    if !(0 <= off <= data.len()) || sig.len() == 0 {
        None
    } else {
        let c = sig[0];
        if c == C_BYTE {
            if off + 1 <= data.len() {
                Some((V::Byte(data[off]), 1, off + 1))
            } else {
                None
            }
        } else if c == C_BOOL {
            let p = pad_len(off, 4);
            if off + p + 4 <= data.len() {
                let x = u32_of(e, data.subrange(off + p, off + p + 4));
                if x == 0 {
                    Some((V::Boolean(false), 1, off + p + 4))
                } else if x == 1 {
                    Some((V::Boolean(true), 1, off + p + 4))
                } else {
                    None
                }
            } else {
                None
            }
        } else if c == C_INT16 || c == C_UINT16 {
            let p = pad_len(off, 2);
            if off + p + 2 <= data.len() {
                let x = u16_of(e, data.subrange(off + p, off + p + 2));
                Some((
                    if c == C_INT16 { V::Int16(x as i16) } else { V::Uint16(x) },
                    1,
                    off + p + 2,
                ))
            } else {
                None
            }
        } else if c == C_INT32 || c == C_UINT32 {
            let p = pad_len(off, 4);
            if off + p + 4 <= data.len() {
                let x = u32_of(e, data.subrange(off + p, off + p + 4));
                Some((
                    if c == C_INT32 { V::Int32(x as i32) } else { V::Uint32(x) },
                    1,
                    off + p + 4,
                ))
            } else {
                None
            }
        } else if c == C_INT64 || c == C_UINT64 || c == C_DOUBLE {
            let p = pad_len(off, 8);
            if off + p + 8 <= data.len() {
                let x = u64_of(e, data.subrange(off + p, off + p + 8));
                Some((
                    if c == C_INT64 { V::Int64(x as i64) }
                    else if c == C_UINT64 { V::Uint64(x) }
                    else { V::Double(x) },
                    1,
                    off + p + 8,
                ))
            } else {
                None
            }
        } else if c == C_STRING || c == C_PATH {
            let p = pad_len(off, 4);
            if off + p + 4 <= data.len() {
                let n = u32_of(e, data.subrange(off + p, off + p + 4)) as int;
                if off + p + 4 + n + 1 <= data.len() && data[off + p + 4 + n] == 0 {
                    let s = data.subrange(off + p + 4, off + p + 4 + n);
                    Some((
                        if c == C_STRING { V::Str(s) } else { V::ObjectPath(s) },
                        1,
                        off + p + 4 + n + 1,
                    ))
                } else {
                    None
                }
            } else {
                None
            }
        } else if c == C_SIG {
            if off + 1 <= data.len() {
                let n = data[off] as int;
                if off + 1 + n + 1 <= data.len() && data[off + 1 + n] == 0 {
                    Some((V::Signature(data.subrange(off + 1, off + 1 + n)), 1, off + 1 + n + 1))
                } else {
                    None
                }
            } else {
                None
            }
        } else if c == C_ARRAY {
            match sig_one_len(sig.skip(1)) {
                Some(n1) => {
                    let es = sig.subrange(1, 1 + n1);
                    let p = pad_len(off, 4);
                    if off + p + 4 <= data.len() {
                        let bl = u32_of(e, data.subrange(off + p, off + p + 4)) as int;
                        let q = pad_len(off + p + 4, align_of_code(es[0]));
                        let start = off + p + 4 + q;
                        if start + bl <= data.len() {
                            match dec_elems(e, es, data, start, start + bl) {
                                Some(elems) => Some((V::Array(es, elems), 1 + n1, start + bl)),
                                None => None,
                            }
                        } else {
                            None
                        }
                    } else {
                        None
                    }
                },
                None => None,
            }
        } else if c == C_STRUCT_OPEN {
            let p = pad_len(off, 8);
            if off + p <= data.len() {
                match dec_fields(e, sig.skip(1), data, off + p) {
                    Some((vals, su, end)) => if vals.len() >= 1 {
                        Some((V::Struct(vals), 1 + su, end))
                    } else {
                        None
                    },
                    None => None,
                }
            } else {
                None
            }
        } else if c == C_DICT_OPEN {
            let p = pad_len(off, 8);
            if sig.len() >= 2 && is_basic_code(sig[1]) && off + p <= data.len() {
                match dec(e, sig.skip(1), data, off + p) {
                    Some((kv, su1, koff)) => if !(su1 == 1 && off <= koff <= data.len()) {
                        None
                    } else { match sig_one_len(sig.skip(2)) {
                        Some(n2) => if 2 + n2 < sig.len() && sig[2 + n2] == C_DICT_CLOSE {
                            match dec(e, sig.skip(2), data, koff) {
                                Some((vv, su2, voff)) => if su2 == n2 {
                                    Some((V::DictEntry(Box::new(kv), Box::new(vv)), 3 + n2, voff))
                                } else {
                                    None
                                },
                                None => None,
                            }
                        } else {
                            None
                        },
                        None => None,
                    } },
                    None => None,
                }
            } else {
                None
            }
        } else if c == C_VARIANT {
            if off + 1 <= data.len() {
                let n = data[off] as int;
                if off + 1 + n + 1 <= data.len() && data[off + 1 + n] == 0 {
                    let sv = data.subrange(off + 1, off + 1 + n);
                    if sig_one_len(sv) == Some(n) {
                        match dec(e, sv, data, off + 1 + n + 1) {
                            Some((inner, su, ioff)) => if su == n {
                                Some((V::Variant(sv, Box::new(inner)), 1, ioff))
                            } else {
                                None
                            },
                            None => None,
                        }
                    } else {
                        None
                    }
                } else {
                    None
                }
            } else {
                None
            }
        } else {
            None
        }
    }
}

/// Reads values until the closing `)`, which it consumes; at least one
/// value must precede it for the caller's struct to be well-formed, which
/// the caller checks.
pub open spec fn dec_fields(e: Endian, sig: Seq<u8>, data: Seq<u8>, off: int) -> Option<
    (Seq<V>, int, int),
>
    decreases data.len() - off, sig.len(), 1int,
{
    if !(0 <= off <= data.len()) || sig.len() == 0 {
        None
    } else if sig[0] == C_STRUCT_CLOSE {
        Some((Seq::<V>::empty(), 1, off))
    } else {
        match dec(e, sig, data, off) {
            Some((v0, su0, off0)) => {
                if su0 < 1 || su0 > sig.len() || off0 < off || off0 > data.len() {
                    None
                } else {
                    match dec_fields(e, sig.skip(su0), data, off0) {
                        Some((vs, su, end)) => Some((seq![v0] + vs, su0 + su, end)),
                        None => None,
                    }
                }
            },
            None => None,
        }
    }
}

/// Reads values of the one element type `es` until exactly `end`; a
/// declared length that no whole number of elements meets is an error, as
/// is an element that consumes nothing.
pub open spec fn dec_elems(e: Endian, es: Seq<u8>, data: Seq<u8>, off: int, end: int) -> Option<
    Seq<V>,
>
    decreases data.len() - off, es.len(), 1int,
{
    if !(0 <= off <= data.len()) || end > data.len() {
        None
    } else if off == end {
        Some(Seq::<V>::empty())
    } else if off > end {
        None
    } else {
        match dec(e, es, data, off) {
            Some((v0, su0, off0)) => {
                if su0 != es.len() || off0 <= off || off0 > data.len() {
                    None
                } else {
                    match dec_elems(e, es, data, off0, end) {
                        Some(vs) => Some(seq![v0] + vs),
                        None => None,
                    }
                }
            },
            None => None,
        }
    }
}


/// A helper for reading inside a window: if `data` holds `w` at `off`, any
/// sub-window of `w` is found at the shifted offsets.
pub proof fn lemma_window(data: Seq<u8>, off: int, w: Seq<u8>, a: int, b: int)
    requires
        0 <= off,
        off + w.len() <= data.len(),
        data.subrange(off, off + w.len()) == w,
        0 <= a <= b <= w.len(),
    ensures
        data.subrange(off + a, off + b) == w.subrange(a, b),
{
    assert forall|j: int| 0 <= j < b - a implies data.subrange(off + a, off + b)[j]
        == w.subrange(a, b)[j] by {
        assert(data.subrange(off, off + w.len())[a + j] == w[a + j]);
    }
    assert(data.subrange(off + a, off + b) =~= w.subrange(a, b));
}

/// A signature never begins with a closing bracket, and is never empty.
pub proof fn lemma_sig_of_first(v: V)
    ensures
        sig_of(v).len() >= 1,
        sig_of(v)[0] != C_STRUCT_CLOSE,
        sig_of(v)[0] != C_DICT_CLOSE,
{
    match v {
        V::Array(es, _) => {
            assert((seq![C_ARRAY] + es)[0] == C_ARRAY);
        },
        V::Struct(fields) => {
            assert((seq![C_STRUCT_OPEN] + sig_of_list(fields) + seq![C_STRUCT_CLOSE])[0]
                == C_STRUCT_OPEN);
        },
        V::DictEntry(k, val) => {
            assert((seq![C_DICT_OPEN] + sig_of(*k) + sig_of(*val) + seq![C_DICT_CLOSE])[0]
                == C_DICT_OPEN);
        },
        _ => {},
    }
}

/// The signature of a well-formed value is one single complete type.
pub proof fn lemma_sig_of_complete(v: V)
    requires
        wf(v),
    ensures
        crate::sig::valid_sig_one(sig_of(v)),
    decreases v, 0int,
{
    match v {
        V::Array(es, _) => {
            assert((seq![C_ARRAY] + es).skip(1) =~= es);
            crate::sig::lemma_sig_one_len_bounds(es);
        },
        V::Struct(fields) => {
            lemma_sig_of_list_fields(fields, Seq::<u8>::empty());
            let s = sig_of(v);
            assert(s.skip(1) =~= sig_of_list(fields) + seq![C_STRUCT_CLOSE] + Seq::<u8>::empty());
        },
        V::DictEntry(k, val) => {
            lemma_sig_of_complete(*k);
            lemma_sig_of_complete(*val);
            let sk = sig_of(*k);
            let sval = sig_of(*val);
            let s = sig_of(v);
            assert(s[0] == C_DICT_OPEN && s[1] == sk[0]);
            assert(s.skip(2) =~= sval + seq![C_DICT_CLOSE]);
            crate::sig::lemma_sig_one_len_append(sval, seq![C_DICT_CLOSE]);
            assert(s[2 + sval.len() as int] == C_DICT_CLOSE);
        },
        _ => {},
    }
}

/// The concatenated signatures of one or more well-formed values, followed
/// by `)`, parse as a struct's field list of exactly their length.
pub proof fn lemma_sig_of_list_fields(vs: Seq<V>, rest: Seq<u8>)
    requires
        vs.len() >= 1,
        wf_list(vs),
    ensures
        crate::sig::sig_fields_len(sig_of_list(vs) + seq![C_STRUCT_CLOSE] + rest)
            == Some(sig_of_list(vs).len() as int),
    decreases vs, 1int,
{
    let s = sig_of_list(vs) + seq![C_STRUCT_CLOSE] + rest;
    let s0 = sig_of(vs[0]);
    let n = s0.len() as int;
    lemma_sig_of_complete(vs[0]);
    lemma_sig_of_first(vs[0]);
    assert(s =~= s0 + (sig_of_list(vs.skip(1)) + seq![C_STRUCT_CLOSE] + rest));
    assert(forall|i: int| 0 <= i < n ==> s[i] == s0[i]);
    crate::sig::lemma_sig_one_len_take(s0, s, n);
    if vs.len() == 1 {
        assert(sig_of_list(vs.skip(1)) =~= Seq::<u8>::empty());
        assert(s[n] == C_STRUCT_CLOSE);
    } else {
        lemma_sig_of_list_fields(vs.skip(1), rest);
        assert(s.skip(n) =~= sig_of_list(vs.skip(1)) + seq![C_STRUCT_CLOSE] + rest);
        lemma_sig_of_first(vs.skip(1)[0]);
        assert(sig_of_list(vs.skip(1))[0] == sig_of(vs.skip(1)[0])[0]);
        assert(s[n] == sig_of_list(vs.skip(1))[0]);
        assert(s[n] != C_STRUCT_CLOSE);
    }
}
/// Round-trip, general form: wherever `data` holds `enc(e, v, off)` at
/// `off`, the decoder directed by `v`'s signature (with anything at all
/// appended to it) reads exactly `v` back, consumes exactly the signature
/// of `v`, and stops exactly past its bytes.
#[verifier::rlimit(100)]
pub proof fn lemma_decode_encode(e: Endian, v: V, data: Seq<u8>, off: int, sig_rest: Seq<u8>)
    requires
        wf(v),
        max_size(v) <= 0xFFFF_FFFF,
        0 <= off,
        off + enc(e, v, off).len() <= data.len(),
        data.subrange(off, off + enc(e, v, off).len()) == enc(e, v, off),
    ensures
        dec(e, sig_of(v) + sig_rest, data, off)
            == Some((v, sig_of(v).len() as int, off + enc(e, v, off).len())),
    decreases v, 1int,
{
    let w = enc(e, v, off);
    let wl = w.len() as int;
    let sig = sig_of(v) + sig_rest;
    lemma_enc_size(e, v, off);
    assert(sig[0] == sig_of(v)[0]);
    match v {
        V::Array(_, _) => {
            lemma_de_array(e, v, data, off, sig_rest);
        },
        V::Struct(_) => {
            lemma_de_struct(e, v, data, off, sig_rest);
        },
        V::DictEntry(_, _) => {
            lemma_de_dict(e, v, data, off, sig_rest);
        },
        V::Variant(_, _) => {
            lemma_de_variant(e, v, data, off, sig_rest);
        },
        _ => {
            lemma_decode_encode_basic(e, v, data, off, sig_rest);
        },
    }
}


/// One constructor's case of `lemma_decode_encode`.
#[verifier::rlimit(100)]
proof fn lemma_de_array(e: Endian, v: V, data: Seq<u8>, off: int, sig_rest: Seq<u8>)
    requires
        wf(v),
        max_size(v) <= 0xFFFF_FFFF,
        v is Array,
        0 <= off,
        off + enc(e, v, off).len() <= data.len(),
        data.subrange(off, off + enc(e, v, off).len()) == enc(e, v, off),
    ensures
        dec(e, sig_of(v) + sig_rest, data, off)
            == Some((v, sig_of(v).len() as int, off + enc(e, v, off).len())),
    decreases v, 0int,
{
    let w = enc(e, v, off);
    let wl = w.len() as int;
    let sig = sig_of(v) + sig_rest;
    lemma_enc_size(e, v, off);
    assert(sig[0] == sig_of(v)[0]);
    match v {
        V::Array(es, elems) => {
            let p = pad_len(off, 4);
            let q = pad_len(off + p + 4, align_of_code(es[0]));
            let start = off + p + 4 + q;
            let el = enc_list(e, elems, start);
            let bl = el.len() as int;
            assert(w =~= zeros(p) + u32_bytes(e, el.len() as u32) + zeros(q) + el);
            crate::value::lemma_wf_list_index(elems);
            lemma_enc_list_size(e, elems, start);
            lemma_max_size_list_pos(elems);
            assert(bl <= max_size_list(elems) <= 0xFFFF_FFFF);
            // the declared element signature is found unchanged in front of
            // whatever follows it
            assert(sig_of(v) =~= seq![C_ARRAY] + es);
            assert(sig.skip(1) =~= es + sig_rest);
            crate::sig::lemma_sig_one_len_append(es, sig_rest);
            assert(sig_one_len(sig.skip(1)) == Some(es.len() as int));
            assert(sig.subrange(1, 1 + es.len() as int) =~= es);
            // the length prefix reads back as the element byte count
            lemma_window(data, off, w, p, p + 4);
            assert(w.subrange(p, p + 4) =~= u32_bytes(e, el.len() as u32));
            crate::scalar::lemma_u32_roundtrip(e, el.len() as u32);
            // the elements decode one by one
            lemma_window(data, off, w, p + 4 + q, wl);
            assert(w.subrange(p + 4 + q, wl) =~= el);
            lemma_decode_encode_elems(e, elems, es, data, start, start + bl);
        },
        _ => {},
    }
}

/// One constructor's case of `lemma_decode_encode`.
#[verifier::rlimit(100)]
proof fn lemma_de_struct(e: Endian, v: V, data: Seq<u8>, off: int, sig_rest: Seq<u8>)
    requires
        wf(v),
        max_size(v) <= 0xFFFF_FFFF,
        v is Struct,
        0 <= off,
        off + enc(e, v, off).len() <= data.len(),
        data.subrange(off, off + enc(e, v, off).len()) == enc(e, v, off),
    ensures
        dec(e, sig_of(v) + sig_rest, data, off)
            == Some((v, sig_of(v).len() as int, off + enc(e, v, off).len())),
    decreases v, 0int,
{
    let w = enc(e, v, off);
    let wl = w.len() as int;
    let sig = sig_of(v) + sig_rest;
    lemma_enc_size(e, v, off);
    assert(sig[0] == sig_of(v)[0]);
    match v {
        V::Struct(fields) => {
            let p = pad_len(off, 8);
            let el = enc_list(e, fields, off + p);
            assert(w =~= zeros(p) + el);
            assert(sig_of(v) =~= seq![C_STRUCT_OPEN] + sig_of_list(fields) + seq![C_STRUCT_CLOSE]);
            assert(sig.skip(1) =~= sig_of_list(fields) + seq![C_STRUCT_CLOSE] + sig_rest);
            lemma_window(data, off, w, p, wl);
            assert(w.subrange(p, wl) =~= el);
            lemma_max_size_list_pos(fields);
            lemma_decode_encode_fields(e, fields, data, off + p, sig_rest);
            assert(sig_of(v).len() as int == 1 + (sig_of_list(fields).len() + 1));
        },
        _ => {},
    }
}

/// One constructor's case of `lemma_decode_encode`.
#[verifier::rlimit(100)]
proof fn lemma_de_dict(e: Endian, v: V, data: Seq<u8>, off: int, sig_rest: Seq<u8>)
    requires
        wf(v),
        max_size(v) <= 0xFFFF_FFFF,
        v is DictEntry,
        0 <= off,
        off + enc(e, v, off).len() <= data.len(),
        data.subrange(off, off + enc(e, v, off).len()) == enc(e, v, off),
    ensures
        dec(e, sig_of(v) + sig_rest, data, off)
            == Some((v, sig_of(v).len() as int, off + enc(e, v, off).len())),
    decreases v, 0int,
{
    let w = enc(e, v, off);
    let wl = w.len() as int;
    let sig = sig_of(v) + sig_rest;
    lemma_enc_size(e, v, off);
    assert(sig[0] == sig_of(v)[0]);
    match v {
        V::DictEntry(k, val) => {
            let p = pad_len(off, 8);
            let kb = enc(e, *k, off + p);
            let vb = enc(e, *val, off + p + kb.len());
            assert(w =~= zeros(p) + kb + vb);
            let sk = sig_of(*k);
            let sval = sig_of(*val);
            let n2 = sval.len() as int;
            assert(sig_of(v) =~= seq![C_DICT_OPEN] + sk + sval + seq![C_DICT_CLOSE]);
            assert(sig.len() >= 2 && sig[1] == sk[0]);
            lemma_max_size_pos(*k);
            lemma_max_size_pos(*val);
            lemma_enc_size(e, *k, off + p);
            lemma_enc_size(e, *val, off + p + kb.len());
            // the key
            lemma_window(data, off, w, p, p + kb.len() as int);
            assert(w.subrange(p, p + kb.len() as int) =~= kb);
            assert(sig.skip(1) =~= sk + (sval + seq![C_DICT_CLOSE] + sig_rest));
            lemma_decode_encode(e, *k, data, off + p, sval + seq![C_DICT_CLOSE] + sig_rest);
            let koff = off + p + kb.len() as int;
            // the value type is one complete type followed by the brace
            lemma_sig_of_complete(*val);
            assert(sig.skip(2) =~= sval + (seq![C_DICT_CLOSE] + sig_rest));
            crate::sig::lemma_sig_one_len_append(sval, seq![C_DICT_CLOSE] + sig_rest);
            assert(sig_one_len(sig.skip(2)) == Some(n2));
            assert(sig[2 + n2] == C_DICT_CLOSE);
            // the value
            lemma_window(data, off, w, p + kb.len() as int, wl);
            assert(w.subrange(p + kb.len() as int, wl) =~= vb);
            lemma_decode_encode(e, *val, data, koff, seq![C_DICT_CLOSE] + sig_rest);
            assert(sig_of(v).len() as int == 3 + n2);
        },
        _ => {},
    }
}

/// One constructor's case of `lemma_decode_encode`.
#[verifier::rlimit(100)]
proof fn lemma_de_variant(e: Endian, v: V, data: Seq<u8>, off: int, sig_rest: Seq<u8>)
    requires
        wf(v),
        max_size(v) <= 0xFFFF_FFFF,
        v is Variant,
        0 <= off,
        off + enc(e, v, off).len() <= data.len(),
        data.subrange(off, off + enc(e, v, off).len()) == enc(e, v, off),
    ensures
        dec(e, sig_of(v) + sig_rest, data, off)
            == Some((v, sig_of(v).len() as int, off + enc(e, v, off).len())),
    decreases v, 0int,
{
    let w = enc(e, v, off);
    let wl = w.len() as int;
    let sig = sig_of(v) + sig_rest;
    lemma_enc_size(e, v, off);
    assert(sig[0] == sig_of(v)[0]);
    match v {
        V::Variant(sv, inner) => {
            let n = sv.len() as int;
            let ib = enc(e, *inner, off + n + 2);
            assert(pad_len(off, 1) == 0);
            assert(w =~= seq![sv.len() as u8] + sv + seq![0u8] + ib);
            assert(data.subrange(off, off + wl)[0] == w[0]);
            assert(w[0] == sv.len() as u8);
            assert(data.subrange(off, off + wl)[1 + n] == w[1 + n]);
            assert(w[1 + n] == 0u8);
            lemma_window(data, off, w, 1, 1 + n);
            assert(w.subrange(1, 1 + n) =~= sv);
            lemma_sig_of_complete(*inner);
            lemma_max_size_pos(*inner);
            lemma_enc_size(e, *inner, off + n + 2);
            lemma_window(data, off, w, 2 + n, wl);
            assert(w.subrange(2 + n, wl) =~= ib);
            lemma_decode_encode(e, *inner, data, off + n + 2, Seq::<u8>::empty());
            assert(sv + Seq::<u8>::empty() =~= sv);
        },
        _ => {},
    }
}


/// The string-like cases of `lemma_decode_encode`: a length prefix, the
/// bytes, a NUL.
#[verifier::rlimit(100)]
proof fn lemma_decode_encode_strings(e: Endian, v: V, data: Seq<u8>, off: int, sig_rest: Seq<u8>)
    requires
        wf(v),
        v is Str || v is ObjectPath || v is Signature,
        0 <= off,
        off + enc(e, v, off).len() <= data.len(),
        data.subrange(off, off + enc(e, v, off).len()) == enc(e, v, off),
    ensures
        dec(e, sig_of(v) + sig_rest, data, off)
            == Some((v, sig_of(v).len() as int, off + enc(e, v, off).len())),
{
    let w = enc(e, v, off);
    let wl = w.len() as int;
    let sig = sig_of(v) + sig_rest;
    lemma_enc_size(e, v, off);
    assert(sig[0] == sig_of(v)[0]);
    match v {
        V::Str(_) => {
            lemma_de_str(e, v, data, off, sig_rest);
        },
        V::ObjectPath(_) => {
            lemma_de_path(e, v, data, off, sig_rest);
        },
        V::Signature(_) => {
            lemma_de_sigval(e, v, data, off, sig_rest);
        },
        _ => {},
    }
}


/// One constructor's case of `lemma_decode_encode`.
#[verifier::rlimit(100)]
proof fn lemma_de_str(e: Endian, v: V, data: Seq<u8>, off: int, sig_rest: Seq<u8>)
    requires
        wf(v),
        v is Str,
        0 <= off,
        off + enc(e, v, off).len() <= data.len(),
        data.subrange(off, off + enc(e, v, off).len()) == enc(e, v, off),
    ensures
        dec(e, sig_of(v) + sig_rest, data, off)
            == Some((v, sig_of(v).len() as int, off + enc(e, v, off).len())),
{
    let w = enc(e, v, off);
    let wl = w.len() as int;
    let sig = sig_of(v) + sig_rest;
    lemma_enc_size(e, v, off);
    assert(sig[0] == sig_of(v)[0]);
    match v {
        V::Str(sb) => {
            let p = pad_len(off, 4);
            let n = sb.len() as int;
            assert(w =~= zeros(p) + u32_bytes(e, sb.len() as u32) + sb + seq![0u8]);
            lemma_window(data, off, w, p, p + 4);
            assert(w.subrange(p, p + 4) =~= u32_bytes(e, sb.len() as u32));
            crate::scalar::lemma_u32_roundtrip(e, sb.len() as u32);
            assert(data.subrange(off, off + wl)[p + 4 + n] == w[p + 4 + n]);
            assert(w[p + 4 + n] == 0u8);
            lemma_window(data, off, w, p + 4, p + 4 + n);
            assert(w.subrange(p + 4, p + 4 + n) =~= sb);
        },
        _ => {},
    }
}

/// One constructor's case of `lemma_decode_encode`.
#[verifier::rlimit(100)]
proof fn lemma_de_path(e: Endian, v: V, data: Seq<u8>, off: int, sig_rest: Seq<u8>)
    requires
        wf(v),
        v is ObjectPath,
        0 <= off,
        off + enc(e, v, off).len() <= data.len(),
        data.subrange(off, off + enc(e, v, off).len()) == enc(e, v, off),
    ensures
        dec(e, sig_of(v) + sig_rest, data, off)
            == Some((v, sig_of(v).len() as int, off + enc(e, v, off).len())),
{
    let w = enc(e, v, off);
    let wl = w.len() as int;
    let sig = sig_of(v) + sig_rest;
    lemma_enc_size(e, v, off);
    assert(sig[0] == sig_of(v)[0]);
    match v {
        V::ObjectPath(sb) => {
            let p = pad_len(off, 4);
            let n = sb.len() as int;
            assert(w =~= zeros(p) + u32_bytes(e, sb.len() as u32) + sb + seq![0u8]);
            lemma_window(data, off, w, p, p + 4);
            assert(w.subrange(p, p + 4) =~= u32_bytes(e, sb.len() as u32));
            crate::scalar::lemma_u32_roundtrip(e, sb.len() as u32);
            assert(data.subrange(off, off + wl)[p + 4 + n] == w[p + 4 + n]);
            assert(w[p + 4 + n] == 0u8);
            lemma_window(data, off, w, p + 4, p + 4 + n);
            assert(w.subrange(p + 4, p + 4 + n) =~= sb);
        },
        _ => {},
    }
}

/// One constructor's case of `lemma_decode_encode`.
#[verifier::rlimit(100)]
proof fn lemma_de_sigval(e: Endian, v: V, data: Seq<u8>, off: int, sig_rest: Seq<u8>)
    requires
        wf(v),
        v is Signature,
        0 <= off,
        off + enc(e, v, off).len() <= data.len(),
        data.subrange(off, off + enc(e, v, off).len()) == enc(e, v, off),
    ensures
        dec(e, sig_of(v) + sig_rest, data, off)
            == Some((v, sig_of(v).len() as int, off + enc(e, v, off).len())),
{
    let w = enc(e, v, off);
    let wl = w.len() as int;
    let sig = sig_of(v) + sig_rest;
    lemma_enc_size(e, v, off);
    assert(sig[0] == sig_of(v)[0]);
    match v {
        V::Signature(sb) => {
            let n = sb.len() as int;
            assert(pad_len(off, 1) == 0);
            assert(w =~= seq![sb.len() as u8] + sb + seq![0u8]);
            assert(data.subrange(off, off + wl)[0] == w[0]);
            assert(w[0] == sb.len() as u8);
            assert(data.subrange(off, off + wl)[1 + n] == w[1 + n]);
            assert(w[1 + n] == 0u8);
            lemma_window(data, off, w, 1, 1 + n);
            assert(w.subrange(1, 1 + n) =~= sb);
        },
        _ => {},
    }
}

/// The cases of `lemma_decode_encode` without recursion: the scalars and
/// the three string-like types.
#[verifier::rlimit(100)]
proof fn lemma_decode_encode_basic(e: Endian, v: V, data: Seq<u8>, off: int, sig_rest: Seq<u8>)
    requires
        wf(v),
        !(v is Array), !(v is Struct), !(v is DictEntry), !(v is Variant),
        0 <= off,
        off + enc(e, v, off).len() <= data.len(),
        data.subrange(off, off + enc(e, v, off).len()) == enc(e, v, off),
    ensures
        dec(e, sig_of(v) + sig_rest, data, off)
            == Some((v, sig_of(v).len() as int, off + enc(e, v, off).len())),
{
    let w = enc(e, v, off);
    let wl = w.len() as int;
    let sig = sig_of(v) + sig_rest;
    lemma_enc_size(e, v, off);
    assert(sig[0] == sig_of(v)[0]);
    match v {
        V::Byte(b) => {
            assert(w =~= seq![b]);
            assert(data.subrange(off, off + 1)[0] == b);
        },
        V::Boolean(b) => {
            let p = pad_len(off, 4);
            let x: u32 = if b { 1u32 } else { 0u32 };
            lemma_window(data, off, w, p, p + 4);
            assert(w.subrange(p, p + 4) =~= u32_bytes(e, x));
            crate::scalar::lemma_u32_roundtrip(e, x);
        },
        V::Int16(xv) => {
            let p = pad_len(off, 2);
            lemma_window(data, off, w, p, p + 2);
            assert(w.subrange(p, p + 2) =~= u16_bytes(e, xv as u16));
            crate::scalar::lemma_u16_roundtrip(e, xv as u16);
            crate::scalar::lemma_i16_roundtrip(xv);
        },
        V::Uint16(xv) => {
            let p = pad_len(off, 2);
            lemma_window(data, off, w, p, p + 2);
            assert(w.subrange(p, p + 2) =~= u16_bytes(e, xv));
            crate::scalar::lemma_u16_roundtrip(e, xv);
        },
        V::Int32(xv) => {
            let p = pad_len(off, 4);
            lemma_window(data, off, w, p, p + 4);
            assert(w.subrange(p, p + 4) =~= u32_bytes(e, xv as u32));
            crate::scalar::lemma_u32_roundtrip(e, xv as u32);
            crate::scalar::lemma_i32_roundtrip(xv);
        },
        V::Uint32(xv) => {
            let p = pad_len(off, 4);
            lemma_window(data, off, w, p, p + 4);
            assert(w.subrange(p, p + 4) =~= u32_bytes(e, xv));
            crate::scalar::lemma_u32_roundtrip(e, xv);
        },
        V::Int64(xv) => {
            let p = pad_len(off, 8);
            lemma_window(data, off, w, p, p + 8);
            assert(w.subrange(p, p + 8) =~= u64_bytes(e, xv as u64));
            crate::scalar::lemma_u64_roundtrip(e, xv as u64);
            crate::scalar::lemma_i64_roundtrip(xv);
        },
        V::Uint64(xv) => {
            let p = pad_len(off, 8);
            lemma_window(data, off, w, p, p + 8);
            assert(w.subrange(p, p + 8) =~= u64_bytes(e, xv));
            crate::scalar::lemma_u64_roundtrip(e, xv);
        },
        V::Double(xv) => {
            let p = pad_len(off, 8);
            lemma_window(data, off, w, p, p + 8);
            assert(w.subrange(p, p + 8) =~= u64_bytes(e, xv));
            crate::scalar::lemma_u64_roundtrip(e, xv);
        },
        V::Str(_) | V::ObjectPath(_) | V::Signature(_) => {
            lemma_decode_encode_strings(e, v, data, off, sig_rest);
        },
        _ => {},
    }
}

/// Round-trip for a struct's fields: the encoded fields, decoded against
/// their concatenated signatures followed by `)` and anything after it.
#[verifier::rlimit(60)]
pub proof fn lemma_decode_encode_fields(
    e: Endian,
    vs: Seq<V>,
    data: Seq<u8>,
    off: int,
    sig_rest: Seq<u8>,
)
    requires
        wf_list(vs),
        max_size_list(vs) <= 0xFFFF_FFFF,
        0 <= off,
        off + enc_list(e, vs, off).len() <= data.len(),
        data.subrange(off, off + enc_list(e, vs, off).len()) == enc_list(e, vs, off),
    ensures
        dec_fields(e, sig_of_list(vs) + seq![C_STRUCT_CLOSE] + sig_rest, data, off)
            == Some((vs, sig_of_list(vs).len() + 1 as int, off + enc_list(e, vs, off).len())),
    decreases vs, 1int,
{
    let sig = sig_of_list(vs) + seq![C_STRUCT_CLOSE] + sig_rest;
    if vs.len() == 0 {
        assert(sig_of_list(vs) =~= Seq::<u8>::empty());
        assert(sig[0] == C_STRUCT_CLOSE);
        assert(Seq::<V>::empty() =~= vs);
    } else {
        let el = enc_list(e, vs, off);
        let b0 = enc(e, vs[0], off);
        let s0 = sig_of(vs[0]);
        let rest1 = sig_of_list(vs.skip(1)) + seq![C_STRUCT_CLOSE] + sig_rest;
        lemma_sig_of_first(vs[0]);
        assert(sig =~= s0 + rest1);
        assert(sig[0] == s0[0]);
        lemma_max_size_pos(vs[0]);
        lemma_max_size_list_pos(vs.skip(1));
        lemma_enc_size(e, vs[0], off);
        lemma_window(data, off, el, 0, b0.len() as int);
        assert(el.subrange(0, b0.len() as int) =~= b0);
        lemma_decode_encode(e, vs[0], data, off, rest1);
        let off0 = off + b0.len() as int;
        assert(sig.skip(s0.len() as int) =~= rest1);
        lemma_window(data, off, el, b0.len() as int, el.len() as int);
        assert(el.subrange(b0.len() as int, el.len() as int) =~= enc_list(e, vs.skip(1), off0));
        lemma_decode_encode_fields(e, vs.skip(1), data, off0, sig_rest);
        assert(seq![vs[0]] + vs.skip(1) =~= vs);
    }
}

/// Round-trip for an array's elements: the encoded elements of one
/// declared type, decoded until exactly their combined byte length.
#[verifier::rlimit(60)]
pub proof fn lemma_decode_encode_elems(
    e: Endian,
    vs: Seq<V>,
    es: Seq<u8>,
    data: Seq<u8>,
    off: int,
    end: int,
)
    requires
        forall|i: int| 0 <= i < vs.len() ==> sig_of(#[trigger] vs[i]) == es && wf(vs[i]),
        max_size_list(vs) <= 0xFFFF_FFFF,
        0 <= off,
        end == off + enc_list(e, vs, off).len(),
        end <= data.len(),
        data.subrange(off, end) == enc_list(e, vs, off),
    ensures
        dec_elems(e, es, data, off, end) == Some(vs),
    decreases vs, 1int,
{
    crate::value::lemma_wf_list_index(vs);
    if vs.len() == 0 {
        assert(Seq::<V>::empty() =~= vs);
    } else {
        let el = enc_list(e, vs, off);
        let b0 = enc(e, vs[0], off);
        lemma_max_size_pos(vs[0]);
        lemma_max_size_list_pos(vs.skip(1));
        lemma_enc_size(e, vs[0], off);
        lemma_window(data, off, el, 0, b0.len() as int);
        assert(el.subrange(0, b0.len() as int) =~= b0);
        lemma_decode_encode(e, vs[0], data, off, Seq::<u8>::empty());
        assert(sig_of(vs[0]) + Seq::<u8>::empty() =~= es);
        let off0 = off + b0.len() as int;
        lemma_window(data, off, el, b0.len() as int, el.len() as int);
        assert(el.subrange(b0.len() as int, el.len() as int) =~= enc_list(e, vs.skip(1), off0));
        assert forall|i: int| 0 <= i < vs.skip(1).len() implies sig_of(#[trigger] vs.skip(1)[i]) == es
            && wf(vs.skip(1)[i]) by {
            assert(vs.skip(1)[i] == vs[i + 1]);
        }
        lemma_decode_encode_elems(e, vs.skip(1), es, data, off0, end);
        assert(seq![vs[0]] + vs.skip(1) =~= vs);
    }
}

/// Round-trip: for every representable well-formed value, decoding what
/// the codec encoded yields the value back, whatever offset it was
/// encoded at within a message.
pub proof fn lemma_round_trip(e: Endian, v: V, off: int)
    requires
        wf(v),
        max_size(v) <= 0xFFFF_FFFF,
        0 <= off,
    ensures
        dec(e, sig_of(v), zeros(off) + enc(e, v, off), off)
            == Some((v, sig_of(v).len() as int, off + enc(e, v, off).len())),
{
    let data = zeros(off) + enc(e, v, off);
    assert(data.subrange(off, off + enc(e, v, off).len()) =~= enc(e, v, off));
    assert(sig_of(v) + Seq::<u8>::empty() =~= sig_of(v));
    lemma_decode_encode(e, v, data, off, Seq::<u8>::empty());
}

/// Alignment invariant: the encoding of any well-formed value at any
/// offset from message start opens with exactly the zero bytes that bring
/// that offset up to a multiple of the value's natural alignment, so the
/// value's own bytes start on that multiple.
pub proof fn lemma_encode_alignment(e: Endian, v: V, off: int)
    requires
        wf(v),
    ensures
        1 <= align_of_value(v),
        0 <= pad_len(off, align_of_value(v)) < align_of_value(v),
        (off + pad_len(off, align_of_value(v))) % align_of_value(v) == 0,
        pad_len(off, align_of_value(v)) < enc(e, v, off).len(),
        enc(e, v, off).subrange(0, pad_len(off, align_of_value(v)))
            == zeros(pad_len(off, align_of_value(v))),
    decreases v,
{
    let a = align_of_value(v);
    let p = pad_len(off, a);
    lemma_pad(off, a);
    lemma_enc_size(e, v, off);
    assert(enc(e, v, off).subrange(0, p) =~= zeros(p));
    assert(enc(e, v, off).len() - p >= 1) by {
        match v {
            V::Struct(fields) => {
                lemma_enc_list_size(e, fields, off + p);
            },
            V::DictEntry(k, val) => {
                lemma_enc_size(e, *k, off + p);
            },
            _ => {},
        }
    }
}

} // verus!

verus! {

/// Reads values until the signature is exhausted: a message body is a
/// sequence of complete types with no terminator of its own.
pub open spec fn dec_list(e: Endian, sig: Seq<u8>, data: Seq<u8>, off: int) -> Option<
    (Seq<V>, int),
>
    decreases data.len() - off, sig.len(), 2int,
{
    if !(0 <= off <= data.len()) {
        None
    } else if sig.len() == 0 {
        Some((Seq::<V>::empty(), off))
    } else {
        match dec(e, sig, data, off) {
            Some((v0, su0, off0)) => {
                if su0 < 1 || su0 > sig.len() || off0 < off || off0 > data.len() {
                    None
                } else {
                    match dec_list(e, sig.skip(su0), data, off0) {
                        Some((vs, end)) => Some((seq![v0] + vs, end)),
                        None => None,
                    }
                }
            },
            None => None,
        }
    }
}

} // verus!
