//! The executable side of the wire codec: `encode_value` produces exactly
//! the bytes `enc` describes, `decode_value` reads exactly the value `dec`
//! describes, and neither ever reads or writes outside the buffers handed
//! to them.

use vstd::prelude::*;
use crate::sig::{valid_sig_one, lemma_sig_one_len_bounds};
use crate::value::{Value, V, v_view, view_list, lemma_view_list_index, sig_of, wf, wf_list,
    max_size, max_size_list, lemma_max_size_pos, lemma_max_size_list_pos, lemma_wf_list_index};
use crate::scalar::{Endian, u32_bytes, put_u16, put_u32, put_u64};
use crate::codec::{zeros, pad_len, enc, enc_list, dec, dec_fields, dec_elems, dec_list, lemma_enc_size,
    lemma_enc_list_size, lemma_enc_list_snoc, lemma_pad};

verus! {

/// Appends `n` zero bytes.
pub fn push_zeros(buf: &mut Vec<u8>, n: usize)
    ensures
        final(buf)@ == old(buf)@ + zeros(n as int),
{
    let mut i: usize = 0;
    while i < n
        invariant
            i <= n,
            buf@ == old(buf)@ + zeros(i as int),
        decreases n - i,
    {
        buf.push(0);
        i = i + 1;
        proof {
            assert(buf@ =~= old(buf)@ + zeros(i as int));
        }
    }
}

/// Appends the zero bytes that bring the buffer's length up to a multiple
/// of `a`.
pub fn push_pad(buf: &mut Vec<u8>, a: usize)
    requires
        a == 1 || a == 2 || a == 4 || a == 8,
    ensures
        final(buf)@ == old(buf)@ + zeros(pad_len(old(buf)@.len() as int, a as int)),
        final(buf)@.len() == old(buf)@.len() + pad_len(old(buf)@.len() as int, a as int),
{
    proof {
        lemma_pad(buf@.len() as int, a as int);
    }
    let r = buf.len() % a;
    let p = if r == 0 { 0 } else { a - r };
    push_zeros(buf, p);
}

/// Appends a copy of `s`.
pub fn push_bytes(buf: &mut Vec<u8>, s: &Vec<u8>)
    ensures
        final(buf)@ == old(buf)@ + s@,
{
    let mut i: usize = 0;
    while i < s.len()
        invariant
            i <= s@.len(),
            buf@ == old(buf)@ + s@.subrange(0, i as int),
        decreases s@.len() - i,
    {
        buf.push(s[i]);
        i = i + 1;
        proof {
            assert(buf@ =~= old(buf)@ + s@.subrange(0, i as int));
        }
    }
    proof {
        assert(s@.subrange(0, s@.len() as int) =~= s@);
    }
}

/// Overwrites the four bytes at `pos` with `x` under byte order `e`; the
/// rest of the buffer is untouched.
pub fn patch_u32(buf: &mut Vec<u8>, pos: usize, e: Endian, x: u32)
    requires
        pos + 4 <= old(buf)@.len(),
    ensures
        final(buf)@.len() == old(buf)@.len(),
        final(buf)@.subrange(pos as int, pos + 4) == u32_bytes(e, x),
        final(buf)@.subrange(0, pos as int) == old(buf)@.subrange(0, pos as int),
        final(buf)@.subrange(pos + 4, old(buf)@.len() as int)
            == old(buf)@.subrange(pos + 4, old(buf)@.len() as int),
{
    let blen = buf.len();
    assert(pos + 4 <= blen);
    match e {
        Endian::Little => {
            buf.set(pos, (x & 0xFF) as u8);
            buf.set(pos + 1, ((x >> 8) & 0xFF) as u8);
            buf.set(pos + 2, ((x >> 16) & 0xFF) as u8);
            buf.set(pos + 3, ((x >> 24) & 0xFF) as u8);
        },
        Endian::Big => {
            buf.set(pos, ((x >> 24) & 0xFF) as u8);
            buf.set(pos + 1, ((x >> 16) & 0xFF) as u8);
            buf.set(pos + 2, ((x >> 8) & 0xFF) as u8);
            buf.set(pos + 3, (x & 0xFF) as u8);
        },
    }
    proof {
        assert(buf@.subrange(pos as int, pos + 4) =~= u32_bytes(e, x));
        assert(buf@.subrange(0, pos as int) =~= old(buf)@.subrange(0, pos as int));
        assert(buf@.subrange(pos + 4, old(buf)@.len() as int)
            =~= old(buf)@.subrange(pos + 4, old(buf)@.len() as int));
    }
}

/// Two equally long byte sequences that agree on three consecutive spans
/// covering them are equal.
pub proof fn lemma_eq_by_parts(x: Seq<u8>, y: Seq<u8>, m1: int, m2: int)
    requires
        0 <= m1 <= m2 <= x.len(),
        x.len() == y.len(),
        x.subrange(0, m1) == y.subrange(0, m1),
        x.subrange(m1, m2) == y.subrange(m1, m2),
        x.subrange(m2, x.len() as int) == y.subrange(m2, y.len() as int),
    ensures
        x == y,
{
    assert forall|j: int| 0 <= j < x.len() implies x[j] == y[j] by {
        if j < m1 {
            assert(x.subrange(0, m1)[j] == x[j]);
            assert(y.subrange(0, m1)[j] == y[j]);
        } else if j < m2 {
            assert(x.subrange(m1, m2)[j - m1] == x[j]);
            assert(y.subrange(m1, m2)[j - m1] == y[j]);
        } else {
            assert(x.subrange(m2, x.len() as int)[j - m2] == x[j]);
            assert(y.subrange(m2, y.len() as int)[j - m2] == y[j]);
        }
    }
    assert(x =~= y);
}


/// Appends the encodings of the values of `vs`, one after the other, each
/// at the offset where the previous one ended.
#[verifier::rlimit(100)]
pub fn encode_list(e: Endian, vs: &Vec<Value>, buf: &mut Vec<u8>)
    requires
        wf_list(view_list(vs@)),
        max_size_list(view_list(vs@)) <= 0xFFFF_FFFF,
    ensures
        final(buf)@ == old(buf)@ + enc_list(e, view_list(vs@), old(buf)@.len() as int),
    decreases *vs, 1int,
{
    let ghost vsv = view_list(vs@);
    let ghost start = buf@.len() as int;
    let mut i: usize = 0;
    proof {
        assert(vsv.subrange(0, 0) =~= Seq::<V>::empty());
    }
    while i < vs.len()
        invariant
            i <= vs@.len(),
            vsv == view_list(vs@),
            wf_list(vsv),
            max_size_list(vsv) <= 0xFFFF_FFFF,
            start == old(buf)@.len() as int,
            buf@ == old(buf)@ + enc_list(e, vsv.subrange(0, i as int), start),
        decreases vs@.len() - i,
    {
        proof {
            lemma_view_list_index(vs@);
            lemma_wf_list_index(vsv);
            lemma_max_size_list_pos(vsv);
            assert(decreases_to!(*vs => vs@));
            assert(decreases_to!(vs@ => vs@[i as int]));
            assert(decreases_to!(*vs => vs@[i as int]));
            assert(wf(vsv[i as int]) && max_size(vsv[i as int]) <= 0xFFFF_FFFF);
        }
        encode_value(e, &vs[i], buf);
        i = i + 1;
        proof {
            lemma_enc_list_snoc(e, vsv, i - 1, start);
            assert(buf@ =~= old(buf)@ + enc_list(e, vsv.subrange(0, i as int), start));
        }
    }
    proof {
        lemma_view_list_index(vs@);
        assert(vsv.subrange(0, vsv.len() as int) =~= vsv);
    }
}

/// Appends the encoding of `v` at the buffer's current length, taken as
/// the offset from message start. Infallible: every well-formed value of
/// bounded size encodes.
#[verifier::rlimit(100)]
pub fn encode_value(e: Endian, v: &Value, buf: &mut Vec<u8>)
    requires
        wf(v_view(*v)),
        max_size(v_view(*v)) <= 0xFFFF_FFFF,
    ensures
        final(buf)@ == old(buf)@ + enc(e, v_view(*v), old(buf)@.len() as int),
    decreases *v, 1int,
{
    let ghost off = buf@.len() as int;
    let ghost w = enc(e, v_view(*v), off);
    match v {
        Value::Byte(b) => {
            buf.push(*b);
            proof {
                assert(buf@ =~= old(buf)@ + w);
            }
        },
        Value::Boolean(b) => {
            push_pad(buf, 4);
            put_u32(buf, e, if *b { 1 } else { 0 });
            proof {
                assert(buf@ =~= old(buf)@ + w);
            }
        },
        Value::Int16(x) => {
            push_pad(buf, 2);
            put_u16(buf, e, *x as u16);
            proof {
                assert(buf@ =~= old(buf)@ + w);
            }
        },
        Value::Uint16(x) => {
            push_pad(buf, 2);
            put_u16(buf, e, *x);
            proof {
                assert(buf@ =~= old(buf)@ + w);
            }
        },
        Value::Int32(x) => {
            push_pad(buf, 4);
            put_u32(buf, e, *x as u32);
            proof {
                assert(buf@ =~= old(buf)@ + w);
            }
        },
        Value::Uint32(x) => {
            push_pad(buf, 4);
            put_u32(buf, e, *x);
            proof {
                assert(buf@ =~= old(buf)@ + w);
            }
        },
        Value::Int64(x) => {
            push_pad(buf, 8);
            put_u64(buf, e, *x as u64);
            proof {
                assert(buf@ =~= old(buf)@ + w);
            }
        },
        Value::Uint64(x) => {
            push_pad(buf, 8);
            put_u64(buf, e, *x);
            proof {
                assert(buf@ =~= old(buf)@ + w);
            }
        },
        Value::Double(x) => {
            push_pad(buf, 8);
            put_u64(buf, e, *x);
            proof {
                assert(buf@ =~= old(buf)@ + w);
            }
        },
        Value::Str(_) | Value::ObjectPath(_) | Value::Signature(_) => {
            encode_strlike(e, v, buf);
        },
        Value::Variant(_, _) | Value::DictEntry(_, _) => {
            encode_nested(e, v, buf);
        },
        Value::Struct(fields) => {
            push_pad(buf, 8);
            proof {
                lemma_view_list_index(fields@);
                assert(decreases_to!(*v => v->Struct_0));
                assert(decreases_to!(*v => *fields));
            }
            encode_list(e, fields, buf);
            proof {
                assert(buf@ =~= old(buf)@ + w);
            }
        },
        Value::Array(_, _) => {
            encode_array(e, v, buf);
        },
    }
}

/// The array case of `encode_value`: length placeholder, element padding,
/// elements, patched length.
#[verifier::rlimit(100)]
fn encode_array(e: Endian, v: &Value, buf: &mut Vec<u8>)
    requires
        wf(v_view(*v)),
        max_size(v_view(*v)) <= 0xFFFF_FFFF,
        v is Array,
    ensures
        final(buf)@ == old(buf)@ + enc(e, v_view(*v), old(buf)@.len() as int),
    decreases *v, 0int,
{
    let ghost off = buf@.len() as int;
    let ghost w = enc(e, v_view(*v), off);
    match v {
        Value::Array(es, elems) => {

            let ghost esv = es@;
            let ghost elv = view_list(elems@);
            proof {
                lemma_sig_one_len_bounds(es@);
            }
            push_pad(buf, 4);
            let ghost p = pad_len(off, 4);
            let lenpos = buf.len();
            put_u32(buf, e, 0);
            let a0 = es[0];
            let a: usize = if a0 == crate::sig::C_INT16 || a0 == crate::sig::C_UINT16 {
                2
            } else if a0 == crate::sig::C_BOOL || a0 == crate::sig::C_INT32
                || a0 == crate::sig::C_UINT32 || a0 == crate::sig::C_STRING
                || a0 == crate::sig::C_PATH || a0 == crate::sig::C_ARRAY {
                4
            } else if a0 == crate::sig::C_INT64 || a0 == crate::sig::C_UINT64
                || a0 == crate::sig::C_DOUBLE || a0 == crate::sig::C_STRUCT_OPEN
                || a0 == crate::sig::C_DICT_OPEN {
                8
            } else {
                1
            };
            proof {
                assert(a as int == crate::sig::align_of_code(esv[0]));
            }
            push_pad(buf, a);
            let ghost q = pad_len(off + p + 4, crate::sig::align_of_code(esv[0]));
            let start = buf.len();
            proof {
                assert(start as int == off + p + 4 + q);
            }
            proof {
                lemma_view_list_index(elems@);
                lemma_wf_list_index(elv);
                lemma_max_size_list_pos(elv);
                assert(decreases_to!(*v => v->Array_1));
                assert(decreases_to!(*v => *elems));
                assert(wf_list(elv) && max_size_list(elv) <= 0xFFFF_FFFF);
            }
            encode_list(e, elems, buf);
            proof {
                lemma_enc_list_size(e, elv, start as int);
            }
            let el_len = buf.len() - start;
            patch_u32(buf, lenpos, e, el_len as u32);
            proof {
                let el = enc_list(e, elv, start as int);
                let target = old(buf)@ + zeros(p) + u32_bytes(e, el.len() as u32) + zeros(q) + el;
                let before = old(buf)@ + zeros(p) + u32_bytes(e, 0) + zeros(q) + el;
                assert(buf@.subrange(0, lenpos as int) =~= target.subrange(0, lenpos as int)) by {
                    assert(before.subrange(0, lenpos as int) =~= target.subrange(0, lenpos as int));
                }
                assert(target.subrange(lenpos as int, lenpos + 4) =~= u32_bytes(e, el.len() as u32));
                assert(buf@.subrange(lenpos + 4, buf@.len() as int)
                    =~= target.subrange(lenpos + 4, target.len() as int)) by {
                    assert(before.subrange(lenpos + 4, before.len() as int)
                        =~= target.subrange(lenpos + 4, target.len() as int));
                }
                lemma_eq_by_parts(buf@, target, lenpos as int, lenpos + 4);
                assert(buf@ =~= old(buf)@ + w);
            }
        },
        _ => {},
    }
}


/// The string-like cases of `encode_value`.
#[verifier::rlimit(100)]
fn encode_strlike(e: Endian, v: &Value, buf: &mut Vec<u8>)
    requires
        wf(v_view(*v)),
        v is Str || v is ObjectPath || v is Signature,
    ensures
        final(buf)@ == old(buf)@ + enc(e, v_view(*v), old(buf)@.len() as int),
{
    let ghost off = buf@.len() as int;
    let ghost w = enc(e, v_view(*v), off);
    match v {
        Value::Str(s) => {
            push_pad(buf, 4);
            put_u32(buf, e, s.len() as u32);
            push_bytes(buf, s);
            buf.push(0);
            proof {
                assert(buf@ =~= old(buf)@ + w);
            }
        },
        Value::ObjectPath(s) => {
            push_pad(buf, 4);
            put_u32(buf, e, s.len() as u32);
            push_bytes(buf, s);
            buf.push(0);
            proof {
                assert(buf@ =~= old(buf)@ + w);
            }
        },
        Value::Signature(s) => {
            buf.push(s.len() as u8);
            push_bytes(buf, s);
            buf.push(0);
            proof {
                assert(pad_len(off, 1) == 0);
                assert(buf@ =~= old(buf)@ + w);
            }
        },
        _ => {
            proof {
                assert(false);
            }
        },
    }
}

/// The variant and dict-entry cases of `encode_value`.
#[verifier::rlimit(100)]
fn encode_nested(e: Endian, v: &Value, buf: &mut Vec<u8>)
    requires
        wf(v_view(*v)),
        max_size(v_view(*v)) <= 0xFFFF_FFFF,
        v is Variant || v is DictEntry,
    ensures
        final(buf)@ == old(buf)@ + enc(e, v_view(*v), old(buf)@.len() as int),
    decreases *v, 0int,
{
    let ghost off = buf@.len() as int;
    let ghost w = enc(e, v_view(*v), off);
    match v {
        Value::Variant(sv, inner) => {
            buf.push(sv.len() as u8);
            push_bytes(buf, sv);
            buf.push(0);
            proof {
                lemma_max_size_pos(v_view(**inner));
            }
            encode_value(e, inner, buf);
            proof {
                assert(pad_len(off, 1) == 0);
                assert(buf@ =~= old(buf)@ + w);
            }
        },
        Value::DictEntry(k, val) => {
            push_pad(buf, 8);
            proof {
                lemma_max_size_pos(v_view(**k));
                lemma_max_size_pos(v_view(**val));
            }
            encode_value(e, k, buf);
            encode_value(e, val, buf);
            proof {
                assert(buf@ =~= old(buf)@ + w);
            }
        },
        _ => {
            proof {
                assert(false);
            }
        },
    }
}

/// Encodes `v` as the whole of a fresh buffer: its bytes at offset zero
/// from message start.
pub fn encode(e: Endian, v: &Value) -> (r: Vec<u8>)
    requires
        wf(v_view(*v)),
        max_size(v_view(*v)) <= 0xFFFF_FFFF,
    ensures
        r@ == enc(e, v_view(*v), 0),
{
    let mut buf: Vec<u8> = Vec::new();
    encode_value(e, v, &mut buf);
    proof {
        assert(buf@ =~= enc(e, v_view(*v), 0));
    }
    buf
}

} // verus!

verus! {

/// Copies `data[a..b]` into a fresh vector.
pub fn copy_range(data: &Vec<u8>, a: usize, b: usize) -> (r: Vec<u8>)
    requires
        a <= b <= data@.len(),
    ensures
        r@ == data@.subrange(a as int, b as int),
{
    let mut r: Vec<u8> = Vec::new();
    let mut i: usize = a;
    while i < b
        invariant
            a <= i <= b <= data@.len(),
            r@ == data@.subrange(a as int, i as int),
        decreases b - i,
    {
        r.push(data[i]);
        i = i + 1;
        proof {
            assert(r@ =~= data@.subrange(a as int, i as int));
        }
    }
    proof {
        assert(r@ =~= data@.subrange(a as int, b as int));
    }
    r
}

/// The number of padding bytes from `off` up to a multiple of `a`.
pub fn pad_of(off: usize, a: usize) -> (r: usize)
    requires
        a == 1 || a == 2 || a == 4 || a == 8,
    ensures
        r as int == pad_len(off as int, a as int),
        r < a,
{
    proof {
        lemma_pad(off as int, a as int);
    }
    let r = off % a;
    if r == 0 { 0 } else { a - r }
}

/// The deep view distributes over prepending one value.
proof fn lemma_view_list_cons(x: Value, s: Seq<Value>)
    ensures
        view_list(seq![x] + s) == seq![v_view(x)] + view_list(s),
{
    let t = seq![x] + s;
    assert(t[0] == x);
    assert(t.skip(1) =~= s);
    assert(view_list(t) =~= seq![v_view(x)] + view_list(s));
}

} // verus!

verus! {

/// Exec mirror of `align_of_code`.
pub fn align_of_code_exec(c: u8) -> (a: usize)
    ensures
        a as int == crate::sig::align_of_code(c),
        a == 1 || a == 2 || a == 4 || a == 8,
{
    if c == crate::sig::C_INT16 || c == crate::sig::C_UINT16 {
        2
    } else if c == crate::sig::C_BOOL || c == crate::sig::C_INT32 || c == crate::sig::C_UINT32
        || c == crate::sig::C_STRING || c == crate::sig::C_PATH || c == crate::sig::C_ARRAY {
        4
    } else if c == crate::sig::C_INT64 || c == crate::sig::C_UINT64 || c == crate::sig::C_DOUBLE
        || c == crate::sig::C_STRUCT_OPEN || c == crate::sig::C_DICT_OPEN {
        8
    } else {
        1
    }
}

/// Reads the single complete type starting at `sig[sigpos]` out of `data`
/// at `off`: the value, the signature bytes consumed, the offset just past
/// the value's bytes. Mirrors `dec` exactly; fails exactly where it does,
/// and never reads outside either buffer.
#[verifier::rlimit(100)]
pub fn decode_value(e: Endian, sig: &Vec<u8>, sigpos: usize, data: &Vec<u8>, off: usize) -> (r:
    Option<(Value, usize, usize)>)
    requires
        sigpos <= sig@.len(),
        off <= data@.len(),
    ensures
        match r {
            Some(t) => dec(e, sig@.skip(sigpos as int), data@, off as int)
                == Some((v_view(t.0), t.1 as int, t.2 as int))
                && sigpos + t.1 <= sig@.len() && off <= t.2 <= data@.len() && 1 <= t.1,
            None => dec(e, sig@.skip(sigpos as int), data@, off as int) is None,
        },
    decreases data@.len() - off, sig@.len() - sigpos, 1int,
{
    let dlen = data.len();
    let ghost gsig = sig@.skip(sigpos as int);
    if sigpos == sig.len() {
        return None;
    }
    let c = sig[sigpos];
    proof {
        assert(gsig[0] == c);
    }
    if c == crate::sig::C_BYTE {
        if dlen - off >= 1 {
            Some((Value::Byte(data[off]), 1, off + 1))
        } else {
            None
        }
    } else if c == crate::sig::C_BOOL {
        let p = pad_of(off, 4);
        if dlen - off >= p && dlen - off - p >= 4 {
            let x = crate::scalar::get_u32(data, off + p, e);
            if x == 0 {
                Some((Value::Boolean(false), 1, off + p + 4))
            } else if x == 1 {
                Some((Value::Boolean(true), 1, off + p + 4))
            } else {
                None
            }
        } else {
            None
        }
    } else if c == crate::sig::C_INT16 || c == crate::sig::C_UINT16 {
        let p = pad_of(off, 2);
        if dlen - off >= p && dlen - off - p >= 2 {
            let x = crate::scalar::get_u16(data, off + p, e);
            if c == crate::sig::C_INT16 {
                Some((Value::Int16(x as i16), 1, off + p + 2))
            } else {
                Some((Value::Uint16(x), 1, off + p + 2))
            }
        } else {
            None
        }
    } else if c == crate::sig::C_INT32 || c == crate::sig::C_UINT32 {
        let p = pad_of(off, 4);
        if dlen - off >= p && dlen - off - p >= 4 {
            let x = crate::scalar::get_u32(data, off + p, e);
            if c == crate::sig::C_INT32 {
                Some((Value::Int32(x as i32), 1, off + p + 4))
            } else {
                Some((Value::Uint32(x), 1, off + p + 4))
            }
        } else {
            None
        }
    } else if c == crate::sig::C_INT64 || c == crate::sig::C_UINT64 || c == crate::sig::C_DOUBLE {
        let p = pad_of(off, 8);
        if dlen - off >= p && dlen - off - p >= 8 {
            let x = crate::scalar::get_u64(data, off + p, e);
            if c == crate::sig::C_INT64 {
                Some((Value::Int64(x as i64), 1, off + p + 8))
            } else if c == crate::sig::C_UINT64 {
                Some((Value::Uint64(x), 1, off + p + 8))
            } else {
                Some((Value::Double(x), 1, off + p + 8))
            }
        } else {
            None
        }
    } else if c == crate::sig::C_STRING || c == crate::sig::C_PATH {
        let p = pad_of(off, 4);
        if dlen - off >= p && dlen - off - p >= 4 {
            let n32 = crate::scalar::get_u32(data, off + p, e);
            let n = n32 as usize;
            if n < dlen - off - p - 4 && data[off + p + 4 + n] == 0 {
                let s = copy_range(data, off + p + 4, off + p + 4 + n);
                if c == crate::sig::C_STRING {
                    Some((Value::Str(s), 1, off + p + 4 + n + 1))
                } else {
                    Some((Value::ObjectPath(s), 1, off + p + 4 + n + 1))
                }
            } else {
                None
            }
        } else {
            None
        }
    } else if c == crate::sig::C_SIG {
        if dlen - off >= 1 {
            let n = data[off] as usize;
            if n < dlen - off - 1 && data[off + 1 + n] == 0 {
                let s = copy_range(data, off + 1, off + 1 + n);
                Some((Value::Signature(s), 1, off + 1 + n + 1))
            } else {
                None
            }
        } else {
            None
        }
    } else if c == crate::sig::C_ARRAY {
        decode_array(e, sig, sigpos, data, off)
    } else if c == crate::sig::C_STRUCT_OPEN {
        decode_struct(e, sig, sigpos, data, off)
    } else if c == crate::sig::C_DICT_OPEN {
        decode_dict(e, sig, sigpos, data, off)
    } else if c == crate::sig::C_VARIANT {
        decode_variant(e, sig, sigpos, data, off)
    } else {
        None
    }
}

/// The array case of `decode_value`.
#[verifier::rlimit(100)]
fn decode_array(e: Endian, sig: &Vec<u8>, sigpos: usize, data: &Vec<u8>, off: usize) -> (r:
    Option<(Value, usize, usize)>)
    requires
        sigpos < sig@.len(),
        off <= data@.len(),
        sig@[sigpos as int] == crate::sig::C_ARRAY,
    ensures
        match r {
            Some(t) => dec(e, sig@.skip(sigpos as int), data@, off as int)
                == Some((v_view(t.0), t.1 as int, t.2 as int))
                && sigpos + t.1 <= sig@.len() && off <= t.2 <= data@.len() && 1 <= t.1,
            None => dec(e, sig@.skip(sigpos as int), data@, off as int) is None,
        },
    decreases data@.len() - off, sig@.len() - sigpos, 0int,
{
    let dlen = data.len();
    let slen = sig.len();
    let ghost gsig = sig@.skip(sigpos as int);
    proof {
        assert(gsig.skip(1) =~= sig@.skip(sigpos + 1int));
    }
    match crate::sig::sig_one_len_exec(sig, sigpos + 1) {
        Some(n1) => {
            let es = copy_range(sig, sigpos + 1, sigpos + 1 + n1);
            proof {
                assert(es@ =~= gsig.subrange(1, 1 + n1 as int));
            }
            let p = pad_of(off, 4);
            if dlen - off >= p && dlen - off - p >= 4 {
                let bl32 = crate::scalar::get_u32(data, off + p, e);
                let bl = bl32 as usize;
                let a = align_of_code_exec(es[0]);
                let q = pad_of(off + p + 4, a);
                if dlen - off - p - 4 >= q && bl <= dlen - off - p - 4 - q {
                    let start = off + p + 4 + q;
                    match decode_elems(e, &es, data, start, start + bl) {
                        Some(elems) => {
                            proof {
                                lemma_view_list_index(elems@);
                            }
                            Some((Value::Array(es, elems), 1 + n1, start + bl))
                        },
                        None => None,
                    }
                } else {
                    None
                }
            } else {
                None
            }
        },
        None => None,
    }
}

/// The struct case of `decode_value`.
#[verifier::rlimit(100)]
fn decode_struct(e: Endian, sig: &Vec<u8>, sigpos: usize, data: &Vec<u8>, off: usize) -> (r:
    Option<(Value, usize, usize)>)
    requires
        sigpos < sig@.len(),
        off <= data@.len(),
        sig@[sigpos as int] == crate::sig::C_STRUCT_OPEN,
    ensures
        match r {
            Some(t) => dec(e, sig@.skip(sigpos as int), data@, off as int)
                == Some((v_view(t.0), t.1 as int, t.2 as int))
                && sigpos + t.1 <= sig@.len() && off <= t.2 <= data@.len() && 1 <= t.1,
            None => dec(e, sig@.skip(sigpos as int), data@, off as int) is None,
        },
    decreases data@.len() - off, sig@.len() - sigpos, 0int,
{
    let dlen = data.len();
    let slen = sig.len();
    let ghost gsig = sig@.skip(sigpos as int);
    proof {
        assert(gsig.skip(1) =~= sig@.skip(sigpos + 1int));
    }
    let p = pad_of(off, 8);
    if dlen - off >= p {
        match decode_fields(e, sig, sigpos + 1, data, off + p) {
            Some((vals, su, end)) => {
                if vals.len() >= 1 {
                    proof {
                        lemma_view_list_index(vals@);
                    }
                    Some((Value::Struct(vals), 1 + su, end))
                } else {
                    None
                }
            },
            None => None,
        }
    } else {
        None
    }
}

/// The dict-entry case of `decode_value`.
#[verifier::rlimit(100)]
fn decode_dict(e: Endian, sig: &Vec<u8>, sigpos: usize, data: &Vec<u8>, off: usize) -> (r:
    Option<(Value, usize, usize)>)
    requires
        sigpos < sig@.len(),
        off <= data@.len(),
        sig@[sigpos as int] == crate::sig::C_DICT_OPEN,
    ensures
        match r {
            Some(t) => dec(e, sig@.skip(sigpos as int), data@, off as int)
                == Some((v_view(t.0), t.1 as int, t.2 as int))
                && sigpos + t.1 <= sig@.len() && off <= t.2 <= data@.len() && 1 <= t.1,
            None => dec(e, sig@.skip(sigpos as int), data@, off as int) is None,
        },
    decreases data@.len() - off, sig@.len() - sigpos, 0int,
{
    let dlen = data.len();
    let slen = sig.len();
    let ghost gsig = sig@.skip(sigpos as int);
    let p = pad_of(off, 8);
    if slen - sigpos >= 2 {
        proof {
            assert(gsig.skip(1) =~= sig@.skip(sigpos + 1int));
            assert(gsig.skip(2) =~= sig@.skip(sigpos + 2int));
        }
        let k = sig[sigpos + 1];
        let basic = k == crate::sig::C_BYTE || k == crate::sig::C_BOOL
            || k == crate::sig::C_INT16 || k == crate::sig::C_UINT16
            || k == crate::sig::C_INT32 || k == crate::sig::C_UINT32
            || k == crate::sig::C_INT64 || k == crate::sig::C_UINT64
            || k == crate::sig::C_DOUBLE || k == crate::sig::C_STRING
            || k == crate::sig::C_PATH || k == crate::sig::C_SIG;
        if basic && dlen - off >= p {
            match decode_value(e, sig, sigpos + 1, data, off + p) {
                Some((kv, su1, koff)) => {
                    if su1 == 1 {
                        match crate::sig::sig_one_len_exec(sig, sigpos + 2) {
                            Some(n2) => {
                                if n2 < slen - sigpos - 2
                                    && sig[sigpos + 2 + n2] == crate::sig::C_DICT_CLOSE {
                                    match decode_value(e, sig, sigpos + 2, data, koff) {
                                        Some((vv, su2, voff)) => {
                                            if su2 == n2 {
                                                Some((
                                                    Value::DictEntry(Box::new(kv), Box::new(vv)),
                                                    3 + n2,
                                                    voff,
                                                ))
                                            } else {
                                                None
                                            }
                                        },
                                        None => None,
                                    }
                                } else {
                                    None
                                }
                            },
                            None => None,
                        }
                    } else {
                        None
                    }
                },
                None => None,
            }
        } else {
            None
        }
    } else {
        None
    }
}

/// The variant case of `decode_value`.
#[verifier::rlimit(100)]
fn decode_variant(e: Endian, sig: &Vec<u8>, sigpos: usize, data: &Vec<u8>, off: usize) -> (r:
    Option<(Value, usize, usize)>)
    requires
        sigpos < sig@.len(),
        off <= data@.len(),
        sig@[sigpos as int] == crate::sig::C_VARIANT,
    ensures
        match r {
            Some(t) => dec(e, sig@.skip(sigpos as int), data@, off as int)
                == Some((v_view(t.0), t.1 as int, t.2 as int))
                && sigpos + t.1 <= sig@.len() && off <= t.2 <= data@.len() && 1 <= t.1,
            None => dec(e, sig@.skip(sigpos as int), data@, off as int) is None,
        },
    decreases data@.len() - off, sig@.len() - sigpos, 0int,
{
    let dlen = data.len();
    let slen = sig.len();
    let ghost gsig = sig@.skip(sigpos as int);
    if dlen - off >= 1 {
        let n = data[off] as usize;
        if n < dlen - off - 1 && data[off + 1 + n] == 0 {
            let sv = copy_range(data, off + 1, off + 1 + n);
            match crate::sig::sig_one_len_exec(&sv, 0) {
                Some(m) => {
                    proof {
                        assert(sv@.skip(0) =~= sv@);
                    }
                    if m == n {
                        match decode_value(e, &sv, 0, data, off + 1 + n + 1) {
                            Some((inner, su, ioff)) => {
                                if su == n {
                                    Some((Value::Variant(sv, Box::new(inner)), 1, ioff))
                                } else {
                                    None
                                }
                            },
                            None => None,
                        }
                    } else {
                        None
                    }
                },
                None => {
                    proof {
                        assert(sv@.skip(0) =~= sv@);
                    }
                    None
                },
            }
        } else {
            None
        }
    } else {
        None
    }
}

/// Reads values until the closing `)`, which it consumes.
#[verifier::rlimit(100)]
fn decode_fields(e: Endian, sig: &Vec<u8>, sigpos: usize, data: &Vec<u8>, off: usize) -> (r:
    Option<(Vec<Value>, usize, usize)>)
    requires
        sigpos <= sig@.len(),
        off <= data@.len(),
    ensures
        match r {
            Some(t) => dec_fields(e, sig@.skip(sigpos as int), data@, off as int)
                == Some((view_list(t.0@), t.1 as int, t.2 as int))
                && sigpos + t.1 <= sig@.len() && off <= t.2 <= data@.len() && 1 <= t.1,
            None => dec_fields(e, sig@.skip(sigpos as int), data@, off as int) is None,
        },
    decreases data@.len() - off, sig@.len() - sigpos, 2int,
{
    let ghost gsig = sig@.skip(sigpos as int);
    if sigpos == sig.len() {
        return None;
    }
    if sig[sigpos] == crate::sig::C_STRUCT_CLOSE {
        let empty: Vec<Value> = Vec::new();
        proof {
            assert(view_list(empty@) =~= Seq::<V>::empty());
        }
        return Some((empty, 1, off));
    }
    match decode_value(e, sig, sigpos, data, off) {
        Some((v0, su0, off0)) => {
            proof {
                assert(gsig.skip(su0 as int) =~= sig@.skip(sigpos + su0 as int));
            }
            match decode_fields(e, sig, sigpos + su0, data, off0) {
                Some((mut vs, su, end)) => {
                    let ghost tailv = view_list(vs@);
                    let ghost before = vs@;
                    vs.insert(0, v0);
                    proof {
                        assert(vs@ =~= seq![v0] + before);
                        lemma_view_list_cons(v0, before);
                        assert(view_list(vs@) =~= seq![v_view(v0)] + tailv);
                    }
                    Some((vs, su0 + su, end))
                },
                None => None,
            }
        },
        None => None,
    }
}

/// Reads values of the one element type `es` until exactly `end`.
#[verifier::rlimit(100)]
fn decode_elems(e: Endian, es: &Vec<u8>, data: &Vec<u8>, off: usize, end: usize) -> (r: Option<
    Vec<Value>>)
    requires
        off <= data@.len(),
        end <= data@.len(),
    ensures
        match r {
            Some(vs) => dec_elems(e, es@, data@, off as int, end as int) == Some(view_list(vs@)),
            None => dec_elems(e, es@, data@, off as int, end as int) is None,
        },
    decreases data@.len() - off, es@.len(), 2int,
{
    if off == end {
        let empty: Vec<Value> = Vec::new();
        proof {
            assert(view_list(empty@) =~= Seq::<V>::empty());
        }
        return Some(empty);
    }
    if off > end {
        return None;
    }
    proof {
        assert(es@.skip(0) =~= es@);
    }
    match decode_value(e, es, 0, data, off) {
        Some((v0, su0, off0)) => {
            if su0 != es.len() || off0 <= off {
                None
            } else {
                match decode_elems(e, es, data, off0, end) {
                    Some(mut vs) => {
                        let ghost tailv = view_list(vs@);
                        let ghost before = vs@;
                        vs.insert(0, v0);
                        proof {
                            assert(vs@ =~= seq![v0] + before);
                            lemma_view_list_cons(v0, before);
                            assert(view_list(vs@) =~= seq![v_view(v0)] + tailv);
                        }
                        Some(vs)
                    },
                    None => None,
                }
            }
        },
        None => None,
    }
}


/// Reads values until the signature is exhausted, as a message body is
/// read against its declared signature. Mirrors `dec_list` exactly.
#[verifier::rlimit(100)]
pub fn decode_list(e: Endian, sig: &Vec<u8>, sigpos: usize, data: &Vec<u8>, off: usize) -> (r:
    Option<(Vec<Value>, usize)>)
    requires
        sigpos <= sig@.len(),
        off <= data@.len(),
    ensures
        match r {
            Some(t) => dec_list(e, sig@.skip(sigpos as int), data@, off as int)
                == Some((view_list(t.0@), t.1 as int)) && off <= t.1 <= data@.len(),
            None => dec_list(e, sig@.skip(sigpos as int), data@, off as int) is None,
        },
    decreases data@.len() - off, sig@.len() - sigpos, 2int,
{
    let ghost gsig = sig@.skip(sigpos as int);
    if sigpos == sig.len() {
        let empty: Vec<Value> = Vec::new();
        proof {
            assert(view_list(empty@) =~= Seq::<V>::empty());
        }
        return Some((empty, off));
    }
    match decode_value(e, sig, sigpos, data, off) {
        Some((v0, su0, off0)) => {
            proof {
                assert(gsig.skip(su0 as int) =~= sig@.skip(sigpos + su0 as int));
            }
            match decode_list(e, sig, sigpos + su0, data, off0) {
                Some((mut vs, end)) => {
                    let ghost tailv = view_list(vs@);
                    let ghost before = vs@;
                    vs.insert(0, v0);
                    proof {
                        assert(vs@ =~= seq![v0] + before);
                        lemma_view_list_cons(v0, before);
                        assert(view_list(vs@) =~= seq![v_view(v0)] + tailv);
                    }
                    Some((vs, end))
                },
                None => None,
            }
        },
        None => None,
    }
}

} // verus!
