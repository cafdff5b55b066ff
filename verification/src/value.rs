//! The protocol's dynamic type. `Value` is the executable closed sum over
//! the primitive scalars, the three string-like types and the four
//! containers; `V` is its mathematical mirror over `Seq`, which the codec's
//! specification speaks of. Every value knows its own signature (`sig_of`);
//! well-formedness (`wf`) ties declared signatures to actual contents.

use vstd::prelude::*;
use crate::sig::{
    C_BYTE, C_BOOL, C_INT16, C_UINT16, C_INT32, C_UINT32, C_INT64, C_UINT64, C_DOUBLE,
    C_STRING, C_PATH, C_SIG, C_VARIANT, C_ARRAY, C_STRUCT_OPEN, C_STRUCT_CLOSE, C_DICT_OPEN,
    C_DICT_CLOSE, is_basic_code, valid_sig_one,
};

verus! {

/// Strings, object paths and signature values carry their UTF-8 bytes; the
/// 8-byte floating-point type carries its IEEE-754 bits, which the codec
/// moves without ever doing arithmetic on them.
#[derive(Debug, PartialEq, Eq)]
pub enum Value {
    Byte(u8),
    Boolean(bool),
    Int16(i16),
    Uint16(u16),
    Int32(i32),
    Uint32(u32),
    Int64(i64),
    Uint64(u64),
    Double(u64),
    Str(Vec<u8>),
    ObjectPath(Vec<u8>),
    Signature(Vec<u8>),
    /// The declared element signature, and the elements.
    Array(Vec<u8>, Vec<Value>),
    /// An ordered, non-empty, heterogeneous sequence.
    Struct(Vec<Value>),
    /// A key/value pair whose key is of a basic type.
    DictEntry(Box<Value>, Box<Value>),
    /// The signature of the contained value, and the value.
    Variant(Vec<u8>, Box<Value>),
}

/// The mathematical mirror of `Value`: the same sum, with every vector of
/// bytes or of values seen as a sequence.
pub enum V {
    Byte(u8),
    Boolean(bool),
    Int16(i16),
    Uint16(u16),
    Int32(i32),
    Uint32(u32),
    Int64(i64),
    Uint64(u64),
    Double(u64),
    Str(Seq<u8>),
    ObjectPath(Seq<u8>),
    Signature(Seq<u8>),
    Array(Seq<u8>, Seq<V>),
    Struct(Seq<V>),
    DictEntry(Box<V>, Box<V>),
    Variant(Seq<u8>, Box<V>),
}

/// The deep view of an executable value.
pub open spec fn v_view(v: Value) -> V
    decreases v, 0int,
{
    match v {
        Value::Byte(b) => V::Byte(b),
        Value::Boolean(b) => V::Boolean(b),
        Value::Int16(x) => V::Int16(x),
        Value::Uint16(x) => V::Uint16(x),
        Value::Int32(x) => V::Int32(x),
        Value::Uint32(x) => V::Uint32(x),
        Value::Int64(x) => V::Int64(x),
        Value::Uint64(x) => V::Uint64(x),
        Value::Double(x) => V::Double(x),
        Value::Str(s) => V::Str(s@),
        Value::ObjectPath(s) => V::ObjectPath(s@),
        Value::Signature(s) => V::Signature(s@),
        Value::Array(es, elems) => V::Array(es@, view_list(elems@)),
        Value::Struct(fields) => V::Struct(view_list(fields@)),
        Value::DictEntry(k, val) => V::DictEntry(Box::new(v_view(*k)), Box::new(v_view(*val))),
        Value::Variant(sv, inner) => V::Variant(sv@, Box::new(v_view(*inner))),
    }
}

/// The deep view of each value of a list.
pub open spec fn view_list(vs: Seq<Value>) -> Seq<V>
    decreases vs, 1int,
{
    if vs.len() == 0 {
        Seq::<V>::empty()
    } else {
        seq![v_view(vs[0])] + view_list(vs.skip(1))
    }
}

/// `view_list` maps `v_view` over the list, index by index.
pub broadcast proof fn lemma_view_list_index(vs: Seq<Value>)
    ensures
        (#[trigger] view_list(vs)).len() == vs.len(),
        forall|i: int| 0 <= i < vs.len() ==> view_list(vs)[i] == v_view(#[trigger] vs[i]),
    decreases vs.len(),
{
    if vs.len() > 0 {
        lemma_view_list_index(vs.skip(1));
        assert forall|i: int| 0 <= i < vs.len() implies view_list(vs)[i] == v_view(#[trigger] vs[i]) by {
            if i > 0 {
                assert(view_list(vs)[i] == view_list(vs.skip(1))[i - 1]);
                assert(vs.skip(1)[i - 1] == vs[i]);
            }
        }
    }
}

/// The signature of `v`: its single complete type, as type-code bytes.
pub open spec fn sig_of(v: V) -> Seq<u8>
    decreases v, 0int,
{
    match v {
        V::Byte(_) => seq![C_BYTE],
        V::Boolean(_) => seq![C_BOOL],
        V::Int16(_) => seq![C_INT16],
        V::Uint16(_) => seq![C_UINT16],
        V::Int32(_) => seq![C_INT32],
        V::Uint32(_) => seq![C_UINT32],
        V::Int64(_) => seq![C_INT64],
        V::Uint64(_) => seq![C_UINT64],
        V::Double(_) => seq![C_DOUBLE],
        V::Str(_) => seq![C_STRING],
        V::ObjectPath(_) => seq![C_PATH],
        V::Signature(_) => seq![C_SIG],
        V::Array(es, _) => seq![C_ARRAY] + es,
        V::Struct(fields) => seq![C_STRUCT_OPEN] + sig_of_list(fields) + seq![C_STRUCT_CLOSE],
        V::DictEntry(k, val) => seq![C_DICT_OPEN] + sig_of(*k) + sig_of(*val) + seq![C_DICT_CLOSE],
        V::Variant(_, _) => seq![C_VARIANT],
    }
}

/// The concatenated signatures of a list of values.
pub open spec fn sig_of_list(vs: Seq<V>) -> Seq<u8>
    decreases vs, 1int,
{
    if vs.len() == 0 {
        Seq::<u8>::empty()
    } else {
        sig_of(vs[0]) + sig_of_list(vs.skip(1))
    }
}

/// Natural alignment of `v`'s type, in bytes: 1 for byte, signature and
/// variant, 2 for the 16-bit integers, 4 for the 32-bit scalars, strings,
/// object paths and arrays, 8 for the 64-bit scalars, structs and
/// dict-entries.
pub open spec fn align_of_value(v: V) -> int {
    match v {
        V::Byte(_) => 1,
        V::Boolean(_) => 4,
        V::Int16(_) => 2,
        V::Uint16(_) => 2,
        V::Int32(_) => 4,
        V::Uint32(_) => 4,
        V::Int64(_) => 8,
        V::Uint64(_) => 8,
        V::Double(_) => 8,
        V::Str(_) => 4,
        V::ObjectPath(_) => 4,
        V::Signature(_) => 1,
        V::Array(_, _) => 4,
        V::Struct(_) => 8,
        V::DictEntry(_, _) => 8,
        V::Variant(_, _) => 1,
    }
}

/// Well-formedness: every array's elements all match its one declared
/// element signature, every variant's signature describes exactly the value
/// it carries and fits its one-byte length prefix, every dict-entry key is
/// basic, structs are non-empty, and string and signature payloads fit
/// their length prefixes.
pub open spec fn wf(v: V) -> bool
    decreases v, 0int,
{
    match v {
        V::Str(s) => s.len() <= 0xFFFF_FFFF,
        V::ObjectPath(s) => s.len() <= 0xFFFF_FFFF,
        V::Signature(s) => s.len() <= 255,
        V::Array(es, elems) => valid_sig_one(es)
            && forall|i: int| 0 <= i < elems.len() ==> sig_of(#[trigger] elems[i]) == es
                && wf(elems[i]),
        V::Struct(fields) => fields.len() >= 1 && wf_list(fields),
        V::DictEntry(k, val) => sig_of(*k).len() == 1 && is_basic_code(sig_of(*k)[0])
            && wf(*k) && wf(*val),
        V::Variant(sv, inner) => sv == sig_of(*inner) && sv.len() <= 255 && wf(*inner),
        _ => true,
    }
}

/// Every value of the list is well-formed.
pub open spec fn wf_list(vs: Seq<V>) -> bool
    decreases vs, 1int,
{
    if vs.len() == 0 {
        true
    } else {
        wf(vs[0]) && wf_list(vs.skip(1))
    }
}

/// A list is well-formed exactly when each of its values is.
pub proof fn lemma_wf_list_index(vs: Seq<V>)
    ensures
        wf_list(vs) <==> forall|i: int| 0 <= i < vs.len() ==> wf(#[trigger] vs[i]),
    decreases vs.len(),
{
    if vs.len() > 0 {
        lemma_wf_list_index(vs.skip(1));
        assert forall|i: int| 0 <= i < vs.len() && wf_list(vs) implies wf(#[trigger] vs[i]) by {
            if i > 0 {
                assert(vs[i] == vs.skip(1)[i - 1]);
            }
        }
        if forall|i: int| 0 <= i < vs.len() ==> wf(#[trigger] vs[i]) {
            assert forall|i: int| 0 <= i < vs.skip(1).len() implies wf(#[trigger] vs.skip(1)[i]) by {
                assert(vs.skip(1)[i] == vs[i + 1]);
            }
            assert(wf(vs[0]));
        }
    }
}

/// A worst-case bound on the number of bytes `v` can occupy when encoded at
/// any offset: each padding site is counted at its largest possible width.
pub open spec fn max_size(v: V) -> int
    decreases v, 0int,
{
    match v {
        V::Byte(_) => 1,
        V::Boolean(_) => 7,
        V::Int16(_) => 3,
        V::Uint16(_) => 3,
        V::Int32(_) => 7,
        V::Uint32(_) => 7,
        V::Int64(_) => 15,
        V::Uint64(_) => 15,
        V::Double(_) => 15,
        V::Str(s) => 8 + s.len() as int,
        V::ObjectPath(s) => 8 + s.len() as int,
        V::Signature(s) => 2 + s.len() as int,
        V::Array(_, elems) => 14 + max_size_list(elems),
        V::Struct(fields) => 7 + max_size_list(fields),
        V::DictEntry(k, val) => 7 + max_size(*k) + max_size(*val),
        V::Variant(sv, inner) => 2 + sv.len() as int + max_size(*inner),
    }
}

/// The sum of the worst-case sizes of a list of values.
pub open spec fn max_size_list(vs: Seq<V>) -> int
    decreases vs, 1int,
{
    if vs.len() == 0 {
        0
    } else {
        max_size(vs[0]) + max_size_list(vs.skip(1))
    }
}

/// The worst-case size of a value is positive, and of a list no less than
/// any one member's.
pub proof fn lemma_max_size_pos(v: V)
    ensures
        max_size(v) >= 1,
    decreases v, 0int,
{
    match v {
        V::DictEntry(k, val) => {
            lemma_max_size_pos(*k);
            lemma_max_size_pos(*val);
        },
        V::Array(_, elems) => {
            lemma_max_size_list_pos(elems);
        },
        V::Struct(fields) => {
            lemma_max_size_list_pos(fields);
        },
        V::Variant(_, inner) => {
            lemma_max_size_pos(*inner);
        },
        _ => {},
    }
}

/// See `lemma_max_size_pos`.
pub proof fn lemma_max_size_list_pos(vs: Seq<V>)
    ensures
        max_size_list(vs) >= 0,
        forall|i: int| 0 <= i < vs.len() ==> max_size(#[trigger] vs[i]) <= max_size_list(vs),
    decreases vs, 1int,
{
    if vs.len() > 0 {
        lemma_max_size_pos(vs[0]);
        lemma_max_size_list_pos(vs.skip(1));
        assert forall|i: int| 0 <= i < vs.len() implies max_size(#[trigger] vs[i]) <= max_size_list(vs) by {
            if i > 0 {
                assert(vs[i] == vs.skip(1)[i - 1]);
            }
        }
    }
}

/// Exec mirror of `sig_of`: the signature of `v` as bytes.
pub fn sig_of_exec(v: &Value) -> (r: Vec<u8>)
    ensures
        r@ == sig_of(v_view(*v)),
    decreases *v, 0int,
{
    match v {
        Value::Byte(_) => vec![C_BYTE],
        Value::Boolean(_) => vec![C_BOOL],
        Value::Int16(_) => vec![C_INT16],
        Value::Uint16(_) => vec![C_UINT16],
        Value::Int32(_) => vec![C_INT32],
        Value::Uint32(_) => vec![C_UINT32],
        Value::Int64(_) => vec![C_INT64],
        Value::Uint64(_) => vec![C_UINT64],
        Value::Double(_) => vec![C_DOUBLE],
        Value::Str(_) => vec![C_STRING],
        Value::ObjectPath(_) => vec![C_PATH],
        Value::Signature(_) => vec![C_SIG],
        Value::Array(es, _) => {
            let mut r: Vec<u8> = vec![C_ARRAY];
            let mut i: usize = 0;
            while i < es.len()
                invariant
                    i <= es@.len(),
                    r@ == seq![C_ARRAY] + es@.subrange(0, i as int),
                decreases es@.len() - i,
            {
                r.push(es[i]);
                i = i + 1;
                proof {
                    assert(seq![C_ARRAY] + es@.subrange(0, i - 1) + seq![es@[i - 1]]
                        =~= seq![C_ARRAY] + es@.subrange(0, i as int));
                }
            }
            proof {
                assert(es@.subrange(0, es@.len() as int) =~= es@);
            }
            r
        },
        Value::Struct(fields) => {
            let ghost fsv = view_list(fields@);
            let mut r: Vec<u8> = vec![C_STRUCT_OPEN];
            let mut i: usize = 0;
            while i < fields.len()
                invariant
                    i <= fields@.len(),
                    *v == Value::Struct(*fields),
                    fsv == view_list(fields@),
                    r@ == seq![C_STRUCT_OPEN] + sig_of_list(fsv.subrange(0, i as int)),
                decreases fields@.len() - i,
            {
                proof {
                    lemma_view_list_index(fields@);
                    assert(decreases_to!(*v => v->Struct_0));
                    assert(decreases_to!(*fields => fields@));
                    assert(decreases_to!(fields@ => fields@[i as int]));
                    assert(decreases_to!(*v => fields@[i as int]));
                }
                let fsig = sig_of_exec(&fields[i]);
                let mut j: usize = 0;
                while j < fsig.len()
                    invariant
                        j <= fsig@.len(),
                        r@ == seq![C_STRUCT_OPEN] + sig_of_list(fsv.subrange(0, i as int))
                            + fsig@.subrange(0, j as int),
                    decreases fsig@.len() - j,
                {
                    r.push(fsig[j]);
                    j = j + 1;
                    proof {
                        assert(r@ =~= seq![C_STRUCT_OPEN]
                            + sig_of_list(fsv.subrange(0, i as int))
                            + fsig@.subrange(0, j as int));
                    }
                }
                i = i + 1;
                proof {
                    lemma_view_list_index(fields@);
                    assert(fsig@.subrange(0, fsig@.len() as int) =~= fsig@);
                    lemma_sig_of_list_snoc(fsv.subrange(0, i as int));
                    assert(fsv.subrange(0, i as int).drop_last() =~= fsv.subrange(0, i - 1));
                    assert(fsv.subrange(0, i as int).last() == v_view(fields@[i - 1]));
                    assert(r@ =~= seq![C_STRUCT_OPEN] + sig_of_list(fsv.subrange(0, i as int)));
                }
            }
            r.push(C_STRUCT_CLOSE);
            proof {
                lemma_view_list_index(fields@);
                assert(fsv.subrange(0, fsv.len() as int) =~= fsv);
                assert(r@ =~= seq![C_STRUCT_OPEN] + sig_of_list(fsv) + seq![C_STRUCT_CLOSE]);
            }
            r
        },
        Value::DictEntry(k, val) => {
            let mut r: Vec<u8> = vec![C_DICT_OPEN];
            let ksig = sig_of_exec(k);
            let vsig = sig_of_exec(val);
            let mut j: usize = 0;
            while j < ksig.len()
                invariant
                    j <= ksig@.len(),
                    r@ == seq![C_DICT_OPEN] + ksig@.subrange(0, j as int),
                decreases ksig@.len() - j,
            {
                r.push(ksig[j]);
                j = j + 1;
                proof {
                    assert(r@ =~= seq![C_DICT_OPEN] + ksig@.subrange(0, j as int));
                }
            }
            proof {
                assert(ksig@.subrange(0, ksig@.len() as int) =~= ksig@);
            }
            let mut j: usize = 0;
            while j < vsig.len()
                invariant
                    j <= vsig@.len(),
                    r@ == seq![C_DICT_OPEN] + ksig@ + vsig@.subrange(0, j as int),
                decreases vsig@.len() - j,
            {
                r.push(vsig[j]);
                j = j + 1;
                proof {
                    assert(r@ =~= seq![C_DICT_OPEN] + ksig@ + vsig@.subrange(0, j as int));
                }
            }
            r.push(C_DICT_CLOSE);
            proof {
                assert(vsig@.subrange(0, vsig@.len() as int) =~= vsig@);
                assert(r@ =~= seq![C_DICT_OPEN] + sig_of(v_view(**k)) + sig_of(v_view(**val))
                    + seq![C_DICT_CLOSE]);
            }
            r
        },
        Value::Variant(_, _) => vec![C_VARIANT],
    }
}

/// `sig_of_list` grows at the back one value at a time.
pub proof fn lemma_sig_of_list_snoc(vs: Seq<V>)
    requires
        vs.len() >= 1,
    ensures
        sig_of_list(vs) == sig_of_list(vs.drop_last()) + sig_of(vs.last()),
    decreases vs.len(),
{
    if vs.len() == 1 {
        assert(vs.drop_last() =~= Seq::<V>::empty());
        assert(vs.skip(1) =~= Seq::<V>::empty());
        assert(sig_of_list(vs.drop_last()) + sig_of(vs.last()) =~= sig_of(vs[0]) + sig_of_list(vs.skip(1)));
    } else {
        lemma_sig_of_list_snoc(vs.skip(1));
        assert(vs.skip(1).drop_last() =~= vs.drop_last().skip(1));
        assert(vs.skip(1).last() == vs.last());
        assert(sig_of_list(vs) =~= sig_of_list(vs.drop_last()) + sig_of(vs.last()));
    }
}


/// Splitting a size sum at `i`.
pub proof fn lemma_max_size_list_split(vs: Seq<V>, i: int)
    requires
        0 <= i <= vs.len(),
    ensures
        max_size_list(vs) == max_size_list(vs.subrange(0, i)) + max_size_list(vs.skip(i)),
    decreases i,
{
    if i == 0 {
        assert(vs.subrange(0, 0) =~= Seq::<V>::empty());
        assert(vs.skip(0) =~= vs);
    } else {
        lemma_max_size_list_split(vs.skip(1), i - 1);
        let head = vs.subrange(0, i);
        assert(head[0] == vs[0]);
        assert(head.skip(1) =~= vs.skip(1).subrange(0, i - 1));
        assert(vs.skip(1).skip(i - 1) =~= vs.skip(i));
    }
}

/// Appending one value to a size sum.
pub proof fn lemma_max_size_list_snoc(vs: Seq<V>, i: int)
    requires
        0 <= i < vs.len(),
    ensures
        max_size_list(vs.subrange(0, i + 1)) == max_size_list(vs.subrange(0, i)) + max_size(vs[i]),
{
    let w = vs.subrange(0, i + 1);
    lemma_max_size_list_split(w, i);
    assert(w.subrange(0, i) =~= vs.subrange(0, i));
    let tail = w.skip(i);
    assert(tail =~= seq![vs[i]]);
    assert(tail.skip(1) =~= Seq::<V>::empty());
    assert(max_size_list(tail.skip(1)) == 0);
}

/// True exactly when the two byte vectors hold the same bytes.
pub fn bytes_eq(a: &Vec<u8>, b: &Vec<u8>) -> (r: bool)
    ensures
        r == (a@ == b@),
{
    if a.len() != b.len() {
        return false;
    }
    let mut i: usize = 0;
    while i < a.len()
        invariant
            i <= a@.len(),
            a@.len() == b@.len(),
            forall|j: int| 0 <= j < i ==> a@[j] == b@[j],
        decreases a@.len() - i,
    {
        if a[i] != b[i] {
            return false;
        }
        i = i + 1;
    }
    proof {
        assert(a@ =~= b@);
    }
    true
}

/// Checks a value against the type system's invariants and a byte budget:
/// `Some(rem)` leaves `wf` established and says the value occupies at most
/// `budget - rem` bytes at any offset; `None` says the value is not
/// well-formed or cannot fit. This is how an unverified caller establishes
/// the encoder's preconditions at run time.
#[verifier::rlimit(100)]
pub fn check_value(v: &Value, budget: u64) -> (r: Option<u64>)
    ensures
        match r {
            Some(rem) => wf(v_view(*v)) && rem <= budget
                && max_size(v_view(*v)) == budget - rem,
            None => !wf(v_view(*v)) || max_size(v_view(*v)) > budget,
        },
    decreases *v, 1int,
{
    match v {
        Value::Byte(_) => if budget >= 1 { Some(budget - 1) } else { None },
        Value::Boolean(_) => if budget >= 7 { Some(budget - 7) } else { None },
        Value::Int16(_) => if budget >= 3 { Some(budget - 3) } else { None },
        Value::Uint16(_) => if budget >= 3 { Some(budget - 3) } else { None },
        Value::Int32(_) => if budget >= 7 { Some(budget - 7) } else { None },
        Value::Uint32(_) => if budget >= 7 { Some(budget - 7) } else { None },
        Value::Int64(_) => if budget >= 15 { Some(budget - 15) } else { None },
        Value::Uint64(_) => if budget >= 15 { Some(budget - 15) } else { None },
        Value::Double(_) => if budget >= 15 { Some(budget - 15) } else { None },
        Value::Str(sb) => {
            let len = sb.len() as u64;
            if len <= 0xFFFF_FFFF && budget >= 8 + len {
                Some(budget - (8 + len))
            } else {
                None
            }
        },
        Value::ObjectPath(sb) => {
            let len = sb.len() as u64;
            if len <= 0xFFFF_FFFF && budget >= 8 + len {
                Some(budget - (8 + len))
            } else {
                None
            }
        },
        Value::Signature(sb) => {
            let len = sb.len() as u64;
            if len <= 255 && budget >= 2 + len {
                Some(budget - (2 + len))
            } else {
                None
            }
        },
        Value::Variant(sv, inner) => {
            let isig = sig_of_exec(inner);
            if !bytes_eq(sv, &isig) || sv.len() > 255 {
                None
            } else {
                let cost = 2 + sv.len() as u64;
                if budget < cost {
                    proof {
                        lemma_max_size_pos(v_view(**inner));
                    }
                    None
                } else {
                    match check_value(inner, budget - cost) {
                        Some(rem) => Some(rem),
                        None => None,
                    }
                }
            }
        },
        Value::DictEntry(k, val) => {
            let ksig = sig_of_exec(k);
            let basic = ksig.len() == 1 && {
                let c = ksig[0];
                c == crate::sig::C_BYTE || c == crate::sig::C_BOOL || c == crate::sig::C_INT16
                    || c == crate::sig::C_UINT16 || c == crate::sig::C_INT32
                    || c == crate::sig::C_UINT32 || c == crate::sig::C_INT64
                    || c == crate::sig::C_UINT64 || c == crate::sig::C_DOUBLE
                    || c == crate::sig::C_STRING || c == crate::sig::C_PATH
                    || c == crate::sig::C_SIG
            };
            if !basic {
                None
            } else if budget < 7 {
                proof {
                    lemma_max_size_pos(v_view(**k));
                    lemma_max_size_pos(v_view(**val));
                }
                None
            } else {
                match check_value(k, budget - 7) {
                    Some(rem1) => match check_value(val, rem1) {
                        Some(rem2) => Some(rem2),
                        None => None,
                    },
                    None => {
                        proof {
                            lemma_max_size_pos(v_view(**val));
                        }
                        None
                    },
                }
            }
        },
        Value::Struct(fields) => {
            let ghost fsv = view_list(fields@);
            if fields.len() == 0 {
                None
            } else if budget < 7 {
                proof {
                    lemma_view_list_index(fields@);
                    lemma_max_size_list_pos(fsv);
                    assert(max_size(fsv[0]) >= 1) by {
                        lemma_max_size_pos(fsv[0]);
                    }
                }
                None
            } else {
                let mut rem = budget - 7;
                let mut i: usize = 0;
                proof {
                    assert(fsv.subrange(0, 0) =~= Seq::<V>::empty());
                }
                while i < fields.len()
                    invariant
                        i <= fields@.len(),
                        *v == Value::Struct(*fields),
                        fsv == view_list(fields@),
                        rem <= budget - 7,
                        budget >= 7,
                        forall|j: int| 0 <= j < i ==> wf(#[trigger] fsv[j]),
                        max_size_list(fsv.subrange(0, i as int)) == budget - 7 - rem,
                    decreases fields@.len() - i,
                {
                    proof {
                        lemma_view_list_index(fields@);
                        assert(decreases_to!(*v => v->Struct_0));
                        assert(decreases_to!(*fields => fields@));
                        assert(decreases_to!(fields@ => fields@[i as int]));
                        assert(decreases_to!(*v => fields@[i as int]));
                    }
                    match check_value(&fields[i], rem) {
                        Some(rem2) => {
                            proof {
                                lemma_max_size_list_snoc(fsv, i as int);
                            }
                            rem = rem2;
                        },
                        None => {
                            proof {
                                lemma_view_list_index(fields@);
                                lemma_wf_list_index(fsv);
                                lemma_max_size_list_split(fsv, i as int);
                                lemma_max_size_list_pos(fsv.skip(i as int));
                                assert(fsv.skip(i as int)[0] == fsv[i as int]);
                            }
                            return None;
                        },
                    }
                    i = i + 1;
                }
                proof {
                    lemma_view_list_index(fields@);
                    lemma_wf_list_index(fsv);
                    assert(fsv.subrange(0, fsv.len() as int) =~= fsv);
                }
                Some(rem)
            }
        },
        Value::Array(es, elems) => {
            let ghost esv = es@;
            let ghost elv = view_list(elems@);
            if !crate::sig::check_sig_one(es) {
                None
            } else if budget < 14 {
                proof {
                    lemma_view_list_index(elems@);
                    lemma_max_size_list_pos(elv);
                }
                None
            } else {
                let mut rem = budget - 14;
                let mut i: usize = 0;
                proof {
                    assert(elv.subrange(0, 0) =~= Seq::<V>::empty());
                }
                while i < elems.len()
                    invariant
                        i <= elems@.len(),
                        *v == Value::Array(*es, *elems),
                        esv == es@,
                        elv == view_list(elems@),
                        crate::sig::valid_sig_one(esv),
                        rem <= budget - 14,
                        budget >= 14,
                        forall|j: int| 0 <= j < i ==> wf(#[trigger] elv[j]) && sig_of(elv[j]) == esv,
                        max_size_list(elv.subrange(0, i as int)) == budget - 14 - rem,
                    decreases elems@.len() - i,
                {
                    proof {
                        lemma_view_list_index(elems@);
                        assert(decreases_to!(*v => v->Array_1));
                        assert(decreases_to!(*elems => elems@));
                        assert(decreases_to!(elems@ => elems@[i as int]));
                        assert(decreases_to!(*v => elems@[i as int]));
                    }
                    let esig = sig_of_exec(&elems[i]);
                    if !bytes_eq(&esig, es) {
                        return None;
                    }
                    match check_value(&elems[i], rem) {
                        Some(rem2) => {
                            proof {
                                lemma_max_size_list_snoc(elv, i as int);
                            }
                            rem = rem2;
                        },
                        None => {
                            proof {
                                lemma_view_list_index(elems@);
                                lemma_max_size_list_split(elv, i as int);
                                lemma_max_size_list_pos(elv.skip(i as int));
                                assert(elv.skip(i as int)[0] == elv[i as int]);
                            }
                            return None;
                        },
                    }
                    i = i + 1;
                }
                proof {
                    lemma_view_list_index(elems@);
                    assert(elv.subrange(0, elv.len() as int) =~= elv);
                }
                Some(rem)
            }
        },
    }
}

} // verus!
