//! Whole protocol frames: byte-order marker, type, flags, protocol
//! version, body length, serial, the header-fields array (an array of
//! `(yv)` structs), padding to an 8-byte boundary, then the body. The body
//! length in the prologue is patched in once the body's size is known.

use vstd::prelude::*;
use crate::sig::{C_BYTE, C_VARIANT, C_STRUCT_OPEN, C_STRUCT_CLOSE, C_ARRAY, C_STRING, C_PATH, C_SIG};
use crate::value::{Value, V, v_view, view_list, lemma_view_list_index, sig_of, sig_of_list, wf,
    wf_list, max_size, max_size_list, lemma_wf_list_index, lemma_max_size_list_pos};
use crate::scalar::{Endian, u32_bytes, put_u32};
use crate::codec::{zeros, pad_len, enc, enc_list, dec, dec_list, lemma_enc_size,
    lemma_enc_list_size, lemma_pad};
use crate::error::Error;
use crate::client::{ReplyAction, match_reply, MSG_METHOD_CALL, MSG_METHOD_RETURN, MSG_ERROR};

verus! {

/// Header field codes: object path, interface, member, error name,
/// reply serial, destination, body signature.
pub const FIELD_PATH: u8 = 1;
pub const FIELD_INTERFACE: u8 = 2;
pub const FIELD_MEMBER: u8 = 3;
pub const FIELD_ERROR_NAME: u8 = 4;
pub const FIELD_REPLY_SERIAL: u8 = 5;
pub const FIELD_DESTINATION: u8 = 6;
pub const FIELD_SIGNATURE: u8 = 8;

/// The protocol version every frame declares.
pub const PROTOCOL_VERSION: u8 = 1;

/// The byte-order marker of a frame: `l` or `B`.
pub open spec fn endian_marker(e: Endian) -> u8 {
    match e {
        Endian::Little => 108,
        Endian::Big => 66,
    }
}

/// The exact bytes of one frame: marker, type, flags, version, body
/// length, serial, header fields (encoded at their absolute offset 12),
/// padding so the body starts 8-byte aligned, the body.
pub open spec fn msg_bytes(e: Endian, msg_type: u8, flags: u8, serial: u32, hf: V, body: Seq<V>)
    -> Seq<u8> {
    let hfb = enc(e, hf, 12);
    let pre = 12 + hfb.len() as int;
    let bstart = pre + pad_len(pre, 8);
    let bodyb = enc_list(e, body, bstart);
    seq![endian_marker(e), msg_type, flags, PROTOCOL_VERSION]
        + u32_bytes(e, bodyb.len() as u32) + u32_bytes(e, serial) + hfb
        + zeros(pad_len(pre, 8)) + bodyb
}

/// Encodes one frame. The header-fields value is the `a(yv)` array the
/// caller assembled; the body is a sequence of values.
#[verifier::rlimit(100)]
pub fn encode_message(
    e: Endian,
    msg_type: u8,
    flags: u8,
    serial: u32,
    hf: &Value,
    body: &Vec<Value>,
) -> (r: Vec<u8>)
    requires
        wf(v_view(*hf)),
        max_size(v_view(*hf)) <= 0xFFFF_FF00,
        wf_list(view_list(body@)),
        max_size_list(view_list(body@)) <= 0xFFFF_FF00,
    ensures
        r@ == msg_bytes(e, msg_type, flags, serial, v_view(*hf), view_list(body@)),
{
    let mut buf: Vec<u8> = Vec::new();
    buf.push(match e {
        Endian::Little => 108,
        Endian::Big => 66,
    });
    buf.push(msg_type);
    buf.push(flags);
    buf.push(PROTOCOL_VERSION);
    put_u32(&mut buf, e, 0);
    put_u32(&mut buf, e, serial);
    proof {
        assert(buf@.len() == 12);
    }
    crate::marshal::encode_value(e, hf, &mut buf);
    let ghost hfb = enc(e, v_view(*hf), 12);
    let ghost pre = 12 + hfb.len() as int;
    crate::marshal::push_pad(&mut buf, 8);
    let bstart = buf.len();
    proof {
        assert(bstart as int == pre + pad_len(pre, 8));
        lemma_wf_list_index(view_list(body@));
        lemma_max_size_list_pos(view_list(body@));
    }
    crate::marshal::encode_list(e, body, &mut buf);
    proof {
        lemma_enc_list_size(e, view_list(body@), bstart as int);
    }
    let blen = buf.len() - bstart;
    crate::marshal::patch_u32(&mut buf, 4, e, blen as u32);
    proof {
        let bodyb = enc_list(e, view_list(body@), bstart as int);
        let target = msg_bytes(e, msg_type, flags, serial, v_view(*hf), view_list(body@));
        let before = seq![endian_marker(e), msg_type, flags, PROTOCOL_VERSION]
            + u32_bytes(e, 0u32) + u32_bytes(e, serial) + hfb + zeros(pad_len(pre, 8)) + bodyb;
        assert(buf@.subrange(0, 4) =~= target.subrange(0, 4)) by {
            assert(before.subrange(0, 4) =~= target.subrange(0, 4));
        }
        assert(target.subrange(4, 8) =~= u32_bytes(e, bodyb.len() as u32));
        assert(buf@.subrange(8, buf@.len() as int)
            =~= target.subrange(8, target.len() as int)) by {
            assert(before.subrange(8, before.len() as int)
                =~= target.subrange(8, target.len() as int));
        }
        crate::marshal::lemma_eq_by_parts(buf@, target, 4, 8);
    }
    buf
}

/// The header-fields array of a method call: destination, path, interface
/// and member, and, where the body is non-empty, its signature. Each entry
/// is a struct of the field code and a variant around the field's value.
pub open spec fn method_call_fields(
    dest: Seq<u8>,
    path: Seq<u8>,
    iface: Seq<u8>,
    member: Seq<u8>,
    bodysig: Seq<u8>,
) -> V {
    let base = seq![
        V::Struct(seq![V::Byte(FIELD_PATH), V::Variant(seq![C_PATH], Box::new(V::ObjectPath(path)))]),
        V::Struct(seq![V::Byte(FIELD_DESTINATION), V::Variant(seq![C_STRING], Box::new(V::Str(dest)))]),
        V::Struct(seq![V::Byte(FIELD_INTERFACE), V::Variant(seq![C_STRING], Box::new(V::Str(iface)))]),
        V::Struct(seq![V::Byte(FIELD_MEMBER), V::Variant(seq![C_STRING], Box::new(V::Str(member)))]),
    ];
    let entries = if bodysig.len() == 0 {
        base
    } else {
        base + seq![V::Struct(seq![V::Byte(FIELD_SIGNATURE),
            V::Variant(seq![C_SIG], Box::new(V::Signature(bodysig)))])]
    };
    V::Array(seq![C_STRUCT_OPEN, C_BYTE, C_VARIANT, C_STRUCT_CLOSE], entries)
}

/// Builds one header-field entry: a `(yv)` struct.
fn field_entry(code: u8, value: Value) -> (r: Value)
    ensures
        v_view(r) == V::Struct(seq![V::Byte(code),
            V::Variant(sig_of(v_view(value)), Box::new(v_view(value)))]),
        sig_of(v_view(value)).len() == 1 ==> sig_of(v_view(r))
            == seq![C_STRUCT_OPEN, C_BYTE, C_VARIANT, C_STRUCT_CLOSE],
{
    let sv = crate::value::sig_of_exec(&value);
    let fields: Vec<Value> = vec![Value::Byte(code), Value::Variant(sv, Box::new(value))];
    let r = Value::Struct(fields);
    proof {
        lemma_view_list_index(fields@);
        let lv = view_list(fields@);
        assert(lv =~= seq![v_view(fields@[0]), v_view(fields@[1])]);
        assert(lv.skip(1) =~= seq![lv[1]]);
        assert(seq![lv[1]].skip(1) =~= Seq::<V>::empty());
        assert(sig_of_list(Seq::<V>::empty()) =~= Seq::<u8>::empty());
        assert(lv[1] == v_view(fields@[1]));
        assert(sig_of(lv[1]) =~= seq![C_VARIANT]);
        assert(sig_of_list(seq![lv[1]]) =~= seq![C_VARIANT]);
        assert(sig_of(lv[0]) =~= seq![C_BYTE]);
        assert(sig_of_list(lv) =~= seq![C_BYTE, C_VARIANT]);
        assert(sig_of(v_view(r)) =~= seq![C_STRUCT_OPEN, C_BYTE, C_VARIANT, C_STRUCT_CLOSE]);
    }
    r
}

/// Builds the method-call header-fields array for the given names and body
/// signature.
#[verifier::rlimit(100)]
pub fn build_method_call_fields(
    dest: &Vec<u8>,
    path: &Vec<u8>,
    iface: &Vec<u8>,
    member: &Vec<u8>,
    bodysig: &Vec<u8>,
) -> (r: Value)
    ensures
        v_view(r) == method_call_fields(dest@, path@, iface@, member@, bodysig@),
{
    let pc = crate::marshal::copy_range(path, 0, path.len());
    let dc = crate::marshal::copy_range(dest, 0, dest.len());
    let ic = crate::marshal::copy_range(iface, 0, iface.len());
    let mc = crate::marshal::copy_range(member, 0, member.len());
    proof {
        assert(pc@ =~= path@);
        assert(dc@ =~= dest@);
        assert(ic@ =~= iface@);
        assert(mc@ =~= member@);
    }
    let e0 = field_entry(FIELD_PATH, Value::ObjectPath(pc));
    let e1 = field_entry(FIELD_DESTINATION, Value::Str(dc));
    let e2 = field_entry(FIELD_INTERFACE, Value::Str(ic));
    let e3 = field_entry(FIELD_MEMBER, Value::Str(mc));
    let ghost gv0 = v_view(e0);
    let ghost gv1 = v_view(e1);
    let ghost gv2 = v_view(e2);
    let ghost gv3 = v_view(e3);
    let mut entries: Vec<Value> = vec![e0, e1, e2, e3];
    if bodysig.len() > 0 {
        let sc = crate::marshal::copy_range(bodysig, 0, bodysig.len());
        proof {
            assert(sc@ =~= bodysig@);
        }
        let e4 = field_entry(FIELD_SIGNATURE, Value::Signature(sc));
        let ghost gv4 = v_view(e4);
        entries.push(e4);
        proof {
            assert(v_view(entries@[4]) == gv4);
        }
    }
    proof {
        assert(v_view(entries@[0]) == gv0 && v_view(entries@[1]) == gv1
            && v_view(entries@[2]) == gv2 && v_view(entries@[3]) == gv3);
    }
    let es: Vec<u8> = vec![C_STRUCT_OPEN, C_BYTE, C_VARIANT, C_STRUCT_CLOSE];
    let r = Value::Array(es, entries);
    proof {
        lemma_view_list_index(entries@);
        let m = method_call_fields(dest@, path@, iface@, member@, bodysig@);
        let me = m->Array_1;
        assert(view_list(entries@).len() == me.len());
        assert(view_list(entries@)[0] == me[0]);
        assert(view_list(entries@)[1] == me[1]);
        assert(view_list(entries@)[2] == me[2]);
        assert(view_list(entries@)[3] == me[3]);
        if bodysig@.len() > 0 {
            assert(view_list(entries@)[4] == me[4]);
        }
        assert(view_list(entries@) =~= me);
        assert(es@ =~= m->Array_0);
    }
    r
}

/// The whole-frame length that a prologue announces: the 16-byte prologue,
/// the header-fields bytes, padding to an 8-byte boundary, the body.
pub open spec fn frame_len(e: Endian, data: Seq<u8>) -> int {
    let fl = crate::scalar::u32_of(e, data.subrange(12, 16)) as int;
    let bl = crate::scalar::u32_of(e, data.subrange(4, 8)) as int;
    16 + fl + pad_len(16 + fl, 8) + bl
}

/// Reads the whole-frame length out of a buffered 16-byte prologue, so the
/// transport can be filled until that many bytes are buffered.
pub fn needed_length(e: Endian, data: &Vec<u8>) -> (r: Option<usize>)
    requires
        data@.len() >= 16,
    ensures
        match r {
            Some(n) => n as int == frame_len(e, data@),
            None => frame_len(e, data@) > usize::MAX,
        },
{
    let fl = crate::scalar::get_u32(data, 12, e) as u64;
    let bl = crate::scalar::get_u32(data, 4, e) as u64;
    proof {
        lemma_pad(16 + fl as int, 8);
    }
    let r = (16 + fl) % 8;
    let p: u64 = if r == 0 { 0 } else { 8 - r };
    let total: u64 = 16 + fl + p + bl;
    if total <= usize::MAX as u64 {
        Some(total as usize)
    } else {
        None
    }
}


/// The signature the header-fields array decodes against: `a(yv)`.
pub open spec fn hf_sig() -> Seq<u8> {
    seq![C_ARRAY, C_STRUCT_OPEN, C_BYTE, C_VARIANT, C_STRUCT_CLOSE]
}

/// A header-field entry read back from the wire: the field code and the
/// value inside the variant, where the entry has that shape.
pub open spec fn entry_field(v: V) -> Option<(u8, V)> {
    match v {
        V::Struct(parts) => if parts.len() == 2 {
            match parts[0] {
                V::Byte(c) => match parts[1] {
                    V::Variant(_, inner) => Some((c, *inner)),
                    _ => None,
                },
                _ => None,
            }
        } else {
            None
        },
        _ => None,
    }
}

/// The value of the last header field carrying `code`, if any.
pub open spec fn find_field(entries: Seq<V>, code: u8) -> Option<V>
    decreases entries.len(),
{
    if entries.len() == 0 {
        None
    } else {
        match entry_field(entries.last()) {
            Some(cv) => if cv.0 == code {
                Some(cv.1)
            } else {
                find_field(entries.drop_last(), code)
            },
            None => find_field(entries.drop_last(), code),
        }
    }
}

/// The reply-serial field, where present and of the right type.
pub open spec fn reply_serial_of(entries: Seq<V>) -> Option<u32> {
    match find_field(entries, FIELD_REPLY_SERIAL) {
        Some(V::Uint32(s)) => Some(s),
        _ => None,
    }
}

/// The error-name field, where present and of the right type.
pub open spec fn error_name_of(entries: Seq<V>) -> Option<Seq<u8>> {
    match find_field(entries, FIELD_ERROR_NAME) {
        Some(V::Str(n)) => Some(n),
        _ => None,
    }
}

/// The declared body signature: absent means an empty body; a signature
/// field of any other type is malformed.
pub open spec fn body_sig_of(entries: Seq<V>) -> Option<Seq<u8>> {
    match find_field(entries, FIELD_SIGNATURE) {
        Some(V::Signature(s)) => Some(s),
        Some(_) => None,
        None => Some(Seq::<u8>::empty()),
    }
}

/// What one whole buffered frame means: its type, its reply-serial and
/// error-name fields, and its decoded body. `None` is a framing error: an
/// unknown byte-order marker, header fields that do not decode as `a(yv)`,
/// a bad signature field, or a body that does not decode to exactly the
/// frame's end.
pub open spec fn frame_parsed(data: Seq<u8>) -> Option<(u8, Option<u32>, Option<Seq<u8>>, Seq<V>)> {
    if data.len() < 16 || (data[0] != 108 && data[0] != 66) {
        None
    } else {
        let e = if data[0] == 108 { Endian::Little } else { Endian::Big };
        match dec(e, hf_sig(), data, 12) {
            Some((fv, su, fend)) => match fv {
                V::Array(es, entries) => match body_sig_of(entries) {
                    Some(bsig) => if !crate::sig::valid_sig_many(bsig) {
                        None
                    } else {
                        let bstart = fend + pad_len(fend, 8);
                        if bstart > data.len() {
                            None
                        } else {
                            match dec_list(e, bsig, data, bstart) {
                                Some((body, end)) => if end == data.len() {
                                    Some((data[1], reply_serial_of(entries),
                                        error_name_of(entries), body))
                                } else {
                                    None
                                },
                                None => None,
                            }
                        }
                    },
                    None => None,
                },
                _ => None,
            },
            None => None,
        }
    }
}

/// The byte order a frame's marker declares; any other marker is a
/// framing error.
pub fn frame_endian(marker: u8) -> (r: Result<Endian, Error>)
    ensures
        marker == 108 ==> r == Ok::<Endian, Error>(Endian::Little),
        marker == 66 ==> r == Ok::<Endian, Error>(Endian::Big),
        marker != 108 && marker != 66 ==> r == Err::<Endian, Error>(Error::Malformed),
{
    if marker == 108 {
        Ok(Endian::Little)
    } else if marker == 66 {
        Ok(Endian::Big)
    } else {
        Err(Error::Malformed)
    }
}

/// Exec mirror of `entry_field`.
fn entry_field_exec(entry: Value) -> (r: Option<(u8, Value)>)
    ensures
        match r {
            Some(cv) => entry_field(v_view(entry)) == Some((cv.0, v_view(cv.1))),
            None => entry_field(v_view(entry)) is None,
        },
{
    let ghost ev = v_view(entry);
    match entry {
        Value::Struct(mut parts) => {
            let ghost p0 = parts@;
            proof {
                lemma_view_list_index(p0);
            }
            if parts.len() == 2 {
                let snd = match parts.pop() {
                    Some(x) => x,
                    None => {
                        return None;
                    },
                };
                let fst = match parts.pop() {
                    Some(x) => x,
                    None => {
                        return None;
                    },
                };
                proof {
                    assert(v_view(fst) == view_list(p0)[0]);
                    assert(v_view(snd) == view_list(p0)[1]);
                }
                match (fst, snd) {
                    (Value::Byte(c), Value::Variant(_, inner)) => Some((c, *inner)),
                    _ => None,
                }
            } else {
                None
            }
        },
        _ => None,
    }
}

/// Decodes one whole buffered frame and matches it against the serial of
/// the pending call. A frame that does not parse is a fatal framing error:
/// the caller must terminate the connection, never resynchronize.
#[verifier::rlimit(100)]
pub fn dispatch_frame(frame: &Vec<u8>, expected_serial: u32) -> (r: Result<ReplyAction, Error>)
    requires
        frame@.len() >= 16,
    ensures
        match r {
            Err(err) => err == Error::Malformed && frame_parsed(frame@) is None,
            Ok(a) => frame_parsed(frame@) is Some && {
                let p = frame_parsed(frame@)->Some_0;
                &&& (p.1 != Some(expected_serial) ==> a == ReplyAction::Ignore)
                &&& (p.1 == Some(expected_serial) && p.0 == MSG_METHOD_RETURN
                    ==> (a matches ReplyAction::Return(b) && view_list(b@) == p.3))
                &&& (p.1 == Some(expected_serial) && p.0 == MSG_ERROR
                    ==> (a matches ReplyAction::Fail(n, b) && view_list(b@) == p.3
                        && n@ == match p.2 {
                            Some(nm) => nm,
                            None => Seq::<u8>::empty(),
                        }))
                &&& (p.1 == Some(expected_serial) && p.0 != MSG_METHOD_RETURN && p.0 != MSG_ERROR
                    ==> a == ReplyAction::Ignore)
            },
        },
{
    let e = match frame_endian(frame[0]) {
        Ok(e) => e,
        Err(err) => {
            return Err(err);
        },
    };
    let msg_type = frame[1];
    let hsig: Vec<u8> = vec![C_ARRAY, C_STRUCT_OPEN, C_BYTE, C_VARIANT, C_STRUCT_CLOSE];
    proof {
        assert(hsig@.skip(0) =~= hf_sig());
    }
    let (fields, _su, fend) = match crate::marshal::decode_value(e, &hsig, 0, frame, 12) {
        Some(t) => t,
        None => {
            return Err(Error::Malformed);
        },
    };
    let mut entries = match fields {
        Value::Array(_, entries) => entries,
        _ => {
            proof {
                assert(false);
            }
            return Err(Error::Malformed);
        },
    };
    let ghost s0 = view_list(entries@);
    let mut frs: Option<Value> = None;
    let mut fen: Option<Value> = None;
    let mut fsg: Option<Value> = None;
    while entries.len() > 0
        invariant
            s0.len() >= view_list(entries@).len(),
            match frs {
                Some(x) => find_field(s0, FIELD_REPLY_SERIAL) == Some(v_view(x)),
                None => find_field(s0, FIELD_REPLY_SERIAL)
                    == find_field(view_list(entries@), FIELD_REPLY_SERIAL),
            },
            match fen {
                Some(x) => find_field(s0, FIELD_ERROR_NAME) == Some(v_view(x)),
                None => find_field(s0, FIELD_ERROR_NAME)
                    == find_field(view_list(entries@), FIELD_ERROR_NAME),
            },
            match fsg {
                Some(x) => find_field(s0, FIELD_SIGNATURE) == Some(v_view(x)),
                None => find_field(s0, FIELD_SIGNATURE)
                    == find_field(view_list(entries@), FIELD_SIGNATURE),
            },
        decreases entries@.len(),
    {
        let ghost before = entries@;
        proof {
            lemma_view_list_index(before);
        }
        let entry = match entries.pop() {
            Some(x) => x,
            None => {
                return Err(Error::Malformed);
            },
        };
        proof {
            lemma_view_list_index(entries@);
            assert(before =~= entries@.push(entry));
            assert(before.drop_last() =~= entries@);
            assert forall|j: int| 0 <= j < before.len() - 1 implies view_list(
                before,
            ).drop_last()[j] == view_list(entries@)[j] by {
                assert(view_list(before)[j] == v_view(before[j]));
                assert(view_list(entries@)[j] == v_view(entries@[j]));
                assert(before[j] == entries@[j]);
            }
            assert(view_list(before).drop_last() =~= view_list(entries@));
            assert(view_list(before).last() == v_view(entry));
        }
        match entry_field_exec(entry) {
            Some((c, inner)) => {
                if c == FIELD_REPLY_SERIAL {
                    if frs.is_none() {
                        frs = Some(inner);
                    }
                } else if c == FIELD_ERROR_NAME {
                    if fen.is_none() {
                        fen = Some(inner);
                    }
                } else if c == FIELD_SIGNATURE {
                    if fsg.is_none() {
                        fsg = Some(inner);
                    }
                }
            },
            None => {},
        }
    }
    proof {
        lemma_view_list_index(entries@);
        assert(view_list(entries@) =~= Seq::<V>::empty());
    }
    let reply_serial: Option<u32> = match frs {
        Some(Value::Uint32(rs)) => Some(rs),
        _ => None,
    };
    let error_name: Option<Vec<u8>> = match fen {
        Some(Value::Str(n)) => Some(n),
        _ => None,
    };
    let bodysig: Vec<u8> = match fsg {
        Some(Value::Signature(sg)) => sg,
        Some(_) => {
            return Err(Error::Malformed);
        },
        None => Vec::new(),
    };
    proof {
        assert(body_sig_of(s0) == Some(bodysig@));
    }
    if !crate::sig::check_sig_many(&bodysig) {
        return Err(Error::Malformed);
    }
    let flen = frame.len();
    let p = crate::marshal::pad_of(fend, 8);
    if flen - fend < p {
        return Err(Error::Malformed);
    }
    let bstart = fend + p;
    proof {
        assert(bodysig@.skip(0) =~= bodysig@);
    }
    let (body, bend) = match crate::marshal::decode_list(e, &bodysig, 0, frame, bstart) {
        Some(t) => t,
        None => {
            return Err(Error::Malformed);
        },
    };
    if bend != flen {
        return Err(Error::Malformed);
    }
    Ok(match_reply(expected_serial, msg_type, reply_serial, error_name, body))
}

/// When a method call can be framed: the body's signature fits its
/// one-byte length prefix, the body (where given) satisfies the type
/// system's invariants and the wire format's size fields, and so does the
/// header-fields array built from the names.
pub open spec fn method_call_encodable(
    dest: Seq<u8>,
    path: Seq<u8>,
    iface: Seq<u8>,
    member: Seq<u8>,
    body: Option<V>,
) -> bool {
    let bodysig = match body {
        Some(b) => sig_of(b),
        None => Seq::<u8>::empty(),
    };
    let hf = method_call_fields(dest, path, iface, member, bodysig);
    &&& bodysig.len() <= 255
    &&& wf(hf) && max_size(hf) <= 0xFFFF_FF00
    &&& match body {
        Some(b) => wf(b) && max_size(b) <= 0xFFFF_FF00,
        None => true,
    }
}

/// Builds one whole method-call frame: the header fields for destination,
/// path, interface and member, the body's signature field where a body is
/// given, and the body itself — so the signature in the header always
/// matches the encoded body. Succeeds exactly on encodable inputs; per the
/// wire format, encoding is infallible given a well-formed value of
/// bounded size.
#[verifier::rlimit(100)]
pub fn build_method_call(
    e: Endian,
    serial: u32,
    dest: &Vec<u8>,
    path: &Vec<u8>,
    iface: &Vec<u8>,
    member: &Vec<u8>,
    body: Option<Value>,
) -> (r: Result<Vec<u8>, Error>)
    ensures
        (r is Ok) <==> method_call_encodable(dest@, path@, iface@, member@,
            match body {
                Some(b) => Some(v_view(b)),
                None => None::<V>,
            }),
        match r {
            Ok(bytes) => {
                let bodysig = match body {
                    Some(b) => sig_of(v_view(b)),
                    None => Seq::<u8>::empty(),
                };
                let bodyvs = match body {
                    Some(b) => seq![v_view(b)],
                    None => Seq::<V>::empty(),
                };
                bytes@ == msg_bytes(e, MSG_METHOD_CALL, 0, serial,
                    method_call_fields(dest@, path@, iface@, member@, bodysig), bodyvs)
            },
            Err(err) => err == Error::Malformed,
        },
{
    let bodysig: Vec<u8> = match &body {
        Some(b) => crate::value::sig_of_exec(b),
        None => Vec::new(),
    };
    if bodysig.len() > 255 {
        return Err(Error::Malformed);
    }
    let hf = build_method_call_fields(dest, path, iface, member, &bodysig);
    match crate::value::check_value(&hf, 0xFFFF_FF00) {
        Some(_) => {},
        None => {
            return Err(Error::Malformed);
        },
    }
    let mut bodyvec: Vec<Value> = Vec::new();
    match body {
        Some(b) => {
            match crate::value::check_value(&b, 0xFFFF_FF00) {
                Some(_) => {},
                None => {
                    return Err(Error::Malformed);
                },
            }
            bodyvec.push(b);
            proof {
                lemma_view_list_index(bodyvec@);
                assert(view_list(bodyvec@) =~= seq![v_view(bodyvec@[0])]);
                assert(wf_list(view_list(bodyvec@))) by {
                    lemma_wf_list_index(view_list(bodyvec@));
                }
                assert(view_list(bodyvec@).skip(1) =~= Seq::<V>::empty());
                assert(max_size_list(view_list(bodyvec@).skip(1)) == 0);
            }
        },
        None => {
            proof {
                assert(view_list(bodyvec@) =~= Seq::<V>::empty());
            }
        },
    }
    let bytes = encode_message(e, MSG_METHOD_CALL, 0, serial, &hf, &bodyvec);
    Ok(bytes)
}

} // verus!
