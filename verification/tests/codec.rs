use busclient::marshal::{encode, decode_value};
use busclient::scalar::Endian;
use busclient::value::Value;

fn sig(s: &str) -> Vec<u8> {
    s.as_bytes().to_vec()
}

fn round_trip(e: Endian, v: Value, s: &str) {
    let bytes = encode(e, &v);
    let sg = sig(s);
    let (back, su, off) = decode_value(e, &sg, 0, &bytes, 0).expect("decode");
    assert_eq!(su, sg.len());
    assert_eq!(off, bytes.len());
    assert_eq!(back, v);
}

#[test]
fn round_trip_scalars_little() {
    round_trip(Endian::Little, Value::Byte(0xAB), "y");
    round_trip(Endian::Little, Value::Boolean(true), "b");
    round_trip(Endian::Little, Value::Int16(-2), "n");
    round_trip(Endian::Little, Value::Uint16(65535), "q");
    round_trip(Endian::Little, Value::Int32(-70000), "i");
    round_trip(Endian::Little, Value::Uint32(0xDEADBEEF), "u");
    round_trip(Endian::Little, Value::Int64(-1), "x");
    round_trip(Endian::Little, Value::Uint64(u64::MAX), "t");
    round_trip(Endian::Little, Value::Double(4614256656552045848), "d");
}

#[test]
fn round_trip_scalars_big() {
    round_trip(Endian::Big, Value::Uint32(0x01020304), "u");
    round_trip(Endian::Big, Value::Int16(-300), "n");
    round_trip(Endian::Big, Value::Uint64(0x1122334455667788), "t");
}

#[test]
fn round_trip_strings() {
    round_trip(Endian::Little, Value::Str(b"hello world".to_vec()), "s");
    round_trip(Endian::Little, Value::ObjectPath(b"/org/freedesktop/DBus".to_vec()), "o");
    round_trip(Endian::Little, Value::Signature(b"a{sv}".to_vec()), "g");
    round_trip(Endian::Big, Value::Str(b"".to_vec()), "s");
}

#[test]
fn round_trip_containers() {
    let arr = Value::Array(
        b"s".to_vec(),
        vec![Value::Str(b"a".to_vec()), Value::Str(b"bc".to_vec())],
    );
    round_trip(Endian::Little, arr, "as");
    let st = Value::Struct(vec![Value::Byte(7), Value::Uint32(9)]);
    round_trip(Endian::Little, st, "(yu)");
    let var = Value::Variant(b"u".to_vec(), Box::new(Value::Uint32(42)));
    round_trip(Endian::Little, var, "v");
    let dict = Value::Array(
        b"{su}".to_vec(),
        vec![Value::DictEntry(
            Box::new(Value::Str(b"k".to_vec())),
            Box::new(Value::Uint32(1)),
        )],
    );
    round_trip(Endian::Little, dict, "a{su}");
}

#[test]
fn round_trip_deep_nesting() {
    let inner = Value::Struct(vec![
        Value::Str(b"org.mpris.MediaPlayer2.Player".to_vec()),
        Value::Array(b"x".to_vec(), vec![Value::Int64(1), Value::Int64(-2)]),
    ]);
    let v = Value::Variant(b"(sax)".to_vec(), Box::new(inner));
    round_trip(Endian::Little, v, "v");
    round_trip(
        Endian::Big,
        Value::Array(b"as".to_vec(), vec![Value::Array(b"s".to_vec(), vec![])]),
        "aas",
    );
}

#[test]
fn exact_string_bytes() {
    let b = encode(Endian::Little, &Value::Str(b"hi".to_vec()));
    assert_eq!(b, vec![2, 0, 0, 0, 104, 105, 0]);
}

#[test]
fn exact_struct_alignment() {
    // the byte sits at offset 0; the u32 is padded out to offset 4
    let b = encode(Endian::Little, &Value::Struct(vec![Value::Byte(1), Value::Uint32(2)]));
    assert_eq!(b, vec![1, 0, 0, 0, 2, 0, 0, 0]);
}

#[test]
fn exact_array_alignment() {
    // 4-byte length, then padding to the 8-byte element boundary, even
    // though the array is empty
    let b = encode(Endian::Little, &Value::Array(b"t".to_vec(), vec![]));
    assert_eq!(b, vec![0, 0, 0, 0, 0, 0, 0, 0]);
}

#[test]
fn decode_rejects_bad_boolean() {
    let sg = sig("b");
    assert!(decode_value(Endian::Little, &sg, 0, &vec![2, 0, 0, 0], 0).is_none());
    assert!(decode_value(Endian::Little, &sg, 0, &vec![1, 0, 0, 0], 0).is_some());
}

#[test]
fn decode_rejects_overrun_length() {
    // declared string length runs past the supplied bytes
    let sg = sig("s");
    assert!(decode_value(Endian::Little, &sg, 0, &vec![200, 0, 0, 0, 104, 105, 0], 0).is_none());
}

#[test]
fn decode_rejects_missing_nul() {
    let sg = sig("s");
    assert!(decode_value(Endian::Little, &sg, 0, &vec![2, 0, 0, 0, 104, 105, 1], 0).is_none());
}

#[test]
fn decode_rejects_mismatched_element() {
    // array of u declared, but a signature of y handed to the decoder
    // consumes different bytes and fails on the length
    let arr = Value::Array(b"u".to_vec(), vec![Value::Uint32(1)]);
    let bytes = encode(Endian::Little, &arr);
    let wrong = sig("ay");
    let got = decode_value(Endian::Little, &wrong, 0, &bytes, 0);
    match got {
        None => {},
        Some((v, _, _)) => assert!(v != arr),
    }
}

#[test]
fn signature_validation() {
    assert!(busclient::sig::check_sig_one(&sig("a{sv}")));
    assert!(busclient::sig::check_sig_one(&sig("(sax)")));
    assert!(!busclient::sig::check_sig_one(&sig("")));
    assert!(!busclient::sig::check_sig_one(&sig("a")));
    assert!(!busclient::sig::check_sig_one(&sig("(s")));
    assert!(!busclient::sig::check_sig_one(&sig("{vs}")));
    assert!(!busclient::sig::check_sig_one(&sig("ss")));
    assert!(busclient::sig::check_sig_many(&sig("ss")));
    assert!(busclient::sig::check_sig_many(&sig("")));
    assert!(!busclient::sig::check_sig_many(&sig(")")));
}
