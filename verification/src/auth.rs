//! The SASL authentication exchange, as byte-level logic: the identity
//! string for external-credential authentication, the exact lines sent, and
//! the parse of the server's one reply line. The socket I/O around these
//! lives outside the library.

use vstd::prelude::*;
use crate::error::Error;

verus! {

/// The decimal digits of `n`, as ASCII bytes.
pub open spec fn dec_digits(n: int) -> Seq<u8>
    decreases n,
{
    if n < 10 {
        seq![(48 + if n < 0 { 0 } else { n }) as u8]
    } else {
        dec_digits(n / 10) + seq![(48 + n % 10) as u8]
    }
}

/// A nibble as a lower-case hex character.
pub open spec fn hex_digit(x: int) -> u8 {
    if x < 10 {
        (48 + if x < 0 { 0 } else { x }) as u8
    } else {
        (87 + if x > 15 { 15 } else { x }) as u8
    }
}

/// A byte as two lower-case hex characters.
pub open spec fn hex_byte(b: u8) -> Seq<u8> {
    seq![hex_digit(b as int / 16), hex_digit(b as int % 16)]
}

/// Each byte of `s` as two hex characters, in order.
pub open spec fn hex_of(s: Seq<u8>) -> Seq<u8>
    decreases s.len(),
{
    if s.len() == 0 {
        Seq::<u8>::empty()
    } else {
        hex_byte(s[0]) + hex_of(s.skip(1))
    }
}

/// The identity string for external-credential authentication: the user
/// credential's decimal digits, each digit character hex-encoded byte by
/// byte (the ASCII code of the digit, not the digit's value).
pub open spec fn auth_identity_spec(uid: u32) -> Seq<u8> {
    hex_of(dec_digits(uid as int))
}

/// `hex_of` grows at the back one byte at a time.
proof fn lemma_hex_of_snoc(s: Seq<u8>)
    requires
        s.len() >= 1,
    ensures
        hex_of(s) == hex_of(s.drop_last()) + hex_byte(s.last()),
    decreases s.len(),
{
    if s.len() == 1 {
        assert(s.drop_last() =~= Seq::<u8>::empty());
        assert(s.skip(1) =~= Seq::<u8>::empty());
        assert(hex_of(s.drop_last()) + hex_byte(s.last()) =~= hex_byte(s[0]) + hex_of(s.skip(1)));
    } else {
        lemma_hex_of_snoc(s.skip(1));
        assert(s.skip(1).drop_last() =~= s.drop_last().skip(1));
        assert(s.skip(1).last() == s.last());
        assert(hex_of(s) =~= hex_of(s.drop_last()) + hex_byte(s.last()));
    }
}

/// The decimal digits of `uid`, as ASCII bytes.
pub fn decimal_digits(uid: u32) -> (r: Vec<u8>)
    ensures
        r@ == dec_digits(uid as int),
        r@.len() >= 1,
    decreases uid,
{
    if uid < 10 {
        vec![48 + (uid as u8)]
    } else {
        let mut r = decimal_digits(uid / 10);
        r.push(48 + ((uid % 10) as u8));
        proof {
            assert(r@ =~= dec_digits(uid as int));
        }
        r
    }
}

/// Exec mirror of `auth_identity_spec`.
pub fn auth_identity(uid: u32) -> (r: Vec<u8>)
    ensures
        r@ == auth_identity_spec(uid),
{
    let digits = decimal_digits(uid);
    let mut r: Vec<u8> = Vec::new();
    let mut i: usize = 0;
    proof {
        assert(digits@.subrange(0, 0) =~= Seq::<u8>::empty());
    }
    while i < digits.len()
        invariant
            i <= digits@.len(),
            digits@ == dec_digits(uid as int),
            r@ == hex_of(digits@.subrange(0, i as int)),
        decreases digits@.len() - i,
    {
        let b = digits[i];
        let hi = b / 16;
        let lo = b % 16;
        r.push(if hi < 10 { 48 + hi } else { 87 + hi });
        r.push(if lo < 10 { 48 + lo } else { 87 + lo });
        i = i + 1;
        proof {
            lemma_hex_of_snoc(digits@.subrange(0, i as int));
            assert(digits@.subrange(0, i as int).drop_last() =~= digits@.subrange(0, i - 1));
            assert(r@ =~= hex_of(digits@.subrange(0, i as int)));
        }
    }
    proof {
        assert(digits@.subrange(0, digits@.len() as int) =~= digits@);
    }
    r
}

/// The literal first line of the handshake around a given identity:
/// a NUL, `AUTH EXTERNAL `, the identity, `\r\n`.
pub open spec fn auth_line_spec(id: Seq<u8>) -> Seq<u8> {
    seq![0u8, 65u8, 85u8, 84u8, 72u8, 32u8, 69u8, 88u8, 84u8, 69u8, 82u8, 78u8, 65u8, 76u8, 32u8]
        + id + seq![13u8, 10u8]
}

/// Exec mirror of `auth_line_spec`.
pub fn auth_line(id: &Vec<u8>) -> (r: Vec<u8>)
    ensures
        r@ == auth_line_spec(id@),
{
    let mut r: Vec<u8> = vec![0, 65, 85, 84, 72, 32, 69, 88, 84, 69, 82, 78, 65, 76, 32];
    crate::marshal::push_bytes(&mut r, id);
    r.push(13);
    r.push(10);
    proof {
        assert(r@ =~= auth_line_spec(id@));
    }
    r
}

/// The literal line that ends the handshake: `BEGIN\r\n`.
pub open spec fn begin_line_spec() -> Seq<u8> {
    seq![66u8, 69u8, 71u8, 73u8, 78u8, 13u8, 10u8]
}

/// Exec mirror of `begin_line_spec`.
pub fn begin_line() -> (r: Vec<u8>)
    ensures
        r@ == begin_line_spec(),
{
    let r: Vec<u8> = vec![66, 69, 71, 73, 78, 13, 10];
    proof {
        assert(r@ =~= begin_line_spec());
    }
    r
}

/// The server's reply accepts the authentication: it is long enough to
/// carry `OK `, a 32-byte GUID and the line ending, it ends in `\r\n`, and
/// it begins with `OK `.
pub open spec fn auth_ok(line: Seq<u8>) -> bool {
    line.len() >= 37 && line[line.len() - 2] == 13 && line[line.len() - 1] == 10
        && line[0] == 79 && line[1] == 75 && line[2] == 32
}

/// Parses the server's one reply line: on acceptance the 32 bytes after
/// `OK ` are the server GUID; anything else is an authentication failure.
pub fn parse_auth_response(line: &Vec<u8>) -> (r: Result<Vec<u8>, Error>)
    ensures
        match r {
            Ok(guid) => auth_ok(line@) && guid@ == line@.subrange(3, 35),
            Err(err) => !auth_ok(line@) && err == Error::Authenticate,
        },
{
    let n = line.len();
    if n >= 37 && line[n - 2] == 13 && line[n - 1] == 10 && line[0] == 79 && line[1] == 75
        && line[2] == 32 {
        Ok(crate::marshal::copy_range(line, 3, 35))
    } else {
        Err(Error::Authenticate)
    }
}

} // verus!
