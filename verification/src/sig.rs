//! The signature grammar: a signature is a sequence of single-character type
//! codes describing the shape of a value. A *single complete type* is one
//! basic code, `v`, `a` followed by a single complete type, `(` ... `)` around
//! one or more single complete types, or `{` basic-key value `}`.

use vstd::prelude::*;

verus! {

/// The single-character type codes, as byte values: `y b n q i u x t d s o g
/// v a ( ) { }`.
pub const C_BYTE: u8 = 121;
pub const C_BOOL: u8 = 98;
pub const C_INT16: u8 = 110;
pub const C_UINT16: u8 = 113;
pub const C_INT32: u8 = 105;
pub const C_UINT32: u8 = 117;
pub const C_INT64: u8 = 120;
pub const C_UINT64: u8 = 116;
pub const C_DOUBLE: u8 = 100;
pub const C_STRING: u8 = 115;
pub const C_PATH: u8 = 111;
pub const C_SIG: u8 = 103;
pub const C_VARIANT: u8 = 118;
pub const C_ARRAY: u8 = 97;
pub const C_STRUCT_OPEN: u8 = 40;
pub const C_STRUCT_CLOSE: u8 = 41;
pub const C_DICT_OPEN: u8 = 123;
pub const C_DICT_CLOSE: u8 = 125;

/// The codes of the basic (non-container) types: byte, boolean, the four
/// integer widths in both signs, double, string, object path, signature.
pub open spec fn is_basic_code(c: u8) -> bool {
    c == C_BYTE || c == C_BOOL || c == C_INT16 || c == C_UINT16 || c == C_INT32 || c == C_UINT32
        || c == C_INT64 || c == C_UINT64 || c == C_DOUBLE || c == C_STRING || c == C_PATH || c == C_SIG
}

/// Natural alignment of the type whose code is `c`, in bytes.
pub open spec fn align_of_code(c: u8) -> int {
    if c == C_BYTE || c == C_SIG || c == C_VARIANT {
        1
    } else if c == C_INT16 || c == C_UINT16 {
        2
    } else if c == C_BOOL || c == C_INT32 || c == C_UINT32 || c == C_STRING || c == C_PATH || c == C_ARRAY {
        4
    } else if c == C_INT64 || c == C_UINT64 || c == C_DOUBLE || c == C_STRUCT_OPEN || c == C_DICT_OPEN {
        8
    } else {
        1
    }
}

/// The length of the single complete type that `sig` begins with, or `None`
/// if `sig` does not begin with one.
pub open spec fn sig_one_len(sig: Seq<u8>) -> Option<int>
    decreases sig.len(), 0int,
{
    if sig.len() == 0 {
        None
    } else if is_basic_code(sig[0]) || sig[0] == C_VARIANT {
        Some(1int)
    } else if sig[0] == C_ARRAY {
        match sig_one_len(sig.skip(1)) {
            Some(n) => Some(1 + n),
            None => None,
        }
    } else if sig[0] == C_STRUCT_OPEN {
        match sig_fields_len(sig.skip(1)) {
            Some(n) => Some(2 + n),
            None => None,
        }
    } else if sig[0] == C_DICT_OPEN {
        if sig.len() >= 2 && is_basic_code(sig[1]) {
            match sig_one_len(sig.skip(2)) {
                Some(n) => if 2 + n < sig.len() && sig[2 + n] == C_DICT_CLOSE {
                    Some(3 + n)
                } else {
                    None
                },
                None => None,
            }
        } else {
            None
        }
    } else {
        None
    }
}

/// The length of the longest prefix of `sig` made of one or more single
/// complete types and followed by `)` (the `)` itself not counted).
pub open spec fn sig_fields_len(sig: Seq<u8>) -> Option<int>
    decreases sig.len(), 1int,
{
    match sig_one_len(sig) {
        Some(n) => if n < 1 {
            None
        } else if n < sig.len() && sig[n] == C_STRUCT_CLOSE {
            Some(n)
        } else if n < sig.len() {
            match sig_fields_len(sig.skip(n)) {
                Some(m) => Some(n + m),
                None => None,
            }
        } else {
            None
        },
        None => None,
    }
}

/// `sig` is exactly one single complete type.
pub open spec fn valid_sig_one(sig: Seq<u8>) -> bool {
    sig_one_len(sig) == Some(sig.len() as int)
}

/// `sig` is a sequence of zero or more single complete types.
pub open spec fn valid_sig_many(sig: Seq<u8>) -> bool
    decreases sig.len(),
{
    sig.len() == 0 || match sig_one_len(sig) {
        Some(n) => 1 <= n <= sig.len() && valid_sig_many(sig.skip(n)),
        None => false,
    }
}

/// A single complete type is between 1 byte and the whole of `sig` long.
pub proof fn lemma_sig_one_len_bounds(sig: Seq<u8>)
    ensures
        sig_one_len(sig) matches Some(n) ==> 1 <= n <= sig.len(),
    decreases sig.len(), 0int,
{
    if sig.len() != 0 {
        if sig[0] == C_ARRAY {
            lemma_sig_one_len_bounds(sig.skip(1));
        } else if sig[0] == C_STRUCT_OPEN {
            lemma_sig_fields_len_bounds(sig.skip(1));
        } else if sig[0] == C_DICT_OPEN {
            if sig.len() >= 2 && is_basic_code(sig[1]) {
                lemma_sig_one_len_bounds(sig.skip(2));
            }
        }
    }
}

/// A struct's field list is between 1 byte and the whole of `sig` long,
/// and the byte right after it is the `)`.
pub proof fn lemma_sig_fields_len_bounds(sig: Seq<u8>)
    ensures
        sig_fields_len(sig) matches Some(m) ==> 1 <= m < sig.len() && sig[m] == C_STRUCT_CLOSE,
    decreases sig.len(), 1int,
{
    lemma_sig_one_len_bounds(sig);
    match sig_one_len(sig) {
        Some(n) => {
            if 1 <= n < sig.len() && sig[n] != C_STRUCT_CLOSE {
                lemma_sig_fields_len_bounds(sig.skip(n));
            }
        },
        None => {},
    }
}

/// Parsing one single complete type looks only at the bytes of that type:
/// any `t` agreeing with `s` on those first `n` bytes parses the same way.
pub proof fn lemma_sig_one_len_take(s: Seq<u8>, t: Seq<u8>, n: int)
    requires
        sig_one_len(s) == Some(n),
        n <= t.len(),
        forall|i: int| 0 <= i < n ==> t[i] == s[i],
    ensures
        sig_one_len(t) == Some(n),
    decreases s.len(), 0int,
{
    lemma_sig_one_len_bounds(s);
    if is_basic_code(s[0]) || s[0] == C_VARIANT {
    } else if s[0] == C_ARRAY {
        lemma_sig_one_len_bounds(s.skip(1));
        lemma_sig_one_len_take(s.skip(1), t.skip(1), n - 1);
    } else if s[0] == C_STRUCT_OPEN {
        lemma_sig_fields_len_take(s.skip(1), t.skip(1), n - 2);
    } else if s[0] == C_DICT_OPEN {
        lemma_sig_one_len_take(s.skip(2), t.skip(2), n - 3);
        assert(t.len() >= 2 && is_basic_code(t[1]));
        assert(t[2 + (n - 3)] == C_DICT_CLOSE);
    }
}

/// The companion of `lemma_sig_one_len_take` for struct field lists; the
/// agreement must extend one byte further, over the closing `)`.
pub proof fn lemma_sig_fields_len_take(s: Seq<u8>, t: Seq<u8>, m: int)
    requires
        sig_fields_len(s) == Some(m),
        m + 1 <= t.len(),
        forall|i: int| 0 <= i < m + 1 ==> t[i] == s[i],
    ensures
        sig_fields_len(t) == Some(m),
    decreases s.len(), 1int,
{
    lemma_sig_fields_len_bounds(s);
    lemma_sig_one_len_bounds(s);
    let n = sig_one_len(s)->Some_0;
    if !(n < s.len() && s[n] == C_STRUCT_CLOSE) {
        lemma_sig_fields_len_bounds(s.skip(n));
    }
    lemma_sig_one_len_take(s, t, n);
    if s[n] == C_STRUCT_CLOSE {
    } else {
        lemma_sig_fields_len_take(s.skip(n), t.skip(n), m - n);
    }
}

/// Appending anything after a complete type leaves its parse unchanged.
pub proof fn lemma_sig_one_len_append(s: Seq<u8>, rest: Seq<u8>)
    requires
        valid_sig_one(s),
    ensures
        sig_one_len(s + rest) == Some(s.len() as int),
{
    lemma_sig_one_len_take(s, s + rest, s.len() as int);
}

/// Exec mirror of `sig_one_len`, reading `sig` from position `pos` on.
pub fn sig_one_len_exec(sig: &Vec<u8>, pos: usize) -> (r: Option<usize>)
    requires
        pos <= sig@.len(),
    ensures
        match r {
            Some(n) => sig_one_len(sig@.skip(pos as int)) == Some(n as int)
                && 1 <= n <= sig@.len() - pos,
            None => sig_one_len(sig@.skip(pos as int)) is None,
        },
    decreases sig@.len() - pos, 0int,
{
    proof {
        lemma_sig_one_len_bounds(sig@.skip(pos as int));
    }
    if pos == sig.len() {
        None
    } else {
        let c = sig[pos];
        if c == C_BYTE || c == C_BOOL || c == C_INT16 || c == C_UINT16 || c == C_INT32 || c == C_UINT32
            || c == C_INT64 || c == C_UINT64 || c == C_DOUBLE || c == C_STRING || c == C_PATH || c == C_SIG
            || c == C_VARIANT
        {
            Some(1)
        } else if c == C_ARRAY {
            proof {
                assert(sig@.skip(pos as int).skip(1) =~= sig@.skip(pos + 1int));
            }
            match sig_one_len_exec(sig, pos + 1) {
                Some(n) => Some(1 + n),
                None => None,
            }
        } else if c == C_STRUCT_OPEN {
            proof {
                assert(sig@.skip(pos as int).skip(1) =~= sig@.skip(pos + 1int));
            }
            match sig_fields_len_exec(sig, pos + 1) {
                Some(n) => Some(2 + n),
                None => None,
            }
        } else if c == C_DICT_OPEN {
            if sig.len() - pos >= 2 {
                let k = sig[pos + 1];
                let basic = k == C_BYTE || k == C_BOOL || k == C_INT16 || k == C_UINT16 || k == C_INT32
                    || k == C_UINT32 || k == C_INT64 || k == C_UINT64 || k == C_DOUBLE || k == C_STRING
                    || k == C_PATH || k == C_SIG;
                if basic {
                    proof {
                        assert(sig@.skip(pos as int).skip(2) =~= sig@.skip(pos + 2int));
                    }
                    match sig_one_len_exec(sig, pos + 2) {
                        Some(n) => {
                            if n < sig.len() - (pos + 2) && sig[pos + 2 + n] == C_DICT_CLOSE {
                                Some(3 + n)
                            } else {
                                None
                            }
                        },
                        None => None,
                    }
                } else {
                    None
                }
            } else {
                None
            }
        } else {
            None
        }
    }
}

/// Exec mirror of `sig_fields_len`, reading `sig` from position `pos` on.
pub fn sig_fields_len_exec(sig: &Vec<u8>, pos: usize) -> (r: Option<usize>)
    requires
        pos <= sig@.len(),
    ensures
        match r {
            Some(m) => sig_fields_len(sig@.skip(pos as int)) == Some(m as int)
                && 1 <= m && m < sig@.len() - pos,
            None => sig_fields_len(sig@.skip(pos as int)) is None,
        },
    decreases sig@.len() - pos, 1int,
{
    proof {
        lemma_sig_fields_len_bounds(sig@.skip(pos as int));
    }
    match sig_one_len_exec(sig, pos) {
        Some(n) => {
            if n < sig.len() - pos && sig[pos + n] == C_STRUCT_CLOSE {
                Some(n)
            } else if n < sig.len() - pos {
                proof {
                    assert(sig@.skip(pos as int).skip(n as int) =~= sig@.skip(pos + n as int));
                }
                match sig_fields_len_exec(sig, pos + n) {
                    Some(m) => Some(n + m),
                    None => None,
                }
            } else {
                None
            }
        },
        None => None,
    }
}

/// True exactly when the bytes of `sig` form one single complete type.
pub fn check_sig_one(sig: &Vec<u8>) -> (r: bool)
    ensures
        r == valid_sig_one(sig@),
{
    proof {
        assert(sig@.skip(0) =~= sig@);
    }
    match sig_one_len_exec(sig, 0) {
        Some(n) => n == sig.len(),
        None => false,
    }
}

/// True exactly when the bytes of `sig` form a sequence of zero or more
/// single complete types.
pub fn check_sig_many(sig: &Vec<u8>) -> (r: bool)
    ensures
        r == valid_sig_many(sig@),
{
    let mut pos: usize = 0;
    proof {
        assert(sig@.skip(0) =~= sig@);
    }
    loop
        invariant
            pos <= sig@.len(),
            valid_sig_many(sig@) == valid_sig_many(sig@.skip(pos as int)),
        decreases sig@.len() - pos,
    {
        if pos == sig.len() {
            return true;
        }
        match sig_one_len_exec(sig, pos) {
            Some(n) => {
                proof {
                    assert(sig@.skip(pos as int).skip(n as int) =~= sig@.skip(pos + n as int));
                }
                pos = pos + n;
            },
            None => {
                return false;
            },
        }
    }
}

} // verus!
