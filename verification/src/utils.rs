//! The key codec: a (column family, logical key) pair is multiplexed into one
//! physical key as `cf_name ++ "@!@" ++ key`, and recovered from it by
//! splitting at the first occurrence of the delimiter. For column-family
//! names that never contain the byte `@` the encoding is injective and, per
//! family, order-preserving; the laws at the end of this module state both.

use vstd::prelude::*;
use vstd::slice::{slice_subrange, slice_to_vec};
use crate::order::{lex_lt, lemma_lex_lt_common_prefix};

verus! {

/// The UTF-8 bytes of a string of characters: how a column-family name
/// supplied as a string looks in the physical keyspace.
pub open spec fn str_bytes(s: Seq<char>) -> Seq<u8> {
    vstd::utf8::encode_utf8(s)
}

/// The delimiter bytes `@!@` that separate the family name from the key.
pub open spec fn delim() -> Seq<u8> {
    seq![64u8, 33u8, 64u8]
}

/// The bytes of the implicit default column family, `default`.
pub open spec fn default_cf() -> Seq<u8> {
    seq![100u8, 101u8, 102u8, 97u8, 117u8, 108u8, 116u8]
}

/// The physical key that stands for `key` inside the family named `cf`.
pub open spec fn spec_encode(cf: Seq<u8>, key: Seq<u8>) -> Seq<u8> {
    cf + delim() + key
}

/// The delimiter occurs in `s` starting at position `i`.
pub open spec fn delim_at(s: Seq<u8>, i: int) -> bool {
    &&& 0 <= i
    &&& i + 3 <= s.len()
    &&& s[i] == 64u8
    &&& s[i + 1] == 33u8
    &&& s[i + 2] == 64u8
}

/// A well-formed physical key holds the delimiter somewhere.
pub open spec fn wf_physical_key(s: Seq<u8>) -> bool {
    exists|i: int| delim_at(s, i)
}

/// `i` is the earliest delimiter position in `s`.
pub open spec fn is_first_delim(s: Seq<u8>, i: int) -> bool {
    delim_at(s, i) && (forall|j: int| 0 <= j < i ==> !delim_at(s, j))
}

/// The earliest delimiter position of a well-formed physical key.
pub open spec fn first_delim(s: Seq<u8>) -> int {
    choose|i: int| is_first_delim(s, i)
}

/// The column-family part of a physical key: what stands before the first
/// delimiter; a key without a delimiter is read as a bare family name.
pub open spec fn spec_decode_cf(s: Seq<u8>) -> Seq<u8> {
    if wf_physical_key(s) {
        s.subrange(0, first_delim(s))
    } else {
        s
    }
}

/// The logical-key part of a physical key: what stands after the first
/// delimiter.
pub open spec fn spec_decode_key(s: Seq<u8>) -> Seq<u8> {
    if wf_physical_key(s) {
        s.subrange(first_delim(s) + 3, s.len() as int)
    } else {
        Seq::empty()
    }
}

/// A valid column-family name is a short ASCII identifier; in particular it
/// never holds the byte `@`, so the delimiter cannot occur in it or straddle
/// its end.
pub open spec fn valid_cf_bytes(cf: Seq<u8>) -> bool {
    forall|i: int| 0 <= i < cf.len() ==> cf[i] != 64u8 && cf[i] < 128u8
}

pub proof fn lemma_default_cf_valid()
    ensures
        valid_cf_bytes(default_cf()),
{
    assert forall|i: int| 0 <= i < default_cf().len() implies default_cf()[i] != 64u8
        && default_cf()[i] < 128u8 by {
        if i == 0 {
            assert(default_cf()[0] == 100u8);
        }
    }
}

/// Some delimiter position exists, so an earliest one exists and `choose`
/// picks it.
pub proof fn lemma_first_delim_exists(s: Seq<u8>, k: int)
    requires
        delim_at(s, k),
    ensures
        wf_physical_key(s),
        is_first_delim(s, first_delim(s)),
    decreases k,
{
    if exists|j: int| 0 <= j < k && delim_at(s, j) {
        let j = choose|j: int| 0 <= j < k && delim_at(s, j);
        lemma_first_delim_exists(s, j);
    } else {
        assert(is_first_delim(s, k));
        assert(is_first_delim(s, first_delim(s)));
    }
}

pub proof fn lemma_first_delim_unique(s: Seq<u8>, i: int, j: int)
    requires
        is_first_delim(s, i),
        is_first_delim(s, j),
    ensures
        i == j,
{
    if i < j {
        assert(!delim_at(s, i));
    } else if j < i {
        assert(!delim_at(s, j));
    }
}

/// For a valid family name the first delimiter of the encoding is exactly the
/// one the encoder wrote.
pub proof fn lemma_encode_first_delim(cf: Seq<u8>, key: Seq<u8>)
    requires
        valid_cf_bytes(cf),
    ensures
        is_first_delim(spec_encode(cf, key), cf.len() as int),
{
    let s = spec_encode(cf, key);
    assert(s[cf.len() as int] == 64u8);
    assert(s[cf.len() as int + 1] == 33u8);
    assert(s[cf.len() as int + 2] == 64u8);
    assert(delim_at(s, cf.len() as int));
    assert forall|j: int| 0 <= j < cf.len() implies !delim_at(s, j) by {
        assert(s[j] == cf[j]);
    }
}

/// Every encoded pair is a well-formed physical key, whatever the family
/// bytes are: the encoder itself writes a delimiter.
pub proof fn lemma_encode_wf(cf: Seq<u8>, key: Seq<u8>)
    ensures
        wf_physical_key(spec_encode(cf, key)),
{
    let s = spec_encode(cf, key);
    assert(s[cf.len() as int] == 64u8);
    assert(s[cf.len() as int + 1] == 33u8);
    assert(s[cf.len() as int + 2] == 64u8);
    assert(delim_at(s, cf.len() as int));
}

/// Round-trip law: decoding an encoded pair recovers exactly the family and
/// the key, for every valid family name and every key, the empty key
/// included.
pub proof fn lemma_round_trip(cf: Seq<u8>, key: Seq<u8>)
    requires
        valid_cf_bytes(cf),
    ensures
        wf_physical_key(spec_encode(cf, key)),
        spec_decode_cf(spec_encode(cf, key)) == cf,
        spec_decode_key(spec_encode(cf, key)) == key,
{
    let s = spec_encode(cf, key);
    lemma_encode_first_delim(cf, key);
    lemma_first_delim_exists(s, cf.len() as int);
    lemma_first_delim_unique(s, first_delim(s), cf.len() as int);
    assert(s.subrange(0, cf.len() as int) =~= cf);
    assert(s.subrange(cf.len() as int + 3, s.len() as int) =~= key);
}

/// Re-encoding the two decoded halves of a well-formed physical key gives
/// back exactly that key.
pub proof fn lemma_decode_encode(p: Seq<u8>)
    requires
        wf_physical_key(p),
    ensures
        spec_encode(spec_decode_cf(p), spec_decode_key(p)) == p,
{
    let k = choose|i: int| delim_at(p, i);
    lemma_first_delim_exists(p, k);
    let fd = first_delim(p);
    assert(delim_at(p, fd));
    assert(spec_encode(spec_decode_cf(p), spec_decode_key(p)) =~= p);
}

/// Isolation law: encoding is injective over valid family names, so two
/// distinct families can never collide on any pair of keys.
pub proof fn lemma_encode_injective(cf1: Seq<u8>, k1: Seq<u8>, cf2: Seq<u8>, k2: Seq<u8>)
    requires
        valid_cf_bytes(cf1),
        valid_cf_bytes(cf2),
        spec_encode(cf1, k1) == spec_encode(cf2, k2),
    ensures
        cf1 == cf2,
        k1 == k2,
{
    lemma_round_trip(cf1, k1);
    lemma_round_trip(cf2, k2);
}

/// Ordering law: within one family, physical-key order equals logical-key
/// order.
pub proof fn lemma_encode_order_preserving(cf: Seq<u8>, k1: Seq<u8>, k2: Seq<u8>)
    ensures
        lex_lt(spec_encode(cf, k1), spec_encode(cf, k2)) == lex_lt(k1, k2),
{
    assert(spec_encode(cf, k1) =~= (cf + delim()) + k1);
    assert(spec_encode(cf, k2) =~= (cf + delim()) + k2);
    lemma_lex_lt_common_prefix(cf + delim(), k1, k2);
}

/// A string whose characters came one-for-one from ASCII bytes has exactly
/// those bytes as its UTF-8 encoding.
pub proof fn lemma_ascii_str_bytes(s: Seq<char>, b: Seq<u8>)
    requires
        s.len() == b.len(),
        forall|i: int| 0 <= i < b.len() ==> b[i] < 128u8,
        forall|i: int| 0 <= i < s.len() ==> s[i] == b[i] as char,
    ensures
        str_bytes(s) == b,
{
    assert(vstd::utf8::is_ascii_chars(s)) by {
        assert forall|i: int| 0 <= i < s.len() implies '\0' <= #[trigger] s[i] <= '\u{7f}' by {
            assert(s[i] == b[i] as char);
        }
    }
    vstd::utf8::is_ascii_chars_encode_utf8(s);
    assert(str_bytes(s) =~= b) by {
        assert forall|i: int| 0 <= i < b.len() implies str_bytes(s)[i] == b[i] by {
            assert(str_bytes(s)[i] == s[i] as u8);
            assert(s[i] == b[i] as char);
        }
    }
}

/// The bytes of the implicit default column family's name.
pub fn default_cf_bytes() -> (r: Vec<u8>)
    ensures
        r@ == default_cf(),
{
    let mut b: Vec<u8> = Vec::new();
    b.push(100u8);
    b.push(101u8);
    b.push(102u8);
    b.push(97u8);
    b.push(117u8);
    b.push(108u8);
    b.push(116u8);
    proof {
        assert(b@ =~= default_cf());
    }
    b
}

/// The name of the implicit default column family, as a string.
pub fn default_cf_name() -> (r: String)
    ensures
        str_bytes(r@) == default_cf(),
        r@.len() == default_cf().len(),
{
    let mut b: Vec<u8> = Vec::new();
    b.push(100u8);
    b.push(101u8);
    b.push(102u8);
    b.push(97u8);
    b.push(117u8);
    b.push(108u8);
    b.push(116u8);
    proof {
        assert(b@ =~= default_cf());
        lemma_default_cf_valid();
    }
    let s = string_from_ascii(b);
    proof {
        lemma_ascii_str_bytes(s@, default_cf());
    }
    s
}

/// Relies on `String::from_utf8`: a buffer of ASCII bytes is valid UTF-8 and
/// decodes to the string whose characters are exactly those bytes.
#[verifier::external_body]
fn string_from_ascii(bytes: Vec<u8>) -> (r: String)
    requires
        forall|i: int| 0 <= i < bytes@.len() ==> bytes@[i] < 128u8,
    ensures
        r@.len() == bytes@.len(),
        forall|i: int| 0 <= i < r@.len() ==> r@[i] == bytes@[i] as char,
{
    String::from_utf8(bytes).unwrap()
}

/// Position of the first delimiter in `s`, if any.
fn find_delim(s: &[u8]) -> (r: Option<usize>)
    ensures
        match r {
            Some(i) => is_first_delim(s@, i as int),
            None => !wf_physical_key(s@),
        },
{
    let n = s.len();
    if n < 3 {
        return None;
    }
    let mut i: usize = 0;
    while i <= n - 3
        invariant
            3 <= n,
            i <= n,
            n == s@.len(),
            forall|j: int| 0 <= j < i ==> !delim_at(s@, j),
        decreases n - i,
    {
        if s[i] == 64u8 && s[i + 1] == 33u8 && s[i + 2] == 64u8 {
            return Some(i);
        }
        i = i + 1;
    }
    None
}

/// Build the physical key for `key` in the named family, or in the default
/// family when none is named.
pub fn add_cf_prefix(key: &[u8], cf_name: Option<String>) -> (r: Vec<u8>)
    ensures
        match cf_name {
            Some(cf) => r@ == spec_encode(str_bytes(cf@), key@),
            None => r@ == spec_encode(default_cf(), key@),
        },
{
    let mut out: Vec<u8> = Vec::new();
    match &cf_name {
        Some(cf) => {
            let mut cfb = slice_to_vec(cf.as_str().as_bytes());
            out.append(&mut cfb);
        },
        None => {
            out.push(100u8);
            out.push(101u8);
            out.push(102u8);
            out.push(97u8);
            out.push(117u8);
            out.push(108u8);
            out.push(116u8);
            proof {
                assert(out@ =~= default_cf());
            }
        },
    }
    out.push(64u8);
    out.push(33u8);
    out.push(64u8);
    let mut tail = slice_to_vec(key);
    out.append(&mut tail);
    proof {
        match cf_name {
            Some(cf) => {
                assert(out@ =~= spec_encode(str_bytes(cf@), key@));
            },
            None => {
                assert(out@ =~= spec_encode(default_cf(), key@));
            },
        }
    }
    out
}

/// Split a physical key into its column-family bytes and logical-key bytes.
/// A key without a delimiter is read as a bare family name with an empty
/// key.
pub fn decode_physical(key_with_cf: &[u8]) -> (r: (Vec<u8>, Vec<u8>))
    ensures
        r.0@ == spec_decode_cf(key_with_cf@),
        r.1@ == spec_decode_key(key_with_cf@),
{
    match find_delim(key_with_cf) {
        Some(i) => {
            let n = key_with_cf.len();
            proof {
                lemma_first_delim_exists(key_with_cf@, i as int);
                lemma_first_delim_unique(key_with_cf@, first_delim(key_with_cf@), i as int);
                assert(delim_at(key_with_cf@, i as int));
                assert(i as int + 3 <= n as int);
                assert(spec_decode_cf(key_with_cf@) =~= key_with_cf@.subrange(0, i as int));
                assert(spec_decode_key(key_with_cf@) =~= key_with_cf@.subrange(
                    i as int + 3,
                    n as int,
                ));
            }
            let cfb = slice_to_vec(slice_subrange(key_with_cf, 0, i));
            let key = slice_to_vec(slice_subrange(key_with_cf, i + 3, n));
            (cfb, key)
        },
        None => {
            proof {
                assert(spec_decode_cf(key_with_cf@) == key_with_cf@);
            }
            (slice_to_vec(key_with_cf), Vec::new())
        },
    }
}

/// Split a physical key back into its column-family name and logical key.
/// The family part must be ASCII, as every name this layer writes is.
pub fn get_cf_and_key(key_with_cf: &[u8]) -> (r: (String, Vec<u8>))
    requires
        forall|i: int|
            0 <= i < spec_decode_cf(key_with_cf@).len() ==> spec_decode_cf(key_with_cf@)[i]
                < 128u8,
    ensures
        r.0@.len() == spec_decode_cf(key_with_cf@).len(),
        forall|i: int| 0 <= i < r.0@.len() ==> r.0@[i] == spec_decode_cf(key_with_cf@)[i] as char,
        r.1@ == spec_decode_key(key_with_cf@),
{
    let (cfb, key) = decode_physical(key_with_cf);
    let cf_name = string_from_ascii(cfb);
    (cf_name, key)
}

} // verus!
