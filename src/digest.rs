//! The query key: the uppercase hexadecimal SHA-1 of a password, or a digest
//! that was given directly.
use sha1::Digest;
use vstd::prelude::*;
use vstd::string::StrSliceExecFns;
use vstd::string::StringExecFns;

verus! {

/// The character that stands for the value `v` (below 16) as an uppercase
/// hexadecimal digit.
pub open spec fn hex_digit(v: u8) -> char {
    if v < 10 {
        (48 + v) as char
    } else {
        (55 + v) as char
    }
}

/// `0-9` and `A-F`.
pub open spec fn is_upper_hex_char(c: char) -> bool {
    ('0' <= c && c <= '9') || ('A' <= c && c <= 'F')
}

/// The bytes `b` written as uppercase hexadecimal, two digits per byte, the
/// high half first, with no separator.
pub open spec fn hex_upper(b: Seq<u8>) -> Seq<char> {
    Seq::new(
        2 * b.len(),
        |i: int|
            if i % 2 == 0 {
                hex_digit(b[i / 2] / 16)
            } else {
                hex_digit(b[i / 2] % 16)
            },
    )
}

/// The one-character string of the uppercase hexadecimal digit for `v`.
fn digit_str(v: u8) -> (r: &'static str)
    requires
        v < 16,
    ensures
        r@ == seq![hex_digit(v)],
{
    let digits = "0123456789ABCDEF";
    proof {
        reveal_strlit("0123456789ABCDEF");
    }
    digits.substring_ascii(v as usize, v as usize + 1)
}

/// Writes `b` as uppercase hexadecimal.
pub fn to_hex_upper(b: &[u8]) -> (r: String)
    ensures
        r@ == hex_upper(b@),
{
    let mut r = String::new();
    let mut i: usize = 0;
    while i < b.len()
        invariant
            0 <= i <= b@.len(),
            r@ == hex_upper(b@.subrange(0, i as int)),
        decreases b@.len() - i,
    {
        let byte = b[i];
        r.append(digit_str(byte / 16));
        r.append(digit_str(byte % 16));
        assert(hex_upper(b@.subrange(0, i + 1)) =~= hex_upper(b@.subrange(0, i as int)) + seq![
            hex_digit(byte / 16),
            hex_digit(byte % 16),
        ]);
        i = i + 1;
    }
    assert(b@.subrange(0, b@.len() as int) =~= b@);
    r
}

/// The SHA-1 digest of the UTF-8 encoding of the characters `s`.
pub uninterp spec fn sha1_of(s: Seq<char>) -> Seq<u8>;

/// Relies on `sha1::Sha1::digest` (through `digest::Digest`): it hashes the
/// UTF-8 bytes of `s`, and its output type holds exactly 20 bytes.
#[verifier::external_body]
fn sha1_bytes(s: &str) -> (r: Vec<u8>)
    ensures
        r@ == sha1_of(s@),
        r@.len() == 20,
{
    sha1::Sha1::digest(s.as_bytes()).to_vec()
}

/// The key of a password: its SHA-1 in uppercase hexadecimal.
pub open spec fn digest_of(s: Seq<char>) -> Seq<char> {
    hex_upper(sha1_of(s))
}

/// Every character of `hex_upper(b)` is an uppercase hexadecimal digit.
pub proof fn lemma_hex_upper_shape(b: Seq<u8>)
    ensures
        hex_upper(b).len() == 2 * b.len(),
        forall|i: int| 0 <= i < hex_upper(b).len() ==> is_upper_hex_char(#[trigger] hex_upper(b)[i]),
{
    assert forall|i: int| 0 <= i < hex_upper(b).len() implies is_upper_hex_char(#[trigger] hex_upper(b)[i]) by {
        let byte = b[i / 2];
        assert(byte / 16 < 16 && byte % 16 < 16);
    }
}

/// The SHA-1 of `password`'s UTF-8 bytes, as 40 uppercase hexadecimal digits.
pub fn sha1_hash(password: &str) -> (r: String)
    ensures
        r@ == digest_of(password@),
        r@.len() == 40,
        forall|i: int| 0 <= i < r@.len() ==> is_upper_hex_char(#[trigger] r@[i]),
{
    let bytes = sha1_bytes(password);
    proof {
        lemma_hex_upper_shape(bytes@);
    }
    to_hex_upper(bytes.as_slice())
}

/// The digest of a password depends on the password alone: equal inputs give
/// equal digests, in every call.
pub proof fn lemma_digest_deterministic(a: Seq<char>, b: Seq<char>)
    requires
        a == b,
    ensures
        digest_of(a) == digest_of(b),
{
}

/// A hexadecimal digit of either case.
pub open spec fn is_hex_char(c: char) -> bool {
    ('0' <= c && c <= '9') || ('a' <= c && c <= 'f') || ('A' <= c && c <= 'F')
}

/// `s` already is a SHA-1 digest: 40 hexadecimal digits of either case.
pub open spec fn is_sha1_hex(s: Seq<char>) -> bool {
    s.len() == 40 && forall|i: int| 0 <= i < s.len() ==> is_hex_char(#[trigger] s[i])
}

/// `c` with a lowercase ASCII letter turned to uppercase.
pub open spec fn ascii_upper(c: char) -> char {
    if 'a' <= c && c <= 'z' {
        ((c as u32) - 32) as char
    } else {
        c
    }
}

/// The value of the hexadecimal digit `c`.
pub open spec fn hex_value(c: char) -> u8 {
    if '0' <= c && c <= '9' {
        ((c as u32) - 48) as u8
    } else if 'a' <= c && c <= 'f' {
        ((c as u32) - 87) as u8
    } else {
        ((c as u32) - 55) as u8
    }
}

/// The key that a query stands for: the query itself in uppercase when it is
/// already a digest, else the digest of the query.
pub open spec fn query_key_of(q: Seq<char>) -> Seq<char> {
    if is_sha1_hex(q) {
        q.map_values(|c: char| ascii_upper(c))
    } else {
        digest_of(q)
    }
}

fn hex_char_value(c: char) -> (r: u8)
    requires
        is_hex_char(c),
    ensures
        r == hex_value(c),
        r < 16,
        hex_digit(r) == ascii_upper(c),
{
    if '0' <= c && c <= '9' {
        (c as u32 - 48) as u8
    } else if 'a' <= c && c <= 'f' {
        (c as u32 - 87) as u8
    } else {
        (c as u32 - 55) as u8
    }
}

/// Whether `s` is 40 hexadecimal digits of either case.
pub fn is_valid_sha1_hash(s: &str) -> (r: bool)
    ensures
        r == is_sha1_hex(s@),
{
    if s.unicode_len() != 40 {
        return false;
    }
    let mut i: usize = 0;
    while i < 40
        invariant
            s@.len() == 40,
            0 <= i <= 40,
            forall|j: int| 0 <= j < i ==> is_hex_char(#[trigger] s@[j]),
        decreases 40 - i,
    {
        let c = s.get_char(i);
        if !(('0' <= c && c <= '9') || ('a' <= c && c <= 'f') || ('A' <= c && c <= 'F')) {
            return false;
        }
        i = i + 1;
    }
    true
}

/// The key to look up for a query: a query of 40 hexadecimal digits is taken
/// as a digest and uppercased, any other query is hashed.
pub fn query_key(query: &str) -> (r: String)
    ensures
        r@ == query_key_of(query@),
        r@.len() == 40,
        forall|i: int| 0 <= i < r@.len() ==> is_upper_hex_char(#[trigger] r@[i]),
{
    if !is_valid_sha1_hash(query) {
        return sha1_hash(query);
    }
    let mut r = String::new();
    let mut i: usize = 0;
    while i < 40
        invariant
            is_sha1_hex(query@),
            0 <= i <= 40,
            r@ =~= query@.subrange(0, i as int).map_values(|c: char| ascii_upper(c)),
            forall|j: int| 0 <= j < r@.len() ==> is_upper_hex_char(#[trigger] r@[j]),
        decreases 40 - i,
    {
        let v = hex_char_value(query.get_char(i));
        r.append(digit_str(v));
        i = i + 1;
    }
    assert(query@.subrange(0, 40) =~= query@);
    r
}

} // verus!
