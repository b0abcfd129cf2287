//! Content fingerprints: the BLAKE3 digest of the exact UTF-8 bytes of a
//! string, in lowercase hexadecimal. Any textual change, white space and line
//! endings included, is meant to change the fingerprint.
use vstd::prelude::*;
use vstd::utf8::{encode_utf8, encode_utf8_decode_utf8};

use crate::text::{chars_of, same_chars, string_of};

verus! {

/// The 32-byte BLAKE3 digest of `input`.
pub uninterp spec fn blake3_digest(input: Seq<u8>) -> Seq<u8>;

/// Relies on `blake3::hash`: the digest of the bytes given, which depends on
/// those bytes alone.
#[verifier::external_body]
fn digest(input: &[u8]) -> (r: [u8; 32])
    ensures
        r@ == blake3_digest(input@),
{
    *blake3::hash(input).as_bytes()
}

/// The lowercase hexadecimal digit of `v < 16`.
pub open spec fn hex_digit(v: nat) -> char {
    if v < 10 {
        (v + 48) as char
    } else {
        (v + 87) as char
    }
}

/// Two lowercase hexadecimal digits per byte, high half first.
pub open spec fn hex_of(b: Seq<u8>) -> Seq<char>
    decreases b.len(),
{
    if b.len() == 0 {
        Seq::empty()
    } else {
        hex_of(b.drop_last()) + seq![hex_digit(b.last() as nat / 16), hex_digit(b.last() as nat % 16)]
    }
}

/// The fingerprint of a content string.
pub open spec fn fingerprint(content: Seq<char>) -> Seq<char> {
    hex_of(blake3_digest(encode_utf8(content)))
}

fn hex_char(v: u8) -> (c: char)
    requires
        v < 16,
    ensures
        c == hex_digit(v as nat),
{
    if v < 10 {
        (v + 48) as char
    } else {
        (v + 87) as char
    }
}

proof fn lemma_hex_len(b: Seq<u8>)
    ensures
        hex_of(b).len() == 2 * b.len(),
    decreases b.len(),
{
    if b.len() > 0 {
        lemma_hex_len(b.drop_last());
    }
}

/// The characters of the fingerprint of `content`.
fn fingerprint_chars(content: &str) -> (r: Vec<char>)
    ensures
        r@ == fingerprint(content@),
        r@.len() == 64,
{
    let d = digest(content.as_bytes());
    let mut out: Vec<char> = Vec::new();
    let mut i: usize = 0;
    while i < 32
        invariant
            i <= 32,
            d@.len() == 32,
            out@ == hex_of(d@.take(i as int)),
        decreases 32 - i,
    {
        let b = d[i];
        out.push(hex_char(b / 16));
        out.push(hex_char(b % 16));
        assert(d@.take(i + 1).drop_last() =~= d@.take(i as int));
        assert(out@ =~= hex_of(d@.take(i + 1)));
        i = i + 1;
    }
    assert(d@.take(32) =~= d@);
    proof {
        lemma_hex_len(d@);
    }
    out
}

/// The fingerprint of `content`: 64 lowercase hexadecimal digits.
pub fn hash_content(content: &str) -> (r: String)
    ensures
        r@ == fingerprint(content@),
        r@.len() == 64,
{
    string_of(&fingerprint_chars(content))
}

/// Whether `content` still has the fingerprint `expected_hash`.
pub fn verify_hash(content: &str, expected_hash: &str) -> (r: bool)
    ensures
        r == (fingerprint(content@) == expected_hash@),
{
    let actual = fingerprint_chars(content);
    let expected = chars_of(expected_hash);
    same_chars(actual.as_slice(), expected.as_slice())
}

proof fn lemma_hex_digit_injective(v: nat, w: nat)
    requires
        v < 16,
        w < 16,
        hex_digit(v) == hex_digit(w),
    ensures
        v == w,
{
    let cv = hex_digit(v) as u32;
    let cw = hex_digit(w) as u32;
    assert(cv == if v < 10 { v + 48 } else { v + 87 });
    assert(cw == if w < 10 { w + 48 } else { w + 87 });
}

proof fn lemma_hex_injective(x: Seq<u8>, y: Seq<u8>)
    requires
        hex_of(x) == hex_of(y),
    ensures
        x == y,
    decreases x.len(),
{
    lemma_hex_len(x);
    lemma_hex_len(y);
    if x.len() > 0 {
        let hx = hex_of(x);
        let n = hx.len() as int;
        let (a, b) = (x.last() as nat, y.last() as nat);
        assert(hx[n - 2] == hex_digit(a / 16) && hx[n - 1] == hex_digit(a % 16));
        assert(hex_of(y)[n - 2] == hex_digit(b / 16) && hex_of(y)[n - 1] == hex_digit(b % 16));
        lemma_hex_digit_injective(a / 16, b / 16);
        lemma_hex_digit_injective(a % 16, b % 16);
        assert(a == (a / 16) * 16 + a % 16);
        assert(b == (b / 16) * 16 + b % 16);
        lemma_hex_len(x.drop_last());
        assert(hex_of(x.drop_last()) =~= hx.take(n - 2));
        assert(hex_of(y.drop_last()) =~= hex_of(y).take(n - 2));
        lemma_hex_injective(x.drop_last(), y.drop_last());
        assert(x =~= x.drop_last().push(x.last()));
        assert(y =~= y.drop_last().push(y.last()));
    } else {
        assert(x =~= y);
    }
}

/// Contents that differ reach the digest as byte strings that differ, and
/// digests that differ give fingerprints that differ: two contents share a
/// fingerprint only through a collision of BLAKE3 itself.
pub proof fn lemma_fingerprint_sensitivity(a: Seq<char>, b: Seq<char>)
    requires
        a != b,
    ensures
        encode_utf8(a) != encode_utf8(b),
        blake3_digest(encode_utf8(a)) != blake3_digest(encode_utf8(b)) ==> fingerprint(a)
            != fingerprint(b),
{
    encode_utf8_decode_utf8(a);
    encode_utf8_decode_utf8(b);
    if fingerprint(a) == fingerprint(b) {
        lemma_hex_injective(blake3_digest(encode_utf8(a)), blake3_digest(encode_utf8(b)));
    }
}

/// The fingerprint is a function of the content alone: equal contents have
/// equal fingerprints, however often and wherever they are computed.
pub proof fn lemma_fingerprint_deterministic(a: Seq<char>, b: Seq<char>)
    requires
        a == b,
    ensures
        fingerprint(a) == fingerprint(b),
{
}

} // verus!
