//! Content hashes: the SHA-256 digest of a message, written in lower-case
//! hexadecimal.

use sha2::Digest;
use vstd::prelude::*;

verus! {

/// The SHA-256 digest of `data`.
pub uninterp spec fn sha256_digest(data: Seq<u8>) -> [u8; 32];

/// `sha2::Sha256::digest`: the 32 bytes it returns are the SHA-256 digest of
/// `data`, the same for the same bytes.
#[verifier::external_body]
fn digest(data: &[u8]) -> (out: [u8; 32])
    ensures
        out == sha256_digest(data@),
{
    sha2::Sha256::digest(data).into()
}

/// The lower-case hexadecimal digit for `n`, for `0 <= n < 16`.
pub open spec fn hex_digit(n: int) -> char {
    if n == 0 {
        '0'
    } else if n == 1 {
        '1'
    } else if n == 2 {
        '2'
    } else if n == 3 {
        '3'
    } else if n == 4 {
        '4'
    } else if n == 5 {
        '5'
    } else if n == 6 {
        '6'
    } else if n == 7 {
        '7'
    } else if n == 8 {
        '8'
    } else if n == 9 {
        '9'
    } else if n == 10 {
        'a'
    } else if n == 11 {
        'b'
    } else if n == 12 {
        'c'
    } else if n == 13 {
        'd'
    } else if n == 14 {
        'e'
    } else {
        'f'
    }
}

/// `c` is one of `0`-`9`, `a`-`f`.
pub open spec fn is_hex_digit(c: char) -> bool {
    exists|n: int| 0 <= n < 16 && c == #[trigger] hex_digit(n)
}

/// Two characters per byte, the high half first.
pub open spec fn hex(bytes: Seq<u8>) -> Seq<char> {
    Seq::new(
        2 * bytes.len(),
        |i: int|
            if i % 2 == 0 {
                hex_digit(bytes[i / 2] as int / 16)
            } else {
                hex_digit(bytes[i / 2] as int % 16)
            },
    )
}

/// What `sha256` returns for `data`.
pub open spec fn sha256_hex(data: Seq<u8>) -> Seq<char> {
    hex(sha256_digest(data)@)
}

/// `text` has the shape of a content hash: 64 hexadecimal digits.
pub open spec fn is_hash(text: Seq<char>) -> bool {
    &&& text.len() == 64
    &&& forall|i: int| 0 <= i < text.len() ==> is_hex_digit(#[trigger] text[i])
}

fn hex_char(n: u8) -> (c: char)
    requires
        n < 16,
    ensures
        c == hex_digit(n as int),
{
    if n == 0 {
        '0'
    } else if n == 1 {
        '1'
    } else if n == 2 {
        '2'
    } else if n == 3 {
        '3'
    } else if n == 4 {
        '4'
    } else if n == 5 {
        '5'
    } else if n == 6 {
        '6'
    } else if n == 7 {
        '7'
    } else if n == 8 {
        '8'
    } else if n == 9 {
        '9'
    } else if n == 10 {
        'a'
    } else if n == 11 {
        'b'
    } else if n == 12 {
        'c'
    } else if n == 13 {
        'd'
    } else if n == 14 {
        'e'
    } else {
        'f'
    }
}

/// Writes `bytes` in lower-case hexadecimal.
pub fn to_hex(bytes: &[u8]) -> (text: String)
    ensures
        text@ == hex(bytes@),
{
    let mut text = String::new();
    let mut i: usize = 0;
    while i < bytes.len()
        invariant
            i <= bytes.len(),
            text@.len() == 2 * i,
            forall|k: int| 0 <= k < text@.len() ==> text@[k] == hex(bytes@)[k],
        decreases bytes.len() - i,
    {
        let b: u8 = bytes[i];
        text.push(hex_char(b / 16));
        text.push(hex_char(b % 16));
        i += 1;
    }
    text
}

/// Hexadecimal text is made of hexadecimal digits, two for each byte.
pub proof fn lemma_hex_shape(bytes: Seq<u8>)
    ensures
        hex(bytes).len() == 2 * bytes.len(),
        forall|i: int| 0 <= i < hex(bytes).len() ==> is_hex_digit(#[trigger] hex(bytes)[i]),
{
    assert forall|i: int| 0 <= i < hex(bytes).len() implies is_hex_digit(
        #[trigger] hex(bytes)[i],
    ) by {
        let b = bytes[i / 2] as int;
        assert(hex(bytes)[i] == hex_digit(b / 16) || hex(bytes)[i] == hex_digit(b % 16));
    }
}

/// Every content hash is 64 hexadecimal digits.
pub proof fn lemma_hash_shape(data: Seq<u8>)
    ensures
        is_hash(sha256_hex(data)),
{
    lemma_hex_shape(sha256_digest(data)@);
}

/// The content hash of `data`: its SHA-256 digest in lower-case hexadecimal.
pub fn sha256(data: &[u8]) -> (hash: String)
    ensures
        hash@ == sha256_hex(data@),
        is_hash(hash@),
{
    let out = digest(data);
    proof {
        lemma_hash_shape(data@);
    }
    to_hex(out.as_slice())
}

/// Different digits stand for different numbers.
pub proof fn lemma_hex_digit_injective(m: int, n: int)
    requires
        0 <= m < 16,
        0 <= n < 16,
        hex_digit(m) == hex_digit(n),
    ensures
        m == n,
{
}

/// Hexadecimal text determines the bytes it was written from.
pub proof fn lemma_hex_injective(a: Seq<u8>, b: Seq<u8>)
    requires
        hex(a) == hex(b),
    ensures
        a == b,
{
    assert(hex(a).len() == 2 * a.len());
    assert(hex(b).len() == 2 * b.len());
    assert forall|i: int| 0 <= i < a.len() implies a[i] == b[i] by {
        let x = a[i] as int;
        let y = b[i] as int;
        assert(hex(a)[2 * i] == hex_digit(x / 16));
        assert(hex(b)[2 * i] == hex_digit(y / 16));
        assert(hex(a)[2 * i + 1] == hex_digit(x % 16));
        assert(hex(b)[2 * i + 1] == hex_digit(y % 16));
        lemma_hex_digit_injective(x / 16, y / 16);
        lemma_hex_digit_injective(x % 16, y % 16);
    }
    assert(a =~= b);
}

/// Byte-identical data has the same content hash, and two pieces of data have
/// the same content hash only if their SHA-256 digests are the same.
pub proof fn lemma_content_addressing(m1: Seq<u8>, m2: Seq<u8>)
    ensures
        m1 == m2 ==> sha256_hex(m1) == sha256_hex(m2),
        sha256_hex(m1) == sha256_hex(m2) <==> sha256_digest(m1) == sha256_digest(m2),
{
    if sha256_hex(m1) == sha256_hex(m2) {
        lemma_hex_injective(sha256_digest(m1)@, sha256_digest(m2)@);
        assert(sha256_digest(m1) =~= sha256_digest(m2));
    }
}

} // verus!
