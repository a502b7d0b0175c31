//! Content identity: the fingerprint of an item is the hex rendering of
//! the SHA-256 digest of its bytes (for links, of its URL).

use vstd::prelude::*;
use sha2::Digest;

verus! {

/// The SHA-256 digest of a byte sequence, as the sha2 crate computes it.
pub uninterp spec fn sha256_of(bytes: Seq<u8>) -> Seq<u8>;

/// Relies on sha2's Sha256: the digest depends on the input bytes alone
/// and is 32 bytes long.
#[verifier::external_body]
fn sha256_digest(bytes: &Vec<u8>) -> (r: Vec<u8>)
    ensures
        r@ == sha256_of(bytes@),
        r@.len() == 32,
{
    sha2::Sha256::digest(bytes.as_slice()).to_vec()
}

/// The lowercase hex character of a value below sixteen.
pub open spec fn hex_digit(n: int) -> char {
    if n == 0 {
        '0'
    } else if n == 1 {
        '1'
    } else if n == 2 {
        '2'
    } else if n == 3 {
        '3'
    } else if n == 4 {
        '4'
    } else if n == 5 {
        '5'
    } else if n == 6 {
        '6'
    } else if n == 7 {
        '7'
    } else if n == 8 {
        '8'
    } else if n == 9 {
        '9'
    } else if n == 10 {
        'a'
    } else if n == 11 {
        'b'
    } else if n == 12 {
        'c'
    } else if n == 13 {
        'd'
    } else if n == 14 {
        'e'
    } else {
        'f'
    }
}

/// Fixed-width hex: two characters per byte, high nibble first.
pub open spec fn spec_hex(bytes: Seq<u8>) -> Seq<char> {
    Seq::new(
        2 * bytes.len(),
        |i: int|
            if i % 2 == 0 {
                hex_digit((bytes[i / 2] / 16) as int)
            } else {
                hex_digit((bytes[i / 2] % 16) as int)
            },
    )
}

fn hex_digit_char(n: u8) -> (c: char)
    requires
        n < 16,
    ensures
        c == hex_digit(n as int),
{
    match n {
        0 => '0',
        1 => '1',
        2 => '2',
        3 => '3',
        4 => '4',
        5 => '5',
        6 => '6',
        7 => '7',
        8 => '8',
        9 => '9',
        10 => 'a',
        11 => 'b',
        12 => 'c',
        13 => 'd',
        14 => 'e',
        _ => 'f',
    }
}

/// The hex rendering of a byte vector.
pub fn to_hex(bytes: &Vec<u8>) -> (r: String)
    ensures
        r@ == spec_hex(bytes@),
{
    let mut chars: Vec<char> = Vec::new();
    let n = bytes.len();
    let mut i: usize = 0;
    while i < n
        invariant
            i <= n == bytes@.len(),
            chars@ == spec_hex(bytes@).take(2 * i),
        decreases n - i,
    {
        let b = bytes[i];
        chars.push(hex_digit_char(b / 16));
        chars.push(hex_digit_char(b % 16));
        proof {
            assert(spec_hex(bytes@)[2 * i] == hex_digit((bytes@[i as int] / 16) as int));
            assert(spec_hex(bytes@)[2 * i + 1] == hex_digit((bytes@[i as int] % 16) as int));
            assert(chars@ =~= spec_hex(bytes@).take(2 * (i + 1)));
        }
        i = i + 1;
    }
    proof {
        assert(spec_hex(bytes@).take(2 * n) =~= spec_hex(bytes@));
    }
    crate::text::string_from_chars(&chars)
}

/// The fingerprint of a byte content: the hex form of its digest.
pub open spec fn spec_fingerprint(bytes: Seq<u8>) -> Seq<char> {
    spec_hex(sha256_of(bytes))
}

/// Computes a content's fingerprint.
pub fn fingerprint_bytes(bytes: &Vec<u8>) -> (r: String)
    ensures
        r@ == spec_fingerprint(bytes@),
{
    let digest = sha256_digest(bytes);
    to_hex(&digest)
}

/// Fingerprinting is deterministic: the fingerprint is a function of
/// the content bytes alone, so identical bytes always fingerprint
/// identically.
pub proof fn lemma_fingerprint_deterministic(a: Seq<u8>, b: Seq<u8>)
    requires
        a == b,
    ensures
        spec_fingerprint(a) == spec_fingerprint(b),
{
}

/// Hex rendering is injective: distinct byte sequences render
/// differently.
pub proof fn lemma_hex_injective(a: Seq<u8>, b: Seq<u8>)
    requires
        spec_hex(a) == spec_hex(b),
    ensures
        a == b,
{
    assert(spec_hex(a).len() == 2 * a.len());
    assert(spec_hex(b).len() == 2 * b.len());
    assert(a.len() == b.len());
    assert forall|i: int| 0 <= i < a.len() implies a[i] == b[i] by {
        assert((2 * i) % 2 == 0 && (2 * i) / 2 == i);
        assert((2 * i + 1) % 2 == 1 && (2 * i + 1) / 2 == i);
        assert(spec_hex(a)[2 * i] == spec_hex(b)[2 * i]);
        assert(spec_hex(a)[2 * i + 1] == spec_hex(b)[2 * i + 1]);
        assert(spec_hex(a)[2 * i] == hex_digit((a[i] / 16) as int));
        assert(spec_hex(b)[2 * i] == hex_digit((b[i] / 16) as int));
        assert(spec_hex(a)[2 * i + 1] == hex_digit((a[i] % 16) as int));
        assert(spec_hex(b)[2 * i + 1] == hex_digit((b[i] % 16) as int));
        assert(hex_digit((a[i] / 16) as int) == hex_digit((b[i] / 16) as int));
        assert(hex_digit((a[i] % 16) as int) == hex_digit((b[i] % 16) as int));
        assert(a[i] / 16 == b[i] / 16);
        assert(a[i] % 16 == b[i] % 16);
    }
    assert(a =~= b);
}

/// Contents whose digests differ get different fingerprints: collisions
/// of the rendering itself are impossible.
pub proof fn lemma_fingerprint_injective_in_digest(a: Seq<u8>, b: Seq<u8>)
    requires
        sha256_of(a) != sha256_of(b),
    ensures
        spec_fingerprint(a) != spec_fingerprint(b),
{
    if spec_fingerprint(a) == spec_fingerprint(b) {
        lemma_hex_injective(sha256_of(a), sha256_of(b));
    }
}

} // verus!
