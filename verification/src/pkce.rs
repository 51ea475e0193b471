use vstd::prelude::*;
use crate::digest::{blake3_hex, blake3_hex_of};

verus! {

/// The alphabet of URL-safe base64 (RFC 4648, section 5).
pub open spec fn b64_alphabet() -> Seq<char> {
    "ABCDEFGHIJKLMNOPQRSTUVWXYZabcdefghijklmnopqrstuvwxyz0123456789-_"@
}

/// The URL-safe base64 text of `b` without padding: each group of three bytes gives four
/// characters of six bits each, a final group of one or two bytes gives two or three.
pub open spec fn base64url(b: Seq<u8>) -> Seq<char>
    decreases b.len(),
{
    let a = b64_alphabet();
    if b.len() == 0 {
        Seq::empty()
    } else if b.len() == 1 {
        seq![a[(b[0] / 4) as int], a[((b[0] % 4) * 16) as int]]
    } else if b.len() == 2 {
        seq![a[(b[0] / 4) as int], a[((b[0] % 4) * 16 + b[1] / 16) as int], a[((b[1] % 16) * 4) as int]]
    } else {
        seq![a[(b[0] / 4) as int], a[((b[0] % 4) * 16 + b[1] / 16) as int], a[((b[1] % 16) * 4 + b[2] / 64) as int], a[(b[2] % 64) as int]]
            + base64url(b.skip(3))
    }
}

/// Encodes `b` as URL-safe base64 without padding (see `base64url`).
pub fn base64url_encode(b: &[u8]) -> (r: String)
    ensures
        r@ == base64url(b@),
{
    let alpha = "ABCDEFGHIJKLMNOPQRSTUVWXYZabcdefghijklmnopqrstuvwxyz0123456789-_";
    proof {
        reveal_strlit("ABCDEFGHIJKLMNOPQRSTUVWXYZabcdefghijklmnopqrstuvwxyz0123456789-_");
        assert(alpha@.len() == 64);
    }
    let n = b.len();
    let mut out = String::new();
    let mut i: usize = 0;
    proof {
        assert(b@.skip(0) =~= b@);
    }
    while n - i >= 3
        invariant
            i <= n,
            n == b@.len(),
            alpha@ == b64_alphabet(),
            alpha@.len() == 64,
            out@ + base64url(b@.skip(i as int)) == base64url(b@),
        decreases n - i,
    {
        let x = b[i];
        let y = b[i + 1];
        let z = b[i + 2];
        let v0 = (x / 4) as usize;
        let v1 = ((x % 4) * 16 + y / 16) as usize;
        let v2 = ((y % 16) * 4 + z / 64) as usize;
        let v3 = (z % 64) as usize;
        let ghost before = out@;
        let ghost rest = b@.skip(i as int);
        out.append(alpha.substring_char(v0, v0 + 1));
        out.append(alpha.substring_char(v1, v1 + 1));
        out.append(alpha.substring_char(v2, v2 + 1));
        out.append(alpha.substring_char(v3, v3 + 1));
        proof {
            assert(rest[0] == x && rest[1] == y && rest[2] == z);
            assert(rest.skip(3) =~= b@.skip(i + 3));
            assert(out@ =~= before + seq![alpha@[v0 as int], alpha@[v1 as int], alpha@[v2 as int], alpha@[v3 as int]]);
            assert(base64url(rest) == seq![alpha@[v0 as int], alpha@[v1 as int], alpha@[v2 as int], alpha@[v3 as int]] + base64url(b@.skip(i + 3)));
            assert(out@ + base64url(b@.skip(i + 3)) =~= before + base64url(rest));
        }
        i = i + 3;
    }
    let ghost before = out@;
    let ghost rest = b@.skip(i as int);
    if n - i == 1 {
        let x = b[i];
        let v0 = (x / 4) as usize;
        let v1 = ((x % 4) * 16) as usize;
        out.append(alpha.substring_char(v0, v0 + 1));
        out.append(alpha.substring_char(v1, v1 + 1));
        proof {
            assert(rest[0] == x);
            assert(out@ =~= before + base64url(rest));
        }
    } else if n - i == 2 {
        let x = b[i];
        let y = b[i + 1];
        let v0 = (x / 4) as usize;
        let v1 = ((x % 4) * 16 + y / 16) as usize;
        let v2 = ((y % 16) * 4) as usize;
        out.append(alpha.substring_char(v0, v0 + 1));
        out.append(alpha.substring_char(v1, v1 + 1));
        out.append(alpha.substring_char(v2, v2 + 1));
        proof {
            assert(rest[0] == x && rest[1] == y);
            assert(out@ =~= before + base64url(rest));
        }
    } else {
        proof {
            assert(rest.len() == 0);
            assert(out@ =~= before + base64url(rest));
        }
    }
    out
}

/// Named result: the SHA-256 digest of `data`, 32 bytes.
pub uninterp spec fn sha256_of(data: Seq<u8>) -> Seq<u8>;

/// Calls `sha2::Sha256::digest` (from the `Digest` trait) and copies the 32 bytes out.
#[verifier::external_body]
pub(crate) fn sha256(data: &[u8]) -> (r: Vec<u8>)
    ensures
        r@ == sha256_of(data@),
        r@.len() == 32,
{
    <sha2::Sha256 as sha2::Digest>::digest(data).to_vec()
}

/// A fresh 64-bit value from `std::collections::hash_map::RandomState`, whose keys the
/// operating system's random source seeds; nothing is promised about the value.
#[verifier::external_body]
fn random_u64() -> u64 {
    std::hash::BuildHasher::hash_one(&std::collections::hash_map::RandomState::new(), 0u8)
}

/// A 32-byte secret for deriving PKCE code verifiers, drawn from `random_u64`.
pub fn random_key() -> (r: Vec<u8>)
    ensures
        r@.len() == 32,
{
    let mut r: Vec<u8> = Vec::new();
    let mut k: usize = 0;
    while k < 4
        invariant
            k <= 4,
            r@.len() == 8 * k,
        decreases 4 - k,
    {
        let mut x = random_u64();
        let mut j: usize = 0;
        while j < 8
            invariant
                j <= 8,
                r@.len() == 8 * k + j,
            decreases 8 - j,
        {
            r.push((x % 256) as u8);
            x = x / 256;
            j = j + 1;
        }
        k = k + 1;
    }
    r
}

/// The PKCE code verifier for request `state` under secret `key`: the BLAKE3 digest, in
/// hex, of the key followed by the state's UTF-8 bytes (64 unreserved characters).
pub open spec fn code_verifier(key: Seq<u8>, state: Seq<char>) -> Seq<char> {
    blake3_hex_of(key + vstd::utf8::encode_utf8(state))
}

/// The PKCE `S256` code challenge of a verifier: the URL-safe base64, unpadded, of the
/// SHA-256 digest of its UTF-8 bytes (RFC 7636, section 4.2).
pub open spec fn code_challenge(verifier: Seq<char>) -> Seq<char> {
    base64url(sha256_of(vstd::utf8::encode_utf8(verifier)))
}

/// Computes `code_verifier(key, state)`.
pub fn make_code_verifier(key: &Vec<u8>, state: &str) -> (r: String)
    ensures
        r@ == code_verifier(key@, state@),
{
    let mut data = key.clone();
    let bytes = state.as_bytes();
    let mut i: usize = 0;
    while i < bytes.len()
        invariant
            i <= bytes@.len(),
            bytes@ == vstd::utf8::encode_utf8(state@),
            data@ == key@ + bytes@.take(i as int),
        decreases bytes@.len() - i,
    {
        data.push(bytes[i]);
        proof {
            assert(bytes@.take(i + 1) =~= bytes@.take(i as int).push(bytes@[i as int]));
        }
        i = i + 1;
    }
    proof {
        assert(bytes@.take(i as int) =~= bytes@);
    }
    blake3_hex(data.as_slice())
}

/// Computes `code_challenge(verifier)`.
pub fn make_code_challenge(verifier: &str) -> (r: String)
    ensures
        r@ == code_challenge(verifier@),
{
    let digest = sha256(verifier.as_bytes());
    base64url_encode(digest.as_slice())
}

} // verus!
