//! SHA-256 digests rendered as lowercase hexadecimal.
use sha2::Digest;
use sha2::Sha256;
use vstd::prelude::*;
use vstd::string::StringSliceAdditionalSpecFns;
use vstd::utf8::encode_utf8;

verus! {

/// The SHA-256 digest of a byte sequence (FIPS 180-4).
pub uninterp spec fn spec_sha256(data: Seq<u8>) -> Seq<u8>;

/// Calls `sha2::Sha256::digest` (from the `Digest` trait).  Trusted: the result
/// is `spec_sha256` of the input bytes, and it is 32 bytes long, the output
/// size the crate declares for SHA-256.
#[verifier::external_body]
fn sha256_digest(data: &[u8]) -> (r: Vec<u8>)
    ensures
        r@ == spec_sha256(data@),
        r@.len() == 32,
{
    Sha256::digest(data).to_vec()
}

/// The lowercase hexadecimal digit for `d < 16`.
pub open spec fn hex_digit(d: nat) -> char {
    if d < 10 {
        (d + 48) as char
    } else {
        (d + 87) as char
    }
}

/// Each byte as two lowercase hexadecimal digits, most significant first.
pub open spec fn lower_hex(bytes: Seq<u8>) -> Seq<char>
    decreases bytes.len(),
{
    if bytes.len() == 0 {
        Seq::empty()
    } else {
        lower_hex(bytes.drop_last()) + seq![
            hex_digit((bytes.last() / 16) as nat),
            hex_digit((bytes.last() % 16) as nat),
        ]
    }
}

fn hex_digit_char(d: u8) -> (c: char)
    requires
        d < 16,
    ensures
        c == hex_digit(d as nat),
{
    if d < 10 {
        (d + 48) as char
    } else {
        (d + 87) as char
    }
}

/// Renders bytes as lowercase hexadecimal, two digits per byte.
pub fn to_lower_hex(bytes: &[u8]) -> (r: String)
    ensures
        r@ == lower_hex(bytes@),
        r@.len() == 2 * bytes@.len(),
{
    let mut r = String::new();
    let n = bytes.len();
    for i in 0..n
        invariant
            n == bytes@.len(),
            r@ == lower_hex(bytes@.take(i as int)),
            r@.len() == 2 * i,
    {
        let b = bytes[i];
        r.push(hex_digit_char(b / 16));
        r.push(hex_digit_char(b % 16));
        proof {
            let t = bytes@.take(i + 1);
            assert(t.drop_last() =~= bytes@.take(i as int));
            assert(t.last() == b);
        }
        assert(r@ =~= lower_hex(bytes@.take(i + 1)));
    }
    assert(bytes@.take(n as int) =~= bytes@);
    r
}

/// The SHA-256 digest of the UTF-8 bytes of a string, in lowercase hexadecimal.
pub fn sha256_hex(text: &str) -> (r: String)
    ensures
        r@ == lower_hex(spec_sha256(encode_utf8(text@))),
        r@.len() == 64,
{
    let bytes = text.as_bytes();
    let d = sha256_digest(bytes);
    to_lower_hex(d.as_slice())
}

/// The SHA-256 digest of raw bytes (such as a file's contents, which need not
/// be UTF-8), in lowercase hexadecimal.
pub fn sha256_hex_bytes(data: &[u8]) -> (r: String)
    ensures
        r@ == lower_hex(spec_sha256(data@)),
        r@.len() == 64,
{
    let d = sha256_digest(data);
    to_lower_hex(d.as_slice())
}

} // verus!
