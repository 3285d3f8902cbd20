//! Checksums of published index files.

use vstd::prelude::*;

use crate::text::{chars_of, equals, push_text, string_of, trim};

verus! {

/// The SHA-256 digest of `bytes`.
pub uninterp spec fn sha256_digest(bytes: Seq<u8>) -> Seq<u8>;

/// `sha2::Sha256::digest` gives the SHA-256 digest of its argument, which is 32 bytes long.
#[verifier::external_body]
fn sha256(bytes: &[u8]) -> (digest: Vec<u8>)
    ensures
        digest@ == sha256_digest(bytes@),
        digest@.len() == 32,
{
    <sha2::Sha256 as sha2::Digest>::digest(bytes).to_vec()
}

/// The hexadecimal digit of `value`, with small letters.
pub open spec fn hex_digit(value: int) -> char {
    if value < 10 {
        (48 + value) as char
    } else {
        (87 + value) as char
    }
}

/// `bytes` in hexadecimal digits, two for each byte.
pub open spec fn hex_text(bytes: Seq<u8>) -> Seq<char> {
    Seq::new(
        2 * bytes.len(),
        |i: int|
            if i % 2 == 0 {
                hex_digit(bytes[i / 2] as int / 16)
            } else {
                hex_digit(bytes[i / 2] as int % 16)
            },
    )
}

/// `hex::encode` writes each byte as two hexadecimal digits with small letters, the more
/// significant one first.
#[verifier::external_body]
fn hex_encoded(bytes: &[u8]) -> (text: String)
    ensures
        text@ == hex_text(bytes@),
{
    hex::encode(bytes)
}

/// The checksum that is saved beside a file: its SHA-256 digest in hexadecimal digits.
pub fn checksum_of(bytes: &[u8]) -> (checksum: String)
    ensures
        checksum@ == hex_text(sha256_digest(bytes@)),
{
    let digest: Vec<u8> = sha256(bytes);
    hex_encoded(digest.as_slice())
}

/// Whether a saved checksum is that of a file with the given digest. White space around the
/// saved checksum does not count.
pub fn digest_matches(digest: &[u8], saved: &str) -> (matches: bool)
    ensures
        matches == (crate::text::trimmed(saved@) == hex_text(digest@)),
{
    let expected: String = hex_encoded(digest);
    let saved: Vec<char> = chars_of(saved);
    equals(trim(saved.as_slice()), expected.as_str())
}

/// Whether a saved checksum is that of `bytes`.
pub fn checksum_matches(bytes: &[u8], saved: &str) -> (matches: bool)
    ensures
        matches == (crate::text::trimmed(saved@) == hex_text(sha256_digest(bytes@))),
{
    let digest: Vec<u8> = sha256(bytes);
    digest_matches(digest.as_slice(), saved)
}

/// Where the checksum of the file at `path` is kept.
pub fn checksum_path(path: &str) -> (checksum: String)
    ensures
        checksum@ == path@ + ".sha256"@,
{
    let mut text: Vec<char> = chars_of(path);
    push_text(&mut text, ".sha256");
    string_of(text.as_slice())
}

/// The checksum that is saved for a file is accepted for that file, also with a line feed
/// behind it.
pub proof fn law_saved_checksum_is_accepted(bytes: Seq<u8>)
    ensures
        crate::text::trimmed(hex_text(sha256_digest(bytes))) == hex_text(sha256_digest(bytes)),
        crate::text::trimmed(hex_text(sha256_digest(bytes)).push('\n')) == hex_text(
            sha256_digest(bytes),
        ),
{
    let text = hex_text(sha256_digest(bytes));
    assert forall|i: int| 0 <= i < text.len() implies !crate::text::is_white_space(
        #[trigger] text[i],
    ) by {
        let byte = sha256_digest(bytes)[i / 2];
        assert(0 <= byte as int / 16 < 16);
        assert(0 <= byte as int % 16 < 16);
    }
    let ended = text.push('\n');
    assert(ended.drop_last() =~= text);
    assert(crate::text::trimmed_start(text) == text);
    assert(crate::text::trimmed_end(text) == text);
    assert(crate::text::trimmed_end(ended) == crate::text::trimmed_end(text));
    if text.len() > 0 {
        assert(crate::text::trimmed_start(ended) == ended);
    } else {
        reveal_with_fuel(crate::text::trimmed_start, 2);
        assert(ended.drop_first() =~= text);
    }
}

/// Different digests have different checksums, so a file whose digest has changed is refused.
pub proof fn law_checksum_tells_digests_apart(left: Seq<u8>, right: Seq<u8>)
    ensures
        hex_text(left) == hex_text(right) ==> left == right,
{
    if hex_text(left) == hex_text(right) {
        assert(hex_text(left).len() == hex_text(right).len());
        assert forall|i: int| 0 <= i < left.len() implies left[i] == right[i] by {
            let a = hex_text(left)[2 * i];
            let b = hex_text(left)[2 * i + 1];
            assert(a == hex_text(right)[2 * i]);
            assert(b == hex_text(right)[2 * i + 1]);
            assert((2 * i) / 2 == i && (2 * i + 1) / 2 == i);
            assert(hex_digit(left[i] as int / 16) == hex_digit(right[i] as int / 16));
            assert(hex_digit(left[i] as int % 16) == hex_digit(right[i] as int % 16));
        }
        assert(left =~= right);
    }
}

/// A byte is written as two hexadecimal digits, the higher first, with small letters.
pub proof fn law_bytes_are_written_in_hexadecimal(bytes: Seq<u8>, i: int)
    requires
        0 <= i < bytes.len(),
    ensures
        hex_text(bytes).len() == 2 * bytes.len(),
        ({
            let high = hex_text(bytes)[2 * i] as int;
            let low = hex_text(bytes)[2 * i + 1] as int;
            &&& 48 <= high <= 57 || 97 <= high <= 102
            &&& 48 <= low <= 57 || 97 <= low <= 102
            &&& bytes[i] == 16 * (if high <= 57 {
                high - 48
            } else {
                high - 87
            }) + (if low <= 57 {
                low - 48
            } else {
                low - 87
            })
        }),
{
    assert((2 * i) / 2 == i && (2 * i) % 2 == 0);
    assert((2 * i + 1) / 2 == i && (2 * i + 1) % 2 == 1);
}

} // verus!
