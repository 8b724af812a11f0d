//! Content digests.
//!
//! A digest that someone else reports is never trusted: the bytes are hashed here, and the result
//! is compared with the digest of the re-verified manifest or of the snapshot record.

use vstd::prelude::*;

use sha2::Digest;

use crate::error::{BrokerError, ErrorView};
use crate::text::{ascii_lowered, cat3, cat4, same_ignoring_ascii_case};

verus! {

/// The SHA-256 digest of `bytes`.
pub uninterp spec fn sha256_of(bytes: Seq<u8>) -> Seq<u8>;

/// `sha2::Sha256::digest`: the 32-byte SHA-256 digest of the bytes, named by [`sha256_of`].
#[verifier::external_body]
pub(crate) fn sha256(bytes: &[u8]) -> (digest: Vec<u8>)
    ensures
        digest@ == sha256_of(bytes@),
        digest@.len() == 32,
{
    sha2::Sha256::digest(bytes).to_vec()
}

/// The digit of base sixteen that stands for `n`.
pub open spec fn hex_digit(n: int) -> char {
    if n < 10 {
        ('0' as int + n) as char
    } else {
        ('a' as int + (n - 10)) as char
    }
}

/// `bytes` in lowercase hex, two digits each.
pub open spec fn hex(bytes: Seq<u8>) -> Seq<char>
    decreases bytes.len(),
{
    if bytes.len() == 0 {
        Seq::empty()
    } else {
        hex(bytes.drop_last()).push(hex_digit(bytes.last() as int / 16)).push(
            hex_digit(bytes.last() as int % 16),
        )
    }
}

/// Computes [`hex_digit`].
fn nibble(n: u8) -> (c: char)
    requires
        n < 16,
    ensures
        c == hex_digit(n as int),
{
    if n < 10 {
        (48 + n) as char
    } else {
        (87 + n) as char
    }
}

/// Render `bytes` as lowercase hex, the casing that the signed manifest's digests carry.
pub fn hex_lower(bytes: &[u8]) -> (text: String)
    ensures
        text@ == hex(bytes@),
{
    let mut text: String = String::new();
    let mut i: usize = 0;
    assert(text@ =~= hex(bytes@.take(0)));
    while i < bytes.len()
        invariant
            i <= bytes@.len(),
            text@ == hex(bytes@.take(i as int)),
        decreases bytes@.len() - i,
    {
        let b: u8 = bytes[i];
        text.push(nibble(b / 16));
        text.push(nibble(b % 16));
        assert(bytes@.take(i + 1).drop_last() =~= bytes@.take(i as int));
        assert(bytes@.take(i + 1).last() == b);
        i = i + 1;
    }
    assert(bytes@.take(i as int) =~= bytes@);
    text
}

/// Two digits for every byte, all of them lowercase hex digits.
pub proof fn hex_is_two_lowercase_digits_a_byte(bytes: Seq<u8>)
    ensures
        hex(bytes).len() == 2 * bytes.len(),
        forall|i: int|
            0 <= i < hex(bytes).len() ==> ('0' <= #[trigger] hex(bytes)[i] && hex(bytes)[i] <= '9')
                || ('a' <= hex(bytes)[i] && hex(bytes)[i] <= 'f'),
        ascii_lowered(hex(bytes)) == hex(bytes),
    decreases bytes.len(),
{
    if bytes.len() > 0 {
        hex_is_two_lowercase_digits_a_byte(bytes.drop_last());
        let before = hex(bytes.drop_last());
        assert forall|i: int| 0 <= i < hex(bytes).len() implies ('0' <= #[trigger] hex(bytes)[i]
            && hex(bytes)[i] <= '9') || ('a' <= hex(bytes)[i] && hex(bytes)[i] <= 'f') by {
            if i < before.len() {
                assert(hex(bytes)[i] == before[i]);
            }
        }
    }
    assert(ascii_lowered(hex(bytes)) =~= hex(bytes));
}

proof fn lemma_hex_digit(x: int, y: int)
    requires
        0 <= x < 16,
        0 <= y < 16,
    ensures
        hex_digit(x) == hex_digit(y) ==> x == y,
{
}

/// Different bytes read differently: hex of one length determines the bytes.
pub proof fn hex_determines_the_bytes(a: Seq<u8>, b: Seq<u8>)
    requires
        hex(a) == hex(b),
    ensures
        a == b,
    decreases a.len(),
{
    hex_is_two_lowercase_digits_a_byte(a);
    hex_is_two_lowercase_digits_a_byte(b);
    if a.len() == 0 {
        assert(a =~= b);
    } else {
        let n: int = hex(a).len() as int;
        assert(hex(a)[n - 2] == hex(b)[n - 2]);
        assert(hex(a)[n - 1] == hex(b)[n - 1]);
        assert(hex(a)[n - 2] == hex_digit(a.last() as int / 16));
        assert(hex(b)[n - 2] == hex_digit(b.last() as int / 16));
        assert(hex(a)[n - 1] == hex_digit(a.last() as int % 16));
        assert(hex(b)[n - 1] == hex_digit(b.last() as int % 16));
        lemma_hex_digit(a.last() as int / 16, b.last() as int / 16);
        lemma_hex_digit(a.last() as int % 16, b.last() as int % 16);
        let (x, y): (int, int) = (a.last() as int, b.last() as int);
        assert(x == 16 * (x / 16) + x % 16 && y == 16 * (y / 16) + y % 16);
        assert(a.last() == b.last());
        assert(hex(a).take(n - 2) =~= hex(a.drop_last()));
        assert(hex(b).take(n - 2) =~= hex(b.drop_last()));
        hex_determines_the_bytes(a.drop_last(), b.drop_last());
        assert(a =~= a.drop_last().push(a.last()));
        assert(b =~= b.drop_last().push(b.last()));
    }
}

/// The SHA-256 digest of `bytes` as lowercase hex.
pub fn digest_hex(bytes: &[u8]) -> (text: String)
    ensures
        text@ == hex(sha256_of(bytes@)),
        text@.len() == 64,
{
    let digest: Vec<u8> = sha256(bytes);
    proof {
        hex_is_two_lowercase_digits_a_byte(digest@);
    }
    hex_lower(digest.as_slice())
}

/// The digest of an installed file, given what could be read of it.
///
/// `None` collapses every way in which no digest is available (absent, unreadable, a refused
/// symlink) into the one answer that the planner takes as "nothing established here".
#[must_use]
pub fn installed_digest_hex(contents: Option<&[u8]>) -> (digest: Option<String>)
    ensures
        crate::text::opt_view(digest) == match contents {
            Some(bytes) => Some(hex(sha256_of(bytes@))),
            None => None,
        },
        digest matches Some(text) ==> text@.len() == 64,
{
    match contents {
        Some(bytes) => Some(digest_hex(bytes)),
        None => None,
    }
}

/// Refuse to read through a symlink at the final component of a path on the install path.
///
/// # Errors
///
/// [`BrokerError::Io`] if the entry is a symlink.
pub fn refuse_symlink(path: &str, is_symlink: bool) -> (r: Result<(), BrokerError>)
    ensures
        match r {
            Ok(_) => !is_symlink,
            Err(e) => is_symlink && e@ == ErrorView::Io(
                "refusing to open symlink `"@ + path@ + "` on the install path"@,
            ),
        },
{
    if is_symlink {
        Err(BrokerError::Io(cat3("refusing to open symlink `", path, "` on the install path")))
    } else {
        Ok(())
    }
}

/// Whether bytes that hash to `computed` (lowercase hex) are the ones that `expected` names.
pub open spec fn digest_matches(expected: Seq<char>, computed: Seq<char>) -> bool {
    ascii_lowered(expected) == ascii_lowered(computed)
}

/// Verify bytes against an expected hex digest, whatever the casing of the latter.
///
/// # Errors
///
/// The expected and the computed digest in words, if they differ.
pub fn verify_sha256(expected: &str, bytes: &[u8]) -> (r: Result<(), String>)
    ensures
        match r {
            Ok(_) => digest_matches(expected@, hex(sha256_of(bytes@))),
            Err(detail) => !digest_matches(expected@, hex(sha256_of(bytes@))) && detail@
                == "expected "@ + expected@ + ", got "@ + hex(sha256_of(bytes@)),
        },
{
    let computed: String = digest_hex(bytes);
    if same_ignoring_ascii_case(expected, computed.as_str()) {
        Ok(())
    } else {
        Err(cat4("expected ", expected, ", got ", computed.as_str()))
    }
}

/// The number that a lowercase hex digit stands for.
pub open spec fn hex_digit_value(c: char) -> int {
    if '0' <= c && c <= '9' {
        c as int - '0' as int
    } else {
        c as int - 'a' as int + 10
    }
}

/// Hex is read back byte by byte: the two digits of a byte, the high one first, give the byte.
pub proof fn hex_is_read_back(bytes: Seq<u8>, i: int)
    requires
        0 <= i < bytes.len(),
    ensures
        hex(bytes).len() == 2 * bytes.len(),
        bytes[i] == 16 * hex_digit_value(hex(bytes)[2 * i]) + hex_digit_value(
            hex(bytes)[2 * i + 1],
        ),
    decreases bytes.len(),
{
    hex_is_two_lowercase_digits_a_byte(bytes);
    let fewer = bytes.drop_last();
    hex_is_two_lowercase_digits_a_byte(fewer);
    if i < fewer.len() {
        hex_is_read_back(fewer, i);
        assert(hex(bytes)[2 * i] == hex(fewer)[2 * i]);
        assert(hex(bytes)[2 * i + 1] == hex(fewer)[2 * i + 1]);
    } else {
        let b: int = bytes.last() as int;
        assert(hex(bytes)[2 * i] == hex_digit(b / 16));
        assert(hex(bytes)[2 * i + 1] == hex_digit(b % 16));
        assert(hex_digit_value(hex_digit(b / 16)) == b / 16);
        assert(hex_digit_value(hex_digit(b % 16)) == b % 16);
    }
}

/// A digest names bytes exactly if it is their digest in hex, digit by digit; its letters may be
/// capitals.
pub proof fn a_digest_is_compared_digit_by_digit(expected: Seq<char>, bytes: Seq<u8>)
    ensures
        digest_matches(expected, hex(bytes)) <==> expected.len() == 2 * bytes.len() && forall|i: int|
            0 <= i < expected.len() ==> #[trigger] expected[i] == hex(bytes)[i] || ('a' <= hex(
                bytes,
            )[i] && expected[i] as int + 32 == hex(bytes)[i] as int),
{
    let shown = hex(bytes);
    hex_is_two_lowercase_digits_a_byte(bytes);
    if digest_matches(expected, shown) {
        assert(ascii_lowered(expected).len() == shown.len());
        assert forall|i: int| 0 <= i < expected.len() implies #[trigger] expected[i] == shown[i] || (
        'a' <= shown[i] && expected[i] as int + 32 == shown[i] as int) by {
            assert(ascii_lowered(expected)[i] == shown[i]);
        }
    }
    if expected.len() == 2 * bytes.len() && forall|i: int|
        0 <= i < expected.len() ==> #[trigger] expected[i] == shown[i] || ('a' <= shown[i]
            && expected[i] as int + 32 == shown[i] as int) {
        assert forall|i: int| 0 <= i < expected.len() implies ascii_lowered(expected)[i]
            == shown[i] by {
            assert(expected[i] == shown[i] || ('a' <= shown[i] && expected[i] as int + 32
                == shown[i] as int));
        }
        assert(ascii_lowered(expected) =~= shown);
    }
}

} // verus!
