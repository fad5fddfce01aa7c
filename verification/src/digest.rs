//! SHA-256 digests and their hexadecimal form.

use crate::text::digit;
use sha2::Digest;
use vstd::prelude::*;
use vstd::utf8::encode_utf8;

verus! {

/// The SHA-256 digest of a byte string.
pub uninterp spec fn sha256(bytes: Seq<u8>) -> Seq<u8>;

/// `sha2::Sha256::digest`: the SHA-256 digest of `bytes`, which is 32 bytes long.
#[verifier::external_body]
pub(crate) fn sha256_digest(bytes: &[u8]) -> (digest: Vec<u8>)
    ensures
        digest@ == sha256(bytes@),
        digest@.len() == 32,
{
    sha2::Sha256::digest(bytes).to_vec()
}

/// A `sha2::Sha256` that takes bytes in piece by piece. It stands behind a type of its own because
/// the outside name stands for a generic type with its parameters filled in.
#[verifier::external_body]
pub struct Hasher {
    inner: sha2::Sha256,
}

/// The bytes that a hasher has taken in.
pub uninterp spec fn hashed(hasher: Hasher) -> Seq<u8>;

/// `sha2::Digest::new` for `Sha256`: a hasher that has taken in nothing.
#[verifier::external_body]
fn new_hasher() -> (hasher: Hasher)
    ensures
        hashed(hasher) == Seq::<u8>::empty(),
{
    Hasher { inner: sha2::Sha256::new() }
}

/// `sha2::Digest::update` for `Sha256`: takes in more bytes, behind the others.
#[verifier::external_body]
fn update_hasher(hasher: &mut Hasher, bytes: &[u8])
    ensures
        hashed(*final(hasher)) == hashed(*old(hasher)) + bytes@,
{
    hasher.inner.update(bytes)
}

/// `sha2::Digest::finalize` for `Sha256`: the SHA-256 digest of the bytes taken in, which is 32
/// bytes long.
#[verifier::external_body]
fn finish_hasher(hasher: Hasher) -> (digest: Vec<u8>)
    ensures
        digest@ == sha256(hashed(hasher)),
        digest@.len() == 32,
{
    hasher.inner.finalize().to_vec()
}

/// The digest of lines, taken in one by one.
pub struct LineDigest {
    hasher: Hasher,
}

impl LineDigest {
    /// The lines taken in, each with a line feed behind it.
    pub closed spec fn source(&self) -> Seq<u8> {
        hashed(self.hasher)
    }

    pub fn new() -> (digest: Self)
        ensures
            digest.source() == Seq::<u8>::empty(),
    {
        LineDigest { hasher: new_hasher() }
    }

    /// Takes in one more line.
    pub fn push_line(&mut self, text: &str)
        ensures
            final(self).source() == old(self).source() + encode_utf8(text@).push(10),
    {
        update_hasher(&mut self.hasher, text.as_bytes());
        update_hasher(&mut self.hasher, "\n".as_bytes());
        proof {
            reveal_strlit("\n");
            let feed = "\n"@;
            assert(feed =~= seq!['\n']);
            vstd::utf8::is_ascii_chars_encode_utf8(feed);
            assert(encode_utf8(feed) =~= seq![10u8]);
            assert(self.source() =~= old(self).source() + encode_utf8(text@).push(10));
        }
    }

    /// The SHA-256 digest of the lines.
    pub fn finish(self) -> (digest: Vec<u8>)
        ensures
            digest@ == sha256(self.source()),
            digest@.len() == 32,
    {
        finish_hasher(self.hasher)
    }
}

/// The lower-case hexadecimal form of a byte string, two digits for each byte.
pub open spec fn hex_of(bytes: Seq<u8>) -> Seq<char> {
    Seq::new(
        2 * bytes.len(),
        |i: int|
            if i % 2 == 0 {
                digit((bytes[i / 2] / 16) as int)
            } else {
                digit((bytes[i / 2] % 16) as int)
            },
    )
}

/// `hex::encode`: the lower-case hexadecimal form of `bytes`.
#[verifier::external_body]
pub(crate) fn hex_encode(bytes: &[u8]) -> (text: String)
    ensures
        text@ == hex_of(bytes@),
{
    hex::encode(bytes)
}

/// The digest of `bytes` in hexadecimal.
pub fn hex_digest(bytes: &[u8]) -> (text: String)
    ensures
        text@ == hex_of(sha256(bytes@)),
        text@.len() == 64,
{
    let digest = sha256_digest(bytes);
    hex_encode(digest.as_slice())
}

/// The eight bytes of `value`, least significant first.
pub open spec fn le_bytes(value: u64) -> Seq<u8> {
    Seq::new(8, |i: int| ((value >> ((8 * i) as u64)) & 0xff) as u8)
}

/// The number whose eight bytes, least significant first, start `bytes`.
pub open spec fn le_number(bytes: Seq<u8>) -> u64 {
    (bytes[0] as u64) | ((bytes[1] as u64) << 8) | ((bytes[2] as u64) << 16) | ((bytes[3] as u64) << 24)
        | ((bytes[4] as u64) << 32) | ((bytes[5] as u64) << 40) | ((bytes[6] as u64) << 48) | ((bytes[7] as u64)
        << 56)
}

/// Appends the eight bytes of `value`, least significant first.
pub fn push_le_bytes(bytes: &mut Vec<u8>, value: u64)
    ensures
        final(bytes)@ == old(bytes)@ + le_bytes(value),
{
    let mut i: u64 = 0;
    while i < 8
        invariant
            i <= 8,
            bytes@ == old(bytes)@ + le_bytes(value).subrange(0, i as int),
        decreases 8 - i,
    {
        let byte = (value >> (8 * i)) & 0xff;
        assert(byte <= 0xff) by (bit_vector)
            requires
                byte == (value >> ((8 * i) as u64)) & 0xff,
        ;
        bytes.push(byte as u8);
        i += 1;
        assert(bytes@ =~= old(bytes)@ + le_bytes(value).subrange(0, i as int));
    }
    assert(le_bytes(value).subrange(0, 8) =~= le_bytes(value));
}

/// Reads the number whose eight bytes, least significant first, start `bytes`.
pub fn read_le_number(bytes: &[u8]) -> (value: u64)
    requires
        bytes@.len() >= 8,
    ensures
        value == le_number(bytes@),
{
    (bytes[0] as u64) | ((bytes[1] as u64) << 8) | ((bytes[2] as u64) << 16) | ((bytes[3] as u64) << 24) | ((
    bytes[4] as u64) << 32) | ((bytes[5] as u64) << 40) | ((bytes[6] as u64) << 48) | ((bytes[7] as u64) << 56)
}

/// The four bytes of `value`, least significant first.
pub open spec fn le_bytes_short(value: u32) -> Seq<u8> {
    Seq::new(4, |i: int| ((value >> ((8 * i) as u32)) & 0xff) as u8)
}

/// The bytes of the first `n` values, each least significant first.
pub open spec fn le_bytes_all(values: Seq<u32>, n: nat) -> Seq<u8>
    decreases n,
{
    if n == 0 {
        Seq::empty()
    } else {
        le_bytes_all(values, (n - 1) as nat) + le_bytes_short(values[n - 1])
    }
}

/// Appends the four bytes of `value`, least significant first.
pub fn push_le_bytes_short(bytes: &mut Vec<u8>, value: u32)
    ensures
        final(bytes)@ == old(bytes)@ + le_bytes_short(value),
{
    let mut i: u32 = 0;
    while i < 4
        invariant
            i <= 4,
            bytes@ == old(bytes)@ + le_bytes_short(value).subrange(0, i as int),
        decreases 4 - i,
    {
        let byte = (value >> (8 * i)) & 0xff;
        assert(byte <= 0xff) by (bit_vector)
            requires
                byte == (value >> ((8 * i) as u32)) & 0xff,
        ;
        bytes.push(byte as u8);
        i += 1;
        assert(bytes@ =~= old(bytes)@ + le_bytes_short(value).subrange(0, i as int));
    }
    assert(le_bytes_short(value).subrange(0, 4) =~= le_bytes_short(value));
}

/// Appends the bytes of `values`, each least significant first.
pub fn push_all_le_bytes(bytes: &mut Vec<u8>, values: &Vec<u32>)
    ensures
        final(bytes)@ == old(bytes)@ + le_bytes_all(values@, values@.len()),
{
    let mut i: usize = 0;
    assert(bytes@ =~= old(bytes)@ + le_bytes_all(values@, 0));
    while i < values.len()
        invariant
            i <= values@.len(),
            bytes@ == old(bytes)@ + le_bytes_all(values@, i as nat),
        decreases values@.len() - i,
    {
        push_le_bytes_short(bytes, values[i]);
        i += 1;
        assert(bytes@ =~= old(bytes)@ + le_bytes_all(values@, i as nat));
    }
}

/// Appends the bytes of a text.
pub fn push_text_bytes(bytes: &mut Vec<u8>, text: &str)
    ensures
        final(bytes)@ == old(bytes)@ + encode_utf8(text@),
{
    let more = text.as_bytes();
    let mut i: usize = 0;
    assert(bytes@ =~= old(bytes)@ + more@.take(0));
    while i < more.len()
        invariant
            i <= more@.len(),
            bytes@ == old(bytes)@ + more@.take(i as int),
        decreases more@.len() - i,
    {
        bytes.push(more[i]);
        i += 1;
        assert(bytes@ =~= old(bytes)@ + more@.take(i as int));
    }
    assert(more@.take(i as int) =~= more@);
}

} // verus!
