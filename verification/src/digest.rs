//! SHA-256 content digests, computed incrementally.
//!
//! The digest function itself is the `sha2` crate's. Its value is not modelled
//! here: contracts speak of it through [`sha256`], and everything built on top
//! (chunked feeding, comparison, hex rendering) is proved against that name.

use vstd::prelude::*;
use vstd::slice::slice_subrange;

verus! {

/// Number of bytes in a digest.
pub const DIGEST_LEN: usize = 32;

/// Number of bytes fed to the hasher at a time by [`digest_of`].
pub const CHUNK_SIZE: usize = 8192;

/// The SHA-256 digest of a byte string.
pub uninterp spec fn sha256(bytes: Seq<u8>) -> Seq<u8>;

/// The bytes a hasher has taken in so far, in order.
pub uninterp spec fn absorbed(h: ContentHasher) -> Seq<u8>;

/// An incremental SHA-256 computation over a stream of byte chunks.
///
/// Holds a `sha2::Sha256`, whose state is opaque here; what is known of it is
/// the sequence of bytes it has taken in, `self@`. Nothing is proved of the
/// three functions that reach into it: `sha_new`, `sha_update`, `sha_finalize`.
#[verifier::external_body]
pub struct ContentHasher {
    inner: sha2::Sha256,
}

impl View for ContentHasher {
    type V = Seq<u8>;

    open spec fn view(&self) -> Seq<u8> {
        absorbed(*self)
    }
}

/// `sha2::Digest::new` for `sha2::Sha256`: a fresh hasher has taken in no bytes.
#[verifier::external_body]
fn sha_new() -> (h: ContentHasher)
    ensures
        absorbed(h) == Seq::<u8>::empty(),
{
    ContentHasher { inner: <sha2::Sha256 as sha2::Digest>::new() }
}

/// `sha2::Digest::update` for `sha2::Sha256`: the chunk is appended to the bytes
/// taken in so far.
#[verifier::external_body]
fn sha_update(h: &mut ContentHasher, chunk: &[u8])
    ensures
        absorbed(*final(h)) == absorbed(*old(h)) + chunk@,
{
    sha2::Digest::update(&mut h.inner, chunk);
}

/// `sha2::Digest::finalize` for `sha2::Sha256`: the 32 output bytes are the
/// SHA-256 digest of all bytes taken in, however they were split into chunks.
#[verifier::external_body]
fn sha_finalize(h: ContentHasher) -> (out: [u8; 32])
    ensures
        out@ == sha256(absorbed(h)),
{
    sha2::Digest::finalize(h.inner).into()
}

/// A 32-byte content digest.
#[derive(Clone, Copy, Debug, PartialEq, Eq, Hash)]
pub struct Digest {
    bytes: [u8; 32],
}

impl View for Digest {
    type V = Seq<u8>;

    closed spec fn view(&self) -> Seq<u8> {
        self.bytes@
    }
}

/// The first eight bytes of a digest read as one number, lowest byte first.
/// Digests that differ here differ; digests that agree here may still differ.
pub open spec fn fingerprint_of(bytes: Seq<u8>) -> int {
    bytes[0] + 0x100 * bytes[1] + 0x1_0000 * bytes[2] + 0x100_0000 * bytes[3] + 0x1_0000_0000
        * bytes[4] + 0x100_0000_0000 * bytes[5] + 0x1_0000_0000_0000 * bytes[6]
        + 0x100_0000_0000_0000 * bytes[7]
}

/// The sixteen lowercase hexadecimal digits, in order of value.
pub open spec fn hex_digits() -> Seq<char> {
    seq!['0', '1', '2', '3', '4', '5', '6', '7', '8', '9', 'a', 'b', 'c', 'd', 'e', 'f']
}

/// The character at position `i` of the hex rendering of `bytes`: the high
/// nibble of byte `i / 2` at even positions, its low nibble at odd ones.
pub open spec fn hex_char_at(bytes: Seq<u8>, i: int) -> char {
    if i % 2 == 0 {
        hex_digits()[bytes[i / 2] as int / 16]
    } else {
        hex_digits()[bytes[i / 2] as int % 16]
    }
}

/// Lowercase hexadecimal rendering: two characters per byte, high nibble first.
pub open spec fn hex_string(bytes: Seq<u8>) -> Seq<char> {
    Seq::new(2 * bytes.len(), |i: int| hex_char_at(bytes, i))
}

fn hex_digit_str(n: u8) -> (s: &'static str)
    requires
        n < 16,
    ensures
        s@ == seq![hex_digits()[n as int]],
{
    proof {
        reveal_strlit("0");
        reveal_strlit("1");
        reveal_strlit("2");
        reveal_strlit("3");
        reveal_strlit("4");
        reveal_strlit("5");
        reveal_strlit("6");
        reveal_strlit("7");
        reveal_strlit("8");
        reveal_strlit("9");
        reveal_strlit("a");
        reveal_strlit("b");
        reveal_strlit("c");
        reveal_strlit("d");
        reveal_strlit("e");
        reveal_strlit("f");
    }
    let s = match n {
        0 => "0",
        1 => "1",
        2 => "2",
        3 => "3",
        4 => "4",
        5 => "5",
        6 => "6",
        7 => "7",
        8 => "8",
        9 => "9",
        10 => "a",
        11 => "b",
        12 => "c",
        13 => "d",
        14 => "e",
        _ => "f",
    };
    assert(s@ =~= seq![hex_digits()[n as int]]);
    s
}

impl Digest {
    /// A digest holding exactly the given bytes.
    pub fn from_bytes(bytes: [u8; 32]) -> (d: Digest)
        ensures
            d@ == bytes@,
    {
        Digest { bytes }
    }

    /// The digest's bytes.
    pub fn as_bytes(&self) -> (bytes: &[u8; 32])
        ensures
            bytes@ == self@,
    {
        &self.bytes
    }

    /// Every digest is 32 bytes long.
    pub proof fn lemma_digest_len(self)
        ensures
            self@.len() == DIGEST_LEN,
    {
    }

    /// The digest's fingerprint: a short key for looking digests up.
    pub fn fingerprint(&self) -> (p: u64)
        ensures
            p == fingerprint_of(self@),
    {
        let b = &self.bytes;
        (b[0] as u64) + 0x100 * (b[1] as u64) + 0x1_0000 * (b[2] as u64) + 0x100_0000 * (
        b[3] as u64) + 0x1_0000_0000 * (b[4] as u64) + 0x100_0000_0000 * (b[5] as u64)
            + 0x1_0000_0000_0000 * (b[6] as u64) + 0x100_0000_0000_0000 * (b[7] as u64)
    }

    /// Whether two digests hold the same bytes.
    pub fn same_as(&self, other: &Digest) -> (b: bool)
        ensures
            b == (self@ == other@),
    {
        let mut i: usize = 0;
        while i < 32
            invariant
                i <= 32,
                forall|k: int| 0 <= k < i ==> self.bytes@[k] == other.bytes@[k],
            decreases 32 - i,
        {
            if self.bytes[i] != other.bytes[i] {
                return false;
            }
            i += 1;
        }
        assert(self.bytes@ =~= other.bytes@);
        true
    }

    /// The digest as 64 lowercase hexadecimal characters.
    pub fn to_hex(&self) -> (s: String)
        ensures
            s@ == hex_string(self@),
    {
        let mut s = String::new();
        let mut i: usize = 0;
        while i < 32
            invariant
                i <= 32,
                s@.len() == 2 * i,
                forall|k: int| 0 <= k < 2 * i ==> s@[k] == hex_char_at(self.bytes@, k),
            decreases 32 - i,
        {
            let b: u8 = self.bytes[i];
            s.append(hex_digit_str(b / 16));
            s.append(hex_digit_str(b % 16));
            i += 1;
        }
        assert(s@ =~= hex_string(self@));
        s
    }
}

impl ContentHasher {
    /// A hasher that has taken in nothing yet.
    pub fn new() -> (h: ContentHasher)
        ensures
            h@ == Seq::<u8>::empty(),
    {
        sha_new()
    }

    /// Feeds the next chunk of the stream.
    pub fn update(&mut self, chunk: &[u8])
        ensures
            final(self)@ == old(self)@ + chunk@,
    {
        sha_update(self, chunk);
    }

    /// Ends the stream and returns the digest of all bytes fed.
    pub fn finalize(self) -> (d: Digest)
        ensures
            d@ == sha256(self@),
    {
        Digest { bytes: sha_finalize(self) }
    }
}

/// Digest of `content`, fed to the hasher in pieces of `chunk_size` bytes (the
/// last one possibly shorter). The result does not depend on `chunk_size`.
pub fn digest_in_chunks(content: &[u8], chunk_size: usize) -> (d: Digest)
    requires
        chunk_size > 0,
    ensures
        d@ == sha256(content@),
{
    let n = content.len();
    let mut h = ContentHasher::new();
    let mut pos: usize = 0;
    while pos < n
        invariant
            pos <= n,
            n == content@.len(),
            chunk_size > 0,
            h@ == content@.subrange(0, pos as int),
        decreases n - pos,
    {
        let end: usize = if n - pos > chunk_size {
            pos + chunk_size
        } else {
            n
        };
        let chunk = slice_subrange(content, pos, end);
        h.update(chunk);
        assert(content@.subrange(0, pos as int) + content@.subrange(pos as int, end as int)
            =~= content@.subrange(0, end as int));
        pos = end;
    }
    assert(content@.subrange(0, n as int) =~= content@);
    h.finalize()
}

/// Digest of `content`. An empty `content` has a digest like any other.
pub fn digest_of(content: &[u8]) -> (d: Digest)
    ensures
        d@ == sha256(content@),
{
    digest_in_chunks(content, CHUNK_SIZE)
}

} // verus!
