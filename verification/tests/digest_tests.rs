use dupfinder::digest::{digest_in_chunks, digest_of, ContentHasher, Digest, CHUNK_SIZE, DIGEST_LEN};
use sha2::Digest as _;

const EMPTY_HEX: &str = "e3b0c44298fc1c149afbf4c8996fb92427ae41e4649b934ca495991b7852b855";
const HELLO_HEX: &str = "2cf24dba5fb0a30e26e83b2ac5b9e29e1b161e5c1fa7425e73043362938b9824";
const HELLO_WORLD_HEX: &str = "b94d27b9934d3e08a52e52d7da7dabfac484efe37a5380ee9088f7ace2efcde9";
const ABC_HEX: &str = "ba7816bf8f01cfea414140de5dae2223b00361a396177a9cb410ff61f20015ad";

#[test]
fn empty_input_has_the_standard_digest() {
    assert_eq!(digest_of(b"").to_hex(), EMPTY_HEX);
}

#[test]
fn known_digests() {
    assert_eq!(digest_of(b"hello").to_hex(), HELLO_HEX);
    assert_eq!(digest_of(b"hello world").to_hex(), HELLO_WORLD_HEX);
    assert_eq!(digest_of(b"abc").to_hex(), ABC_HEX);
}

#[test]
fn digest_is_not_the_input() {
    let input = [7u8; 32];
    let d = digest_of(&input);
    assert_ne!(d.as_bytes(), &input);
    assert_ne!(d, digest_of(&[8u8; 32]));
}

#[test]
fn digest_agrees_with_one_shot_sha256() {
    let data: Vec<u8> = (0..20_000u32).map(|i| (i % 251) as u8).collect();
    let expected: [u8; 32] = sha2::Sha256::digest(&data).into();
    assert_eq!(digest_of(&data).as_bytes(), &expected);
}

#[test]
fn chunk_size_does_not_change_the_digest() {
    let data: Vec<u8> = (0..10_000u32).map(|i| (i * 7 % 256) as u8).collect();
    let whole = digest_of(&data);
    for chunk in [1usize, 2, 3, 63, 64, 65, 4096, 8192, 9999, 10_000, 10_001, usize::MAX] {
        assert_eq!(digest_in_chunks(&data, chunk), whole, "chunk size {}", chunk);
    }
}

#[test]
fn chunk_size_does_not_change_the_digest_of_nothing() {
    assert_eq!(digest_in_chunks(b"", 1).to_hex(), EMPTY_HEX);
    assert_eq!(digest_in_chunks(b"", CHUNK_SIZE).to_hex(), EMPTY_HEX);
}

#[test]
fn hasher_fed_in_pieces_gives_the_digest_of_the_whole() {
    let mut h = ContentHasher::new();
    h.update(b"hel");
    h.update(b"");
    h.update(b"lo ");
    h.update(b"world");
    assert_eq!(h.finalize().to_hex(), HELLO_WORLD_HEX);
}

#[test]
fn fresh_hasher_gives_the_digest_of_nothing() {
    assert_eq!(ContentHasher::new().finalize().to_hex(), EMPTY_HEX);
}

#[test]
fn order_of_chunks_matters() {
    let mut a = ContentHasher::new();
    a.update(b"ab");
    a.update(b"c");
    let mut b = ContentHasher::new();
    b.update(b"c");
    b.update(b"ab");
    assert_eq!(a.finalize().to_hex(), ABC_HEX);
    assert_ne!(b.finalize().to_hex(), ABC_HEX);
}

#[test]
fn hex_is_lowercase_two_digits_per_byte() {
    let mut bytes = [0u8; 32];
    bytes[0] = 0x00;
    bytes[1] = 0x0f;
    bytes[2] = 0xf0;
    bytes[3] = 0xab;
    bytes[31] = 0x9c;
    let hex = Digest::from_bytes(bytes).to_hex();
    assert_eq!(hex.len(), 2 * DIGEST_LEN);
    assert_eq!(&hex[..8], "000ff0ab");
    assert_eq!(&hex[62..], "9c");
    assert_eq!(&hex[8..62], "0".repeat(54));
}

#[test]
fn hex_agrees_with_lower_hex_formatting() {
    let out = sha2::Sha256::digest(b"some content");
    let bytes: [u8; 32] = out.into();
    assert_eq!(Digest::from_bytes(bytes).to_hex(), format!("{:x}", out));
}

#[test]
fn same_as_compares_all_bytes() {
    let a = Digest::from_bytes([1u8; 32]);
    let mut other = [1u8; 32];
    assert!(a.same_as(&Digest::from_bytes(other)));
    other[31] = 2;
    assert!(!a.same_as(&Digest::from_bytes(other)));
    other[31] = 1;
    other[0] = 0;
    assert!(!a.same_as(&Digest::from_bytes(other)));
}

#[test]
fn from_bytes_keeps_the_bytes() {
    let mut bytes = [0u8; 32];
    for (i, b) in bytes.iter_mut().enumerate() {
        *b = i as u8;
    }
    assert_eq!(Digest::from_bytes(bytes).as_bytes(), &bytes);
}

#[test]
fn fingerprint_reads_the_first_eight_bytes_lowest_first() {
    let mut bytes = [0u8; 32];
    assert_eq!(Digest::from_bytes(bytes).fingerprint(), 0);
    bytes[0] = 1;
    assert_eq!(Digest::from_bytes(bytes).fingerprint(), 1);
    bytes[1] = 2;
    assert_eq!(Digest::from_bytes(bytes).fingerprint(), 0x0201);
    bytes[7] = 0xff;
    assert_eq!(Digest::from_bytes(bytes).fingerprint(), 0xff00_0000_0000_0201);
    bytes[8] = 9;
    assert_eq!(Digest::from_bytes(bytes).fingerprint(), 0xff00_0000_0000_0201);
    assert_eq!(Digest::from_bytes([0xff; 32]).fingerprint(), u64::MAX);
}
