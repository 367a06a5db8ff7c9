use file_core::{digest_bytes, to_hex, Hasher};

const EMPTY_SHA256: &str = "e3b0c44298fc1c149afbf4c8996fb92427ae41e4649b934ca495991b7852b855";

#[test]
fn empty_content_has_the_well_known_digest() {
    assert_eq!(digest_bytes(b""), EMPTY_SHA256);
    assert_eq!(Hasher::new().finish(), EMPTY_SHA256);
}

#[test]
fn known_digests() {
    assert_eq!(
        digest_bytes(b"abc"),
        "ba7816bf8f01cfea414140de5dae2223b00361a396177a9cb410ff61f20015ad"
    );
    assert_eq!(
        digest_bytes(b"hello world"),
        "b94d27b9934d3e08a52e52d7da7dabfac484efe37a5380ee9088f7ace2efcde9"
    );
}

#[test]
fn digest_is_deterministic() {
    let data: Vec<u8> = (0..20000u32).map(|i| (i % 251) as u8).collect();
    let a = digest_bytes(&data);
    let b = digest_bytes(&data);
    assert_eq!(a, b);
    assert_eq!(a.len(), 64);
    assert!(a.chars().all(|c| c.is_ascii_hexdigit() && !c.is_ascii_uppercase()));
}

#[test]
fn digest_does_not_depend_on_block_boundaries() {
    let data: Vec<u8> = (0..20000u32).map(|i| (i * 7 % 256) as u8).collect();
    let mut h = Hasher::new();
    let mut pos = 0;
    for step in [1usize, 5, 8191, 8192, 3000, 100000] {
        let end = std::cmp::min(pos + step, data.len());
        h.update(&data[pos..end]);
        pos = end;
    }
    assert_eq!(pos, data.len());
    assert_eq!(h.finish(), digest_bytes(&data));
}

#[test]
fn digest_changes_when_one_byte_changes() {
    let data: Vec<u8> = b"The quick brown fox jumps over the lazy dog".to_vec();
    let base = digest_bytes(&data);
    for i in 0..data.len() {
        let mut changed = data.clone();
        changed[i] ^= 1;
        assert_ne!(digest_bytes(&changed), base);
    }
}

#[test]
fn hex_is_two_lowercase_digits_per_byte() {
    assert_eq!(to_hex(&[0x00, 0x0f, 0xa0, 0xff, 0x5c]), "000fa0ff5c");
    assert_eq!(to_hex(&[]), "");
}
