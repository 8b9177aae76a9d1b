use rugus::crypto::{ct_eq, hmac_sha256, Sha256, SoftwareRng};

fn hex(d: &[u8]) -> String {
    d.iter().map(|b| format!("{b:02x}")).collect()
}

#[test]
fn hmac_rfc4231_case_1() {
    let key = [0x0bu8; 20];
    let mac = hmac_sha256(&key, b"Hi There");
    assert_eq!(
        hex(&mac),
        "b0344c61d8db38535ca8afceaf0bf12b881dc200c9833da726e9376c2e32cff7"
    );
}

#[test]
fn hmac_rfc4231_case_6_long_key_is_hashed() {
    let key = [0xaau8; 131];
    let mac = hmac_sha256(&key, b"Test Using Larger Than Block-Size Key - Hash Key First");
    assert_eq!(
        hex(&mac),
        "60e431591ee0b67f0d8a26aacbf5b77f8e0bc6213728c5140546040f0ee37f54"
    );
}

#[test]
fn constant_time_equality() {
    assert!(ct_eq(b"abc", b"abc"));
    assert!(!ct_eq(b"abc", b"abd"));
    assert!(!ct_eq(b"abc", b"ab"));
    assert!(ct_eq(b"", b""));
}

#[test]
fn rng_is_deterministic_per_seed() {
    let mut r = SoftwareRng::seed_from_u64(42);
    assert_eq!(r.next_u64(), 0x1578_0b2e_0c2e_c716);
    assert_eq!(r.next_u64(), 0x6104_d986_6d11_3a7e);
    assert_eq!(r.next_u32(), 0x39e4_99a1);
}

#[test]
fn rng_fill_bytes_is_little_endian_stream() {
    let mut r = SoftwareRng::seed_from_u64(42);
    let mut buf = [0u8; 11];
    r.fill_bytes(&mut buf);
    assert_eq!(hex(&buf), "16c72e0c2e0b78157e3a11");
    assert_eq!(r.next_u64(), 0xae17_5332_39e4_99a1);
}

#[test]
fn sha256_incremental_matches_known_digest() {
    let mut h = Sha256::new();
    h.update(b"a");
    h.update(b"bc");
    assert_eq!(
        hex(&h.finalize()),
        "ba7816bf8f01cfea414140de5dae2223b00361a396177a9cb410ff61f20015ad"
    );
    assert_eq!(
        hex(&Sha256::default().finalize()),
        "e3b0c44298fc1c149afbf4c8996fb92427ae41e4649b934ca495991b7852b855"
    );
}
