use tron_vanity::address::{
    address_head_from_hash, checksum, create_wallet_fast, finalize_wallet, seal_payload, tron_address,
    wallet_from_secret, wipe_secret, RawWallet,
};

fn secret_one() -> [u8; 32] {
    let mut s = [0u8; 32];
    s[31] = 1;
    s
}

#[test]
fn address_of_secret_one() {
    let w = wallet_from_secret(secret_one()).unwrap();
    assert_eq!(w.address, "TMVQGm1qAQYVdetCeGRRkTWYYrLXuHK2HC");
    assert_eq!(w.secret_bytes, secret_one());
    let data = finalize_wallet(w);
    assert_eq!(data.address, "TMVQGm1qAQYVdetCeGRRkTWYYrLXuHK2HC");
    assert_eq!(data.private_key, "0000000000000000000000000000000000000000000000000000000000000001");
}

#[test]
fn invalid_secrets_have_no_wallet() {
    assert!(wallet_from_secret([0u8; 32]).is_none());
    assert!(wallet_from_secret([0xffu8; 32]).is_none());
}

#[test]
fn checksum_is_double_sha256_prefix() {
    let mut head = [0u8; 21];
    head[0] = 0x41;
    let eth: [u8; 20] = [
        0x7e, 0x5f, 0x45, 0x52, 0x09, 0x1a, 0x69, 0x12, 0x5d, 0x5d, 0xfc, 0xb7, 0xb8, 0xc2, 0x65, 0x90, 0x29,
        0x39, 0x5b, 0xdf,
    ];
    head[1..].copy_from_slice(&eth);
    assert_eq!(checksum(&head), [0xb1, 0x64, 0xfb, 0x1f]);
}

#[test]
fn address_head_and_payload_layout() {
    let mut hash = [0u8; 32];
    for (i, b) in hash.iter_mut().enumerate() {
        *b = i as u8;
    }
    let head = address_head_from_hash(&hash);
    assert_eq!(head[0], 0x41);
    assert_eq!(&head[1..], &hash[12..]);
    let payload = seal_payload(&head, &[9, 8, 7, 6]);
    assert_eq!(&payload[..21], &head[..]);
    assert_eq!(&payload[21..], &[9, 8, 7, 6]);
}

#[test]
fn tron_address_only_reads_after_the_tag() {
    let mut a = vec![4u8; 65];
    let mut b = vec![4u8; 65];
    a[0] = 1;
    b[0] = 2;
    assert_eq!(tron_address(&a), tron_address(&b));
    let mut c = b.clone();
    c[64] = 5;
    assert_ne!(tron_address(&b), tron_address(&c));
}

#[test]
fn fresh_wallets_are_consistent() {
    for _ in 0..5 {
        let raw = create_wallet_fast();
        assert!(raw.address.starts_with('T'));
        assert_eq!(raw.address.len(), 34);
        let again = wallet_from_secret(raw.secret_bytes).unwrap();
        assert_eq!(again.address, raw.address);
        let alphabet = "123456789ABCDEFGHJKLMNPQRSTUVWXYZabcdefghijkmnopqrstuvwxyz";
        assert!(raw.address.chars().all(|c| alphabet.contains(c)));
    }
}

#[test]
fn wipe_secret_zeroes_bytes() {
    let mut raw = RawWallet { address: "Tabc".to_string(), secret_bytes: [7u8; 32] };
    wipe_secret(&mut raw);
    assert_eq!(raw.secret_bytes, [0u8; 32]);
    assert_eq!(raw.address, "Tabc");
}
