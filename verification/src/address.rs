//! Key pairs and TRON addresses: the address is the Base58 text of
//! 0x41, the last 20 bytes of the Keccak-256 hash of the uncompressed public
//! key (without its tag byte), and a 4-byte double-SHA-256 checksum.
use vstd::prelude::*;
use k256::elliptic_curve::sec1::ToEncodedPoint;
use sha2::Digest;
use tiny_keccak::Hasher;
use zeroize::Zeroize;

verus! {

/// What `Keccak::v256()` updated with the data and finalized returns.
pub uninterp spec fn keccak256_digest(data: Seq<u8>) -> Seq<u8>;

/// What `Sha256::digest` returns for the data.
pub uninterp spec fn sha256_digest(data: Seq<u8>) -> Seq<u8>;


/// The uncompressed SEC1 encoding of the secp256k1 public key of a
/// big-endian secret scalar, or `None` when the bytes are no valid secret
/// (zero, or not below the group order).
pub uninterp spec fn secp256k1_public_key(secret: Seq<u8>) -> Option<Seq<u8>>;

/// The characters of the Bitcoin Base58 alphabet.
pub open spec fn base58_alphabet() -> Seq<char> {
    "123456789ABCDEFGHJKLMNPQRSTUVWXYZabcdefghijkmnopqrstuvwxyz"@
}

/// The big-endian value of a byte string.
pub open spec fn be_value(bytes: Seq<u8>) -> nat
    decreases bytes.len(),
{
    if bytes.len() == 0 {
        0
    } else {
        be_value(bytes.drop_last()) * 256 + bytes.last() as nat
    }
}

/// The base-58 digits of a number, most significant first (none for zero).
pub open spec fn base58_digits(n: nat) -> Seq<nat>
    decreases n,
{
    if n == 0 {
        Seq::empty()
    } else {
        base58_digits(n / 58).push(n % 58)
    }
}

/// How many zero bytes a byte string starts with.
pub open spec fn leading_zero_bytes(bytes: Seq<u8>) -> nat
    decreases bytes.len(),
{
    if bytes.len() > 0 && bytes[0] == 0 {
        1 + leading_zero_bytes(bytes.drop_first())
    } else {
        0
    }
}

/// Base58 text of a byte string: one '1' per leading zero byte, then the
/// base-58 digits of its big-endian value in the Bitcoin alphabet.
pub open spec fn base58_text(data: Seq<u8>) -> Seq<char> {
    Seq::new(leading_zero_bytes(data), |i: int| '1') + base58_digits(be_value(data)).map_values(
        |d: nat| base58_alphabet()[d as int],
    )
}

/// `base` to the power `exp`.
pub open spec fn pow_nat(base: nat, exp: nat) -> nat
    decreases exp,
{
    if exp == 0 {
        1
    } else {
        base * pow_nat(base, (exp - 1) as nat)
    }
}

proof fn lemma_digits_below_58(n: nat)
    ensures
        forall|i: int| 0 <= i < base58_digits(n).len() ==> #[trigger] base58_digits(n)[i] < 58,
    decreases n,
{
    if n > 0 {
        lemma_digits_below_58(n / 58);
        let d = base58_digits(n);
        assert(d == base58_digits(n / 58).push(n % 58));
        assert forall|i: int| 0 <= i < d.len() implies #[trigger] d[i] < 58 by {
            if i < d.len() - 1 {
                assert(d[i] == base58_digits(n / 58)[i]);
            }
        }
    }
}

proof fn lemma_pow_positive(base: nat, exp: nat)
    requires
        base > 0,
    ensures
        pow_nat(base, exp) > 0,
    decreases exp,
{
    if exp > 0 {
        lemma_pow_positive(base, (exp - 1) as nat);
        assert(base * pow_nat(base, (exp - 1) as nat) > 0) by (nonlinear_arith)
            requires
                base > 0,
                pow_nat(base, (exp - 1) as nat) > 0,
        ;
    }
}

/// A number with k+1 base-58 digits, and its leading digit.
proof fn lemma_digit_count(n: nat, k: nat)
    requires
        pow_nat(58, k) <= n < pow_nat(58, k + 1),
    ensures
        base58_digits(n).len() == k + 1,
        base58_digits(n)[0] == n / pow_nat(58, k),
    decreases k,
{
    if k == 0 {
        assert(pow_nat(58, 1) == 58 * pow_nat(58, 0));
        assert(base58_digits(n / 58) == Seq::<nat>::empty());
    } else {
        let p = pow_nat(58, (k - 1) as nat);
        lemma_pow_positive(58, (k - 1) as nat);
        assert(pow_nat(58, k) == 58 * p);
        assert(pow_nat(58, k + 1) == 58 * (58 * p));
        let m = n / 58;
        assert(p <= m < 58 * p);
        lemma_digit_count(m, (k - 1) as nat);
        vstd::arithmetic::div_mod::lemma_div_denominator(n as int, 58, p as int);
        assert(base58_digits(n) == base58_digits(m).push(n % 58));
    }
}

/// The value of a byte string split at its first byte.
proof fn lemma_be_value_first(bytes: Seq<u8>)
    requires
        bytes.len() > 0,
    ensures
        be_value(bytes) == bytes[0] as nat * pow_nat(256, (bytes.len() - 1) as nat) + be_value(
            bytes.skip(1),
        ),
    decreases bytes.len(),
{
    if bytes.len() == 1 {
        assert(bytes.drop_last() =~= Seq::<u8>::empty());
        assert(bytes.skip(1) =~= Seq::<u8>::empty());
        assert(be_value(bytes) == be_value(bytes.drop_last()) * 256 + bytes.last() as nat);
        assert(be_value(Seq::<u8>::empty()) == 0);
        let e = (bytes.len() - 1) as nat;
        assert(e == 0);
        assert(pow_nat(256, e) == 1);
        assert(bytes.last() == bytes[0]);
        assert(be_value(bytes.skip(1)) == 0);
        assert(bytes[0] as nat * pow_nat(256, e) == bytes[0] as nat);
        assert(be_value(bytes) == bytes[0] as nat * pow_nat(256, (bytes.len() - 1) as nat) + be_value(
            bytes.skip(1),
        ));
    } else {
        let front = bytes.drop_last();
        lemma_be_value_first(front);
        assert(front.skip(1) =~= bytes.skip(1).drop_last());
        assert(bytes.skip(1).last() == bytes.last());
        let x = pow_nat(256, (front.len() - 1) as nat);
        assert(pow_nat(256, (bytes.len() - 1) as nat) == 256 * x);
        let a = bytes[0] as nat;
        let b = be_value(front.skip(1));
        assert(front[0] == bytes[0]);
        assert(be_value(bytes) == be_value(front) * 256 + bytes.last() as nat);
        assert(be_value(front) == a * x + b);
        assert(be_value(bytes.skip(1)) == be_value(bytes.skip(1).drop_last()) * 256
            + bytes.skip(1).last() as nat);
        assert((a * x + b) * 256 + bytes.last() as nat == a * (256 * x) + (b * 256
            + bytes.last() as nat)) by (nonlinear_arith);
        assert(be_value(bytes.skip(1)) == b * 256 + bytes.last() as nat);
        assert(be_value(bytes) == a * pow_nat(256, (bytes.len() - 1) as nat) + be_value(bytes.skip(1)));
    }
}

/// A byte string's value is below 256 to the power of its length.
proof fn lemma_be_value_bound(bytes: Seq<u8>)
    ensures
        be_value(bytes) < pow_nat(256, bytes.len()),
    decreases bytes.len(),
{
    if bytes.len() > 0 {
        let front = bytes.drop_last();
        lemma_be_value_bound(front);
        let x = pow_nat(256, front.len());
        assert(pow_nat(256, bytes.len()) == 256 * x);
        let v = be_value(front);
        let l = bytes.last() as nat;
        assert(v * 256 + l < 256 * x) by (nonlinear_arith)
            requires
                v < x,
                l < 256,
        ;
    }
}

/// A 25-byte payload that starts with 0x41 is written as 34 Base58
/// characters, the first of them 'T'.
pub proof fn lemma_tron_text_shape(payload: Seq<u8>)
    requires
        payload.len() == 25,
        payload[0] == 0x41,
    ensures
        base58_text(payload).len() == 34,
        base58_text(payload)[0] == 'T',
{
    let l: nat = 6277101735386680763835789423207666416102355444464034512896nat;
    let a: nat = 15599970876632771988160814054146447252125923204784443097088nat;
    assert(pow_nat(256, 24) == l) by {
        reveal_with_fuel(pow_nat, 25);
    }
    assert(pow_nat(58, 33) == a) by {
        reveal_with_fuel(pow_nat, 34);
    }
    assert(pow_nat(58, 34) == 58 * a);
    lemma_be_value_first(payload);
    lemma_be_value_bound(payload.skip(1));
    let v = be_value(payload);
    assert(v == 65 * l + be_value(payload.skip(1)));
    assert(26 * a <= v < 27 * a);
    lemma_digit_count(v, 33);
    assert(v / a == 26);
    assert(leading_zero_bytes(payload) == 0);
    let digits = base58_digits(v);
    assert(base58_text(payload) =~= Seq::<char>::empty() + digits.map_values(
        |d: nat| base58_alphabet()[d as int],
    ));
    reveal_strlit("123456789ABCDEFGHJKLMNPQRSTUVWXYZabcdefghijkmnopqrstuvwxyz");
}

/// Every character of a Base58 text is from the alphabet.
pub proof fn lemma_base58_alphabet(data: Seq<u8>)
    ensures
        forall|i: int|
            0 <= i < base58_text(data).len() ==> base58_alphabet().contains(#[trigger] base58_text(data)[i]),
{
    reveal_strlit("123456789ABCDEFGHJKLMNPQRSTUVWXYZabcdefghijkmnopqrstuvwxyz");
    let t = base58_text(data);
    let z = leading_zero_bytes(data);
    let digits = base58_digits(be_value(data));
    lemma_digits_below_58(be_value(data));
    assert forall|i: int| 0 <= i < t.len() implies base58_alphabet().contains(#[trigger] t[i]) by {
        if i < z {
            assert(t[i] == base58_alphabet()[0]);
        } else {
            assert(digits[i - z] < 58);
            assert(t[i] == base58_alphabet()[digits[i - z] as int]);
        }
    }
}

/// Calls `tiny_keccak::Keccak::v256`, `update` and `finalize`; the 32-byte
/// digest is only named.
#[verifier::external_body]
fn keccak256(data: &[u8]) -> (out: [u8; 32])
    ensures
        out@ == keccak256_digest(data@),
{
    let mut output = [0u8; 32];
    let mut hasher = tiny_keccak::Keccak::v256();
    hasher.update(data);
    hasher.finalize(&mut output);
    output
}

/// Calls `sha2::Sha256::digest`; the 32-byte digest is only named.
#[verifier::external_body]
fn sha256(data: &[u8]) -> (out: [u8; 32])
    ensures
        out@ == sha256_digest(data@),
{
    sha2::Sha256::digest(data).into()
}

/// Calls `bs58::encode(..).into_string()`, which writes Base58 text with
/// the Bitcoin alphabet (its default, `Alphabet::BITCOIN`): one '1' per
/// leading zero byte, then the base-58 digits of the big-endian value.
#[verifier::external_body]
fn base58_encode(data: &[u8]) -> (s: String)
    ensures
        s@ == base58_text(data@),
{
    bs58::encode(data).into_string()
}

/// Calls `k256::SecretKey::random(&mut OsRng)` and returns the secret's
/// bytes (`to_bytes`). The bytes are random; what holds of every outcome is
/// that they are a valid secret (a nonzero scalar below the group order), so
/// a public key exists for them.
#[verifier::external_body]
fn random_secret_key() -> (secret: [u8; 32])
    ensures
        secp256k1_public_key(secret@) is Some,
{
    k256::SecretKey::random(&mut rand_core::OsRng).to_bytes().into()
}

/// Calls `k256::SecretKey::from_bytes` on the secret, then `public_key()`
/// and `to_encoded_point(false)`, and returns the encoded bytes. The key is
/// only named; the encoding of a public key (never the identity point) is
/// 65 bytes starting with the uncompressed tag 0x04.
#[verifier::external_body]
fn public_key_uncompressed(secret: &[u8; 32]) -> (r: Option<Vec<u8>>)
    ensures
        match r {
            Some(p) => secp256k1_public_key(secret@) == Some(p@) && p@.len() == 65 && p@[0] == 4,
            None => secp256k1_public_key(secret@) is None,
        },
{
    match k256::SecretKey::from_bytes(&k256::FieldBytes::from(*secret)) {
        Ok(key) => Some(key.public_key().to_encoded_point(false).as_bytes().to_vec()),
        Err(_) => None,
    }
}

/// The lowercase hexadecimal digit for `n < 16`.
pub open spec fn hex_digit(n: int) -> char {
    if n < 10 {
        (48 + n) as char
    } else {
        (87 + n) as char
    }
}

/// Two lowercase hexadecimal digits per byte, high nibble first.
pub open spec fn hex_text(bytes: Seq<u8>) -> Seq<char>
    decreases bytes.len(),
{
    if bytes.len() == 0 {
        Seq::empty()
    } else {
        hex_text(bytes.drop_last()) + seq![
            hex_digit(bytes.last() as int / 16),
            hex_digit(bytes.last() as int % 16),
        ]
    }
}

/// Calls `hex::encode`, which writes two lowercase hexadecimal digits per
/// byte, high nibble first.
#[verifier::external_body]
fn hex_encode(bytes: &[u8; 32]) -> (s: String)
    ensures
        s@ == hex_text(bytes@),
{
    hex::encode(bytes)
}

/// Calls `zeroize::Zeroize::zeroize` on the bytes, which sets each to zero.
#[verifier::external_body]
fn zeroize_secret(bytes: &mut [u8; 32])
    ensures
        final(bytes)@ == Seq::new(32, |i: int| 0u8),
{
    bytes.zeroize();
}

/// The first 21 bytes of an address: the version byte 0x41 and the last 20
/// bytes of the public key's hash.
pub open spec fn address_head(hash: Seq<u8>) -> Seq<u8> {
    seq![0x41u8] + hash.subrange(12, 32)
}

/// The 4 checksum bytes of a payload: the start of its double SHA-256.
pub open spec fn checksum_of(payload: Seq<u8>) -> Seq<u8> {
    sha256_digest(sha256_digest(payload)).take(4)
}

/// The 25 bytes that an address encodes, for an uncompressed public key.
pub open spec fn address_payload(public_key: Seq<u8>) -> Seq<u8> {
    let head = address_head(keccak256_digest(public_key.skip(1)));
    head + checksum_of(head)
}

/// The 25 bytes behind an address: 0x41, the last 20 bytes of the hash of
/// the key without its tag byte, and the checksum of those 21 bytes.
pub open spec fn payload_layout(public_key: Seq<u8>) -> bool {
    let p = address_payload(public_key);
    &&& p.len() == 25
    &&& p[0] == 0x41u8
    &&& p.subrange(1, 21) == keccak256_digest(public_key.skip(1)).subrange(12, 32)
    &&& p.subrange(21, 25) == checksum_of(p.take(21))
}

/// The TRON address of an uncompressed public key.
pub open spec fn spec_tron_address(public_key: Seq<u8>) -> Seq<char> {
    base58_text(address_payload(public_key))
}

/// The first four bytes of the double SHA-256 of the payload.
pub fn checksum(payload: &[u8]) -> (r: [u8; 4])
    ensures
        r@ == checksum_of(payload@),
{
    let first_hash = sha256(payload);
    let second_hash = sha256(&first_hash);
    let r = [second_hash[0], second_hash[1], second_hash[2], second_hash[3]];
    assert(r@ =~= second_hash@.take(4));
    r
}

/// The version byte 0x41 followed by the last 20 bytes of the hash.
pub fn address_head_from_hash(hash: &[u8; 32]) -> (r: [u8; 21])
    ensures
        r@ == address_head(hash@),
{
    let mut head = [0u8; 21];
    head[0] = 0x41;
    let mut i: usize = 0;
    while i < 20
        invariant
            i <= 20,
            head@.len() == 21,
            head@[0] == 0x41u8,
            forall|k: int| 1 <= k < i + 1 ==> #[trigger] head@[k] == hash@[k + 11],
        decreases 20 - i,
    {
        head[i + 1] = hash[i + 12];
        i = i + 1;
    }
    assert(head@ =~= address_head(hash@));
    head
}

/// The head followed by the checksum.
pub fn seal_payload(head: &[u8; 21], sum: &[u8; 4]) -> (r: [u8; 25])
    ensures
        r@ == head@ + sum@,
{
    let mut payload = [0u8; 25];
    let mut i: usize = 0;
    while i < 25
        invariant
            i <= 25,
            payload@.len() == 25,
            forall|k: int| 0 <= k < i ==> payload@[k] == (head@ + sum@)[k],
        decreases 25 - i,
    {
        if i < 21 {
            payload[i] = head[i];
        } else {
            payload[i] = sum[i - 21];
        }
        i = i + 1;
    }
    assert(payload@ =~= head@ + sum@);
    payload
}

/// The TRON address of an uncompressed public key (tag byte first).
pub fn tron_address(public_key: &[u8]) -> (r: String)
    requires
        public_key@.len() >= 1,
    ensures
        r@ == spec_tron_address(public_key@),
        payload_layout(public_key@),
        r@.len() == 34,
        r@[0] == 'T',
        forall|i: int| 0 <= i < r@.len() ==> base58_alphabet().contains(#[trigger] r@[i]),
{
    let key_body = vstd::slice::slice_subrange(public_key, 1, public_key.len());
    assert(key_body@ =~= public_key@.skip(1));
    let hash = keccak256(key_body);
    let head = address_head_from_hash(&hash);
    let sum = checksum(&head);
    let payload = seal_payload(&head, &sum);
    proof {
        lemma_base58_alphabet(payload@);
        assert(payload@ == address_payload(public_key@));
        assert(payload@.take(21) =~= head@);
        assert(payload@.subrange(21, 25) =~= sum@);
        assert(payload@.subrange(1, 21) =~= hash@.subrange(12, 32));
        lemma_tron_text_shape(payload@);
    }
    base58_encode(&payload)
}

/// A fresh address with the secret it was made from; the secret is kept as
/// raw bytes until the address turns out to match.
pub struct RawWallet {
    pub address: String,
    pub secret_bytes: [u8; 32],
}

/// A found address and its secret in hexadecimal.
pub struct WalletData {
    pub address: String,
    pub private_key: String,
}

/// The wallet of a secret: `None` when the bytes are no valid secret key.
pub fn wallet_from_secret(secret: [u8; 32]) -> (r: Option<RawWallet>)
    ensures
        match secp256k1_public_key(secret@) {
            None => r is None,
            Some(pk) => r matches Some(w) && w.address@ == spec_tron_address(pk) && w.secret_bytes@
                == secret@ && payload_layout(pk) && w.address@.len() == 34 && w.address@[0] == 'T',
        },
{
    match public_key_uncompressed(&secret) {
        Some(public_key) => {
            let address = tron_address(public_key.as_slice());
            Some(RawWallet { address, secret_bytes: secret })
        },
        None => None,
    }
}

/// A wallet made from a fresh random secret key.
pub fn create_wallet_fast() -> (r: RawWallet)
    ensures
        secp256k1_public_key(r.secret_bytes@) matches Some(pk) && r.address@ == spec_tron_address(pk)
            && payload_layout(pk) && r.address@.len() == 34 && r.address@[0] == 'T',
{
    let secret = random_secret_key();
    wallet_from_secret(secret).unwrap()
}

/// Overwrites the raw secret with zeros.
pub fn wipe_secret(raw: &mut RawWallet)
    ensures
        final(raw).address@ == old(raw).address@,
        final(raw).secret_bytes@ == Seq::new(32, |i: int| 0u8),
{
    zeroize_secret(&mut raw.secret_bytes);
}

/// Turns the secret into lowercase hex and wipes the raw bytes.
pub fn finalize_wallet(raw: RawWallet) -> (r: WalletData)
    ensures
        r.address@ == raw.address@,
        r.private_key@ == hex_text(raw.secret_bytes@),
{
    let mut raw = raw;
    let private_key = hex_encode(&raw.secret_bytes);
    zeroize_secret(&mut raw.secret_bytes);
    WalletData { address: raw.address, private_key }
}

} // verus!
