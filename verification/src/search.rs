//! The decisions of a running search: how many workers, what one attempt
//! yields, when a worker hands its finds on, when the search stops, and when
//! progress is reported and finds are stored.
use vstd::prelude::*;
use crate::address::{create_wallet_fast, finalize_wallet, hex_text, secp256k1_public_key, spec_tron_address, RawWallet, WalletData};
use crate::matching::{address_body, all_hits, distinct_in_order, find_matches, hit_parts, hit_rules, MatchResult, RuleConfig};
use crate::records::WalletItem;
use crate::shape::is_digit;

verus! {

/// The distinct segments of an address that the configuration's rules match.
pub open spec fn spec_matched_parts(address: Seq<char>, config: RuleConfig) -> Seq<Seq<char>> {
    distinct_in_order(
        hit_parts(all_hits(address_body(address), config.match_types@, config.pattern_ids.deep_view())),
    )
}

/// The distinct rules of the configuration that match an address.
pub open spec fn spec_matched_rules(address: Seq<char>, config: RuleConfig) -> Seq<Seq<char>> {
    distinct_in_order(
        hit_rules(all_hits(address_body(address), config.match_types@, config.pattern_ids.deep_view())),
    )
}

/// `value` clamped to `lo..=hi`.
pub open spec fn clamp_to(value: int, lo: int, hi: int) -> int {
    if value < lo {
        lo
    } else if value > hi {
        hi
    } else {
        value
    }
}

/// The number of workers: the requested number (one if none) clamped to
/// 1..=available.
pub fn thread_count(requested: Option<usize>, available: usize) -> (r: usize)
    requires
        available >= 1,
    ensures
        r as int == clamp_to(
            match requested {
                Some(n) => n as int,
                None => 1,
            },
            1,
            available as int,
        ),
{
    let n = match requested {
        Some(n) => n,
        None => 1,
    };
    if n < 1 {
        1
    } else if n > available {
        available
    } else {
        n
    }
}

/// How many finds a worker collects before handing them on.
pub const PUBLISH_BATCH: usize = 64;

/// How long a worker keeps finds before handing them on, in milliseconds.
pub const PUBLISH_INTERVAL_MS: u64 = 100;

/// A worker hands its collected finds on after a match, after 64 finds, or
/// 100 ms after it last did.
pub fn publish_due(pending: usize, since_publish_ms: u64, matched: bool) -> (r: bool)
    ensures
        r == (pending >= 64 || since_publish_ms >= 100 || matched),
{
    pending >= PUBLISH_BATCH || since_publish_ms >= PUBLISH_INTERVAL_MS || matched
}

/// The search stops once a nonzero target of finds is reached.
pub fn target_reached(target_count: u32, found: u32) -> (r: bool)
    ensures
        r == (target_count > 0 && found >= target_count),
{
    target_count > 0 && found >= target_count
}

/// How often progress is reported, in milliseconds.
pub const EMIT_INTERVAL_MS: u64 = 150;

/// How often finds are stored, in milliseconds.
pub const FLUSH_INTERVAL_MS: u64 = 600;

/// Progress is reported once the search stopped or 150 ms after the last report.
pub fn emit_due(stopped: bool, since_emit_ms: u64) -> (r: bool)
    ensures
        r == (stopped || since_emit_ms >= 150),
{
    stopped || since_emit_ms >= EMIT_INTERVAL_MS
}

/// Buffered finds are stored once the search stopped or 600 ms after the
/// last store, if there are any.
pub fn flush_due(stopped: bool, since_flush_ms: u64, buffered: usize) -> (r: bool)
    ensures
        r == ((stopped || since_flush_ms >= 600) && buffered > 0),
{
    (stopped || since_flush_ms >= FLUSH_INTERVAL_MS) && buffered > 0
}

/// The address a progress report shows: that of the last find in the batch,
/// else the last address tried.
pub fn latest_address(batch: &Vec<WalletItem>, last_tried: Option<String>) -> (r: Option<String>)
    ensures
        batch@.len() > 0 ==> (r matches Some(a) && a@ == batch@[batch@.len() - 1].address@),
        batch@.len() == 0 ==> r == last_tried,
{
    if batch.len() > 0 {
        Some(batch[batch.len() - 1].address.clone())
    } else {
        last_tried
    }
}

/// A generated wallet after its address was checked.
pub enum Candidate {
    /// The address matched: the wallet with its secret in hex, and the match.
    Matched(WalletData, MatchResult),
    /// No rule matched; the address alone is kept.
    Missed(String),
}

/// Checks a generated wallet against the configuration; the secret is
/// turned into hex only when the address matches, and wiped otherwise.
pub fn evaluate_wallet(raw: RawWallet, config: &RuleConfig) -> (r: Candidate)
    ensures
        match r {
            Candidate::Matched(data, m) => {
                &&& spec_matched_parts(raw.address@, *config).len() > 0
                &&& data.address@ == raw.address@
                &&& data.private_key@ == hex_text(raw.secret_bytes@)
                &&& m.matched_parts.deep_view() == spec_matched_parts(raw.address@, *config)
                &&& m.matched_rules.deep_view() == spec_matched_rules(raw.address@, *config)
            },
            Candidate::Missed(address) => {
                &&& spec_matched_parts(raw.address@, *config).len() == 0
                &&& address@ == raw.address@
            },
        },
{
    let match_result = find_matches(raw.address.as_str(), config);
    if match_result.matched_parts.len() > 0 {
        let data = finalize_wallet(raw);
        Candidate::Matched(data, match_result)
    } else {
        let mut raw = raw;
        let address = raw.address.clone();
        crate::address::wipe_secret(&mut raw);
        Candidate::Missed(address)
    }
}

/// A lowercase hexadecimal digit.
pub open spec fn is_lower_hex(c: char) -> bool {
    is_digit(c) || (97 <= (c as int) <= 102)
}

/// The text of a random (version 4, RFC 4122 variant) UUID in hyphenated
/// form: 8-4-4-4-12 lowercase hexadecimal digits, the version digit '4'
/// at position 14 and a variant digit from '8', '9', 'a', 'b' at position 19.
pub open spec fn uuid_v4_text(t: Seq<char>) -> bool {
    &&& t.len() == 36
    &&& forall|i: int|
        0 <= i < 36 ==> if i == 8 || i == 13 || i == 18 || i == 23 {
            #[trigger] t[i] == '-'
        } else {
            is_lower_hex(t[i])
        }
    &&& t[14] == '4'
    &&& (t[19] == '8' || t[19] == '9' || t[19] == 'a' || t[19] == 'b')
}

/// Calls `uuid::Uuid::new_v4().to_string()`: a random id. Whatever the
/// random bits, `new_v4` sets the version and variant bits and `to_string`
/// writes the hyphenated lowercase form.
#[verifier::external_body]
fn new_wallet_id() -> (r: String)
    ensures
        uuid_v4_text(r@),
{
    uuid::Uuid::new_v4().to_string()
}

/// Every character is an ASCII digit.
pub open spec fn ascii_digits(t: Seq<char>) -> bool {
    forall|i: int| 0 <= i < t.len() ==> is_digit(#[trigger] t[i])
}

/// A year as `to_rfc3339` writes it: four digits, or a sign followed by at
/// least four digits for years outside 0 to 9999.
pub open spec fn rfc3339_year(y: Seq<char>) -> bool {
    ||| y.len() == 4 && ascii_digits(y)
    ||| y.len() >= 5 && (y[0] == '+' || y[0] == '-') && ascii_digits(y.drop_first())
}

/// "-MM-DDTHH:MM:SS" with two digits in each field.
pub open spec fn rfc3339_date_rest_and_time(t: Seq<char>) -> bool {
    &&& t.len() == 15
    &&& t[0] == '-' && t[3] == '-' && t[6] == 'T' && t[9] == ':' && t[12] == ':'
    &&& is_digit(t[1]) && is_digit(t[2]) && is_digit(t[4]) && is_digit(t[5])
    &&& is_digit(t[7]) && is_digit(t[8]) && is_digit(t[10]) && is_digit(t[11])
    &&& is_digit(t[13]) && is_digit(t[14])
}

/// The fraction of a second: none, or a point and 3, 6 or 9 digits.
pub open spec fn rfc3339_fraction(f: Seq<char>) -> bool {
    ||| f.len() == 0
    ||| (f.len() == 4 || f.len() == 7 || f.len() == 10) && f[0] == '.' && ascii_digits(f.drop_first())
}

/// A UTC time as `to_rfc3339` writes it:
/// YYYY-MM-DDTHH:MM:SS[.fraction]+00:00.
pub open spec fn utc_rfc3339_text(t: Seq<char>) -> bool {
    exists|y: Seq<char>, dt: Seq<char>, f: Seq<char>|
        #![trigger rfc3339_year(y), rfc3339_date_rest_and_time(dt), rfc3339_fraction(f)]
        rfc3339_year(y) && rfc3339_date_rest_and_time(dt) && rfc3339_fraction(f) && t == y + dt + f
            + "+00:00"@
}

/// Calls `chrono::Utc::now().to_rfc3339()`. The time is not stated; the
/// text has the form chrono's `write_rfc3339` gives it: the year, two-digit
/// month, day, hour, minute and second, the fraction of a second when it is
/// not zero (3, 6 or 9 digits), and "+00:00" for the zero offset.
#[verifier::external_body]
fn timestamp_now() -> (r: String)
    ensures
        utc_rfc3339_text(r@),
{
    chrono::Utc::now().to_rfc3339()
}

/// The record of a find: a fresh id, the time now, and the given fields.
pub fn new_wallet_item(data: WalletData, result: MatchResult, rule_label: &String, attempts: u64) -> (r:
    WalletItem)
    ensures
        r.address@ == data.address@,
        r.private_key@ == data.private_key@,
        r.rule_label@ == rule_label@,
        r.attempts == attempts,
        r.matched,
        r.matched_parts.deep_view() == result.matched_parts.deep_view(),
        r.matched_rules.deep_view() == result.matched_rules.deep_view(),
        uuid_v4_text(r.id@),
        utc_rfc3339_text(r.created_at@),
{
    WalletItem {
        id: new_wallet_id(),
        address: data.address,
        private_key: data.private_key,
        rule_label: rule_label.clone(),
        attempts,
        matched: true,
        matched_parts: result.matched_parts,
        matched_rules: result.matched_rules,
        created_at: timestamp_now(),
    }
}

/// What one attempt of a worker yields.
pub enum Attempt {
    /// A matching wallet, ready to be recorded.
    Found(WalletItem),
    /// The address of a wallet that matched nothing.
    Missed(String),
}

/// One attempt: a fresh random wallet, checked against the configuration.
/// Whatever the random key, a find is a matching address of a valid key whose
/// secret it carries in hex, and a miss is an address that matches nothing.
pub fn run_attempt(config: &RuleConfig, rule_label: &String, attempt_number: u64) -> (r: Attempt)
    ensures
        match r {
            Attempt::Found(w) => {
                &&& w.matched
                &&& uuid_v4_text(w.id@)
                &&& utc_rfc3339_text(w.created_at@)
                &&& w.address@.len() == 34
                &&& w.address@[0] == 'T'
                &&& w.attempts == attempt_number
                &&& w.rule_label@ == rule_label@
                &&& w.matched_parts.deep_view() == spec_matched_parts(w.address@, *config)
                &&& w.matched_rules.deep_view() == spec_matched_rules(w.address@, *config)
                &&& w.matched_parts@.len() > 0
                &&& exists|secret: Seq<u8>|
                    #![trigger secp256k1_public_key(secret)]
                    secp256k1_public_key(secret) matches Some(pk) && w.address@ == spec_tron_address(
                        pk,
                    ) && w.private_key@ == hex_text(secret)
            },
            Attempt::Missed(address) => {
                &&& spec_matched_parts(address@, *config).len() == 0
                &&& address@.len() == 34
                &&& address@[0] == 'T'
                &&& exists|secret: Seq<u8>|
                    #![trigger secp256k1_public_key(secret)]
                    secp256k1_public_key(secret) matches Some(pk) && address@ == spec_tron_address(pk)
            },
        },
{
    let raw = create_wallet_fast();
    let ghost secret = raw.secret_bytes@;
    let ghost address = raw.address@;
    match evaluate_wallet(raw, config) {
        Candidate::Matched(data, m) => {
            let w = new_wallet_item(data, m, rule_label, attempt_number);
            assert(secp256k1_public_key(secret) is Some);
            Attempt::Found(w)
        },
        Candidate::Missed(a) => {
            assert(secp256k1_public_key(secret) is Some);
            Attempt::Missed(a)
        },
    }
}

} // verus!
