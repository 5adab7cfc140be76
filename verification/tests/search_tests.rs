use tron_vanity::address::wallet_from_secret;
use tron_vanity::matching::{MatchType, RuleConfig};
use tron_vanity::records::WalletItem;
use tron_vanity::search::{
    emit_due, evaluate_wallet, flush_due, latest_address, new_wallet_item, publish_due, run_attempt,
    target_reached, thread_count, Attempt, Candidate,
};

fn config(types: Vec<MatchType>, ids: &[&str]) -> RuleConfig {
    RuleConfig {
        match_types: types,
        pattern_ids: ids.iter().map(|s| s.to_string()).collect(),
        target_count: 1,
        max_attempts: 0,
        threads: None,
    }
}

fn secret_one() -> [u8; 32] {
    let mut s = [0u8; 32];
    s[31] = 1;
    s
}

#[test]
fn thread_counts() {
    assert_eq!(thread_count(None, 8), 1);
    assert_eq!(thread_count(Some(0), 8), 1);
    assert_eq!(thread_count(Some(3), 8), 3);
    assert_eq!(thread_count(Some(100), 8), 8);
}

#[test]
fn worker_and_monitor_decisions() {
    assert!(publish_due(64, 0, false));
    assert!(!publish_due(63, 99, false));
    assert!(publish_due(0, 100, false));
    assert!(publish_due(0, 0, true));
    assert!(!target_reached(0, 1000));
    assert!(!target_reached(3, 2));
    assert!(target_reached(3, 3));
    assert!(emit_due(true, 0));
    assert!(!emit_due(false, 149));
    assert!(emit_due(false, 150));
    assert!(!flush_due(true, 0, 0));
    assert!(flush_due(true, 0, 1));
    assert!(!flush_due(false, 599, 5));
    assert!(flush_due(false, 600, 5));
}

#[test]
fn latest_address_prefers_batch() {
    let w = new_wallet_item(
        tron_vanity::address::WalletData { address: "TX".to_string(), private_key: "k".to_string() },
        tron_vanity::matching::MatchResult { matched_parts: vec![], matched_rules: vec![] },
        &"l".to_string(),
        1,
    );
    let batch: Vec<WalletItem> = vec![w];
    assert_eq!(latest_address(&batch, Some("TY".to_string())), Some("TX".to_string()));
    assert_eq!(latest_address(&vec![], Some("TY".to_string())), Some("TY".to_string()));
    assert_eq!(latest_address(&vec![], None), None);
}

#[test]
fn evaluate_known_wallet() {
    // TMVQGm1qAQYVdetCeGRRkTWYYrLXuHK2HC: body "MVQG..." starts with "MVQ"
    let hit = config(vec![MatchType::Prefix], &["custom:MVQ"]);
    match evaluate_wallet(wallet_from_secret(secret_one()).unwrap(), &hit) {
        Candidate::Matched(data, m) => {
            assert_eq!(data.address, "TMVQGm1qAQYVdetCeGRRkTWYYrLXuHK2HC");
            assert_eq!(data.private_key, "0000000000000000000000000000000000000000000000000000000000000001");
            assert_eq!(m.matched_parts, vec!["MVQ".to_string()]);
            assert_eq!(m.matched_rules, vec!["前缀 · MVQ".to_string()]);
        }
        Candidate::Missed(_) => panic!("expected a match"),
    }
    let miss = config(vec![MatchType::Suffix], &["custom:MVQ"]);
    match evaluate_wallet(wallet_from_secret(secret_one()).unwrap(), &miss) {
        Candidate::Missed(a) => assert_eq!(a, "TMVQGm1qAQYVdetCeGRRkTWYYrLXuHK2HC"),
        Candidate::Matched(..) => panic!("expected a miss"),
    }
}

#[test]
fn new_items_are_matched_records() {
    let w = new_wallet_item(
        tron_vanity::address::WalletData { address: "TX".to_string(), private_key: "k".to_string() },
        tron_vanity::matching::MatchResult { matched_parts: vec!["1".to_string()], matched_rules: vec!["r".to_string()] },
        &"label".to_string(),
        7,
    );
    assert!(w.matched);
    assert_eq!(w.attempts, 7);
    assert_eq!(w.id.len(), 36);
    let id: Vec<char> = w.id.chars().collect();
    for (i, c) in id.iter().enumerate() {
        if [8, 13, 18, 23].contains(&i) {
            assert_eq!(*c, '-');
        } else {
            assert!(c.is_ascii_digit() || ('a'..='f').contains(c));
        }
    }
    assert_eq!(id[14], '4');
    assert!(['8', '9', 'a', 'b'].contains(&id[19]));
    assert_eq!(w.rule_label, "label");
    let t: Vec<char> = w.created_at.chars().collect();
    assert!(w.created_at.ends_with("+00:00"));
    assert_eq!(t[4], '-');
    assert_eq!(t[7], '-');
    assert_eq!(t[10], 'T');
    assert_eq!(t[13], ':');
    assert_eq!(t[16], ':');
    let fraction = t.len() - 25;
    assert!([0, 4, 7, 10].contains(&fraction));
    if fraction > 0 {
        assert_eq!(t[19], '.');
    }
}

#[test]
fn attempts_find_with_an_always_matching_rule() {
    // every body has a first character, so a one-character shape matches at the start
    let c = config(vec![MatchType::Prefix], &["shape:a"]);
    match run_attempt(&c, &"lbl".to_string(), 5) {
        Attempt::Found(w) => {
            assert_eq!(w.attempts, 5);
            assert_eq!(w.id.len(), 36);
            assert_eq!(w.address.len(), 34);
            assert!(w.address.starts_with('T'));
            assert_eq!(w.private_key.len(), 64);
            let secret: Vec<u8> = (0..32).map(|i| u8::from_str_radix(&w.private_key[2 * i..2 * i + 2], 16).unwrap()).collect();
            let mut s = [0u8; 32];
            s.copy_from_slice(&secret);
            assert_eq!(wallet_from_secret(s).unwrap().address, w.address);
            assert_eq!(w.matched_parts.len(), 1);
        }
        Attempt::Missed(_) => panic!("a one-character shape always matches"),
    }
    let never = config(vec![MatchType::Prefix], &["custom:0"]);
    match run_attempt(&never, &"lbl".to_string(), 6) {
        Attempt::Missed(a) => assert!(a.starts_with('T')),
        Attempt::Found(_) => panic!("'0' is not in the Base58 alphabet"),
    }
}
