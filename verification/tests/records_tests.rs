use tron_vanity::records::{
    export_content, list_query, matched_indices, parse_json_list, plan_query, progress_event,
    search_query, stored_round_trip, wallet_batch, wallet_from_row, wallet_row, QueryKind, SearchConfig,
    WalletItem, WalletRow,
};

fn wallet(address: &str, matched: bool) -> WalletItem {
    WalletItem {
        id: format!("id-{address}"),
        address: address.to_string(),
        private_key: "00ff".to_string(),
        rule_label: "前缀 · AAAA".to_string(),
        attempts: 42,
        matched,
        matched_parts: vec!["1111".to_string(), "a\"b".to_string()],
        matched_rules: vec!["前缀 · AAAA".to_string()],
        created_at: "2024-01-01T00:00:00+00:00".to_string(),
    }
}

#[test]
fn rows_hold_json_lists() {
    let mut w = wallet("T2", true);
    w.matched_parts = vec!["a".to_string(), "b".to_string()];
    w.matched_rules = vec![];
    let row = wallet_row(&w).unwrap();
    assert_eq!(row.matched_parts, "[\"a\",\"b\"]");
    assert_eq!(row.matched_rules, "[]");
}

#[test]
fn parse_json_list_defaults_to_empty() {
    assert_eq!(parse_json_list("[\"x\",\"y\"]"), vec!["x".to_string(), "y".to_string()]);
    assert!(parse_json_list("not json").is_empty());
    assert!(parse_json_list("[1,2]").is_empty());
    assert!(parse_json_list("").is_empty());
}

#[test]
fn row_of_a_wallet() {
    let w = wallet("T1", true);
    let row = wallet_row(&w).unwrap();
    assert_eq!(row.id, "id-T1");
    assert_eq!(row.matched, 1);
    assert_eq!(row.attempts, 42);
    assert_eq!(row.matched_parts, "[\"1111\",\"a\\\"b\"]");
    assert_eq!(row.matched_rules, "[\"前缀 · AAAA\"]");
}

#[test]
fn wallet_of_a_row() {
    let row = WalletRow {
        id: "i".to_string(),
        address: "a".to_string(),
        private_key: "k".to_string(),
        rule_label: "l".to_string(),
        attempts: 3,
        matched: 0,
        matched_parts: "oops".to_string(),
        matched_rules: "[\"r\"]".to_string(),
        created_at: "t".to_string(),
    };
    let w = wallet_from_row(row);
    assert!(!w.matched);
    assert!(w.matched_parts.is_empty());
    assert_eq!(w.matched_rules, vec!["r".to_string()]);
    assert_eq!(w.attempts, 3);
}

#[test]
fn law_store_then_read_gives_the_wallet_back() {
    let w = wallet("T9", true);
    let back = stored_round_trip(&w);
    assert_eq!(back.id, w.id);
    assert_eq!(back.address, w.address);
    assert_eq!(back.private_key, w.private_key);
    assert_eq!(back.rule_label, w.rule_label);
    assert_eq!(back.attempts, w.attempts);
    assert_eq!(back.matched, w.matched);
    assert_eq!(back.matched_parts, w.matched_parts);
    assert_eq!(back.matched_rules, w.matched_rules);
    assert_eq!(back.created_at, w.created_at);
}

#[test]
fn batch_selection() {
    assert!(wallet_batch(&vec![]).is_none());
    let ws = vec![wallet("a", false), wallet("b", true), wallet("c", false), wallet("d", true)];
    assert_eq!(matched_indices(&ws), vec![1, 3]);
    assert_eq!(wallet_batch(&ws), Some(vec![1, 3, 2, 0]));
    let many: Vec<WalletItem> = (0..50).map(|i| wallet(&i.to_string(), i == 10)).collect();
    let b = wallet_batch(&many).unwrap();
    assert_eq!(b.len(), 40);
    assert_eq!(b[0], 10);
    assert_eq!(b[1], 49);
    assert_eq!(b[39], 11);
}

#[test]
fn law_batch_keeps_every_match() {
    let ws: Vec<WalletItem> = (0..45).map(|i| wallet(&i.to_string(), true)).collect();
    let b = wallet_batch(&ws).unwrap();
    assert_eq!(b, (0..45).collect::<Vec<usize>>());
}

#[test]
fn progress_speed() {
    let e = progress_event("running", 100, 2, 5, 0, Some("T".to_string()));
    assert_eq!(e.speed, 100);
    assert_eq!(e.status, "running");
    assert_eq!(e.latest_address, Some("T".to_string()));
    let e = progress_event("stopped", 105, 2, 5, 10, None);
    assert_eq!(e.speed, 10);
    assert_eq!(e.found_count, 2);
    assert_eq!(e.target_count, 5);
}

#[test]
fn query_plans() {
    let q = plan_query("AbC", 0, None);
    assert!(q.kind == QueryKind::Keyword);
    assert_eq!(q.limit, 1);
    assert_eq!(q.pattern, Some("%abc%".to_string()));
    assert_eq!(q.matched, None);
    let q = plan_query("", 5000, Some(false));
    assert!(q.kind == QueryKind::RecentByFlag);
    assert_eq!(q.limit, 2000);
    assert_eq!(q.matched, Some(0));
    assert_eq!(q.pattern, None);
    let q = plan_query("x", 10, Some(true));
    assert!(q.kind == QueryKind::KeywordByFlag);
    assert_eq!(q.matched, Some(1));
    let q = list_query();
    assert!(q.kind == QueryKind::Recent);
    assert_eq!(q.limit, 500);
}

#[test]
fn search_query_trims_and_defaults() {
    let q = search_query(&SearchConfig { keyword: "  TAb ".to_string(), limit: None, matched_only: None });
    assert_eq!(q.pattern, Some("%tab%".to_string()));
    assert_eq!(q.limit, 500);
    let q = search_query(&SearchConfig { keyword: "   ".to_string(), limit: Some(7), matched_only: Some(true) });
    assert!(q.kind == QueryKind::RecentByFlag);
    assert_eq!(q.limit, 7);
}

#[test]
fn export_lines() {
    let rows = vec![("TA".to_string(), "k1".to_string()), ("TB".to_string(), "k2".to_string())];
    assert_eq!(export_content(&rows), "TA----k1\nTB----k2\n");
    assert_eq!(export_content(&vec![]), "");
}
