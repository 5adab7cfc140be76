use tron_vanity::matching::{
    find_matches, find_pattern_segments, match_at_positions, match_type_label, push_unique, rule_label,
    validate_config, MatchType, RuleConfig,
};
use tron_vanity::pattern::pattern_def;

fn config(types: Vec<MatchType>, ids: &[&str]) -> RuleConfig {
    RuleConfig {
        match_types: types,
        pattern_ids: ids.iter().map(|s| s.to_string()).collect(),
        target_count: 1,
        max_attempts: 0,
        threads: None,
    }
}

#[test]
fn validate_config_errors() {
    let c = config(vec![], &["shape:aaaa"]);
    assert_eq!(validate_config(&c), Err("至少选择一种匹配类型。".to_string()));
    let c = config(vec![MatchType::Prefix], &[]);
    assert_eq!(validate_config(&c), Err("至少选择一种靓号规则。".to_string()));
    let c = config(vec![], &[]);
    assert_eq!(validate_config(&c), Err("至少选择一种匹配类型。".to_string()));
    let c = config(vec![MatchType::Suffix], &["custom:x"]);
    assert_eq!(validate_config(&c), Ok(()));
}

#[test]
fn match_type_labels() {
    assert_eq!(match_type_label(&MatchType::Prefix), "前缀");
    assert_eq!(match_type_label(&MatchType::Suffix), "后缀");
    assert_eq!(match_type_label(&MatchType::Contains), "包含");
}

#[test]
fn push_unique_keeps_first_occurrence() {
    let mut list = vec!["a".to_string()];
    push_unique(&mut list, "b".to_string());
    push_unique(&mut list, "a".to_string());
    push_unique(&mut list, "b".to_string());
    assert_eq!(list, vec!["a".to_string(), "b".to_string()]);
}

#[test]
fn segments_prefix_suffix_contains() {
    let p = pattern_def("shape:aaaa").unwrap();
    let body = "1111x2222y3333";
    assert_eq!(find_pattern_segments(body, &MatchType::Prefix, &p), vec!["1111".to_string()]);
    assert_eq!(find_pattern_segments(body, &MatchType::Suffix, &p), vec!["3333".to_string()]);
    assert_eq!(
        find_pattern_segments(body, &MatchType::Contains, &p),
        vec!["1111".to_string(), "2222".to_string(), "3333".to_string()]
    );
    // too short a body finds nothing anywhere
    assert!(find_pattern_segments("111", &MatchType::Contains, &p).is_empty());
    assert!(find_pattern_segments("111", &MatchType::Suffix, &p).is_empty());
    assert!(find_pattern_segments("111", &MatchType::Prefix, &p).is_empty());
}

#[test]
fn contains_repeats_overlapping_segments() {
    let p = pattern_def("shape:aa").unwrap();
    assert_eq!(
        find_pattern_segments("111", &MatchType::Contains, &p),
        vec!["11".to_string(), "11".to_string()]
    );
}

#[test]
fn match_at_positions_skips_out_of_range() {
    let p = pattern_def("custom:ab").unwrap();
    let chars: Vec<char> = "xabab".chars().collect();
    assert_eq!(
        match_at_positions(&chars, &p, &[1, 3, 4, 9, usize::MAX]),
        vec!["ab".to_string(), "ab".to_string()]
    );
}

#[test]
fn find_matches_strips_t_and_dedups() {
    let c = config(vec![MatchType::Prefix, MatchType::Contains], &["shape:aaaa", "straight:4", "bogus"]);
    let r = find_matches("T1111x1234", &c);
    assert_eq!(r.matched_parts, vec!["1111".to_string(), "1234".to_string()]);
    assert_eq!(
        r.matched_rules,
        vec!["前缀 · AAAA".to_string(), "包含 · AAAA".to_string(), "包含 · 4位顺子".to_string()]
    );
}

#[test]
fn find_matches_without_t_and_without_hits() {
    let c = config(vec![MatchType::Suffix], &["custom:Xy"]);
    let r = find_matches("ABCXy", &c);
    assert_eq!(r.matched_parts, vec!["Xy".to_string()]);
    assert_eq!(r.matched_rules, vec!["后缀 · Xy".to_string()]);
    let r = find_matches("TXyAB", &c);
    assert!(r.matched_parts.is_empty());
    assert!(r.matched_rules.is_empty());
}

#[test]
fn law_contains_covers_prefix_and_suffix_examples() {
    for id in ["shape:aabb", "straight:3", "custom:9z"] {
        let p = pattern_def(id).unwrap();
        for body in ["1122x3344", "345abc543", "9zzz9z", "9z"] {
            let anywhere = find_pattern_segments(body, &MatchType::Contains, &p);
            for t in [MatchType::Prefix, MatchType::Suffix] {
                for seg in find_pattern_segments(body, &t, &p) {
                    assert!(anywhere.contains(&seg));
                }
            }
        }
    }
}

#[test]
fn rule_label_joins_types_and_valid_rules() {
    let c = config(vec![MatchType::Prefix, MatchType::Suffix], &["shape:aabb", "nope", "straight:4", "custom:888"]);
    assert_eq!(rule_label(&c), "前缀 / 后缀 · AABB / 4位顺子 / 888");
    let c = config(vec![], &[]);
    assert_eq!(rule_label(&c), " · ");
}
