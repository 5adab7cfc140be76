use tron_vanity::pattern::{parse_usize, pattern_def, pattern_matches, PatternKind};

#[test]
fn pattern_def_shape() {
    let p = pattern_def("shape:aabb").unwrap();
    assert_eq!(p.label, "AABB");
    match &p.kind {
        PatternKind::Shape(s) => assert_eq!(s, "aabb"),
        _ => panic!("expected a shape"),
    }
    assert_eq!(p.lengths(), vec![4]);
    assert_eq!(p.max_len(), 4);
}

#[test]
fn pattern_def_straight() {
    let p = pattern_def("straight:4").unwrap();
    assert_eq!(p.label, "4位顺子");
    match p.kind {
        PatternKind::Straight(n) => assert_eq!(n, 4),
        _ => panic!("expected a straight"),
    }
    assert_eq!(pattern_def("straight:10").unwrap().label, "10位顺子");
    assert!(pattern_def("straight:+3").is_some());
    assert!(pattern_def("straight:1").is_none());
    assert!(pattern_def("straight:11").is_none());
    assert!(pattern_def("straight:").is_none());
    assert!(pattern_def("straight:x").is_none());
    assert!(pattern_def("straight:-3").is_none());
}

#[test]
fn pattern_def_custom() {
    let p = pattern_def("custom:888").unwrap();
    assert_eq!(p.label, "888");
    match &p.kind {
        PatternKind::Exact(v) => assert_eq!(v, "888"),
        _ => panic!("expected a custom text"),
    }
    assert!(pattern_def("custom:").is_none());
    assert!(pattern_def("custom:123456789012345678901").is_none());
    assert!(pattern_def("custom:12345678901234567890").is_some());
}

#[test]
fn pattern_def_rejects_unknown_and_limits() {
    assert!(pattern_def("").is_none());
    assert!(pattern_def("aabb").is_none());
    assert!(pattern_def("Shape:aabb").is_none());
    assert!(pattern_def("shape:").is_none());
    // 7 characters, 21 bytes
    assert!(pattern_def("shape:中中中中中中中").is_none());
    // 6 characters, 18 bytes
    let p = pattern_def("shape:中中中中中中").unwrap();
    assert_eq!(p.lengths(), vec![18]);
}

#[test]
fn pattern_lengths_per_kind() {
    assert_eq!(pattern_def("custom:中文").unwrap().lengths(), vec![2]);
    assert_eq!(pattern_def("straight:6").unwrap().max_len(), 6);
}

#[test]
fn parse_usize_examples() {
    assert_eq!(parse_usize("0"), Some(0));
    assert_eq!(parse_usize("007"), Some(7));
    assert_eq!(parse_usize("+12"), Some(12));
    assert_eq!(parse_usize("+"), None);
    assert_eq!(parse_usize(""), None);
    assert_eq!(parse_usize(" 1"), None);
    assert_eq!(parse_usize("18446744073709551615"), Some(usize::MAX));
    assert_eq!(parse_usize("18446744073709551616"), None);
    assert_eq!(parse_usize("99999999999999999999999"), None);
}

#[test]
fn pattern_matches_per_kind() {
    let shape = pattern_def("shape:abab").unwrap();
    assert!(pattern_matches("7878", &shape));
    assert!(!pattern_matches("7887", &shape));
    let straight = pattern_def("straight:3").unwrap();
    assert!(pattern_matches("789", &straight));
    assert!(!pattern_matches("790", &straight));
    let exact = pattern_def("custom:Ab").unwrap();
    assert!(pattern_matches("Ab", &exact));
    assert!(!pattern_matches("ab", &exact));
}
