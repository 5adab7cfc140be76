use tron_vanity::shape::{is_straight, shape_matches};

#[test]
fn test_shape_aabb() {
    assert!(shape_matches("1122", "aabb"));
    assert!(shape_matches("9933", "aabb"));
    assert!(shape_matches("5577", "aabb"));
    assert!(!shape_matches("1111", "aabb"));
    assert!(!shape_matches("1221", "aabb"));
    assert!(!shape_matches("1234", "aabb"));
}

#[test]
fn test_shape_aaaa() {
    assert!(shape_matches("1111", "aaaa"));
    assert!(shape_matches("AAAA", "aaaa"));
    assert!(!shape_matches("1112", "aaaa"));
}

#[test]
fn test_shape_aaa() {
    assert!(shape_matches("111", "aaa"));
    assert!(shape_matches("ZZZ", "aaa"));
    assert!(!shape_matches("112", "aaa"));
}

#[test]
fn test_shape_abab() {
    assert!(shape_matches("1212", "abab"));
    assert!(shape_matches("3131", "abab"));
    assert!(!shape_matches("1111", "abab"));
    assert!(!shape_matches("1234", "abab"));
}

#[test]
fn test_shape_abcd() {
    assert!(shape_matches("1234", "abcd"));
    assert!(shape_matches("9876", "abcd"));
    assert!(!shape_matches("1132", "abcd"));
}

#[test]
fn test_shape_base58_chars() {
    assert!(shape_matches("AABB", "aabb"));
    assert!(shape_matches("xxyy", "aabb"));
}

#[test]
fn shape_length_mismatch_is_rejected() {
    assert!(!shape_matches("112", "aabb"));
    assert!(!shape_matches("11222", "aabb"));
    assert!(shape_matches("", ""));
}

#[test]
fn shape_order_must_hold_throughout() {
    // a < b < c needs the characters in one direction all the way
    assert!(shape_matches("135", "abc"));
    assert!(shape_matches("531", "abc"));
    assert!(!shape_matches("153", "abc"));
    assert!(!shape_matches("315", "abc"));
    // the letters' order counts, not their names
    assert!(shape_matches("1221", "abba"));
    assert!(shape_matches("2112", "abba"));
    assert!(shape_matches("9119", "baab"));
}

#[test]
fn shape_law_symmetric_on_examples() {
    let pairs = [("1221", "abba"), ("1122", "aabb"), ("1221", "aabb"), ("153", "abc"), ("xyyx", "1221")];
    for (a, b) in pairs {
        assert_eq!(shape_matches(a, b), shape_matches(b, a));
    }
}

#[test]
fn shape_law_reflexive_on_examples() {
    for s in ["", "a", "1212", "TXYZ", "zzzz", "9a8b"] {
        assert!(shape_matches(s, s));
    }
}

#[test]
fn straight_examples() {
    assert!(is_straight("1234", 4));
    assert!(is_straight("4321", 4));
    assert!(is_straight("0123456789", 10));
    assert!(!is_straight("1235", 4));
    assert!(!is_straight("12a4", 4));
    assert!(!is_straight("123", 4));
    assert!(!is_straight("1234", 3));
    assert!(!is_straight("1232", 4));
    assert!(is_straight("7", 1));
}

#[test]
fn straight_law_reversed_on_examples() {
    for s in ["12", "345", "6789", "98765"] {
        let rev: String = s.chars().rev().collect();
        assert!(is_straight(s, s.len()));
        assert!(is_straight(&rev, rev.len()));
    }
}

#[test]
fn shape_law_transitive_on_examples() {
    let words = ["1221", "abba", "9339", "xyyx", "2112", "1122", "aabb"];
    for a in words {
        for b in words {
            for c in words {
                if shape_matches(a, b) && shape_matches(b, c) {
                    assert!(shape_matches(a, c));
                }
            }
        }
    }
}
