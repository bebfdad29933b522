//! Sorted maps and texts.

use tutui::config::{config_names, default_chart_window, is_config};
use tutui::slug::slug;
use tutui::sorted::{Duplicate, SortedMap};
use tutui::text::{after_last, decimal_text, filled_text, join_text, padded_decimal, starts_with};

#[test]
fn keys_are_walked_in_order() {
    let mut m: SortedMap<u64> = SortedMap::new();
    for (k, v) in [("b", 2), ("ä", 4), ("a", 1), ("ab", 3), ("b", 5)] {
        m.put(k.to_string(), v);
    }
    let entries: Vec<(String, u64)> = (0..m.len()).map(|i| (m.key(i).clone(), *m.value(i))).collect();
    assert_eq!(
        entries,
        vec![("a".to_string(), 1), ("ab".to_string(), 3), ("b".to_string(), 5), ("ä".to_string(), 4)]
    );
    assert_eq!(m.get("b"), Some(&5));
    assert_eq!(m.get("c"), None);
    assert!(m.contains_key("ab") && !m.contains_key(""));
    let copy = m.duplicate();
    assert_eq!(copy.len(), 4);
    assert_eq!(copy.get("ä"), Some(&4));
    assert_eq!(m.clone().get("ab"), Some(&3));
}

#[test]
fn the_order_is_that_of_code_points() {
    let mut m: SortedMap<u64> = SortedMap::new();
    for k in ["z", "Z", "é", "\u{10000}", "\u{ffff}", "10", "9", ""] {
        m.put(k.to_string(), 0);
    }
    let keys: Vec<String> = (0..m.len()).map(|i| m.key(i).clone()).collect();
    let mut expected: Vec<String> = keys.clone();
    expected.sort();
    assert_eq!(keys, expected);
}

#[test]
fn small_texts() {
    assert_eq!(decimal_text(0), "0");
    assert_eq!(decimal_text(u64::MAX), "18446744073709551615");
    assert_eq!(padded_decimal(7, 2, '0'), "07");
    assert_eq!(padded_decimal(123, 2, '0'), "123");
    assert_eq!(padded_decimal(42, 5, ' '), "   42");
    assert_eq!(filled_text("ab", 4), "ab  ");
    assert_eq!(filled_text("äöü", 2), "äöü");
    assert!(starts_with("setup-1", "setup") && starts_with("x", "") && !starts_with("set", "setup"));
    assert_eq!(after_last("status=200", '='), "200");
    assert_eq!(after_last("a=b=c", '='), "c");
    assert_eq!(after_last("plain", '='), "plain");
    assert_eq!(after_last("ends=", '='), "");
    assert_eq!(join_text(&vec!["a".to_string(), "b".to_string(), "c".to_string()], ", "), "a, b, c");
    assert_eq!(join_text(&vec![], ", "), "");
}

#[test]
fn slugs_are_lower_case_words() {
    assert_eq!(slug("Checkout Ramp (v2)"), "checkout-ramp-v2");
    assert_eq!(slug("--a__B--"), "a-b");
    assert_eq!(slug("Ärger 1"), "rger-1");
    assert_eq!(slug("!!!"), "");
    assert_eq!(slug(""), "");
    for name in ["Checkout Ramp (v2)", "a  b", "x-1-y", "Ünï cödé 9"] {
        let once = slug(name);
        assert_eq!(slug(&once), once);
    }
}

#[test]
fn configs_are_the_json_files_sorted_by_name() {
    let names: Vec<String> =
        ["b.json", "a.txt", "a.json", ".json", "c.JSON", "json", "10.json", "9.json", "x.json.bak"].iter().map(|s| s.to_string()).collect();
    assert_eq!(config_names(&names), vec!["10.json", "9.json", "a.json", "b.json"]);
    assert!(is_config("..json"));
    assert!(!is_config(".json"));
    assert!(config_names(&vec![]).is_empty());
    assert_eq!(default_chart_window(), 120);
}
