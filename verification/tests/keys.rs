use config_kit::keys::{sort_unique, text_lt};

#[test]
fn sort_unique_orders_and_dedups() {
    let keys: Vec<String> = ["b", "a", "b", "ab", "", "B", "é", "a"].iter().map(|s| s.to_string()).collect();
    let mut expected = keys.clone();
    expected.sort_unstable();
    expected.dedup();
    assert_eq!(sort_unique(&keys), expected);
    assert!(sort_unique(&Vec::new()).is_empty());
}

#[test]
fn text_order_matches_string_order() {
    let samples = ["", "a", "ab", "b", "B", "é", "z", "aé", "a\u{10000}", "a\u{ffff}"];
    for a in samples {
        for b in samples {
            assert_eq!(text_lt(a, b), a < b, "{a:?} {b:?}");
        }
    }
}
