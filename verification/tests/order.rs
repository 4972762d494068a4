use grind_test::order::order_by_text;

fn strings(v: &[&str]) -> Vec<String> {
    v.iter().map(|s| s.to_string()).collect()
}

#[test]
fn listings_show_the_newest_first_keeping_ties_in_order() {
    let stamps = strings(&["2026-01-02", "2026-03-01", "2026-01-02", "2025-12-31"]);
    assert_eq!(order_by_text(&stamps, true), vec![1, 0, 2, 3]);
}

#[test]
fn subjects_are_listed_by_id() {
    let ids = strings(&["f3", "cs1", "f10", "cs1"]);
    assert_eq!(order_by_text(&ids, false), vec![1, 3, 2, 0]);
    assert!(order_by_text(&[], false).is_empty());
}

#[test]
fn text_order_is_the_order_of_strings() {
    let words = strings(&["б", "а", "ab", "a", "", "Б"]);
    let order = order_by_text(&words, false);
    let sorted: Vec<&str> = order.iter().map(|&i| words[i].as_str()).collect();
    let mut expected: Vec<&str> = words.iter().map(|s| s.as_str()).collect();
    expected.sort();
    assert_eq!(sorted, expected);
}
