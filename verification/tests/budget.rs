use astrolabe_core::budget::{estimate_tokens, truncate_ranked, TokenBudget};

#[test]
fn budget_refuses_overflow_without_charging() {
    let mut b = TokenBudget::new(10);
    assert!(b.try_add("12345678"));
    let before = b.remaining();
    assert!(!b.try_add(&"x".repeat(100)));
    assert_eq!(b.remaining(), before);
}

#[test]
fn ranked_truncation_drops_whole_tail_items() {
    let items = ["1111", "22222222", "3"];
    let (kept, omitted) = truncate_ranked(&items, 2, |item| item.to_string());

    assert_eq!(kept, vec![&"1111"]);
    assert_eq!(omitted, 2);
}

#[test]
fn zero_budget_is_safe_and_reports_all_nonempty_items_omitted() {
    let items = ["first", "second"];
    let (kept, omitted) = truncate_ranked(&items, 0, |item| item.to_string());

    assert!(kept.is_empty());
    assert_eq!(omitted, items.len());
}

#[test]
fn estimator_counts_characters_not_utf8_bytes() {
    assert_eq!(estimate_tokens("中文😀a"), 1);
}

#[test]
fn a_token_is_begun_by_its_first_character() {
    assert_eq!(estimate_tokens(""), 0);
    assert_eq!(estimate_tokens("a"), 1);
    assert_eq!(estimate_tokens("abcd"), 1);
    assert_eq!(estimate_tokens("abcde"), 2);
}

#[test]
fn a_larger_budget_keeps_at_least_as_much() {
    let items = ["1111", "22222222", "3"];
    for limit in 0..6 {
        let (few, _) = truncate_ranked(&items, limit, |item| item.to_string());
        let (more, _) = truncate_ranked(&items, limit + 1, |item| item.to_string());
        assert!(few.len() <= more.len());
        assert_eq!(few[..], more[..few.len()]);
    }
}

#[test]
fn a_budget_says_what_would_exceed_it() {
    let mut b = TokenBudget::new(2);
    assert!(!b.would_exceed("12345678"));
    assert!(b.would_exceed("123456789"));
    assert!(b.try_add("1234"));
    assert_eq!(b.remaining(), 1);
    assert!(b.would_exceed("12345"));
}
