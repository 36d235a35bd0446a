use card_ledger::card::{AtomicCard, Card};
use card_ledger::decimal::u64_to_string;
use card_ledger::error::LedgerError;

fn izzet_charm() -> AtomicCard {
    AtomicCard::new(
        "Izzet Charm".to_string(),
        vec!["RNA".to_string(), "DDJ".to_string()],
        vec!["Instant".to_string()],
    )
    .unwrap()
}

fn wildcard() -> Card {
    card_ledger::card::new(izzet_charm(), String::new()).unwrap()
}

fn printed(code: &str) -> Card {
    card_ledger::card::new(izzet_charm(), code.to_string()).unwrap()
}

#[test]
fn atomic_card_rejects_empty_name() {
    let r = AtomicCard::new(String::new(), vec!["RNA".to_string()], vec![]);
    assert!(matches!(r, Err(LedgerError::InvalidCard)));
}

#[test]
fn card_new_rejects_unknown_printing() {
    let r = card_ledger::card::new(izzet_charm(), "M20".to_string());
    assert!(matches!(r, Err(LedgerError::UnknownPrinting)));
}

#[test]
fn card_new_accepts_listed_printing_and_wildcard() {
    assert!(card_ledger::card::new(izzet_charm(), "RNA".to_string()).is_ok());
    assert!(card_ledger::card::new(izzet_charm(), String::new()).is_ok());
}

#[test]
fn matches_is_wildcard_aware() {
    assert!(wildcard().matches(&wildcard()));
    assert!(wildcard().matches(&printed("RNA")));
    assert!(printed("RNA").matches(&wildcard()));
    assert!(printed("RNA").matches(&printed("RNA")));
    assert!(!printed("RNA").matches(&printed("DDJ")));
}

#[test]
fn matches_requires_same_name() {
    let other = AtomicCard::new(
        "Opt".to_string(),
        vec!["RNA".to_string()],
        vec!["Instant".to_string()],
    )
    .unwrap();
    let other_card = card_ledger::card::new(other, String::new()).unwrap();
    assert!(!wildcard().matches(&other_card));
}

#[test]
fn same_identity_needs_name_and_printing_to_agree() {
    assert!(printed("RNA").same_identity(&printed("RNA")));
    assert!(!printed("RNA").same_identity(&printed("DDJ")));
    assert!(!printed("RNA").same_identity(&wildcard()));
    assert!(wildcard().same_identity(&wildcard()));
}

#[test]
fn card_to_string_brackets_the_printing() {
    assert_eq!(wildcard().to_string(), "Izzet Charm");
    assert_eq!(printed("RNA").to_string(), "Izzet Charm [RNA]");
}

#[test]
fn entry_to_string_leads_with_the_count() {
    let e = card_ledger::card_entry::new(3, printed("RNA"));
    assert_eq!(e.to_string(), "3 Izzet Charm [RNA]");
}

#[test]
fn decimal_renders_exactly() {
    assert_eq!(u64_to_string(0), "0");
    assert_eq!(u64_to_string(7), "7");
    assert_eq!(u64_to_string(10), "10");
    assert_eq!(u64_to_string(905), "905");
    assert_eq!(u64_to_string(u64::MAX), "18446744073709551615");
}

#[test]
fn inc_then_dec_restores_the_count() {
    let mut e = card_ledger::card_entry::new(4, wildcard());
    assert!(e.inc_count(9).is_ok());
    assert_eq!(e.count, 13);
    assert_eq!(e.dec_count(9), 9);
    assert_eq!(e.count, 4);
}

#[test]
fn dec_clamps_at_zero_and_reports_the_applied_delta() {
    let mut e = card_ledger::card_entry::new(3, wildcard());
    assert_eq!(e.dec_count(5), 3);
    assert_eq!(e.count, 0);
    let mut f = card_ledger::card_entry::new(3, wildcard());
    assert_eq!(f.dec_count(0), 0);
    assert_eq!(f.count, 3);
}

#[test]
fn inc_refuses_overflow_and_keeps_the_count() {
    let mut e = card_ledger::card_entry::new(u64::MAX - 1, wildcard());
    assert!(matches!(e.inc_count(2), Err(LedgerError::InvalidQuantity)));
    assert_eq!(e.count, u64::MAX - 1);
    assert!(e.inc_count(1).is_ok());
    assert_eq!(e.count, u64::MAX);
}

#[test]
fn update_count_overwrites() {
    let mut e = card_ledger::card_entry::new(3, wildcard());
    e.update_count(11);
    assert_eq!(e.count, 11);
}

#[test]
fn add_three_wildcard_copies() {
    let mut t = card_ledger::tradelist::new();
    assert!(t.add_card(3, wildcard()).is_ok());
    assert_eq!(t.count_of(&wildcard()), 3);
    assert_eq!(t.to_string(), "3 Izzet Charm\n");
}

#[test]
fn add_a_second_printing_makes_a_second_entry() {
    let mut t = card_ledger::tradelist::new();
    assert!(t.add_card(3, wildcard()).is_ok());
    assert!(t.add_card(2, printed("RNA")).is_ok());
    assert_eq!(t.count_of(&wildcard()), 3);
    assert_eq!(t.count_of(&printed("RNA")), 2);
    assert_eq!(t.to_string(), "3 Izzet Charm\n2 Izzet Charm [RNA]\n");
}

#[test]
fn remove_clamps_prunes_the_entry_and_spares_the_other_printing() {
    let mut t = card_ledger::tradelist::new();
    assert!(t.add_card(3, wildcard()).is_ok());
    assert!(t.add_card(2, printed("RNA")).is_ok());
    assert_eq!(t.remove_card(5, wildcard()), 3);
    assert_eq!(t.count_of(&wildcard()), 0);
    assert_eq!(t.count_of(&printed("RNA")), 2);
    assert_eq!(t.to_string(), "2 Izzet Charm [RNA]\n");
}

#[test]
fn contains_with_no_printing_matches_a_specific_entry() {
    let mut t = card_ledger::tradelist::new();
    assert!(t.add_card(2, printed("RNA")).is_ok());
    assert!(t.contains_card(wildcard()));
    assert!(t.contains_card(printed("RNA")));
    assert!(!t.contains_card(printed("DDJ")));
}

#[test]
fn contains_ignores_unknown_names() {
    let t = card_ledger::tradelist::new();
    assert!(!t.contains_card(wildcard()));
}

#[test]
fn contains_with_specific_printing_matches_a_wildcard_entry() {
    let mut t = card_ledger::tradelist::new();
    assert!(t.add_card(1, wildcard()).is_ok());
    assert!(t.contains_card(printed("DDJ")));
}

#[test]
fn adds_of_one_card_aggregate_in_either_order() {
    let mut t1 = card_ledger::tradelist::new();
    assert!(t1.add_card(3, wildcard()).is_ok());
    assert!(t1.add_card(2, wildcard()).is_ok());
    assert_eq!(t1.count_of(&wildcard()), 5);
    assert_eq!(t1.to_string(), "5 Izzet Charm\n");

    let mut t2 = card_ledger::tradelist::new();
    assert!(t2.add_card(2, wildcard()).is_ok());
    assert!(t2.add_card(3, wildcard()).is_ok());
    assert_eq!(t2.count_of(&wildcard()), 5);
    assert_eq!(t2.to_string(), "5 Izzet Charm\n");
}

#[test]
fn distinct_printings_are_never_merged() {
    let mut t = card_ledger::tradelist::new();
    assert!(t.add_card(3, printed("RNA")).is_ok());
    assert!(t.add_card(2, printed("DDJ")).is_ok());
    assert_eq!(t.count_of(&printed("RNA")), 3);
    assert_eq!(t.count_of(&printed("DDJ")), 2);
    assert_eq!(t.to_string(), "3 Izzet Charm [RNA]\n2 Izzet Charm [DDJ]\n");
}

#[test]
fn draining_the_last_entry_removes_the_name() {
    let mut t = card_ledger::tradelist::new();
    assert!(t.add_card(3, wildcard()).is_ok());
    assert_eq!(t.remove_card(3, wildcard()), 3);
    assert!(!t.contains_card(wildcard()));
    assert_eq!(t.to_string(), "");
}

#[test]
fn removing_an_absent_printing_changes_nothing() {
    let mut t = card_ledger::tradelist::new();
    assert!(t.add_card(3, wildcard()).is_ok());
    assert_eq!(t.remove_card(2, printed("RNA")), 0);
    assert_eq!(t.count_of(&wildcard()), 3);
}

#[test]
fn add_of_zero_copies_is_a_no_op() {
    let mut t = card_ledger::tradelist::new();
    assert!(t.add_card(0, wildcard()).is_ok());
    assert!(!t.contains_card(wildcard()));
    assert_eq!(t.to_string(), "");
}

#[test]
fn merge_overflow_is_refused_and_changes_nothing() {
    let mut t = card_ledger::tradelist::new();
    assert!(t.add_card(u64::MAX, wildcard()).is_ok());
    assert!(matches!(
        t.add_card(1, wildcard()),
        Err(LedgerError::InvalidQuantity)
    ));
    assert_eq!(t.count_of(&wildcard()), u64::MAX);
}

#[test]
fn one_hundred_unit_adds_count_one_hundred() {
    let mut t = card_ledger::tradelist::new();
    let mut i = 0;
    while i < 100 {
        assert!(t.add_card(1, wildcard()).is_ok());
        i += 1;
    }
    assert_eq!(t.count_of(&wildcard()), 100);
    assert_eq!(t.to_string(), "100 Izzet Charm\n");
}

#[test]
fn visibility_toggles_are_idempotent_and_spare_the_entries() {
    let mut t = card_ledger::tradelist::new();
    assert!(!t.is_public());
    assert!(t.add_card(3, wildcard()).is_ok());
    t.set_public();
    t.set_public();
    assert!(t.is_public());
    assert_eq!(t.count_of(&wildcard()), 3);
    t.set_private();
    t.set_private();
    assert!(!t.is_public());
    assert_eq!(t.count_of(&wildcard()), 3);
}

#[test]
fn render_reports_visibility_and_body() {
    let mut t = card_ledger::tradelist::new();
    assert!(t.add_card(3, wildcard()).is_ok());
    let r = t.render();
    assert_eq!(r.title, "Your Tradelist");
    assert_eq!(r.banner, "private");
    assert_eq!(r.body, "3 Izzet Charm\n");
    t.set_public();
    let r2 = t.render();
    assert_eq!(r2.banner, "public");
    assert_eq!(r2.body, "3 Izzet Charm\n");
}

#[test]
fn duplicate_is_a_faithful_snapshot() {
    let mut t = card_ledger::tradelist::new();
    assert!(t.add_card(3, wildcard()).is_ok());
    let snap = t.duplicate();
    assert_eq!(t.remove_card(3, wildcard()), 3);
    assert_eq!(snap.count_of(&wildcard()), 3);
    assert_eq!(snap.to_string(), "3 Izzet Charm\n");
    assert_eq!(t.to_string(), "");
}
