use card_ledger::card::{AtomicCard, Card};
use card_ledger::error::LedgerError;
use card_ledger::store::LedgerStore;

const U1: u64 = 17;
const U2: u64 = 42;

fn izzet_charm() -> AtomicCard {
    AtomicCard::new(
        "Izzet Charm".to_string(),
        vec!["RNA".to_string(), "DDJ".to_string()],
        vec!["Instant".to_string()],
    )
    .unwrap()
}

fn wildcard() -> Card {
    card_ledger::card::new(izzet_charm(), String::new()).unwrap()
}

fn printed(code: &str) -> Card {
    card_ledger::card::new(izzet_charm(), code.to_string()).unwrap()
}

#[test]
fn a_fresh_store_has_no_ledgers() {
    let s = LedgerStore::new();
    assert!(s.get(U1).is_none());
    assert!(s.render_for(U1).is_none());
    assert!(!s.contains_card(U1, wildcard()));
}

#[test]
fn view_with_no_prior_activity_is_empty_not_an_error() {
    let mut s = LedgerStore::new();
    assert!(s.add_card(U1, 3, wildcard()).is_ok());
    assert!(s.render_for(U2).is_none());
    assert!(s.get(U2).is_none());
}

#[test]
fn add_creates_the_ledger_on_first_use() {
    let mut s = LedgerStore::new();
    assert!(s.add_card(U1, 3, wildcard()).is_ok());
    let t = s.get(U1).unwrap();
    assert_eq!(t.count_of(&wildcard()), 3);
    assert!(s.contains_card(U1, wildcard()));
}

#[test]
fn get_or_create_is_idempotent() {
    let mut s = LedgerStore::new();
    s.get_or_create(U1);
    let t = s.get(U1).unwrap();
    assert_eq!(t.to_string(), "");
    assert!(!t.is_public());
    assert!(s.add_card(U1, 2, wildcard()).is_ok());
    s.get_or_create(U1);
    assert_eq!(s.get(U1).unwrap().count_of(&wildcard()), 2);
}

#[test]
fn owners_do_not_cross_contaminate() {
    let mut s = LedgerStore::new();
    assert!(s.add_card(U1, 3, wildcard()).is_ok());
    assert!(s.add_card(U2, 2, printed("RNA")).is_ok());
    assert_eq!(s.remove_card(U1, 1, wildcard()), 1);
    assert!(s.set_visibility(U1, true));
    assert_eq!(s.get(U1).unwrap().count_of(&wildcard()), 2);
    assert_eq!(s.get(U2).unwrap().count_of(&printed("RNA")), 2);
    assert!(!s.get(U2).unwrap().is_public());
    assert!(s.get(U1).unwrap().is_public());
}

#[test]
fn remove_for_an_absent_owner_creates_nothing() {
    let mut s = LedgerStore::new();
    assert_eq!(s.remove_card(U1, 3, wildcard()), 0);
    assert!(s.get(U1).is_none());
}

#[test]
fn set_visibility_reports_a_missing_ledger() {
    let mut s = LedgerStore::new();
    assert!(!s.set_visibility(U1, true));
    assert!(s.get(U1).is_none());
    assert!(s.add_card(U1, 1, wildcard()).is_ok());
    assert!(s.set_visibility(U1, true));
    assert_eq!(s.render_for(U1).unwrap().banner, "public");
    assert!(s.set_visibility(U1, false));
    assert_eq!(s.render_for(U1).unwrap().banner, "private");
}

#[test]
fn render_for_shows_the_stored_listing() {
    let mut s = LedgerStore::new();
    assert!(s.add_card(U1, 3, wildcard()).is_ok());
    assert!(s.add_card(U1, 2, printed("RNA")).is_ok());
    let r = s.render_for(U1).unwrap();
    assert_eq!(r.title, "Your Tradelist");
    assert_eq!(r.banner, "private");
    assert_eq!(r.body, "3 Izzet Charm\n2 Izzet Charm [RNA]\n");
}

#[test]
fn store_add_propagates_a_merge_overflow() {
    let mut s = LedgerStore::new();
    assert!(s.add_card(U1, u64::MAX, wildcard()).is_ok());
    assert!(matches!(
        s.add_card(U1, 1, wildcard()),
        Err(LedgerError::InvalidQuantity)
    ));
    assert_eq!(s.get(U1).unwrap().count_of(&wildcard()), u64::MAX);
}

#[test]
fn snapshots_do_not_alias_the_store() {
    let mut s = LedgerStore::new();
    assert!(s.add_card(U1, 3, wildcard()).is_ok());
    let snap = s.get(U1).unwrap();
    assert_eq!(s.remove_card(U1, 3, wildcard()), 3);
    assert_eq!(snap.count_of(&wildcard()), 3);
    assert_eq!(s.get(U1).unwrap().count_of(&wildcard()), 0);
}

#[test]
fn many_unit_adds_for_one_owner_total_exactly() {
    let mut s = LedgerStore::new();
    let mut i = 0;
    while i < 50 {
        assert!(s.add_card(U1, 1, wildcard()).is_ok());
        i += 1;
    }
    assert_eq!(s.get(U1).unwrap().count_of(&wildcard()), 50);
}

#[test]
fn a_batch_skips_unresolved_lines_and_keeps_going() {
    let mut s = LedgerStore::new();
    let lines = vec![
        (3, Some(wildcard())),
        (2, None),
        (2, Some(printed("RNA"))),
    ];
    s.add_cards(U1, lines);
    let t = s.get(U1).unwrap();
    assert_eq!(t.count_of(&wildcard()), 3);
    assert_eq!(t.count_of(&printed("RNA")), 2);
    assert_eq!(t.to_string(), "3 Izzet Charm\n2 Izzet Charm [RNA]\n");
}

#[test]
fn a_batch_skips_an_overflowing_line_and_keeps_going() {
    let mut s = LedgerStore::new();
    let lines = vec![
        (u64::MAX, Some(wildcard())),
        (1, Some(wildcard())),
        (2, Some(printed("RNA"))),
    ];
    s.add_cards(U1, lines);
    let t = s.get(U1).unwrap();
    assert_eq!(t.count_of(&wildcard()), u64::MAX);
    assert_eq!(t.count_of(&printed("RNA")), 2);
}

#[test]
fn an_empty_batch_still_creates_the_ledger() {
    let mut s = LedgerStore::new();
    s.add_cards(U1, Vec::new());
    let t = s.get(U1).unwrap();
    assert_eq!(t.to_string(), "");
}
