use deck_tree::add::Op;
use deck_tree::deck::{AnkiError, Deck, DeckId, DeckKind, Usn};
use deck_tree::store::Collection;

fn names(col: &Collection) -> Vec<String> {
    col.decks().iter().map(|d| d.name.clone()).collect()
}

fn find<'a>(col: &'a Collection, name: &str) -> Option<&'a Deck> {
    col.decks().iter().find(|d| d.name == name)
}

fn normal(name: &str) -> Deck {
    let mut d = Deck::new_normal();
    d.name = name.to_string();
    d
}

fn add(col: &mut Collection, name: &str) -> Deck {
    let mut d = normal(name);
    col.add_deck(&mut d).unwrap();
    d
}

#[test]
fn add_creates_missing_ancestors() {
    let mut col = Collection::new(100, Usn(5));
    let d = add(&mut col, "A\x1fB\x1fC");
    assert_eq!(names(&col), vec!["A\x1fB".to_string(), "A".to_string(), "A\x1fB\x1fC".to_string()]);
    let ids: Vec<i64> = col.decks().iter().map(|d| d.id.0).collect();
    assert_eq!(ids, vec![1, 2, 3]);
    assert_eq!(d.id, DeckId(3));
    for deck in col.decks() {
        assert_eq!(deck.usn, Usn(5));
        assert_eq!(deck.mtime_secs, 100);
        assert_eq!(deck.kind, DeckKind::Normal);
    }
}

#[test]
fn every_ancestor_exists_after_add() {
    let mut col = Collection::new(0, Usn(0));
    add(&mut col, "A");
    add(&mut col, "A\x1fB\x1fC\x1fD");
    assert!(find(&col, "A\x1fB").is_some());
    assert!(find(&col, "A\x1fB\x1fC").is_some());
    assert_eq!(col.decks().len(), 4);
}

#[test]
fn add_returns_add_op() {
    let mut col = Collection::new(0, Usn(0));
    let mut d = normal("Solo");
    let out = col.add_deck(&mut d).unwrap();
    assert_eq!(out.op, Op::AddDeck);
    assert_eq!(names(&col), vec!["Solo".to_string()]);
}

#[test]
fn duplicate_name_gets_plus() {
    let mut col = Collection::new(0, Usn(0));
    add(&mut col, "Foo");
    let second = add(&mut col, "Foo");
    assert_eq!(second.name, "Foo+");
    let third = add(&mut col, "foo");
    assert_eq!(third.name, "foo++");
    assert_eq!(col.decks().len(), 3);
}

#[test]
fn rename_moves_descendants() {
    let mut col = Collection::new(0, Usn(0));
    add(&mut col, "A\x1fB\x1fC");
    add(&mut col, "A\x1fB\x1fD\x1fE");
    let mut ab = find(&col, "A\x1fB").unwrap().clone();
    ab.name = "X\x1fB".to_string();
    col.set_clock(50, Usn(9));
    let out = col.update_deck(&mut ab).unwrap();
    assert_eq!(out.op, Op::UpdateDeck);
    assert!(find(&col, "X\x1fB").is_some());
    assert!(find(&col, "X\x1fB\x1fC").is_some());
    assert!(find(&col, "X\x1fB\x1fD").is_some());
    assert!(find(&col, "X\x1fB\x1fD\x1fE").is_some());
    assert!(find(&col, "X").is_some());
    assert!(find(&col, "A\x1fB\x1fC").is_none());
    assert!(find(&col, "A").is_some());
    assert_eq!(find(&col, "X\x1fB\x1fC").unwrap().usn, Usn(9));
}

#[test]
fn rename_under_filtered_deck_fails() {
    let mut col = Collection::new(0, Usn(0));
    let mut f = Deck::new_filtered();
    f.name = "F".to_string();
    col.add_deck(&mut f).unwrap();
    let mut g = add(&mut col, "G");
    let before = names(&col);
    g.name = "F\x1fG".to_string();
    assert_eq!(col.update_deck(&mut g).unwrap_err(), AnkiError::FilteredDeckMustBeLeaf);
    assert_eq!(names(&col), before);
}

#[test]
fn add_under_filtered_deck_fails() {
    let mut col = Collection::new(0, Usn(0));
    let mut f = Deck::new_filtered();
    f.name = "F".to_string();
    col.add_deck(&mut f).unwrap();
    let mut d = normal("F\x1fX\x1fY");
    assert_eq!(col.add_deck(&mut d).unwrap_err(), AnkiError::FilteredDeckMustBeLeaf);
    assert_eq!(names(&col), vec!["F".to_string()]);
}

#[test]
fn too_deep_nesting_fails() {
    let mut col = Collection::new(0, Usn(0));
    let deep: Vec<String> = (0..12).map(|i| format!("L{}", i)).collect();
    let mut d = normal(&deep.join("\x1f"));
    assert_eq!(col.add_deck(&mut d).unwrap_err(), AnkiError::InvalidInput);
    assert!(col.decks().is_empty());
}

#[test]
fn nesting_within_limit_succeeds() {
    let mut col = Collection::new(0, Usn(0));
    let levels: Vec<String> = (0..11).map(|i| format!("L{}", i)).collect();
    let mut d = normal(&levels.join("\x1f"));
    col.add_deck(&mut d).unwrap();
    assert_eq!(col.decks().len(), 11);
}

#[test]
fn second_add_under_same_parents_creates_nothing_more() {
    let mut col = Collection::new(0, Usn(0));
    add(&mut col, "A\x1fB\x1fC");
    assert_eq!(col.decks().len(), 3);
    add(&mut col, "A\x1fB\x1fD");
    assert_eq!(col.decks().len(), 4);
    let mut again = find(&col, "A\x1fB\x1fD").unwrap().clone();
    col.update_deck(&mut again).unwrap();
    assert_eq!(col.decks().len(), 4);
}

#[test]
fn child_takes_ancestor_case() {
    let mut col = Collection::new(0, Usn(0));
    add(&mut col, "Parent");
    let d = add(&mut col, "parent\x1fchild");
    assert_eq!(d.name, "Parent\x1fchild");
    assert_eq!(col.decks().len(), 2);
}

#[test]
fn distant_ancestor_case_and_gap_filled() {
    let mut col = Collection::new(0, Usn(0));
    add(&mut col, "Top");
    let d = add(&mut col, "TOP\x1fmid\x1fleaf");
    assert_eq!(d.name, "Top\x1fmid\x1fleaf");
    assert!(find(&col, "Top\x1fmid").is_some());
    assert_eq!(col.decks().len(), 3);
}

#[test]
fn add_with_id_is_refused() {
    let mut col = Collection::new(0, Usn(0));
    let mut d = normal("A");
    d.id = DeckId(7);
    assert_eq!(col.add_deck(&mut d).unwrap_err(), AnkiError::InvalidInput);
    assert!(col.decks().is_empty());
}

#[test]
fn update_of_unknown_id_is_not_found() {
    let mut col = Collection::new(0, Usn(0));
    add(&mut col, "A");
    let mut d = normal("B");
    d.id = DeckId(99);
    assert_eq!(col.update_deck(&mut d).unwrap_err(), AnkiError::NotFound);
    assert_eq!(names(&col), vec!["A".to_string()]);
}

#[test]
fn add_or_update_dispatches_on_id() {
    let mut col = Collection::new(0, Usn(0));
    let mut d = normal("A");
    assert_eq!(col.add_or_update_deck(&mut d).unwrap().op, Op::AddDeck);
    d.name = "B".to_string();
    assert_eq!(col.add_or_update_deck(&mut d).unwrap().op, Op::UpdateDeck);
    assert_eq!(names(&col), vec!["B".to_string()]);
}

#[test]
fn control_characters_are_removed() {
    let mut col = Collection::new(30, Usn(2));
    let d = add(&mut col, "A\u{1}B\x1fC\u{7f}");
    assert_eq!(d.name, "AB\x1fC");
    assert!(find(&col, "AB").is_some());
}

#[test]
fn recovered_deck_is_named_after_id() {
    let mut col = Collection::new(10, Usn(3));
    col.recover_missing_deck(DeckId(42), Usn(3));
    let d = &col.decks()[0];
    assert_eq!(d.name, "recovered42");
    assert_eq!(d.id, DeckId(42));
    col.recover_missing_deck(DeckId(-5), Usn(3));
    assert_eq!(col.decks()[1].name, "recovered-5");
    col.recover_missing_deck(DeckId(i64::MIN), Usn(3));
    assert_eq!(col.decks()[2].name, format!("recovered{}", i64::MIN));
}

#[test]
fn recovered_name_made_unique() {
    let mut col = Collection::new(0, Usn(0));
    add(&mut col, "recovered9");
    col.recover_missing_deck(DeckId(9), Usn(0));
    assert_eq!(col.decks()[1].name, "recovered9+");
}

#[test]
fn single_deck_with_existing_id_replaces_row() {
    let mut col = Collection::new(0, Usn(0));
    let mut d = normal("Child\x1fx");
    d.id = DeckId(77);
    col.add_or_update_single_deck_with_existing_id(&mut d, Usn(1));
    assert_eq!(names(&col), vec!["Child\x1fx".to_string()]);
    d.name = "Other".to_string();
    col.add_or_update_single_deck_with_existing_id(&mut d, Usn(1));
    assert_eq!(names(&col), vec!["Other".to_string()]);
}

#[test]
fn id_space_exhausted_is_db_error() {
    let mut col = Collection::new(0, Usn(0));
    col.recover_missing_deck(DeckId(i64::MAX), Usn(0));
    let mut d = normal("New");
    assert_eq!(col.add_deck(&mut d).unwrap_err(), AnkiError::DbError);
    assert_eq!(col.decks().len(), 1);
}

#[test]
fn failed_parent_creation_rolls_back() {
    let mut col = Collection::new(0, Usn(0));
    col.recover_missing_deck(DeckId(i64::MAX - 1), Usn(0));
    let mut d = normal("P\x1fQ");
    assert_eq!(col.add_deck(&mut d).unwrap_err(), AnkiError::DbError);
    assert_eq!(col.decks().len(), 1);
}

#[test]
fn unchanged_name_updates_in_place() {
    let mut col = Collection::new(0, Usn(0));
    let mut d = add(&mut col, "A");
    d.kind = DeckKind::Filtered;
    col.update_deck(&mut d).unwrap();
    assert_eq!(col.decks().len(), 1);
    assert!(col.decks()[0].is_filtered());
}

#[test]
fn rename_into_new_branch_creates_its_ancestors() {
    let mut col = Collection::new(0, Usn(0));
    add(&mut col, "A\x1fB\x1fC");
    let mut ab = find(&col, "A\x1fB").unwrap().clone();
    ab.name = "P\x1fQ\x1fB".to_string();
    col.update_deck(&mut ab).unwrap();
    for name in ["A", "P", "P\x1fQ", "P\x1fQ\x1fB", "P\x1fQ\x1fB\x1fC"] {
        assert!(find(&col, name).is_some(), "{}", name.replace('\x1f', "::"));
    }
    assert_eq!(col.decks().len(), 5);
}

#[test]
fn rename_takes_existing_ancestor_case() {
    let mut col = Collection::new(0, Usn(0));
    add(&mut col, "Target");
    let mut d = add(&mut col, "Loose");
    d.name = "target\x1fLoose".to_string();
    col.update_deck(&mut d).unwrap();
    assert_eq!(d.name, "Target\x1fLoose");
    assert_eq!(col.decks().len(), 2);
}

#[test]
fn empty_components_become_blank() {
    let mut col = Collection::new(0, Usn(0));
    let d = add(&mut col, "A\x1f\x1fB");
    assert_eq!(d.name, "A\x1fblank\x1fB");
    assert!(find(&col, "A\x1fblank").is_some());
    assert!(find(&col, "A").is_some());
    assert_eq!(col.decks().len(), 3);
}

#[test]
fn empty_name_becomes_blank() {
    let mut col = Collection::new(0, Usn(0));
    let d = add(&mut col, "");
    assert_eq!(d.name, "blank");
    let e = add(&mut col, "X\x1f");
    assert_eq!(e.name, "X\x1fblank");
    let f = add(&mut col, "\u{2}");
    assert_eq!(f.name, "blank+");
}
