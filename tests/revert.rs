use canal_dredger::card::{AddOp, BoardChanges, Card, RemoveOp, ReplaceOp};
use canal_dredger::forward::apply_changelog;
use canal_dredger::migration::{resolve, MigrationMap};
use canal_dredger::revert::{locate, revert_changelog, RevertError};

fn card(id: &str, name: &str) -> Card {
    Card {
        card_id: id.to_string(),
        name: name.to_string(),
        set: Some("set".to_string()),
        collector_number: None,
        status: Some("Owned".to_string()),
        tags: None,
        finish: None,
        cmc: None,
        colors: None,
        color_category: None,
        rarity: None,
        type_line: None,
        position: None,
    }
}

fn ids(board: &Vec<Card>) -> Vec<String> {
    board.iter().map(|c| c.card_id.clone()).collect()
}

fn board(names: &[&str]) -> Vec<Card> {
    names.iter().map(|n| card(&n.to_lowercase(), n)).collect()
}

fn remove(index: i32, c: Card) -> RemoveOp {
    RemoveOp { index: Some(index), old_card: c }
}

#[test]
fn ascending_reinsertion_restores_board() {
    let mut b = board(&["A", "B", "C", "D", "E"]);
    let mut changes = BoardChanges::new();
    changes.removes = vec![
        remove(0, card("a", "A")),
        remove(2, card("c", "C")),
        remove(4, card("e", "E")),
    ];
    apply_changelog(&None, &mut b, &changes);
    assert_eq!(ids(&b), vec!["b", "d"]);
    revert_changelog(&mut b, &changes, &MigrationMap::new()).unwrap();
    assert_eq!(ids(&b), vec!["a", "b", "c", "d", "e"]);
}

#[test]
fn reinsertion_sorts_records_given_out_of_order() {
    let mut b = board(&["B", "D"]);
    let mut changes = BoardChanges::new();
    changes.removes = vec![
        remove(4, card("e", "E")),
        remove(0, card("a", "A")),
        remove(2, card("c", "C")),
    ];
    revert_changelog(&mut b, &changes, &MigrationMap::new()).unwrap();
    assert_eq!(ids(&b), vec!["a", "b", "c", "d", "e"]);
}

#[test]
fn removal_without_index_goes_to_the_end() {
    let mut b = board(&["A"]);
    let mut changes = BoardChanges::new();
    changes.removes = vec![RemoveOp { index: None, old_card: card("z", "Z") }];
    revert_changelog(&mut b, &changes, &MigrationMap::new()).unwrap();
    assert_eq!(ids(&b), vec!["a", "z"]);
}

#[test]
fn apply_then_revert_is_identity() {
    let initial = board(&["A", "B", "C", "D"]);
    let mut b = board(&["A", "B", "C", "D"]);
    let mut changes = BoardChanges::new();
    changes.swaps = vec![ReplaceOp { index: Some(1), old_card: card("b", "B"), new_card: card("b2", "B2") }];
    changes.edits = vec![ReplaceOp { index: Some(3), old_card: card("d", "D"), new_card: card("d2", "D2") }];
    changes.removes = vec![remove(0, card("a", "A"))];
    changes.adds = vec![AddOp { card: card("x", "X") }, AddOp { card: card("y", "Y") }];
    apply_changelog(&None, &mut b, &changes);
    assert_eq!(ids(&b), vec!["b2", "c", "d2", "x", "y"]);
    revert_changelog(&mut b, &changes, &MigrationMap::new()).unwrap();
    assert_eq!(ids(&b), ids(&initial));
}

#[test]
fn undo_add_matches_identity_before_name() {
    // two cards share a display name; only "y" has a migration row
    let mut m = MigrationMap::new();
    m.insert("y".to_string(), "y2".to_string(), "Other".to_string());
    let mut b = vec![card("x", "Same"), card("y", "Same")];
    let mut changes = BoardChanges::new();
    changes.adds = vec![AddOp { card: card("x", "Same") }];
    revert_changelog(&mut b, &changes, &m).unwrap();
    assert_eq!(ids(&b), vec!["y"]);
}

#[test]
fn undo_edit_matches_identity_before_name() {
    let m = MigrationMap::new();
    let mut b = vec![card("x", "Same"), card("y", "Same")];
    let mut changes = BoardChanges::new();
    changes.edits = vec![ReplaceOp { index: None, old_card: card("old", "Old"), new_card: card("x", "Same") }];
    revert_changelog(&mut b, &changes, &m).unwrap();
    assert_eq!(ids(&b), vec!["old", "y"]);
}

#[test]
fn lookup_falls_back_to_canonical_name() {
    let mut m = MigrationMap::new();
    m.insert("old".to_string(), "new".to_string(), "Renamed".to_string());
    let b = vec![card("p", "Renamed"), card("q", "Other")];
    let (id, name) = resolve(&"old".to_string(), &"Old Name".to_string(), &m);
    assert_eq!((id.as_str(), name.as_str()), ("new", "Renamed"));
    assert_eq!(locate(&b, &id, &name), Some(0));
}

#[test]
fn lookup_takes_the_last_match() {
    let b = vec![card("a", "A"), card("a", "A"), card("b", "B")];
    assert_eq!(locate(&b, &"a".to_string(), &"A".to_string()), Some(1));
    assert_eq!(locate(&b, &"zz".to_string(), &"zz".to_string()), None);
}

#[test]
fn undo_swap_by_identity() {
    let mut b = board(&["A", "B"]);
    let mut changes = BoardChanges::new();
    changes.swaps = vec![ReplaceOp { index: None, old_card: card("old", "Old"), new_card: card("b", "B") }];
    revert_changelog(&mut b, &changes, &MigrationMap::new()).unwrap();
    assert_eq!(ids(&b), vec!["a", "old"]);
}

#[test]
fn missing_added_card_is_an_error() {
    let mut b = board(&["A"]);
    let mut changes = BoardChanges::new();
    changes.adds = vec![AddOp { card: card("q", "Q") }];
    assert_eq!(revert_changelog(&mut b, &changes, &MigrationMap::new()), Err(RevertError::AddNotFound));
}

#[test]
fn missing_edited_card_is_an_error() {
    let mut b = board(&["A"]);
    let mut changes = BoardChanges::new();
    changes.edits = vec![ReplaceOp { index: None, old_card: card("a", "A"), new_card: card("q", "Q") }];
    assert_eq!(revert_changelog(&mut b, &changes, &MigrationMap::new()), Err(RevertError::EditNotFound));
}

#[test]
fn missing_swapped_card_is_an_error() {
    let mut b = board(&["A"]);
    let mut changes = BoardChanges::new();
    changes.swaps = vec![ReplaceOp { index: None, old_card: card("a", "A"), new_card: card("q", "Q") }];
    assert_eq!(revert_changelog(&mut b, &changes, &MigrationMap::new()), Err(RevertError::SwapNotFound));
}

#[test]
fn index_outside_board_is_an_error() {
    let mut b = board(&["A"]);
    let mut changes = BoardChanges::new();
    changes.removes = vec![remove(5, card("z", "Z"))];
    assert_eq!(revert_changelog(&mut b, &changes, &MigrationMap::new()), Err(RevertError::IndexOutOfRange));
    let mut b = board(&["A"]);
    let mut changes = BoardChanges::new();
    changes.edits = vec![ReplaceOp { index: Some(1), old_card: card("a", "A"), new_card: card("a", "A") }];
    assert_eq!(revert_changelog(&mut b, &changes, &MigrationMap::new()), Err(RevertError::IndexOutOfRange));
}

#[test]
fn duplicate_adds_revert_to_the_start() {
    let mut b = board(&["A", "B"]);
    let mut changes = BoardChanges::new();
    changes.adds = vec![AddOp { card: card("x", "X") }, AddOp { card: card("x", "X") }, AddOp { card: card("a", "A") }];
    apply_changelog(&None, &mut b, &changes);
    assert_eq!(ids(&b), vec!["a", "b", "x", "x", "a"]);
    revert_changelog(&mut b, &changes, &MigrationMap::new()).unwrap();
    assert_eq!(ids(&b), vec!["a", "b"]);
}

#[test]
fn added_cards_take_default_status_and_their_index() {
    let mut b = board(&["A", "B"]);
    let mut changes = BoardChanges::new();
    changes.removes = vec![remove(0, card("a", "A"))];
    changes.adds = vec![AddOp { card: card("x", "X") }, AddOp { card: card("y", "Y") }];
    apply_changelog(&Some("Proxied".to_string()), &mut b, &changes);
    assert_eq!(ids(&b), vec!["b", "x", "y"]);
    assert_eq!(b[1].status.as_deref(), Some("Proxied"));
    assert_eq!(b[1].position, Some(1));
    assert_eq!(b[2].position, Some(2));
    assert_eq!(b[0].status.as_deref(), Some("Owned"));
    revert_changelog(&mut b, &changes, &MigrationMap::new()).unwrap();
    assert_eq!(ids(&b), vec!["a", "b"]);
}

#[test]
fn failed_revert_leaves_board_unchanged() {
    let mut b = board(&["A", "B"]);
    let mut changes = BoardChanges::new();
    changes.adds = vec![AddOp { card: card("b", "B") }];
    changes.edits = vec![ReplaceOp { index: None, old_card: card("a", "A"), new_card: card("q", "Q") }];
    assert_eq!(revert_changelog(&mut b, &changes, &MigrationMap::new()), Err(RevertError::EditNotFound));
    assert_eq!(ids(&b), vec!["a", "b"]);
}

#[test]
fn undo_add_of_migrated_card_uses_its_canonical_identity() {
    let mut m = MigrationMap::new();
    m.insert("old".to_string(), "new".to_string(), "New".to_string());
    let mut b = vec![card("new", "New"), card("k", "K")];
    let mut changes = BoardChanges::new();
    changes.adds = vec![AddOp { card: card("old", "Old") }];
    revert_changelog(&mut b, &changes, &m).unwrap();
    assert_eq!(ids(&b), vec!["k"]);
}
