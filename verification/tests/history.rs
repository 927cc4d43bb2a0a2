use blackmamba_paint::history::{DocumentHistory, HistoryError};

#[test]
fn undo_and_redo_restore_exact_document_state() {
    let empty = String::from("{\"title\":\"history\",\"layers\":{}}");
    let authored = String::from("{\"title\":\"history\",\"layers\":{\"ink\":[1.0,2.0]}}");
    let mut history = DocumentHistory::new(empty.clone());
    history.commit(authored.clone());

    let undone = history.undo().unwrap();
    assert_eq!(undone, empty);

    let redone = history.redo().unwrap();
    assert_eq!(redone, authored);
}

#[test]
fn empty_history_has_nothing_to_undo_or_redo() {
    let mut history = DocumentHistory::new(String::from("a"));
    assert_eq!(history.undo(), Err(HistoryError::NothingToUndo));
    assert_eq!(history.redo(), Err(HistoryError::NothingToRedo));
    assert_eq!(history.present(), "a");
    assert_eq!(history.undo_depth(), 0);
    assert_eq!(history.redo_depth(), 0);
}

#[test]
fn commit_discards_pending_redo() {
    let mut history = DocumentHistory::new(String::from("a"));
    history.commit(String::from("b"));
    history.commit(String::from("c"));
    assert_eq!(history.undo_depth(), 2);
    assert_eq!(history.undo().unwrap(), "b");
    assert_eq!(history.redo_depth(), 1);
    history.commit(String::from("d"));
    assert_eq!(history.redo_depth(), 0);
    assert_eq!(history.redo(), Err(HistoryError::NothingToRedo));
    assert_eq!(history.undo().unwrap(), "b");
    assert_eq!(history.undo().unwrap(), "a");
    assert_eq!(history.undo(), Err(HistoryError::NothingToUndo));
    assert_eq!(history.present(), "a");
}

#[test]
fn redo_after_undo_returns_to_the_same_history() {
    let mut history = DocumentHistory::new(String::from("a"));
    history.commit(String::from("b"));
    history.undo().unwrap();
    history.redo().unwrap();
    assert_eq!(history.present(), "b");
    assert_eq!(history.undo_depth(), 1);
    assert_eq!(history.redo_depth(), 0);
}

#[test]
fn depths_count_successful_steps() {
    let mut history = DocumentHistory::new("a".to_string());
    history.commit("b".to_string());
    history.commit("c".to_string());
    assert_eq!((history.undo_depth(), history.redo_depth()), (2, 0));
    assert!(history.undo().is_ok());
    assert!(history.undo().is_ok());
    assert_eq!((history.undo_depth(), history.redo_depth()), (0, 2));
    assert_eq!(history.undo(), Err(HistoryError::NothingToUndo));
    assert_eq!((history.undo_depth(), history.redo_depth()), (0, 2));
    assert!(history.redo().is_ok());
    assert_eq!((history.undo_depth(), history.redo_depth()), (1, 1));
    history.commit("d".to_string());
    assert_eq!((history.undo_depth(), history.redo_depth()), (2, 0));
    assert_eq!(history.redo(), Err(HistoryError::NothingToRedo));
}
