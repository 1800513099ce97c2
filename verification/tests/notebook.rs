use note_to_self::error::{Error, NoAccessToNotebookError};
use note_to_self::notebook::{Notebook, TextFile};

fn cells(notebook: &Notebook) -> Vec<(i32, String)> {
    notebook.texts().map(|t| (t.id(), t.text().to_string())).collect()
}

fn sample() -> Notebook {
    Notebook::new(
        7,
        "Ideas".to_string(),
        vec![
            TextFile::new(1, "one".to_string()),
            TextFile::new(2, "two".to_string()),
            TextFile::new(1, "again".to_string()),
        ],
    )
}

#[test]
fn text_file_keeps_id_and_text() {
    let cell = TextFile::new(42, "hello".to_string());
    assert_eq!(cell.id(), 42);
    assert_eq!(cell.text(), "hello");
    let copy = cell.clone();
    assert_eq!(copy.id(), 42);
    assert_eq!(copy.text(), "hello");
}

#[test]
fn notebook_getters() {
    let notebook = sample();
    assert_eq!(notebook.id(), 7);
    assert_eq!(notebook.name(), "Ideas");
    assert_eq!(notebook.text_count(), 3);
    assert_eq!(notebook.text_at(1).map(|t| (t.id(), t.text())), Some((2, "two")));
    assert!(notebook.text_at(3).is_none());
    assert_eq!(
        cells(&notebook),
        vec![(1, "one".to_string()), (2, "two".to_string()), (1, "again".to_string())]
    );
}

#[test]
fn empty_notebook_has_no_texts() {
    let notebook = Notebook::new(1, String::new(), Vec::new());
    assert_eq!(notebook.texts().count(), 0);
    assert_eq!(notebook.text_count(), 0);
    assert!(notebook.has_distinct_ids());
}

#[test]
fn add_new_text_appends_last() {
    let mut notebook = sample();
    notebook.add_new_text(TextFile::new(9, "nine".to_string()));
    assert_eq!(notebook.id(), 7);
    assert_eq!(notebook.name(), "Ideas");
    assert_eq!(
        cells(&notebook),
        vec![
            (1, "one".to_string()),
            (2, "two".to_string()),
            (1, "again".to_string()),
            (9, "nine".to_string())
        ]
    );
}

#[test]
fn set_text_changes_first_match_only() {
    let mut notebook = sample();
    notebook.set_text(1, "uno".to_string());
    assert_eq!(
        cells(&notebook),
        vec![(1, "uno".to_string()), (2, "two".to_string()), (1, "again".to_string())]
    );
    assert_eq!(notebook.name(), "Ideas");
}

#[test]
fn set_text_of_missing_id_changes_nothing() {
    let mut notebook = sample();
    notebook.set_text(3, "three".to_string());
    assert_eq!(cells(&notebook), cells(&sample()));
}

#[test]
fn delete_text_removes_first_match_only() {
    let mut notebook = sample();
    notebook.delete_text(1);
    assert_eq!(cells(&notebook), vec![(2, "two".to_string()), (1, "again".to_string())]);
    notebook.delete_text(1);
    assert_eq!(cells(&notebook), vec![(2, "two".to_string())]);
    assert_eq!(notebook.id(), 7);
}

#[test]
fn delete_text_of_missing_id_changes_nothing() {
    let mut notebook = sample();
    notebook.delete_text(5);
    assert_eq!(cells(&notebook), cells(&sample()));
}

#[test]
fn has_distinct_ids_sees_a_repeat() {
    assert!(!sample().has_distinct_ids());
    let mut notebook = sample();
    notebook.delete_text(1);
    assert!(notebook.has_distinct_ids());
}

#[test]
fn from_rows_builds_the_notebook() {
    let rows = vec![(4, "a".to_string()), (5, "b".to_string())];
    let notebook = Notebook::from_rows(3, Some("N".to_string()), &rows).unwrap();
    assert_eq!(notebook.id(), 3);
    assert_eq!(notebook.name(), "N");
    assert_eq!(cells(&notebook), rows);
}

#[test]
fn from_rows_without_a_name_is_none() {
    let rows = vec![(4, "a".to_string())];
    assert!(Notebook::from_rows(3, None, &rows).is_none());
}

#[test]
fn error_messages() {
    assert_eq!(Error::NotFound.message(), "That notebook doesn't exist!");
    assert_eq!(Error::AlreadyExists.message(), "That notebook already exists!");
    assert_eq!(Error::Forbidden.message(), "You don't have access to that notebook!");
    assert_eq!(Error::StoreError.message(), "The store could not apply the change!");
}

#[test]
fn no_access_error_round_trips_through_its_message() {
    let message = NoAccessToNotebookError.message();
    assert_eq!(message, "Not authorised to access that notebook!");
    assert_eq!(NoAccessToNotebookError::from_str(&message), Ok(NoAccessToNotebookError));
}

#[test]
fn no_access_error_rejects_other_text() {
    assert_eq!(NoAccessToNotebookError::from_str(""), Err(()));
    assert_eq!(NoAccessToNotebookError::from_str("Not authorised"), Err(()));
    assert_eq!(
        NoAccessToNotebookError::from_str("Not authorised to access that notebook! "),
        Err(())
    );
}

#[test]
fn no_access_error_parses_from_its_message() {
    let parsed: Result<NoAccessToNotebookError, ()> =
        "Not authorised to access that notebook!".parse();
    assert_eq!(parsed, Ok(NoAccessToNotebookError));
    let other: Result<NoAccessToNotebookError, ()> = "not authorised".parse();
    assert_eq!(other, Err(()));
}
