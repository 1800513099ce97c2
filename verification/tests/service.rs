use note_to_self::access::{redirect_after, Redirect, Session};
use note_to_self::error::Error;
use note_to_self::notebook::{Notebook, TextFile};
use note_to_self::service::{
    add_new_text_to_notebook, create_notebook, get_notebook, save_notebook, select_notebook,
};
use note_to_self::store::Store;

#[test]
fn authorize_grants_only_the_opened_notebook() {
    let session = Session::new(Some(3));
    assert_eq!(session.notebook_id(), Some(3));
    assert_eq!(session.authorize(3).map(|a| a.notebook_id()), Ok(3));
    assert_eq!(session.authorize(4).map(|a| a.notebook_id()), Err(Error::Forbidden));
    assert_eq!(session.authorize(-3).map(|a| a.notebook_id()), Err(Error::Forbidden));
}

#[test]
fn authorize_denies_a_session_without_notebook() {
    let session = Session::new(None);
    assert_eq!(session.notebook_id(), None);
    assert_eq!(session.authorize(0).map(|a| a.notebook_id()), Err(Error::Forbidden));
}

#[test]
fn open_replaces_the_remembered_notebook() {
    let mut session = Session::new(Some(1));
    session.open(2);
    assert_eq!(session.notebook_id(), Some(2));
    assert!(session.authorize(1).is_err());
    assert!(session.authorize(2).is_ok());
}

#[test]
fn only_a_denial_redirects_home() {
    assert_eq!(redirect_after(Error::Forbidden), Some(Redirect::Home));
    assert_eq!(redirect_after(Error::NotFound), None);
    assert_eq!(redirect_after(Error::AlreadyExists), None);
    assert_eq!(redirect_after(Error::StoreError), None);
}

#[test]
fn create_notebook_opens_it() {
    let mut store = Store::new();
    let mut session = Session::new(None);
    assert_eq!(
        create_notebook(&mut store, &mut session, "Groceries".to_string()),
        Ok(Redirect::Notebook(1))
    );
    assert_eq!(session.notebook_id(), Some(1));
    assert_eq!(store.find_by_name("Groceries"), Some(1));
}

#[test]
fn create_notebook_with_a_name_in_use_keeps_the_session() {
    let mut store = Store::new();
    let mut first = Session::new(None);
    create_notebook(&mut store, &mut first, "Groceries".to_string()).unwrap();
    let mut second = Session::new(Some(40));
    assert_eq!(
        create_notebook(&mut store, &mut second, "Groceries".to_string()),
        Err(Error::AlreadyExists)
    );
    assert_eq!(second.notebook_id(), Some(40));
    assert!(store.load(2).is_none());
}

#[test]
fn create_notebook_without_identifiers_left_keeps_the_session() {
    let mut store = Store::with_sequences(i32::MAX, 1);
    let mut session = Session::new(None);
    assert_eq!(
        create_notebook(&mut store, &mut session, "Last".to_string()),
        Ok(Redirect::Notebook(i32::MAX))
    );
    assert_eq!(
        create_notebook(&mut store, &mut session, "More".to_string()),
        Err(Error::StoreError)
    );
    assert_eq!(session.notebook_id(), Some(i32::MAX));
}

#[test]
fn select_notebook_opens_an_existing_one() {
    let mut store = Store::new();
    store.create("A".to_string()).unwrap();
    store.create("B".to_string()).unwrap();
    let mut session = Session::new(Some(1));
    assert_eq!(select_notebook(&store, &mut session, "B"), Ok(Redirect::Notebook(2)));
    assert_eq!(session.notebook_id(), Some(2));
}

#[test]
fn select_notebook_of_unknown_name_keeps_the_session() {
    let mut store = Store::new();
    store.create("A".to_string()).unwrap();
    let mut session = Session::new(Some(1));
    assert_eq!(select_notebook(&store, &mut session, "B"), Err(Error::NotFound));
    assert_eq!(session.notebook_id(), Some(1));
    let mut fresh = Session::new(None);
    assert_eq!(select_notebook(&store, &mut fresh, ""), Err(Error::NotFound));
    assert_eq!(fresh.notebook_id(), None);
}

#[test]
fn get_notebook_needs_the_opened_notebook() {
    let mut store = Store::new();
    store.create("A".to_string()).unwrap();
    store.create("B".to_string()).unwrap();
    let session = Session::new(Some(2));
    assert_eq!(get_notebook(&store, &session, 1).err(), Some(Error::Forbidden));
    assert_eq!(get_notebook(&store, &Session::new(None), 1).err(), Some(Error::Forbidden));
    let read = get_notebook(&store, &session, 2).unwrap();
    assert_eq!((read.id(), read.name()), (2, "B"));
    assert_eq!(read.texts().count(), 0);
}

#[test]
fn get_notebook_of_missing_notebook_is_not_found() {
    let store = Store::new();
    let session = Session::new(Some(2));
    assert_eq!(get_notebook(&store, &session, 2).err(), Some(Error::NotFound));
    assert_eq!(get_notebook(&store, &session, 3).err(), Some(Error::Forbidden));
}

#[test]
fn save_notebook_needs_the_opened_notebook() {
    let mut store = Store::new();
    store.create("A".to_string()).unwrap();
    let notebook = Notebook::new(1, "A".to_string(), vec![TextFile::new(5, "x".to_string())]);
    assert_eq!(save_notebook(&mut store, &Session::new(Some(2)), &notebook), Err(Error::Forbidden));
    assert_eq!(save_notebook(&mut store, &Session::new(None), &notebook), Err(Error::Forbidden));
    assert_eq!(store.load(1).unwrap().texts().count(), 0);
    assert_eq!(save_notebook(&mut store, &Session::new(Some(1)), &notebook), Ok(()));
    let cells: Vec<(i32, String)> =
        store.load(1).unwrap().texts().map(|t| (t.id(), t.text().to_string())).collect();
    assert_eq!(cells, vec![(5, "x".to_string())]);
}

#[test]
fn save_notebook_passes_a_refusal_of_the_store_on() {
    let mut store = Store::new();
    store.create("A".to_string()).unwrap();
    store.create("B".to_string()).unwrap();
    let notebook = Notebook::new(2, "A".to_string(), Vec::new());
    assert_eq!(
        save_notebook(&mut store, &Session::new(Some(2)), &notebook),
        Err(Error::StoreError)
    );
    assert_eq!(store.find_by_name("B"), Some(2));
}

#[test]
fn add_new_text_to_notebook_needs_the_opened_notebook() {
    let mut store = Store::with_sequences(1, 10);
    store.create("A".to_string()).unwrap();
    let denied = add_new_text_to_notebook(&mut store, &Session::new(Some(2)), 1);
    assert_eq!(denied.err(), Some(Error::Forbidden));
    assert_eq!(store.load(1).unwrap().texts().count(), 0);
    let added = add_new_text_to_notebook(&mut store, &Session::new(Some(1)), 1).unwrap();
    assert_eq!((added.id(), added.text()), (10, "New Text Box..."));
    assert_eq!(store.load(1).unwrap().texts().count(), 1);
}

#[test]
fn add_new_text_to_missing_notebook_is_not_found() {
    let mut store = Store::with_sequences(1, 10);
    let missing = add_new_text_to_notebook(&mut store, &Session::new(Some(1)), 1);
    assert_eq!(missing.err(), Some(Error::NotFound));
    assert!(!store.delete_cell(10));
}
