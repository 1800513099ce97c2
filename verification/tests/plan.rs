use note_to_self::error::Error;
use note_to_self::notebook::{Notebook, TextFile};
use note_to_self::plan::Statement;
use note_to_self::store::Store;

fn snapshot(id: i32, name: &str, cells: &[(i32, &str)]) -> Notebook {
    Notebook::new(
        id,
        name.to_string(),
        cells.iter().map(|(id, text)| TextFile::new(*id, text.to_string())).collect(),
    )
}

fn contents(store: &Store, id: i32) -> Option<(String, Vec<(i32, String)>)> {
    store.load(id).map(|n| {
        let mut cells: Vec<(i32, String)> =
            n.texts().map(|t| (t.id(), t.text().to_string())).collect();
        cells.sort();
        (n.name().to_string(), cells)
    })
}

fn seeded() -> Store {
    let mut store = Store::new();
    store.create("A".to_string()).unwrap();
    store.create("B".to_string()).unwrap();
    store.add_cell(1).unwrap();
    store.add_cell(1).unwrap();
    store.add_cell(2).unwrap();
    store
}

#[test]
fn save_statements_are_name_cells_then_removal() {
    let plan = snapshot(4, "Four", &[(8, "x"), (6, "y")]).save_statements().unwrap();
    assert_eq!(plan.len(), 4);
    match &plan[0] {
        Statement::UpsertNotebook { id, name } => {
            assert_eq!((*id, name.as_str()), (4, "Four"));
        }
        other => panic!("unexpected first statement: {:?}", other),
    }
    match &plan[1] {
        Statement::UpsertCell { id, notebook_id, text } => {
            assert_eq!((*id, *notebook_id, text.as_str()), (8, 4, "x"));
        }
        other => panic!("unexpected second statement: {:?}", other),
    }
    match &plan[2] {
        Statement::UpsertCell { id, notebook_id, text } => {
            assert_eq!((*id, *notebook_id, text.as_str()), (6, 4, "y"));
        }
        other => panic!("unexpected third statement: {:?}", other),
    }
    match &plan[3] {
        Statement::DeleteOtherCells { notebook_id, kept } => {
            assert_eq!(*notebook_id, 4);
            assert_eq!(kept, &vec![8, 6]);
        }
        other => panic!("unexpected last statement: {:?}", other),
    }
}

#[test]
fn save_statements_of_an_empty_notebook() {
    let plan = snapshot(4, "Four", &[]).save_statements().unwrap();
    assert_eq!(plan.len(), 2);
    assert!(matches!(&plan[0], Statement::UpsertNotebook { id: 4, .. }));
    match &plan[1] {
        Statement::DeleteOtherCells { notebook_id, kept } => {
            assert_eq!(*notebook_id, 4);
            assert!(kept.is_empty());
        }
        other => panic!("unexpected last statement: {:?}", other),
    }
}

#[test]
fn save_statements_refuse_a_repeated_cell_id() {
    let plan = snapshot(4, "Four", &[(8, "x"), (8, "y")]).save_statements();
    assert_eq!(plan.err(), Some(Error::StoreError));
}

#[test]
fn running_the_plan_is_saving() {
    let notebook = snapshot(1, "Renamed", &[(2, "two"), (3, "moved"), (50, "new")]);
    let mut saved = seeded();
    let mut ran = seeded();
    assert_eq!(saved.save(&notebook), Ok(()));
    assert_eq!(ran.run(&notebook.save_statements().unwrap()), Ok(()));
    for id in [1, 2, 3] {
        assert_eq!(contents(&saved, id), contents(&ran, id));
    }
    assert_eq!(
        contents(&ran, 1),
        Some((
            "Renamed".to_string(),
            vec![(2, "two".to_string()), (3, "moved".to_string()), (50, "new".to_string())]
        ))
    );
    assert_eq!(contents(&ran, 2), Some(("B".to_string(), vec![])));
    assert_eq!(saved.add_cell(1).unwrap().id(), 51);
    assert_eq!(ran.add_cell(1).unwrap().id(), 51);
}

#[test]
fn a_refused_plan_changes_nothing() {
    let mut store = seeded();
    let plan = vec![
        Statement::UpsertNotebook { id: 1, name: "Renamed".to_string() },
        Statement::UpsertCell { id: 1, notebook_id: 1, text: "changed".to_string() },
        Statement::UpsertCell { id: 9, notebook_id: 77, text: "orphan".to_string() },
        Statement::DeleteOtherCells { notebook_id: 1, kept: vec![] },
    ];
    assert_eq!(store.run(&plan), Err(Error::StoreError));
    assert_eq!(
        contents(&store, 1),
        Some((
            "A".to_string(),
            vec![(1, "New Text Box...".to_string()), (2, "New Text Box...".to_string())]
        ))
    );
    assert_eq!(store.add_cell(1).unwrap().id(), 4);
}

#[test]
fn a_plan_that_takes_a_name_in_use_is_refused() {
    let mut store = seeded();
    let plan = snapshot(2, "A", &[]).save_statements().unwrap();
    assert_eq!(store.run(&plan), Err(Error::StoreError));
    assert_eq!(store.find_by_name("A"), Some(1));
    assert_eq!(store.find_by_name("B"), Some(2));
    assert_eq!(store.load(2).unwrap().texts().count(), 1);
}

#[test]
fn running_an_empty_plan_changes_nothing() {
    let mut store = seeded();
    assert_eq!(store.run(&Vec::new()), Ok(()));
    assert_eq!(store.load(1).unwrap().texts().count(), 2);
    assert_eq!(store.find_by_name("B"), Some(2));
}

#[test]
fn execute_upserts_a_notebook() {
    let mut store = seeded();
    let rename = Statement::UpsertNotebook { id: 2, name: "Bee".to_string() };
    assert_eq!(store.execute(&rename), Ok(()));
    assert_eq!(store.find_by_name("Bee"), Some(2));
    assert_eq!(store.find_by_name("B"), None);
    let insert = Statement::UpsertNotebook { id: 9, name: "Nine".to_string() };
    assert_eq!(store.execute(&insert), Ok(()));
    assert_eq!(store.find_by_name("Nine"), Some(9));
    assert_eq!(store.create("Ten".to_string()), Ok(10));
    let keep = Statement::UpsertNotebook { id: 9, name: "Nine".to_string() };
    assert_eq!(store.execute(&keep), Ok(()));
    let clash = Statement::UpsertNotebook { id: 9, name: "A".to_string() };
    assert_eq!(store.execute(&clash), Err(Error::StoreError));
    assert_eq!(store.find_by_name("Nine"), Some(9));
    assert_eq!(store.find_by_name("A"), Some(1));
}

#[test]
fn execute_upserts_a_cell() {
    let mut store = seeded();
    let change = Statement::UpsertCell { id: 3, notebook_id: 1, text: "moved".to_string() };
    assert_eq!(store.execute(&change), Ok(()));
    assert_eq!(contents(&store, 2), Some(("B".to_string(), vec![])));
    let insert = Statement::UpsertCell { id: 20, notebook_id: 2, text: "fresh".to_string() };
    assert_eq!(store.execute(&insert), Ok(()));
    assert_eq!(contents(&store, 2), Some(("B".to_string(), vec![(20, "fresh".to_string())])));
    assert_eq!(store.add_cell(2).unwrap().id(), 21);
    let orphan = Statement::UpsertCell { id: 30, notebook_id: 5, text: "none".to_string() };
    assert_eq!(store.execute(&orphan), Err(Error::StoreError));
    assert!(!store.delete_cell(30));
}

#[test]
fn execute_deletes_the_other_cells_of_one_notebook() {
    let mut store = seeded();
    let delete = Statement::DeleteOtherCells { notebook_id: 1, kept: vec![2, 3] };
    assert_eq!(store.execute(&delete), Ok(()));
    assert_eq!(
        contents(&store, 1),
        Some(("A".to_string(), vec![(2, "New Text Box...".to_string())]))
    );
    assert_eq!(
        contents(&store, 2),
        Some(("B".to_string(), vec![(3, "New Text Box...".to_string())]))
    );
}
