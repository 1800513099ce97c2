//! The notebook store held in memory: the two relations as lists of rows,
//! with every operation proved against the state in `model`.

use vstd::prelude::*;
use vstd::string::StringExecFns;
use crate::error::Error;
use crate::plan::{statement_views, Statement};
use crate::model::{
    ids_of, is_stale, lemma_ids_of, next_after, placeholder_text, CellRecord, StatementView,
    StoreView,
};
use crate::notebook::{
    distinct_ids, has_id, lemma_distinct_first, lemma_has_id, Notebook, TextFile, TextFileView,
};
use crate::rows::{
    as_map, has_key, keys_distinct, lemma_key_has_row, lemma_push_row, lemma_remove_row,
    lemma_row_in_map, lemma_update_row,
};

verus! {

struct NotebookRow {
    id: i32,
    name: String,
}

struct CellRow {
    id: i32,
    notebook_id: i32,
    text: String,
}

/// The store: the rows of `notebooks` and of `cells` in the order in which
/// they were inserted, and the two sequences.
pub struct Store {
    notebooks: Vec<NotebookRow>,
    cells: Vec<CellRow>,
    next_notebook_id: i64,
    next_cell_id: i64,
}

spec fn notebook_rows(rows: Seq<NotebookRow>) -> Seq<(i32, Seq<char>)> {
    Seq::new(rows.len(), |i: int| (rows[i].id, rows[i].name@))
}

spec fn cell_rows(rows: Seq<CellRow>) -> Seq<(i32, CellRecord)> {
    Seq::new(
        rows.len(),
        |i: int| (rows[i].id, CellRecord { notebook_id: rows[i].notebook_id, text: rows[i].text@ }),
    )
}

impl View for Store {
    type V = StoreView;

    closed spec fn view(&self) -> StoreView {
        StoreView {
            notebooks: as_map(notebook_rows(self.notebooks@)),
            cells: as_map(cell_rows(self.cells@)),
            next_notebook_id: self.next_notebook_id as int,
            next_cell_id: self.next_cell_id as int,
        }
    }
}

/// The body that a new cell gets.
pub fn new_cell_text() -> (text: String)
    ensures
        text@ == placeholder_text(),
{
    String::from_str("New Text Box...")
}

/// Whether `id` is among `ids`.
fn contains_id(ids: &Vec<i32>, id: i32) -> (found: bool)
    ensures
        found == ids@.contains(id),
{
    let mut i: usize = 0;
    while i < ids.len()
        invariant
            i <= ids.len(),
            forall|j: int| 0 <= j < i ==> ids[j] != id,
        decreases ids.len() - i,
    {
        if ids[i] == id {
            return true;
        }
        i += 1;
    }
    false
}

impl Store {
    /// No identifier occurs in two rows of a relation, and the state meets
    /// the constraints of the layout.
    pub closed spec fn wf(&self) -> bool {
        &&& self.rows_distinct()
        &&& self@.wf()
    }

    /// No identifier occurs in two rows of a relation.
    spec fn rows_distinct(&self) -> bool {
        &&& keys_distinct(notebook_rows(self.notebooks@))
        &&& keys_distinct(cell_rows(self.cells@))
    }

    /// The state of a well-formed store meets the constraints of the layout.
    pub proof fn lemma_wf_view(&self)
        requires
            self.wf(),
        ensures
            self@.wf(),
    {
    }

    /// An empty store whose sequences start at 1.
    pub fn new() -> (store: Self)
        ensures
            store.wf(),
            store@ == StoreView::empty(1, 1),
    {
        Self::with_sequences(1, 1)
    }

    /// An empty store whose sequences start at the given identifiers.
    pub fn with_sequences(next_notebook_id: i32, next_cell_id: i32) -> (store: Self)
        ensures
            store.wf(),
            store@ == StoreView::empty(next_notebook_id as int, next_cell_id as int),
    {
        let store = Store {
            notebooks: Vec::new(),
            cells: Vec::new(),
            next_notebook_id: next_notebook_id as i64,
            next_cell_id: next_cell_id as i64,
        };
        assert(store@.notebooks =~= Map::empty());
        assert(store@.cells =~= Map::empty());
        store
    }

    /// The row of notebook `id`, if there is one.
    fn notebook_row(&self, id: i32) -> (found: Option<usize>)
        ensures
            match found {
                Some(i) => i < self.notebooks.len() && self.notebooks[i as int].id == id
                    && self@.notebooks.dom().contains(id),
                None => !self@.notebooks.dom().contains(id),
            },
    {
        let mut i: usize = 0;
        while i < self.notebooks.len()
            invariant
                i <= self.notebooks.len(),
                forall|j: int| 0 <= j < i ==> self.notebooks[j].id != id,
            decreases self.notebooks.len() - i,
        {
            if self.notebooks[i].id == id {
                assert(notebook_rows(self.notebooks@)[i as int].0 == id);
                return Some(i);
            }
            i += 1;
        }
        proof {
            if has_key(notebook_rows(self.notebooks@), id) {
                let j = lemma_key_has_row(notebook_rows(self.notebooks@), id);
                assert(self.notebooks[j].id == id);
            }
        }
        None
    }

    /// The row of cell `id`, if there is one.
    fn cell_row(&self, id: i32) -> (found: Option<usize>)
        ensures
            match found {
                Some(i) => i < self.cells.len() && self.cells[i as int].id == id
                    && self@.cells.dom().contains(id),
                None => !self@.cells.dom().contains(id),
            },
    {
        let mut i: usize = 0;
        while i < self.cells.len()
            invariant
                i <= self.cells.len(),
                forall|j: int| 0 <= j < i ==> self.cells[j].id != id,
            decreases self.cells.len() - i,
        {
            if self.cells[i].id == id {
                assert(cell_rows(self.cells@)[i as int].0 == id);
                return Some(i);
            }
            i += 1;
        }
        proof {
            if has_key(cell_rows(self.cells@), id) {
                let j = lemma_key_has_row(cell_rows(self.cells@), id);
                assert(self.cells[j].id == id);
            }
        }
        None
    }

    /// The first row whose notebook is called `name`, if there is one.
    fn name_row(&self, name: &String) -> (found: Option<usize>)
        ensures
            match found {
                Some(i) => i < self.notebooks.len() && self.notebooks[i as int].name@ == name@,
                None => !self@.name_taken(name@),
            },
    {
        let mut i: usize = 0;
        while i < self.notebooks.len()
            invariant
                i <= self.notebooks.len(),
                forall|j: int| 0 <= j < i ==> self.notebooks[j].name@ != name@,
            decreases self.notebooks.len() - i,
        {
            if self.notebooks[i].name == *name {
                return Some(i);
            }
            i += 1;
        }
        proof {
            if self@.name_taken(name@) {
                let n = self@.id_of_name(name@);
                let j = lemma_key_has_row(notebook_rows(self.notebooks@), n);
                assert(self.notebooks[j].name@ == name@);
            }
        }
        None
    }

    /// Looks a notebook up by its name.
    pub fn find_by_name(&self, name: &str) -> (found: Option<i32>)
        requires
            self.wf(),
        ensures
            found is Some <==> self@.name_taken(name@),
            found is Some ==> found->0 == self@.id_of_name(name@) && self@.names(found->0, name@),
    {
        let wanted = name.to_owned();
        match self.name_row(&wanted) {
            Some(i) => {
                proof {
                    lemma_row_in_map(notebook_rows(self.notebooks@), i as int);
                    assert(self@.names(self.notebooks[i as int].id, name@));
                }
                Some(self.notebooks[i].id)
            },
            None => None,
        }
    }

    /// Creates an empty notebook called `name` and returns its identifier,
    /// the next of the sequence. Fails with `AlreadyExists` where a notebook
    /// has that name, and with `StoreError` where the sequence is used up;
    /// the store is then as before.
    pub fn create(&mut self, name: String) -> (created: Result<i32, Error>)
        requires
            old(self).wf(),
        ensures
            final(self).wf(),
            old(self)@.name_taken(name@) ==> created == Err::<i32, Error>(Error::AlreadyExists)
                && final(self)@ == old(self)@,
            !old(self)@.name_taken(name@) && !old(self)@.can_issue_notebook() ==> created
                == Err::<i32, Error>(Error::StoreError) && final(self)@ == old(self)@,
            !old(self)@.name_taken(name@) && old(self)@.can_issue_notebook() ==> created
                == Ok::<i32, Error>(old(self)@.next_notebook_id as i32) && final(self)@ == old(self)@.created(name@),
    {
        if let Some(i) = self.name_row(&name) {
            proof {
                lemma_row_in_map(notebook_rows(self.notebooks@), i as int);
                assert(self@.names(self.notebooks[i as int].id, name@));
            }
            return Err(Error::AlreadyExists);
        }
        if self.next_notebook_id > i32::MAX as i64 {
            return Err(Error::StoreError);
        }
        let id = self.next_notebook_id as i32;
        let ghost name_view = name@;
        self.notebooks.push(NotebookRow { id, name });
        self.next_notebook_id = self.next_notebook_id + 1;
        proof {
            let before = notebook_rows(old(self).notebooks@);
            assert(notebook_rows(self.notebooks@) =~= before.push((id, name_view)));
            assert(!has_key(before, id)) by {
                if has_key(before, id) {
                    assert(old(self)@.notebooks.dom().contains(id));
                }
            }
            lemma_push_row(before, id, name_view);
            assert(self@ == old(self)@.created(name_view));
            assert forall|a: i32, b: i32|
                self@.notebooks.dom().contains(a) && self@.notebooks.dom().contains(b)
                    && self@.notebooks[a] == self@.notebooks[b] implies a == b by {
                if a == id && b != id {
                    assert(old(self)@.names(b, name_view));
                }
                if b == id && a != id {
                    assert(old(self)@.names(a, name_view));
                }
            }
        }
        Ok(id)
    }

    /// Adds a cell with the placeholder body to notebook `notebook_id` and
    /// returns it with its identifier, the next of the sequence. Fails with
    /// `NotFound` where there is no such notebook, and with `StoreError`
    /// where the sequence is used up; the store is then as before.
    pub fn add_cell(&mut self, notebook_id: i32) -> (added: Result<TextFile, Error>)
        requires
            old(self).wf(),
        ensures
            final(self).wf(),
            !old(self)@.notebooks.dom().contains(notebook_id) ==> added is Err && added->Err_0
                == Error::NotFound && final(self)@ == old(self)@,
            old(self)@.notebooks.dom().contains(notebook_id) && !old(self)@.can_issue_cell()
                ==> added is Err && added->Err_0 == Error::StoreError && final(self)@ == old(self)@,
            old(self)@.notebooks.dom().contains(notebook_id) && old(self)@.can_issue_cell()
                ==> added is Ok && added->Ok_0@ == (TextFileView {
                id: old(self)@.next_cell_id as i32,
                text: placeholder_text(),
            }) && final(self)@ == old(self)@.with_new_cell(notebook_id),
    {
        if self.notebook_row(notebook_id).is_none() {
            return Err(Error::NotFound);
        }
        if self.next_cell_id > i32::MAX as i64 {
            return Err(Error::StoreError);
        }
        let id = self.next_cell_id as i32;
        self.cells.push(
            CellRow { id, notebook_id, text: new_cell_text() },
        );
        self.next_cell_id = self.next_cell_id + 1;
        proof {
            let before = cell_rows(old(self).cells@);
            let record = CellRecord { notebook_id: notebook_id, text: placeholder_text() };
            assert(cell_rows(self.cells@) =~= before.push((id, record)));
            assert(!has_key(before, id)) by {
                if has_key(before, id) {
                    assert(old(self)@.cells.dom().contains(id));
                }
            }
            lemma_push_row(before, id, record);
            assert(self@ == old(self)@.with_new_cell(notebook_id));
        }
        Ok(TextFile::new(id, new_cell_text()))
    }

    /// Removes cell `cell_id` and says whether there was such a cell.
    pub fn delete_cell(&mut self, cell_id: i32) -> (deleted: bool)
        requires
            old(self).wf(),
        ensures
            final(self).wf(),
            deleted == old(self)@.cells.dom().contains(cell_id),
            final(self)@ == old(self)@.without_cell(cell_id),
    {
        match self.cell_row(cell_id) {
            Some(i) => {
                self.cells.remove(i);
                proof {
                    let before = cell_rows(old(self).cells@);
                    assert(cell_rows(self.cells@) =~= before.remove(i as int));
                    lemma_row_in_map(before, i as int);
                    lemma_remove_row(before, i as int);
                    assert forall|c: i32| #[trigger]
                        self@.cells.dom().contains(c) implies self@.notebooks.dom().contains(
                        self@.cells[c].notebook_id,
                    ) && c < self@.next_cell_id by {
                        assert(old(self)@.cells.dom().contains(c));
                    }
                }
                true
            },
            None => {
                assert(self@.cells =~= self@.cells.remove(cell_id));
                false
            },
        }
    }

    /// Replaces the body of cell `cell_id`. Where there is no such cell, the
    /// store stays as it is.
    pub fn update_cell_text(&mut self, cell_id: i32, text: String)
        requires
            old(self).wf(),
        ensures
            final(self).wf(),
            final(self)@ == old(self)@.with_cell_text(cell_id, text@),
    {
        if let Some(i) = self.cell_row(cell_id) {
            let notebook_id = self.cells[i].notebook_id;
            let ghost record = CellRecord { notebook_id: notebook_id, text: text@ };
            self.cells.set(i, CellRow { id: cell_id, notebook_id, text });
            proof {
                let before = cell_rows(old(self).cells@);
                assert(cell_rows(self.cells@) =~= before.update(i as int, (cell_id, record)));
                lemma_row_in_map(before, i as int);
                lemma_update_row(before, i as int, record);
                assert(self@.cells == old(self)@.cells.insert(cell_id, record));
                assert forall|c: i32| #[trigger]
                    self@.cells.dom().contains(c) implies self@.notebooks.dom().contains(
                    self@.cells[c].notebook_id,
                ) by {
                    assert(old(self)@.cells.dom().contains(c));
                }
            }
        }
    }

    /// Reads notebook `id` with all its cells, each once, in the order of
    /// their rows. `None` where there is no such notebook.
    pub fn load(&self, id: i32) -> (loaded: Option<Notebook>)
        requires
            self.wf(),
        ensures
            loaded is Some <==> self@.notebooks.dom().contains(id),
            loaded is Some ==> loaded->0@.id == id && self@.is_snapshot(loaded->0@),
    {
        let at = match self.notebook_row(id) {
            Some(at) => at,
            None => {
                return None;
            },
        };
        let mut texts: Vec<TextFile> = Vec::new();
        let ghost mut source: Seq<int> = Seq::empty();
        let mut i: usize = 0;
        while i < self.cells.len()
            invariant
                i <= self.cells.len(),
                source.len() == texts.len(),
                forall|k: int| 0 <= k < source.len() ==> 0 <= #[trigger] source[k] < i,
                forall|k: int, l: int| 0 <= k < l < source.len() ==> source[k] < source[l],
                forall|k: int|
                    #![trigger source[k]]
                    0 <= k < source.len() ==> self.cells[source[k]].notebook_id == id
                        && texts[k]@ == (TextFileView {
                        id: self.cells[source[k]].id,
                        text: self.cells[source[k]].text@,
                    }),
                forall|j: int|
                    0 <= j < i && (#[trigger] self.cells[j]).notebook_id == id ==> exists|k: int|
                        0 <= k < source.len() && source[k] == j,
            decreases self.cells.len() - i,
        {
            if self.cells[i].notebook_id == id {
                let ghost old_texts = texts@;
                texts.push(TextFile::new(self.cells[i].id, self.cells[i].text.clone()));
                proof {
                    let ghost before = source;
                    source = source.push(i as int);
                    assert forall|k: int|
                        #![trigger source[k]]
                        0 <= k < source.len() implies self.cells[source[k]].notebook_id == id
                        && texts[k]@ == (TextFileView {
                        id: self.cells[source[k]].id,
                        text: self.cells[source[k]].text@,
                    }) by {
                        if k < before.len() {
                            assert(texts[k] == old_texts[k]);
                            assert(source[k] == before[k]);
                        }
                    }
                    assert forall|j: int|
                        0 <= j < i + 1 && (#[trigger] self.cells[j]).notebook_id
                            == id implies exists|k: int|
                        0 <= k < source.len() && source[k] == j by {
                        if j < i {
                            let k = choose|k: int| 0 <= k < before.len() && before[k] == j;
                            assert(source[k] == j);
                        } else {
                            assert(source[before.len() as int] == j);
                        }
                    }
                }
            }
            i += 1;
        }
        let notebook = Notebook::new(id, self.notebooks[at].name.clone(), texts);
        proof {
            let rows = cell_rows(self.cells@);
            let views = notebook@.texts;
            lemma_row_in_map(notebook_rows(self.notebooks@), at as int);
            assert forall|k: int, l: int| 0 <= k < l < views.len() implies views[k].id
                != views[l].id by {
                assert(views[k] == texts[k]@ && views[l] == texts[l]@);
                assert(rows[source[k]].0 != rows[source[l]].0);
            }
            assert forall|cell: TextFileView| views.to_set().contains(cell) <==> self@.owns(
                id,
                cell,
            ) by {
                if views.to_set().contains(cell) {
                    let k = choose|k: int| 0 <= k < views.len() && views[k] == cell;
                    assert(views[k] == texts[k]@);
                    lemma_row_in_map(rows, source[k]);
                }
                if self@.owns(id, cell) {
                    let j = lemma_key_has_row(rows, cell.id);
                    assert(self.cells[j].notebook_id == id);
                    let k = choose|k: int| 0 <= k < source.len() && source[k] == j;
                    assert(views[k] == texts[k]@);
                    assert(views[k] == cell);
                    assert(views.contains(cell));
                }
            }
            assert(views.to_set() =~= self@.cells_of(id));
        }
        Some(notebook)
    }

    /// Whether a notebook other than `id` is called `name`.
    fn name_taken_by_other(&self, id: i32, name: &String) -> (taken: bool)
        requires
            self.rows_distinct(),
        ensures
            taken == self@.name_of_other(id, name@),
    {
        let mut i: usize = 0;
        while i < self.notebooks.len()
            invariant
                i <= self.notebooks.len(),
                self.rows_distinct(),
                forall|j: int|
                    0 <= j < i ==> self.notebooks[j].id == id || self.notebooks[j].name@ != name@,
            decreases self.notebooks.len() - i,
        {
            if self.notebooks[i].id != id && self.notebooks[i].name == *name {
                proof {
                    lemma_row_in_map(notebook_rows(self.notebooks@), i as int);
                    assert(self@.names(self.notebooks[i as int].id, name@));
                }
                return true;
            }
            i += 1;
        }
        proof {
            if self@.name_of_other(id, name@) {
                let n = choose|n: i32| n != id && self@.names(n, name@);
                let j = lemma_key_has_row(notebook_rows(self.notebooks@), n);
                assert(self.notebooks[j].id == n);
            }
        }
        false
    }

    /// Sets the name of notebook `id`, which is inserted where it is absent.
    fn upsert_notebook(&mut self, id: i32, name: String)
        requires
            old(self).rows_distinct(),
        ensures
            final(self).rows_distinct(),
            final(self)@ == old(self)@.with_notebook(id, name@),
    {
        let ghost before = notebook_rows(self.notebooks@);
        let ghost name_view = name@;
        if id as i64 >= self.next_notebook_id {
            self.next_notebook_id = id as i64 + 1;
        }
        match self.notebook_row(id) {
            Some(i) => {
                self.notebooks.set(i, NotebookRow { id, name });
                proof {
                    assert(notebook_rows(self.notebooks@) =~= before.update(
                        i as int,
                        (id, name_view),
                    ));
                    lemma_update_row(before, i as int, name_view);
                }
            },
            None => {
                self.notebooks.push(NotebookRow { id, name });
                proof {
                    assert(notebook_rows(self.notebooks@) =~= before.push((id, name_view)));
                    lemma_push_row(before, id, name_view);
                }
            },
        }
    }

    /// Sets the owner and the body of cell `id`, which is inserted where it
    /// is absent.
    fn upsert_cell(&mut self, id: i32, notebook_id: i32, text: String)
        requires
            old(self).rows_distinct(),
        ensures
            final(self).rows_distinct(),
            final(self)@ == old(self)@.with_cell(id, notebook_id, text@),
    {
        let ghost before = cell_rows(self.cells@);
        let ghost record = CellRecord { notebook_id: notebook_id, text: text@ };
        if id as i64 >= self.next_cell_id {
            self.next_cell_id = id as i64 + 1;
        }
        match self.cell_row(id) {
            Some(i) => {
                self.cells.set(i, CellRow { id, notebook_id, text });
                proof {
                    assert(cell_rows(self.cells@) =~= before.update(i as int, (id, record)));
                    lemma_update_row(before, i as int, record);
                }
            },
            None => {
                self.cells.push(CellRow { id, notebook_id, text });
                proof {
                    assert(cell_rows(self.cells@) =~= before.push((id, record)));
                    lemma_push_row(before, id, record);
                }
            },
        }
    }

    /// Removes every cell of notebook `owner` whose identifier is not among
    /// `kept_ids`.
    fn delete_stale(&mut self, owner: i32, kept_ids: &Vec<i32>)
        requires
            old(self).rows_distinct(),
        ensures
            final(self).rows_distinct(),
            final(self)@ == old(self)@.without_stale(owner, kept_ids@),
    {
        let ghost base = self@.cells;
        let ghost kept = kept_ids@;
        let mut i: usize = 0;
        while i < self.cells.len()
            invariant
                i <= self.cells.len(),
                kept == kept_ids@,
                self.rows_distinct(),
                self@.notebooks == old(self)@.notebooks,
                self@.next_notebook_id == old(self)@.next_notebook_id,
                self@.next_cell_id == old(self)@.next_cell_id,
                forall|c: i32| #[trigger]
                    self@.cells.dom().contains(c) ==> base.dom().contains(c) && self@.cells[c]
                        == base[c],
                forall|c: i32|
                    base.dom().contains(c) && !is_stale(base[c], c, owner, kept)
                        ==> #[trigger] self@.cells.dom().contains(c),
                forall|j: int|
                    0 <= j < i ==> !is_stale(
                        (#[trigger] cell_rows(self.cells@)[j]).1,
                        cell_rows(self.cells@)[j].0,
                        owner,
                        kept,
                    ),
            decreases self.cells.len() - i,
        {
            let ghost rows = cell_rows(self.cells@);
            let ghost prev = self@.cells;
            proof {
                lemma_row_in_map(rows, i as int);
            }
            if self.cells[i].notebook_id == owner && !contains_id(kept_ids, self.cells[i].id) {
                self.cells.remove(i);
                proof {
                    assert(cell_rows(self.cells@) =~= rows.remove(i as int));
                    lemma_remove_row(rows, i as int);
                    assert(is_stale(rows[i as int].1, rows[i as int].0, owner, kept));
                    assert forall|c: i32| #[trigger]
                        self@.cells.dom().contains(c) implies base.dom().contains(c)
                        && self@.cells[c] == base[c] by {
                        assert(prev.dom().contains(c));
                    }
                    assert forall|c: i32|
                        base.dom().contains(c) && !is_stale(
                            base[c],
                            c,
                            owner,
                            kept,
                        ) implies #[trigger] self@.cells.dom().contains(c) by {
                        assert(prev.dom().contains(c));
                        assert(prev[rows[i as int].0] == base[rows[i as int].0]);
                        assert(c != rows[i as int].0);
                    }
                    assert forall|j: int| 0 <= j < i implies !is_stale(
                        (#[trigger] cell_rows(self.cells@)[j]).1,
                        cell_rows(self.cells@)[j].0,
                        owner,
                        kept,
                    ) by {
                        assert(cell_rows(self.cells@)[j] == rows[j]);
                    }
                }
            } else {
                assert(!is_stale(rows[i as int].1, rows[i as int].0, owner, kept));
                i += 1;
            }
        }
        proof {
            let rows = cell_rows(self.cells@);
            assert forall|c: i32| self@.cells.dom().contains(c) implies !is_stale(
                base[c],
                c,
                owner,
                kept,
            ) by {
                let j = lemma_key_has_row(rows, c);
                assert(!is_stale(rows[j].1, rows[j].0, owner, kept));
            }
            assert(self@.cells =~= old(self)@.without_stale(owner, kept).cells);
        }
    }

    /// Makes the store match `notebook`: its name is set, each of its cells
    /// is written and made its own, and every other cell that it owned is
    /// removed. Refused as a whole, with `StoreError`, where another notebook
    /// has the name or two of the cells share an identifier; the store is
    /// then as before.
    pub fn save(&mut self, notebook: &Notebook) -> (saved: Result<(), Error>)
        requires
            old(self).wf(),
        ensures
            final(self).wf(),
            old(self)@.save_refused(notebook@) ==> saved == Err::<(), Error>(Error::StoreError)
                && final(self)@ == old(self)@,
            !old(self)@.save_refused(notebook@) ==> saved == Ok::<(), Error>(()) && final(self)@
                == old(self)@.saved(notebook@),
    {
        let name = notebook.name().to_owned();
        if self.name_taken_by_other(notebook.id(), &name) || !notebook.has_distinct_ids() {
            return Err(Error::StoreError);
        }
        let id = notebook.id();
        let ghost cells = notebook@.texts;
        self.upsert_notebook(id, name);
        let mut kept: Vec<i32> = Vec::new();
        let count = notebook.text_count();
        let mut k: usize = 0;
        while k < count
            invariant
                k <= count == cells.len(),
                kept@ == ids_of(cells.take(k as int)),
                cells == notebook@.texts,
                id == notebook@.id,
                distinct_ids(cells),
                self.rows_distinct(),
                self@.notebooks == old(self)@.saved(notebook@).notebooks,
                self@.next_notebook_id == old(self)@.saved(notebook@).next_notebook_id,
                self@.next_cell_id == next_after(old(self)@.next_cell_id, cells.take(k as int)),
                self@.next_cell_id <= i32::MAX + 1,
                forall|c: i32| #[trigger]
                    self@.cells.dom().contains(c) <==> old(self)@.cells.dom().contains(c) || (
                    exists|j: int| 0 <= j < k && #[trigger] cells[j].id == c),
                forall|j: int|
                    0 <= j < k ==> self@.cells[(#[trigger] cells[j]).id] == (CellRecord {
                        notebook_id: id,
                        text: cells[j].text,
                    }),
                forall|c: i32| #[trigger]
                    self@.cells.dom().contains(c) && !(exists|j: int|
                        0 <= j < k && #[trigger] cells[j].id == c) ==> self@.cells[c] == old(self)@.cells[c],
            decreases count - k,
        {
            let cell = notebook.cell(k);
            let ghost before = self@;
            self.upsert_cell(cell.id(), id, cell.text().to_owned());
            kept.push(cell.id());
            proof {
                let grown = cells.take(k as int + 1);
                assert(kept@ =~= ids_of(grown));
                assert(grown.drop_last() =~= cells.take(k as int));
                assert(grown.last() == cells[k as int]);
                assert forall|c: i32| #[trigger]
                    self@.cells.dom().contains(c) <==> old(self)@.cells.dom().contains(c) || (
                    exists|j: int| 0 <= j < k + 1 && #[trigger] cells[j].id == c) by {
                    if c == cells[k as int].id {
                        assert(cells[k as int].id == c);
                    }
                    if before.cells.dom().contains(c) && !old(self)@.cells.dom().contains(c) {
                        let j = choose|j: int| 0 <= j < k && #[trigger] cells[j].id == c;
                        assert(cells[j].id == c);
                    }
                }
                assert forall|j: int| 0 <= j < k + 1 implies self@.cells[(#[trigger] cells[j]).id]
                    == (CellRecord { notebook_id: id, text: cells[j].text }) by {
                    if j < k {
                        assert(cells[j].id != cells[k as int].id);
                    }
                }
                assert forall|c: i32| #[trigger]
                    self@.cells.dom().contains(c) && !(exists|j: int|
                        0 <= j < k + 1 && #[trigger] cells[j].id == c) implies self@.cells[c]
                    == old(self)@.cells[c] by {
                    assert(c != cells[k as int].id);
                    assert(before.cells.dom().contains(c));
                    if exists|j: int| 0 <= j < k && #[trigger] cells[j].id == c {
                        let j = choose|j: int| 0 <= j < k && #[trigger] cells[j].id == c;
                        assert(cells[j].id == c);
                    }
                }
            }
            k += 1;
        }
        let ghost base = self@;
        self.delete_stale(id, &kept);
        proof {
            let target = old(self)@.saved(notebook@);
            assert(cells.take(count as int) =~= cells);
            assert forall|c: i32| kept@.contains(c) <==> has_id(cells, c) by {
                lemma_ids_of(cells, c);
            }
            assert forall|c: i32| self@.cells.dom().contains(c) <==> target.cells.dom().contains(
                c,
            ) by {
                lemma_has_id(cells, c);
                if has_id(cells, c) {
                    let j = choose|j: int| 0 <= j < cells.len() && #[trigger] cells[j].id == c;
                    assert(0 <= j < k && cells[j].id == c);
                    assert(base.cells[cells[j].id].notebook_id == id);
                    assert(base.cells.dom().contains(c));
                } else {
                    assert(!(exists|j: int| 0 <= j < k && #[trigger] cells[j].id == c));
                    if base.cells.dom().contains(c) {
                        assert(base.cells[c] == old(self)@.cells[c]);
                    }
                    if old(self)@.cells.dom().contains(c) {
                        assert(base.cells.dom().contains(c));
                    }
                }
            }
            assert forall|c: i32| self@.cells.dom().contains(c) implies self@.cells[c]
                == target.cells[c] by {
                lemma_has_id(cells, c);
                if has_id(cells, c) {
                    let j = choose|j: int| 0 <= j < cells.len() && #[trigger] cells[j].id == c;
                    lemma_distinct_first(cells, j);
                    assert(base.cells[cells[j].id].text == cells[j].text);
                } else {
                    assert(!(exists|j: int| 0 <= j < k && #[trigger] cells[j].id == c));
                    assert(base.cells.dom().contains(c));
                    assert(base.cells[c] == old(self)@.cells[c]);
                }
            }
            assert(self@.cells =~= target.cells);
            old(self)@.lemma_saved_wf(notebook@);
        }
        Ok(())
    }

    /// A second store with the same rows and sequences.
    fn duplicate(&self) -> (copy: Store)
        requires
            self.wf(),
        ensures
            copy.wf(),
            copy@ == self@,
    {
        let mut notebooks: Vec<NotebookRow> = Vec::new();
        let mut i: usize = 0;
        while i < self.notebooks.len()
            invariant
                i <= self.notebooks.len(),
                notebooks.len() == i,
                forall|j: int|
                    0 <= j < i ==> (#[trigger] notebooks[j]).id == self.notebooks[j].id
                        && notebooks[j].name@ == self.notebooks[j].name@,
            decreases self.notebooks.len() - i,
        {
            notebooks.push(
                NotebookRow { id: self.notebooks[i].id, name: self.notebooks[i].name.clone() },
            );
            i += 1;
        }
        let mut cells: Vec<CellRow> = Vec::new();
        let mut i: usize = 0;
        while i < self.cells.len()
            invariant
                i <= self.cells.len(),
                cells.len() == i,
                forall|j: int|
                    0 <= j < i ==> (#[trigger] cells[j]).id == self.cells[j].id
                        && cells[j].notebook_id == self.cells[j].notebook_id && cells[j].text@
                        == self.cells[j].text@,
            decreases self.cells.len() - i,
        {
            cells.push(
                CellRow {
                    id: self.cells[i].id,
                    notebook_id: self.cells[i].notebook_id,
                    text: self.cells[i].text.clone(),
                },
            );
            i += 1;
        }
        let copy = Store {
            notebooks,
            cells,
            next_notebook_id: self.next_notebook_id,
            next_cell_id: self.next_cell_id,
        };
        proof {
            assert(notebook_rows(copy.notebooks@) =~= notebook_rows(self.notebooks@));
            assert(cell_rows(copy.cells@) =~= cell_rows(self.cells@));
        }
        copy
    }

    /// Applies one statement. Refused with `StoreError` where it would give a
    /// notebook the name of another, or a cell an owner that does not exist;
    /// the store is then as before.
    pub fn execute(&mut self, statement: &Statement) -> (done: Result<(), Error>)
        requires
            old(self).wf(),
        ensures
            final(self).wf(),
            old(self)@.refuses(statement@) ==> done == Err::<(), Error>(Error::StoreError)
                && final(self)@ == old(self)@,
            !old(self)@.refuses(statement@) ==> done == Ok::<(), Error>(()) && final(self)@
                == old(self)@.after(statement@),
    {
        match statement {
            Statement::UpsertNotebook { id, name } => {
                assert(statement@ == (StatementView::UpsertNotebook { id: *id, name: name@ }));
                if self.name_taken_by_other(*id, name) {
                    return Err(Error::StoreError);
                }
                self.upsert_notebook(*id, name.clone());
            },
            Statement::UpsertCell { id, notebook_id, text } => {
                if self.notebook_row(*notebook_id).is_none() {
                    return Err(Error::StoreError);
                }
                self.upsert_cell(*id, *notebook_id, text.clone());
            },
            Statement::DeleteOtherCells { notebook_id, kept } => {
                self.delete_stale(*notebook_id, kept);
            },
        }
        proof {
            old(self)@.lemma_after_wf(statement@);
        }
        Ok(())
    }

    /// Applies the statements of `plan` in order as one transaction: all of
    /// them, or none where the store refuses one.
    pub fn run(&mut self, plan: &Vec<Statement>) -> (done: Result<(), Error>)
        requires
            old(self).wf(),
        ensures
            final(self).wf(),
            old(self)@.ran(statement_views(plan@)) is None ==> done == Err::<(), Error>(
                Error::StoreError,
            ) && final(self)@ == old(self)@,
            old(self)@.ran(statement_views(plan@)) is Some ==> done == Ok::<(), Error>(())
                && final(self)@ == old(self)@.ran(statement_views(plan@))->0,
    {
        let ghost views = statement_views(plan@);
        let mut work = self.duplicate();
        let mut k: usize = 0;
        assert(views.skip(0) =~= views);
        while k < plan.len()
            invariant
                k <= plan.len(),
                views == statement_views(plan@),
                *self == *old(self),
                self.wf(),
                work.wf(),
                old(self)@.ran(views) == work@.ran(views.skip(k as int)),
            decreases plan.len() - k,
        {
            let ghost rest = views.skip(k as int);
            proof {
                assert(rest[0] == plan[k as int]@);
                assert(rest.skip(1) =~= views.skip(k as int + 1));
            }
            if work.execute(&plan[k]).is_err() {
                return Err(Error::StoreError);
            }
            k += 1;
        }
        *self = work;
        Ok(())
    }
}

impl Notebook {
    /// Reads notebook `id` from `store`, as `Store::load` does.
    pub fn get_from_id(store: &Store, id: i32) -> (loaded: Option<Self>)
        requires
            store.wf(),
        ensures
            loaded is Some <==> store@.notebooks.dom().contains(id),
            loaded is Some ==> loaded->0@.id == id && store@.is_snapshot(loaded->0@),
    {
        store.load(id)
    }

    /// Makes `store` match this notebook, as `Store::save` does.
    pub fn save(&self, store: &mut Store) -> (saved: Result<(), Error>)
        requires
            old(store).wf(),
        ensures
            final(store).wf(),
            old(store)@.save_refused(self@) ==> saved == Err::<(), Error>(Error::StoreError)
                && final(store)@ == old(store)@,
            !old(store)@.save_refused(self@) ==> saved == Ok::<(), Error>(()) && final(store)@
                == old(store)@.saved(self@),
    {
        store.save(self)
    }
}

} // verus!
