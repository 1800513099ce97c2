//! The persisted layout as mathematics: two relations, `notebooks` keyed by
//! identifier with a unique name, and `cells` keyed by identifier with the
//! notebook that owns each, and the two sequences that issue identifiers.
//! Every operation of the store is a function on this state.

use vstd::prelude::*;
use crate::notebook::{
    distinct_ids, first_with_id, has_id, lemma_first_with_id_is_first, lemma_has_id, text_of,
    NotebookView, TextFileView,
};

verus! {

/// A row of `cells` without its key: the owning notebook and the body.
pub struct CellRecord {
    pub notebook_id: i32,
    pub text: Seq<char>,
}

/// The state of the store.
pub struct StoreView {
    /// Notebook identifier to name.
    pub notebooks: Map<i32, Seq<char>>,
    /// Cell identifier to owner and body.
    pub cells: Map<i32, CellRecord>,
    /// The identifier that the next new notebook gets.
    pub next_notebook_id: int,
    /// The identifier that the next new cell gets.
    pub next_cell_id: int,
}

/// One change of the store, as a save is made of: what it writes, without
/// the way in which it is sent.
pub enum StatementView {
    /// Set the name of notebook `id`; insert the notebook where it is absent.
    UpsertNotebook { id: i32, name: Seq<char> },
    /// Set the owner and the body of cell `id`; insert the cell where it is
    /// absent.
    UpsertCell { id: i32, notebook_id: i32, text: Seq<char> },
    /// Remove every cell of notebook `notebook_id` whose identifier is not
    /// among `kept`.
    DeleteOtherCells { notebook_id: i32, kept: Seq<i32> },
}

/// The body of a cell that was just added.
pub open spec fn placeholder_text() -> Seq<char> {
    "New Text Box..."@
}

/// The larger of a sequence's value and one more than `id`: where the
/// sequence stands once `id` is in use.
pub open spec fn raised(next: int, id: i32) -> int {
    if id >= next {
        id + 1
    } else {
        next
    }
}

/// The least value from `next` on that lies above every identifier of the
/// list: where a sequence stands once these identifiers are in use.
pub open spec fn next_after(next: int, cells: Seq<TextFileView>) -> int
    decreases cells.len(),
{
    if cells.len() == 0 {
        next
    } else {
        raised(next_after(next, cells.drop_last()), cells.last().id)
    }
}

/// The identifiers of the cells, in the same order.
pub open spec fn ids_of(cells: Seq<TextFileView>) -> Seq<i32> {
    Seq::new(cells.len(), |i: int| cells[i].id)
}

/// The cell `id` with record `record` belongs to notebook `notebook_id` and
/// `id` is not among `kept`: a save of that notebook removes it.
pub open spec fn is_stale(record: CellRecord, id: i32, notebook_id: i32, kept: Seq<i32>) -> bool {
    record.notebook_id == notebook_id && !kept.contains(id)
}

impl StoreView {
    /// The empty store whose sequences start at the given values.
    pub open spec fn empty(next_notebook_id: int, next_cell_id: int) -> StoreView {
        StoreView {
            notebooks: Map::empty(),
            cells: Map::empty(),
            next_notebook_id: next_notebook_id,
            next_cell_id: next_cell_id,
        }
    }

    /// The constraints of the layout: every cell belongs to a notebook that
    /// exists, no two notebooks share a name, and the sequences stand above
    /// every identifier in use, within the identifiers' range or one past it.
    pub open spec fn wf(self) -> bool {
        &&& forall|c: i32| #[trigger]
            self.cells.dom().contains(c) ==> self.notebooks.dom().contains(
                self.cells[c].notebook_id,
            )
        &&& forall|a: i32, b: i32|
            #![trigger self.notebooks.dom().contains(a), self.notebooks.dom().contains(b)]
            self.notebooks.dom().contains(a) && self.notebooks.dom().contains(b)
                && self.notebooks[a] == self.notebooks[b] ==> a == b
        &&& forall|n: i32| #[trigger] self.notebooks.dom().contains(n) ==> n < self.next_notebook_id
        &&& forall|c: i32| #[trigger] self.cells.dom().contains(c) ==> c < self.next_cell_id
        &&& i32::MIN <= self.next_notebook_id <= i32::MAX + 1
        &&& i32::MIN <= self.next_cell_id <= i32::MAX + 1
    }

    /// Notebook `id` exists and is called `name`.
    pub open spec fn names(self, id: i32, name: Seq<char>) -> bool {
        self.notebooks.dom().contains(id) && self.notebooks[id] == name
    }

    /// Some notebook is called `name`.
    pub open spec fn name_taken(self, name: Seq<char>) -> bool {
        exists|n: i32| self.names(n, name)
    }

    /// A notebook other than `id` is called `name`.
    pub open spec fn name_of_other(self, id: i32, name: Seq<char>) -> bool {
        exists|n: i32| n != id && self.names(n, name)
    }

    /// The notebook called `name`, where there is one.
    pub open spec fn id_of_name(self, name: Seq<char>) -> i32 {
        choose|n: i32| self.names(n, name)
    }

    /// Cell `cell.id` exists, belongs to notebook `id` and has the body of
    /// `cell`.
    pub open spec fn owns(self, id: i32, cell: TextFileView) -> bool {
        self.cells.dom().contains(cell.id) && self.cells[cell.id] == (CellRecord {
            notebook_id: id,
            text: cell.text,
        })
    }

    /// The cells of notebook `id`, as a set.
    pub open spec fn cells_of(self, id: i32) -> Set<TextFileView> {
        Set::new(|cell: TextFileView| self.owns(id, cell))
    }

    /// `notebook` is what a read of notebook `notebook.id` may return: its
    /// name and each of its cells once, in any order.
    pub open spec fn is_snapshot(self, notebook: NotebookView) -> bool {
        &&& self.names(notebook.id, notebook.name)
        &&& distinct_ids(notebook.texts)
        &&& notebook.texts.to_set() == self.cells_of(notebook.id)
    }

    /// The sequence of notebooks has an identifier left to issue.
    pub open spec fn can_issue_notebook(self) -> bool {
        self.next_notebook_id <= i32::MAX
    }

    /// The sequence of cells has an identifier left to issue.
    pub open spec fn can_issue_cell(self) -> bool {
        self.next_cell_id <= i32::MAX
    }

    /// The state after a notebook called `name` was created: it has the next
    /// identifier of the sequence, and no cells.
    pub open spec fn created(self, name: Seq<char>) -> StoreView {
        StoreView {
            notebooks: self.notebooks.insert(self.next_notebook_id as i32, name),
            next_notebook_id: self.next_notebook_id + 1,
            ..self
        }
    }

    /// A save of `notebook` is refused: another notebook has its name, or two
    /// of its cells share an identifier.
    pub open spec fn save_refused(self, notebook: NotebookView) -> bool {
        ||| self.name_of_other(notebook.id, notebook.name)
        ||| !distinct_ids(notebook.texts)
    }

    /// The state after `notebook` was saved: the notebook has the submitted
    /// name; each submitted cell exists with the submitted body and belongs
    /// to this notebook; every other cell that belonged to it is gone; the
    /// cells of other notebooks are as before.
    pub open spec fn saved(self, notebook: NotebookView) -> StoreView {
        StoreView {
            notebooks: self.notebooks.insert(notebook.id, notebook.name),
            cells: Map::new(
                |c: i32|
                    has_id(notebook.texts, c) || (self.cells.dom().contains(c)
                        && self.cells[c].notebook_id != notebook.id),
                |c: i32|
                    if has_id(notebook.texts, c) {
                        CellRecord { notebook_id: notebook.id, text: text_of(notebook.texts, c) }
                    } else {
                        self.cells[c]
                    },
            ),
            next_notebook_id: raised(self.next_notebook_id, notebook.id),
            next_cell_id: next_after(self.next_cell_id, notebook.texts),
        }
    }

    /// The state after the name of notebook `id` was set, the notebook
    /// inserted where it was absent.
    pub open spec fn with_notebook(self, id: i32, name: Seq<char>) -> StoreView {
        StoreView {
            notebooks: self.notebooks.insert(id, name),
            next_notebook_id: raised(self.next_notebook_id, id),
            ..self
        }
    }

    /// The state after the owner and the body of cell `id` were set, the cell
    /// inserted where it was absent.
    pub open spec fn with_cell(self, id: i32, notebook_id: i32, text: Seq<char>) -> StoreView {
        StoreView {
            cells: self.cells.insert(id, CellRecord { notebook_id: notebook_id, text: text }),
            next_cell_id: raised(self.next_cell_id, id),
            ..self
        }
    }

    /// The state after every cell of notebook `notebook_id` whose identifier
    /// is not among `kept` was removed.
    pub open spec fn without_stale(self, notebook_id: i32, kept: Seq<i32>) -> StoreView {
        StoreView {
            cells: Map::new(
                |c: i32|
                    self.cells.dom().contains(c) && !is_stale(self.cells[c], c, notebook_id, kept),
                |c: i32| self.cells[c],
            ),
            ..self
        }
    }

    /// The store refuses `statement`: it would give a notebook the name of
    /// another, or a cell an owner that does not exist.
    pub open spec fn refuses(self, statement: StatementView) -> bool {
        match statement {
            StatementView::UpsertNotebook { id, name } => self.name_of_other(id, name),
            StatementView::UpsertCell { id, notebook_id, text } => !self.notebooks.dom().contains(
                notebook_id,
            ),
            StatementView::DeleteOtherCells { notebook_id, kept } => false,
        }
    }

    /// The state after `statement` was applied.
    pub open spec fn after(self, statement: StatementView) -> StoreView {
        match statement {
            StatementView::UpsertNotebook { id, name } => self.with_notebook(id, name),
            StatementView::UpsertCell { id, notebook_id, text } => self.with_cell(
                id,
                notebook_id,
                text,
            ),
            StatementView::DeleteOtherCells { notebook_id, kept } => self.without_stale(
                notebook_id,
                kept,
            ),
        }
    }

    /// The state after the statements of `plan` were applied in order as one
    /// transaction: `None` where the store refuses one of them.
    pub open spec fn ran(self, plan: Seq<StatementView>) -> Option<StoreView>
        decreases plan.len(),
    {
        if plan.len() == 0 {
            Some(self)
        } else if self.refuses(plan[0]) {
            None
        } else {
            self.after(plan[0]).ran(plan.skip(1))
        }
    }

    /// The state after a cell was added to notebook `notebook_id`: it has the
    /// next identifier of the sequence and the placeholder body.
    pub open spec fn with_new_cell(self, notebook_id: i32) -> StoreView {
        StoreView {
            cells: self.cells.insert(
                self.next_cell_id as i32,
                CellRecord { notebook_id: notebook_id, text: placeholder_text() },
            ),
            next_cell_id: self.next_cell_id + 1,
            ..self
        }
    }

    /// The state after cell `cell_id` was removed.
    pub open spec fn without_cell(self, cell_id: i32) -> StoreView {
        StoreView { cells: self.cells.remove(cell_id), ..self }
    }

    /// The state after the body of cell `cell_id` was replaced; the same
    /// state where there is no such cell.
    pub open spec fn with_cell_text(self, cell_id: i32, text: Seq<char>) -> StoreView {
        if self.cells.dom().contains(cell_id) {
            StoreView {
                cells: self.cells.insert(
                    cell_id,
                    CellRecord { notebook_id: self.cells[cell_id].notebook_id, text: text },
                ),
                ..self
            }
        } else {
            self
        }
    }
}

/// `next_after` is `next` or one more than an identifier of the list; it is
/// at least `next` and above every identifier of the list.
pub proof fn lemma_next_after(next: int, cells: Seq<TextFileView>)
    ensures
        next <= next_after(next, cells),
        forall|j: int| 0 <= j < cells.len() ==> (#[trigger] cells[j]).id < next_after(next, cells),
        next_after(next, cells) == next || exists|j: int|
            0 <= j < cells.len() && (#[trigger] cells[j]).id + 1 == next_after(next, cells),
    decreases cells.len(),
{
    if cells.len() > 0 {
        let front = cells.drop_last();
        lemma_next_after(next, front);
        let below = next_after(next, front);
        assert forall|j: int| 0 <= j < cells.len() implies (#[trigger] cells[j]).id < next_after(
            next,
            cells,
        ) by {
            if j < front.len() {
                assert(front[j] == cells[j]);
            }
        }
        if next_after(next, cells) != next {
            if cells.last().id >= below {
                assert(cells[cells.len() - 1].id + 1 == next_after(next, cells));
            } else {
                let j = choose|j: int|
                    0 <= j < front.len() && (#[trigger] front[j]).id + 1 == below;
                assert(cells[j].id + 1 == next_after(next, cells));
            }
        }
    }
}

/// A sequence that stands above every identifier of the list stays where it
/// is.
pub proof fn lemma_next_after_above(next: int, cells: Seq<TextFileView>)
    requires
        forall|j: int| 0 <= j < cells.len() ==> (#[trigger] cells[j]).id < next,
    ensures
        next_after(next, cells) == next,
    decreases cells.len(),
{
    if cells.len() > 0 {
        let front = cells.drop_last();
        assert forall|j: int| 0 <= j < front.len() implies (#[trigger] front[j]).id < next by {
            assert(front[j] == cells[j]);
        }
        lemma_next_after_above(next, front);
        assert(cells.last() == cells[cells.len() - 1]);
    }
}

/// An identifier is among those of a list exactly where the list has it.
pub proof fn lemma_ids_of(cells: Seq<TextFileView>, id: i32)
    ensures
        ids_of(cells).contains(id) <==> has_id(cells, id),
{
    lemma_has_id(cells, id);
    if ids_of(cells).contains(id) {
        let j = choose|j: int| 0 <= j < ids_of(cells).len() && ids_of(cells)[j] == id;
        assert(cells[j].id == id);
    }
    if has_id(cells, id) {
        let j = choose|j: int| 0 <= j < cells.len() && #[trigger] cells[j].id == id;
        assert(ids_of(cells)[j] == id);
    }
}

impl StoreView {
    /// A statement that is not refused keeps the constraints of the layout.
    pub proof fn lemma_after_wf(self, statement: StatementView)
        requires
            self.wf(),
            !self.refuses(statement),
        ensures
            self.after(statement).wf(),
    {
        let after = self.after(statement);
        match statement {
            StatementView::UpsertNotebook { id, name } => {
                assert forall|a: i32, b: i32|
                    after.notebooks.dom().contains(a) && after.notebooks.dom().contains(b)
                        && after.notebooks[a] == after.notebooks[b] implies a == b by {
                    if a == id && b != id {
                        assert(self.names(b, name));
                    }
                    if b == id && a != id {
                        assert(self.names(a, name));
                    }
                }
                assert forall|n: i32| #[trigger] after.notebooks.dom().contains(n) implies n
                    < after.next_notebook_id by {
                    if n != id {
                        assert(self.notebooks.dom().contains(n));
                    }
                }
                assert forall|c: i32| #[trigger]
                    after.cells.dom().contains(c) implies after.notebooks.dom().contains(
                    after.cells[c].notebook_id,
                ) by {
                    assert(self.cells.dom().contains(c));
                }
            },
            StatementView::UpsertCell { id, notebook_id, text } => {
                assert forall|c: i32| #[trigger] after.cells.dom().contains(c) implies c
                    < after.next_cell_id && after.notebooks.dom().contains(
                    after.cells[c].notebook_id,
                ) by {
                    if c != id {
                        assert(self.cells.dom().contains(c));
                    }
                }
            },
            StatementView::DeleteOtherCells { notebook_id, kept } => {
                assert forall|c: i32| #[trigger] after.cells.dom().contains(c) implies c
                    < after.next_cell_id && after.notebooks.dom().contains(
                    after.cells[c].notebook_id,
                ) by {
                    assert(self.cells.dom().contains(c));
                }
            },
        }
    }

    /// A save that is not refused keeps the constraints of the layout.
    pub proof fn lemma_saved_wf(self, notebook: NotebookView)
        requires
            self.wf(),
            !self.save_refused(notebook),
        ensures
            self.saved(notebook).wf(),
    {
        let after = self.saved(notebook);
        lemma_next_after(self.next_cell_id, notebook.texts);
        assert forall|c: i32| #[trigger] after.cells.dom().contains(c) implies c
            < after.next_cell_id by {
            if has_id(notebook.texts, c) {
                lemma_first_with_id_is_first(notebook.texts, c);
                assert(notebook.texts[first_with_id(notebook.texts, c)].id == c);
            } else {
                assert(self.cells.dom().contains(c));
            }
        }
        assert forall|c: i32| #[trigger]
            after.cells.dom().contains(c) implies after.notebooks.dom().contains(
            after.cells[c].notebook_id,
        ) by {
            if !has_id(notebook.texts, c) {
                assert(self.cells.dom().contains(c));
            }
        }
        assert forall|a: i32, b: i32|
            after.notebooks.dom().contains(a) && after.notebooks.dom().contains(b)
                && after.notebooks[a] == after.notebooks[b] implies a == b by {
            if a == notebook.id && b != notebook.id {
                assert(self.names(b, notebook.name));
            }
            if b == notebook.id && a != notebook.id {
                assert(self.names(a, notebook.name));
            }
        }
        assert forall|n: i32| #[trigger] after.notebooks.dom().contains(n) implies n
            < after.next_notebook_id by {
            if n != notebook.id {
                assert(self.notebooks.dom().contains(n));
            }
        }
    }
}

} // verus!
