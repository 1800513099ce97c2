//! What holds of the store's operations taken together, stated over the
//! state in `model` and proved once for every state and every notebook.

use vstd::prelude::*;
use crate::model::{
    ids_of, lemma_ids_of, lemma_next_after, lemma_next_after_above, next_after, raised,
    CellRecord, StatementView, StoreView,
};
use crate::notebook::{
    distinct_ids, first_with_id, has_id, lemma_distinct_first, lemma_first_with_id_is_first,
    lemma_has_id, text_of, NotebookView, TextFileView,
};
use crate::plan::plan_of;

verus! {

/// A notebook that was just created can be read under the identifier that
/// the creation returned: it has the given name and no cells.
pub proof fn law_load_after_create(store: StoreView, name: Seq<char>, loaded: NotebookView)
    requires
        store.wf(),
        !store.name_taken(name),
        store.can_issue_notebook(),
        loaded.id == store.next_notebook_id as i32,
        store.created(name).is_snapshot(loaded),
    ensures
        store.created(name).notebooks.dom().contains(store.next_notebook_id as i32),
        loaded.name == name,
        loaded.texts == Seq::<TextFileView>::empty(),
{
    let after = store.created(name);
    let id = store.next_notebook_id as i32;
    if loaded.texts.len() > 0 {
        let cell = loaded.texts[0];
        assert(loaded.texts.to_set().contains(cell)) by {
            assert(loaded.texts.contains(cell));
        }
        assert(after.owns(id, cell));
        assert(store.cells.dom().contains(cell.id));
        assert(store.notebooks.dom().contains(id));
    }
    assert(loaded.texts =~= Seq::<TextFileView>::empty());
}

/// After a save, the cells of the notebook in the store are exactly the
/// submitted ones, and its name is the submitted one.
pub proof fn law_saved_cells(store: StoreView, notebook: NotebookView)
    requires
        store.wf(),
        !store.save_refused(notebook),
    ensures
        store.saved(notebook).names(notebook.id, notebook.name),
        store.saved(notebook).cells_of(notebook.id) == notebook.texts.to_set(),
        store.saved(notebook).is_snapshot(notebook),
{
    let after = store.saved(notebook);
    let cells = notebook.texts;
    assert forall|cell: TextFileView| after.owns(notebook.id, cell) <==> cells.to_set().contains(
        cell,
    ) by {
        if after.owns(notebook.id, cell) {
            assert(has_id(cells, cell.id));
            lemma_first_with_id_is_first(cells, cell.id);
            let at = first_with_id(cells, cell.id);
            assert(cells[at] == cell);
            assert(cells.contains(cell));
        }
        if cells.to_set().contains(cell) {
            let at = choose|at: int| 0 <= at < cells.len() && cells[at] == cell;
            lemma_distinct_first(cells, at);
        }
    }
    assert(after.cells_of(notebook.id) =~= cells.to_set());
}

/// Round trip: whatever a read returns after a save of `notebook`, it has
/// the submitted name and, as a set, exactly the submitted cells.
pub proof fn law_save_then_load(store: StoreView, notebook: NotebookView, loaded: NotebookView)
    requires
        store.wf(),
        !store.save_refused(notebook),
        loaded.id == notebook.id,
        store.saved(notebook).is_snapshot(loaded),
    ensures
        loaded.name == notebook.name,
        loaded.texts.to_set() == notebook.texts.to_set(),
{
    law_saved_cells(store, notebook);
}

/// Idempotence: a second save of the same notebook is not refused and leaves
/// the state that the first one made.
pub proof fn law_save_idempotent(store: StoreView, notebook: NotebookView)
    requires
        store.wf(),
        !store.save_refused(notebook),
    ensures
        !store.saved(notebook).save_refused(notebook),
        store.saved(notebook).saved(notebook) == store.saved(notebook),
{
    let once = store.saved(notebook);
    let twice = once.saved(notebook);
    let cells = notebook.texts;
    assert(!once.save_refused(notebook)) by {
        if once.name_of_other(notebook.id, notebook.name) {
            let n = choose|n: i32| n != notebook.id && once.names(n, notebook.name);
            assert(store.names(n, notebook.name));
        }
    }
    assert(twice.notebooks =~= once.notebooks);
    assert(twice.cells =~= once.cells);
    lemma_next_after(store.next_cell_id, cells);
    lemma_next_after_above(once.next_cell_id, cells);
}

/// Deletion by omission: a save removes the cells of the notebook that the
/// submitted list lacks, writes each submitted cell with its submitted body,
/// and leaves the cells of other notebooks as they are.
pub proof fn law_deletion_by_omission(store: StoreView, notebook: NotebookView, cell: i32)
    requires
        store.wf(),
        !store.save_refused(notebook),
    ensures
        store.cells.dom().contains(cell) && store.cells[cell].notebook_id == notebook.id
            && !has_id(notebook.texts, cell) ==> !store.saved(notebook).cells.dom().contains(
            cell,
        ),
        has_id(notebook.texts, cell) ==> store.saved(notebook).cells.dom().contains(cell)
            && store.saved(notebook).cells[cell] == (CellRecord {
            notebook_id: notebook.id,
            text: text_of(notebook.texts, cell),
        }),
        store.cells.dom().contains(cell) && store.cells[cell].notebook_id != notebook.id
            && !has_id(notebook.texts, cell) ==> store.saved(notebook).cells.dom().contains(cell)
            && store.saved(notebook).cells[cell] == store.cells[cell],
{
}

/// Each submitted cell is in the store after the save, with its own body.
pub proof fn law_saved_cell_kept(store: StoreView, notebook: NotebookView, at: int)
    requires
        store.wf(),
        !store.save_refused(notebook),
        0 <= at < notebook.texts.len(),
    ensures
        store.saved(notebook).owns(notebook.id, notebook.texts[at]),
{
    lemma_distinct_first(notebook.texts, at);
}

/// A cell that was removed is not there: removing it once more finds
/// nothing and changes nothing.
pub proof fn law_delete_twice(store: StoreView, cell: i32)
    ensures
        !store.without_cell(cell).cells.dom().contains(cell),
        store.without_cell(cell).without_cell(cell) == store.without_cell(cell),
{
    assert(store.without_cell(cell).without_cell(cell).cells =~= store.without_cell(cell).cells);
}

/// The state in the middle of a save: the name and the first `count` cells
/// of `notebook` are written, nothing is removed yet.
pub open spec fn partly_saved(store: StoreView, notebook: NotebookView, count: int) -> StoreView {
    let written = notebook.texts.take(count);
    StoreView {
        notebooks: store.notebooks.insert(notebook.id, notebook.name),
        cells: Map::new(
            |c: i32| store.cells.dom().contains(c) || has_id(written, c),
            |c: i32|
                if has_id(written, c) {
                    CellRecord { notebook_id: notebook.id, text: text_of(written, c) }
                } else {
                    store.cells[c]
                },
        ),
        next_notebook_id: raised(store.next_notebook_id, notebook.id),
        next_cell_id: next_after(store.next_cell_id, written),
    }
}

/// From the middle of a save, the rest of the plan leads to the saved state.
proof fn lemma_rest_of_plan(store: StoreView, notebook: NotebookView, count: int)
    requires
        store.wf(),
        !store.save_refused(notebook),
        0 <= count <= notebook.texts.len(),
    ensures
        partly_saved(store, notebook, count).ran(plan_of(notebook).skip(count + 1)) == Some(
            store.saved(notebook),
        ),
    decreases notebook.texts.len() - count,
{
    let cells = notebook.texts;
    let plan = plan_of(notebook);
    let rest = plan.skip(count + 1);
    let middle = partly_saved(store, notebook, count);
    let written = cells.take(count);
    assert(rest[0] == plan[count + 1]);
    if count == cells.len() {
        assert(written =~= cells);
        let end = middle.after(rest[0]);
        assert(rest.skip(1).len() == 0);
        assert(end.ran(rest.skip(1)) == Some(end));
        assert forall|c: i32| ids_of(cells).contains(c) <==> has_id(cells, c) by {
            lemma_ids_of(cells, c);
        }
        assert(end.cells =~= store.saved(notebook).cells);
    } else {
        let cell = cells[count];
        let more = cells.take(count + 1);
        let next = partly_saved(store, notebook, count + 1);
        let step = middle.after(rest[0]);
        assert(more.drop_last() =~= written);
        assert(more.last() == cell);
        assert(distinct_ids(more));
        assert(distinct_ids(written));
        lemma_distinct_first(more, count);
        assert forall|c: i32| step.cells.dom().contains(c) <==> next.cells.dom().contains(c) by {
            lemma_has_id(written, c);
            lemma_has_id(more, c);
            if has_id(written, c) {
                let j = choose|j: int| 0 <= j < written.len() && #[trigger] written[j].id == c;
                assert(more[j].id == c);
            }
            if has_id(more, c) && c != cell.id {
                let j = choose|j: int| 0 <= j < more.len() && #[trigger] more[j].id == c;
                assert(written[j].id == c);
            }
        }
        assert forall|c: i32| step.cells.dom().contains(c) implies step.cells[c]
            == next.cells[c] by {
            lemma_has_id(written, c);
            lemma_has_id(more, c);
            if c != cell.id {
                if has_id(written, c) {
                    let j = choose|j: int| 0 <= j < written.len() && #[trigger] written[j].id == c;
                    assert(more[j] == written[j]);
                    lemma_distinct_first(written, j);
                    lemma_distinct_first(more, j);
                } else if has_id(more, c) {
                    let j = choose|j: int| 0 <= j < more.len() && #[trigger] more[j].id == c;
                    assert(written[j].id == c);
                }
            }
        }
        assert(step.cells =~= next.cells);
        assert(step == next);
        assert(rest.skip(1) =~= plan.skip(count + 2));
        lemma_rest_of_plan(store, notebook, count + 1);
    }
}

/// The plan of a notebook is its save: applied in order as one transaction,
/// its statements are refused where the save is refused, and lead to the
/// saved state where it is not.
pub proof fn law_plan_is_save(store: StoreView, notebook: NotebookView)
    requires
        store.wf(),
        distinct_ids(notebook.texts),
    ensures
        store.save_refused(notebook) ==> store.ran(plan_of(notebook)) is None,
        !store.save_refused(notebook) ==> store.ran(plan_of(notebook)) == Some(
            store.saved(notebook),
        ),
{
    let plan = plan_of(notebook);
    assert(plan[0] == (StatementView::UpsertNotebook { id: notebook.id, name: notebook.name }));
    if !store.save_refused(notebook) {
        let first = store.after(plan[0]);
        let start = partly_saved(store, notebook, 0);
        assert(notebook.texts.take(0).len() == 0);
        assert(first.cells =~= start.cells);
        assert(first == start);
        lemma_rest_of_plan(store, notebook, 0);
    }
}

} // verus!
