//! A save written out as the statements that carry it out, in the order in
//! which a store has to apply them within one transaction.

use vstd::prelude::*;
use crate::error::Error;
use crate::model::{ids_of, StatementView};
use crate::notebook::{distinct_ids, Notebook, NotebookView};

verus! {

/// One change of the store.
#[derive(Debug)]
pub enum Statement {
    /// Set the name of notebook `id`; insert the notebook where it is absent.
    UpsertNotebook { id: i32, name: String },
    /// Set the owner and the body of cell `id`; insert the cell where it is
    /// absent.
    UpsertCell { id: i32, notebook_id: i32, text: String },
    /// Remove every cell of notebook `notebook_id` whose identifier is not
    /// among `kept`.
    DeleteOtherCells { notebook_id: i32, kept: Vec<i32> },
}

impl View for Statement {
    type V = StatementView;

    open spec fn view(&self) -> StatementView {
        match self {
            Statement::UpsertNotebook { id, name } => StatementView::UpsertNotebook {
                id: *id,
                name: name@,
            },
            Statement::UpsertCell { id, notebook_id, text } => StatementView::UpsertCell {
                id: *id,
                notebook_id: *notebook_id,
                text: text@,
            },
            Statement::DeleteOtherCells { notebook_id, kept } => StatementView::DeleteOtherCells {
                notebook_id: *notebook_id,
                kept: kept@,
            },
        }
    }
}

/// The views of a list of statements, in the same order.
pub open spec fn statement_views(plan: Seq<Statement>) -> Seq<StatementView> {
    Seq::new(plan.len(), |i: int| plan[i]@)
}

/// The statements that save `notebook`: its name first, then each of its
/// cells in order, then the removal of the cells that it no longer has.
pub open spec fn plan_of(notebook: NotebookView) -> Seq<StatementView> {
    Seq::new(
        notebook.texts.len() + 2,
        |i: int|
            if i == 0 {
                StatementView::UpsertNotebook { id: notebook.id, name: notebook.name }
            } else if i <= notebook.texts.len() {
                StatementView::UpsertCell {
                    id: notebook.texts[i - 1].id,
                    notebook_id: notebook.id,
                    text: notebook.texts[i - 1].text,
                }
            } else {
                StatementView::DeleteOtherCells {
                    notebook_id: notebook.id,
                    kept: ids_of(notebook.texts),
                }
            },
    )
}

impl Notebook {
    /// The statements that save this notebook. `StoreError` where two of its
    /// cells share an identifier: no store takes such a notebook.
    pub fn save_statements(&self) -> (plan: Result<Vec<Statement>, Error>)
        ensures
            !distinct_ids(self@.texts) ==> plan is Err && plan->Err_0 == Error::StoreError,
            distinct_ids(self@.texts) ==> plan is Ok && statement_views(plan->Ok_0@) == plan_of(
                self@,
            ),
    {
        if !self.has_distinct_ids() {
            return Err(Error::StoreError);
        }
        let id = self.id();
        let count = self.text_count();
        let mut plan: Vec<Statement> = Vec::new();
        let mut kept: Vec<i32> = Vec::new();
        plan.push(Statement::UpsertNotebook { id, name: self.name().to_owned() });
        let mut k: usize = 0;
        while k < count
            invariant
                k <= count == self@.texts.len(),
                id == self@.id,
                plan.len() == k + 1,
                kept@ == ids_of(self@.texts.take(k as int)),
                forall|i: int| 0 <= i <= k ==> (#[trigger] plan[i])@ == plan_of(self@)[i],
            decreases count - k,
        {
            let cell = self.cell(k);
            let ghost prefix = plan@;
            plan.push(
                Statement::UpsertCell { id: cell.id(), notebook_id: id, text: cell.text().to_owned() },
            );
            kept.push(cell.id());
            proof {
                assert(kept@ =~= ids_of(self@.texts.take(k as int + 1)));
                assert forall|i: int| 0 <= i <= k + 1 implies (#[trigger] plan[i])@ == plan_of(
                    self@,
                )[i] by {
                    if i <= k {
                        assert(plan[i] == prefix[i]);
                    }
                }
            }
            k += 1;
        }
        let ghost prefix = plan@;
        proof {
            assert(self@.texts.take(count as int) =~= self@.texts);
        }
        plan.push(Statement::DeleteOtherCells { notebook_id: id, kept });
        proof {
            assert forall|i: int| 0 <= i < plan.len() implies statement_views(plan@)[i] == plan_of(
                self@,
            )[i] by {
                if i <= count {
                    assert(plan[i] == prefix[i]);
                }
            }
            assert(statement_views(plan@) =~= plan_of(self@));
        }
        Ok(plan)
    }
}

} // verus!
