//! The operations that a client can ask for. Each one checks access where
//! it touches a notebook, then reads or changes the store, and says where the
//! client goes next.

use vstd::prelude::*;
use crate::access::{Redirect, Session};
use crate::error::Error;
use crate::model::placeholder_text;
use crate::notebook::{Notebook, TextFile, TextFileView};
use crate::store::Store;

verus! {

/// What a form shows under its fields.
#[derive(Debug)]
pub enum Feedback {
    /// Nothing.
    Nothing,
    /// That the request went well and the client is on its way.
    Redirecting,
    /// The message of the error that the request ended with.
    Failed(String),
}

/// What a form shows, with the message as a sequence of characters.
pub enum FeedbackView {
    Nothing,
    Redirecting,
    Failed(Seq<char>),
}

impl View for Feedback {
    type V = FeedbackView;

    open spec fn view(&self) -> FeedbackView {
        match self {
            Feedback::Nothing => FeedbackView::Nothing,
            Feedback::Redirecting => FeedbackView::Redirecting,
            Feedback::Failed(message) => FeedbackView::Failed(message@),
        }
    }
}

/// What a form shows for the outcome of its last request: nothing while it
/// is not `shown` or has no outcome, else the success or the error's message.
pub fn form_feedback(shown: bool, outcome: Option<Result<(), String>>) -> (feedback: Feedback)
    ensures
        !shown || outcome is None ==> feedback@ == FeedbackView::Nothing,
        shown && outcome is Some && outcome->0 is Ok ==> feedback@ == FeedbackView::Redirecting,
        shown && outcome is Some && outcome->0 is Err ==> feedback@ == FeedbackView::Failed(
            outcome->0->Err_0@,
        ),
{
    if !shown {
        return Feedback::Nothing;
    }
    match outcome {
        None => Feedback::Nothing,
        Some(Ok(())) => Feedback::Redirecting,
        Some(Err(message)) => Feedback::Failed(message),
    }
}

/// Opens the notebook that a lookup by name found: the session remembers it
/// and the client is sent to its page. `NotFound` where the lookup found
/// none; the session is then as before.
pub fn open_found(session: &mut Session, found: Option<i32>) -> (opened: Result<Redirect, Error>)
    ensures
        found is Some ==> opened == Ok::<Redirect, Error>(Redirect::Notebook(found->0)) && final(
            session)@ == found,
        found is None ==> opened == Err::<Redirect, Error>(Error::NotFound) && final(session)@
            == old(session)@,
{
    match found {
        Some(id) => {
            session.open(id);
            Ok(Redirect::Notebook(id))
        },
        None => Err(Error::NotFound),
    }
}

/// Opens the notebook that was just created: the session remembers it and
/// the client is sent to its page. Where the creation failed, its error is
/// passed on and the session is as before.
pub fn open_created(session: &mut Session, created: Result<i32, Error>) -> (opened: Result<
    Redirect,
    Error,
>)
    ensures
        created is Ok ==> opened == Ok::<Redirect, Error>(Redirect::Notebook(created->Ok_0))
            && final(session)@ == Some(created->Ok_0),
        created is Err ==> opened == Err::<Redirect, Error>(created->Err_0) && final(session)@
            == old(session)@,
{
    match created {
        Ok(id) => {
            session.open(id);
            Ok(Redirect::Notebook(id))
        },
        Err(error) => Err(error),
    }
}

/// Refuses to create a notebook where a lookup by its name found one.
pub fn refuse_existing(existing: Option<i32>) -> (allowed: Result<(), Error>)
    ensures
        existing is Some ==> allowed == Err::<(), Error>(Error::AlreadyExists),
        existing is None ==> allowed == Ok::<(), Error>(()),
{
    match existing {
        Some(_) => Err(Error::AlreadyExists),
        None => Ok(()),
    }
}

/// The notebook that a read returned, or `NotFound` where it returned none.
pub fn require_found(loaded: Option<Notebook>) -> (found: Result<Notebook, Error>)
    ensures
        loaded is Some ==> found is Ok && found->Ok_0 == loaded->0,
        loaded is None ==> found is Err && found->Err_0 == Error::NotFound,
{
    match loaded {
        Some(notebook) => Ok(notebook),
        None => Err(Error::NotFound),
    }
}

/// Opens the notebook called `notebook_name`: the session remembers it and
/// the client is sent to its page. `NotFound` where no notebook has that
/// name; the session is then as before.
pub fn select_notebook(store: &Store, session: &mut Session, notebook_name: &str) -> (selected:
    Result<Redirect, Error>)
    requires
        store.wf(),
    ensures
        store@.name_taken(notebook_name@) ==> selected == Ok::<Redirect, Error>(
            Redirect::Notebook(store@.id_of_name(notebook_name@)),
        ) && final(session)@ == Some(store@.id_of_name(notebook_name@)),
        !store@.name_taken(notebook_name@) ==> selected == Err::<Redirect, Error>(Error::NotFound)
            && final(session)@ == old(session)@,
{
    open_found(session, store.find_by_name(notebook_name))
}

/// Creates a notebook called `notebook_name` and opens it: the session
/// remembers it and the client is sent to its page. Where the store refuses,
/// with `AlreadyExists` or `StoreError`, store and session are as before.
pub fn create_notebook(store: &mut Store, session: &mut Session, notebook_name: String) -> (created:
    Result<Redirect, Error>)
    requires
        old(store).wf(),
    ensures
        final(store).wf(),
        old(store)@.name_taken(notebook_name@) ==> created == Err::<Redirect, Error>(
            Error::AlreadyExists,
        ) && final(store)@ == old(store)@ && final(session)@ == old(session)@,
        !old(store)@.name_taken(notebook_name@) && !old(store)@.can_issue_notebook() ==> created
            == Err::<Redirect, Error>(Error::StoreError) && final(store)@ == old(store)@ && final(session)@ == old(session)@,
        !old(store)@.name_taken(notebook_name@) && old(store)@.can_issue_notebook() ==> created
            == Ok::<Redirect, Error>(Redirect::Notebook(old(store)@.next_notebook_id as i32))
            && final(store)@ == old(store)@.created(notebook_name@) && final(session)@ == Some(
            old(store)@.next_notebook_id as i32,
        ),
{
    open_created(session, store.create(notebook_name))
}

/// Reads notebook `id` for the session that has opened it. `Forbidden` for
/// any other session, `NotFound` where the notebook does not exist.
pub fn get_notebook(store: &Store, session: &Session, id: i32) -> (read: Result<Notebook, Error>)
    requires
        store.wf(),
    ensures
        session@ != Some(id) ==> read is Err && read->Err_0 == Error::Forbidden,
        session@ == Some(id) && !store@.notebooks.dom().contains(id) ==> read is Err && read->Err_0
            == Error::NotFound,
        session@ == Some(id) && store@.notebooks.dom().contains(id) ==> read is Ok && read->Ok_0@.id
            == id && store@.is_snapshot(read->Ok_0@),
{
    let access = match session.authorize(id) {
        Ok(access) => access,
        Err(error) => {
            return Err(error);
        },
    };
    require_found(store.load(access.notebook_id()))
}

/// Saves `notebook` for the session that has opened it. `Forbidden` for any
/// other session, `StoreError` where the store refuses the save; the store is
/// then as before.
pub fn save_notebook(store: &mut Store, session: &Session, notebook: &Notebook) -> (saved: Result<
    (),
    Error,
>)
    requires
        old(store).wf(),
    ensures
        final(store).wf(),
        session@ != Some(notebook@.id) ==> saved == Err::<(), Error>(Error::Forbidden) && final(store)@ == old(store)@,
        session@ == Some(notebook@.id) && old(store)@.save_refused(notebook@) ==> saved == Err::<
            (),
            Error,
        >(Error::StoreError) && final(store)@ == old(store)@,
        session@ == Some(notebook@.id) && !old(store)@.save_refused(notebook@) ==> saved == Ok::<
            (),
            Error,
        >(()) && final(store)@ == old(store)@.saved(notebook@),
{
    match session.authorize(notebook.id()) {
        Ok(_) => store.save(notebook),
        Err(error) => Err(error),
    }
}

/// Adds a cell with the placeholder body to notebook `id` for the session
/// that has opened it. `Forbidden` for any other session; `NotFound` and
/// `StoreError` as the store gives them. On every error the store is as
/// before.
pub fn add_new_text_to_notebook(store: &mut Store, session: &Session, id: i32) -> (added: Result<
    TextFile,
    Error,
>)
    requires
        old(store).wf(),
    ensures
        final(store).wf(),
        added is Err ==> final(store)@ == old(store)@,
        session@ != Some(id) ==> added is Err && added->Err_0 == Error::Forbidden,
        session@ == Some(id) && !old(store)@.notebooks.dom().contains(id) ==> added is Err
            && added->Err_0 == Error::NotFound,
        session@ == Some(id) && old(store)@.notebooks.dom().contains(id) && !old(store)@.can_issue_cell() ==> added is Err && added->Err_0 == Error::StoreError,
        session@ == Some(id) && old(store)@.notebooks.dom().contains(id) && old(store)@.can_issue_cell() ==> added is Ok && added->Ok_0@ == (TextFileView {
            id: old(store)@.next_cell_id as i32,
            text: placeholder_text(),
        }) && final(store)@ == old(store)@.with_new_cell(id),
{
    match session.authorize(id) {
        Ok(access) => store.add_cell(access.notebook_id()),
        Err(error) => Err(error),
    }
}

} // verus!
