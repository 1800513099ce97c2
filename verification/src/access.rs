//! Access control in front of the store: a session may read and write only the
//! notebook that it has opened.

use vstd::prelude::*;
use crate::error::Error;

verus! {

/// Where the client is sent next.
#[derive(Debug, Clone, Copy, PartialEq, Eq, Structural)]
pub enum Redirect {
    /// To the page where a notebook is selected or created.
    Home,
    /// To the page of the notebook with this identifier.
    Notebook(i32),
}

/// What a session remembers: the notebook that it has opened, if any.
#[derive(Debug, Clone, Copy)]
pub struct Session {
    notebook_id: Option<i32>,
}

/// The proof that a session has opened a notebook. Only `Session::authorize`
/// makes one.
#[derive(Debug)]
pub struct Access {
    notebook_id: i32,
}

impl View for Session {
    type V = Option<i32>;

    closed spec fn view(&self) -> Option<i32> {
        self.notebook_id
    }
}

impl View for Access {
    type V = i32;

    closed spec fn view(&self) -> i32 {
        self.notebook_id
    }
}

impl Access {
    /// The notebook that may be read and written.
    pub fn notebook_id(&self) -> (id: i32)
        ensures
            id == self@,
    {
        self.notebook_id
    }
}

impl Session {
    /// A session that remembers `notebook_id`.
    pub fn new(notebook_id: Option<i32>) -> (session: Self)
        ensures
            session@ == notebook_id,
    {
        Session { notebook_id }
    }

    /// The notebook that the session has opened, if any.
    pub fn notebook_id(&self) -> (id: Option<i32>)
        ensures
            id == self@,
    {
        self.notebook_id
    }

    /// Remembers `notebook_id` as the notebook that the session has opened,
    /// in place of any other.
    pub fn open(&mut self, notebook_id: i32)
        ensures
            final(self)@ == Some(notebook_id),
    {
        self.notebook_id = Some(notebook_id);
    }

    /// Grants access to notebook `target` to the session that has opened
    /// exactly that notebook, and denies it with `Forbidden` to any other.
    pub fn authorize(&self, target: i32) -> (granted: Result<Access, Error>)
        ensures
            self@ == Some(target) ==> granted is Ok && granted->Ok_0@ == target,
            self@ != Some(target) ==> granted is Err && granted->Err_0 == Error::Forbidden,
    {
        match self.notebook_id {
            Some(opened) => {
                if opened == target {
                    Ok(Access { notebook_id: target })
                } else {
                    Err(Error::Forbidden)
                }
            },
            None => Err(Error::Forbidden),
        }
    }
}

/// Where the client is sent after `error`: to the selection page after a
/// denial, nowhere after any other error.
pub open spec fn spec_redirect_after(error: Error) -> Option<Redirect> {
    if error == Error::Forbidden {
        Some(Redirect::Home)
    } else {
        None
    }
}

/// Where the client is sent after `error`.
pub fn redirect_after(error: Error) -> (target: Option<Redirect>)
    ensures
        target == spec_redirect_after(error),
{
    match error {
        Error::Forbidden => Some(Redirect::Home),
        _ => None,
    }
}

} // verus!
