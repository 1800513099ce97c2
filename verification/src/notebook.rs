//! The notebook as an editing session holds it: an identifier, a name and the
//! text cells in the order in which they were received.

use vstd::prelude::*;
use vstd::std_specs::slice::into_iter_elts;

verus! {

/// What a text cell is: its identifier and its body.
pub struct TextFileView {
    pub id: i32,
    pub text: Seq<char>,
}

/// What a notebook is: its identifier, its name and its cells in order.
pub struct NotebookView {
    pub id: i32,
    pub name: Seq<char>,
    pub texts: Seq<TextFileView>,
}

/// One editable block of text. The notebook that owns it is known to the
/// store only, not to the cell.
#[derive(Debug)]
pub struct TextFile {
    text: String,
    id: i32,
}

impl View for TextFile {
    type V = TextFileView;

    closed spec fn view(&self) -> TextFileView {
        TextFileView { id: self.id, text: self.text@ }
    }
}

/// A named collection of text cells.
#[derive(Debug)]
pub struct Notebook {
    id: i32,
    name: String,
    texts: Vec<TextFile>,
}

impl View for Notebook {
    type V = NotebookView;

    closed spec fn view(&self) -> NotebookView {
        NotebookView { id: self.id, name: self.name@, texts: views_of(self.texts@) }
    }
}

/// The views of a list of cells, in the same order.
pub open spec fn views_of(cells: Seq<TextFile>) -> Seq<TextFileView> {
    Seq::new(cells.len(), |i: int| cells[i]@)
}

/// The position of the first cell with identifier `id`, or the length of
/// `cells` where no cell has it.
pub open spec fn first_with_id(cells: Seq<TextFileView>, id: i32) -> int
    decreases cells.len(),
{
    if cells.len() == 0 {
        0
    } else if cells[0].id == id {
        0
    } else {
        1 + first_with_id(cells.subrange(1, cells.len() as int), id)
    }
}

/// No two cells of the list share an identifier.
pub open spec fn distinct_ids(cells: Seq<TextFileView>) -> bool {
    forall|i: int, j: int| 0 <= i < j < cells.len() ==> cells[i].id != cells[j].id
}

/// Some cell of the list has identifier `id`.
pub open spec fn has_id(cells: Seq<TextFileView>, id: i32) -> bool {
    first_with_id(cells, id) < cells.len()
}

/// The body of the first cell of the list with identifier `id`.
pub open spec fn text_of(cells: Seq<TextFileView>, id: i32) -> Seq<char> {
    cells[first_with_id(cells, id)].text
}

/// The first cell with identifier `id` stands at `at`, or no cell has it and
/// `at` is the length: then `first_with_id` gives `at`.
pub proof fn lemma_first_with_id(cells: Seq<TextFileView>, id: i32, at: int)
    requires
        0 <= at <= cells.len(),
        forall|j: int| 0 <= j < at ==> cells[j].id != id,
        at < cells.len() ==> cells[at].id == id,
    ensures
        first_with_id(cells, id) == at,
    decreases at,
{
    if at > 0 {
        let rest = cells.subrange(1, cells.len() as int);
        assert forall|j: int| 0 <= j < at - 1 implies rest[j].id != id by {
            assert(rest[j] == cells[j + 1]);
        }
        if at < cells.len() {
            assert(rest[at - 1] == cells[at]);
        }
        lemma_first_with_id(rest, id, at - 1);
    }
}

/// `first_with_id` gives a position up to the length; a position below it
/// holds the identifier, and no earlier one does. At the length, none does.
pub proof fn lemma_first_with_id_is_first(cells: Seq<TextFileView>, id: i32)
    ensures
        0 <= first_with_id(cells, id) <= cells.len(),
        first_with_id(cells, id) < cells.len() ==> cells[first_with_id(cells, id)].id == id,
        forall|j: int| 0 <= j < first_with_id(cells, id) ==> cells[j].id != id,
    decreases cells.len(),
{
    if cells.len() > 0 && cells[0].id != id {
        let rest = cells.subrange(1, cells.len() as int);
        lemma_first_with_id_is_first(rest, id);
        assert forall|j: int| 0 <= j < first_with_id(cells, id) implies cells[j].id != id by {
            if j > 0 {
                assert(rest[j - 1] == cells[j]);
            }
        }
    }
}

/// A list has an identifier exactly where one of its cells has it.
pub proof fn lemma_has_id(cells: Seq<TextFileView>, id: i32)
    ensures
        has_id(cells, id) <==> exists|j: int| 0 <= j < cells.len() && #[trigger] cells[j].id == id,
{
    lemma_first_with_id_is_first(cells, id);
    if has_id(cells, id) {
        assert(cells[first_with_id(cells, id)].id == id);
    }
}

/// In a list without repeated identifiers, the cell at `at` is the first
/// one with its identifier.
pub proof fn lemma_distinct_first(cells: Seq<TextFileView>, at: int)
    requires
        distinct_ids(cells),
        0 <= at < cells.len(),
    ensures
        first_with_id(cells, cells[at].id) == at,
        has_id(cells, cells[at].id),
        text_of(cells, cells[at].id) == cells[at].text,
{
    lemma_first_with_id(cells, cells[at].id, at);
}

impl Clone for TextFile {
    fn clone(&self) -> (copy: Self)
        ensures
            copy@ == self@,
    {
        TextFile { text: self.text.clone(), id: self.id }
    }
}

impl TextFile {
    /// A cell with the given identifier and body.
    pub fn new(id: i32, text: String) -> (cell: Self)
        ensures
            cell@ == (TextFileView { id: id, text: text@ }),
    {
        Self { id, text }
    }

    /// The body.
    pub fn text(&self) -> (text: &str)
        ensures
            text@ == self@.text,
    {
        self.text.as_str()
    }

    /// The identifier.
    pub fn id(&self) -> (id: i32)
        ensures
            id == self@.id,
    {
        self.id
    }
}

impl Clone for Notebook {
    fn clone(&self) -> (copy: Self)
        ensures
            copy@ == self@,
    {
        let mut texts: Vec<TextFile> = Vec::new();
        let mut i: usize = 0;
        while i < self.texts.len()
            invariant
                i <= self.texts.len(),
                texts.len() == i,
                forall|j: int| 0 <= j < i ==> (#[trigger] texts[j])@ == self.texts[j]@,
            decreases self.texts.len() - i,
        {
            texts.push(self.texts[i].clone());
            i += 1;
        }
        let copy = Notebook { id: self.id, name: self.name.clone(), texts };
        assert(copy@.texts =~= self@.texts);
        copy
    }
}

impl Notebook {
    /// A notebook with the given identifier, name and cells.
    pub fn new(id: i32, name: String, texts: Vec<TextFile>) -> (notebook: Self)
        ensures
            notebook@ == (NotebookView { id: id, name: name@, texts: views_of(texts@) }),
    {
        Self { id, name, texts }
    }

    /// The notebook that a read of the two relations gives: `name` is the
    /// name found under `id`, if any, and `rows` are the cells found for it,
    /// each an identifier and a body. `None` where no name was found.
    pub fn from_rows(id: i32, name: Option<String>, rows: &Vec<(i32, String)>) -> (notebook: Option<
        Self,
    >)
        ensures
            name is None ==> notebook is None,
            name is Some ==> notebook is Some && notebook->0@ == (NotebookView {
                id: id,
                name: name->0@,
                texts: Seq::new(
                    rows.len() as nat,
                    |i: int| TextFileView { id: rows[i].0, text: rows[i].1@ },
                ),
            }),
    {
        let name = match name {
            Some(name) => name,
            None => {
                return None;
            },
        };
        let mut texts: Vec<TextFile> = Vec::new();
        let mut i: usize = 0;
        while i < rows.len()
            invariant
                i <= rows.len(),
                texts.len() == i,
                forall|j: int|
                    0 <= j < i ==> (#[trigger] texts[j])@ == (TextFileView {
                        id: rows[j].0,
                        text: rows[j].1@,
                    }),
            decreases rows.len() - i,
        {
            texts.push(TextFile { id: rows[i].0, text: rows[i].1.clone() });
            i += 1;
        }
        let notebook = Self { id, name, texts };
        assert(notebook@.texts =~= Seq::new(
            rows.len() as nat,
            |i: int| TextFileView { id: rows[i].0, text: rows[i].1@ },
        ));
        Some(notebook)
    }

    /// The name.
    pub fn name(&self) -> (name: &str)
        ensures
            name@ == self@.name,
    {
        self.name.as_str()
    }

    /// The cells, in order.
    pub fn texts(&self) -> (cells: std::slice::Iter<'_, TextFile>)
        ensures
            views_of(into_iter_elts(cells)) == self@.texts,
    {
        self.texts.iter()
    }

    /// The identifier.
    pub fn id(&self) -> (id: i32)
        ensures
            id == self@.id,
    {
        self.id
    }

    /// The number of cells.
    pub fn text_count(&self) -> (count: usize)
        ensures
            count == self@.texts.len(),
    {
        self.texts.len()
    }

    /// The cell at position `at`.
    pub(crate) fn cell(&self, at: usize) -> (cell: &TextFile)
        requires
            at < self@.texts.len(),
        ensures
            cell@ == self@.texts[at as int],
    {
        &self.texts[at]
    }

    /// The cell at position `at`, if there is one.
    pub fn text_at(&self, at: usize) -> (cell: Option<&TextFile>)
        ensures
            cell is Some <==> at < self@.texts.len(),
            cell is Some ==> cell->0@ == self@.texts[at as int],
    {
        if at < self.texts.len() {
            Some(&self.texts[at])
        } else {
            None
        }
    }

    /// Appends `text` as the last cell.
    pub fn add_new_text(&mut self, text: TextFile)
        ensures
            final(self)@ == (NotebookView { texts: old(self)@.texts.push(text@), ..old(self)@ }),
    {
        self.texts.push(text);
        assert(views_of(self.texts@) =~= views_of(old(self).texts@).push(text@));
    }

    /// The position of the first cell with identifier `id`, if there is one.
    fn position(&self, id: i32) -> (found: Option<usize>)
        ensures
            match found {
                Some(i) => i < self@.texts.len() && i == first_with_id(self@.texts, id),
                None => first_with_id(self@.texts, id) == self@.texts.len(),
            },
    {
        let mut i: usize = 0;
        while i < self.texts.len()
            invariant
                i <= self.texts.len(),
                forall|j: int| 0 <= j < i ==> self@.texts[j].id != id,
            decreases self.texts.len() - i,
        {
            if self.texts[i].id == id {
                proof {
                    lemma_first_with_id(self@.texts, id, i as int);
                }
                return Some(i);
            }
            i += 1;
        }
        proof {
            lemma_first_with_id(self@.texts, id, i as int);
        }
        None
    }

    /// Replaces the body of the first cell with identifier `id`. Where no cell
    /// has it, the notebook stays as it is.
    pub fn set_text(&mut self, id: i32, text: String)
        ensures
            final(self)@.id == old(self)@.id,
            final(self)@.name == old(self)@.name,
            first_with_id(old(self)@.texts, id) < old(self)@.texts.len() ==> final(self)@.texts
                == old(self)@.texts.update(
                first_with_id(old(self)@.texts, id),
                TextFileView { id: id, text: text@ },
            ),
            first_with_id(old(self)@.texts, id) == old(self)@.texts.len() ==> final(self)@.texts
                == old(self)@.texts,
    {
        if let Some(i) = self.position(id) {
            self.texts.set(i, TextFile { id, text });
            assert(views_of(self.texts@) =~= views_of(old(self).texts@).update(
                i as int,
                TextFileView { id: id, text: text@ },
            ));
        }
    }

    /// Removes the first cell with identifier `id`. Where no cell has it, the
    /// notebook stays as it is.
    pub fn delete_text(&mut self, id: i32)
        ensures
            final(self)@.id == old(self)@.id,
            final(self)@.name == old(self)@.name,
            first_with_id(old(self)@.texts, id) < old(self)@.texts.len() ==> final(self)@.texts
                == old(self)@.texts.remove(first_with_id(old(self)@.texts, id)),
            first_with_id(old(self)@.texts, id) == old(self)@.texts.len() ==> final(self)@.texts
                == old(self)@.texts,
    {
        if let Some(i) = self.position(id) {
            self.texts.remove(i);
            assert(views_of(self.texts@) =~= views_of(old(self).texts@).remove(i as int));
        }
    }

    /// Whether no two cells share an identifier.
    pub fn has_distinct_ids(&self) -> (distinct: bool)
        ensures
            distinct == distinct_ids(self@.texts),
    {
        let mut j: usize = 0;
        while j < self.texts.len()
            invariant
                j <= self.texts.len(),
                forall|a: int, b: int| 0 <= a < b < j ==> self@.texts[a].id != self@.texts[b].id,
            decreases self.texts.len() - j,
        {
            let mut i: usize = 0;
            while i < j
                invariant
                    i <= j < self.texts.len(),
                    forall|a: int| 0 <= a < i ==> self@.texts[a].id != self@.texts[j as int].id,
                decreases j - i,
            {
                if self.texts[i].id == self.texts[j].id {
                    assert(self@.texts[i as int].id == self@.texts[j as int].id);
                    return false;
                }
                i += 1;
            }
            j += 1;
        }
        true
    }
}

} // verus!
