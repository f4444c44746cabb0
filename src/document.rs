use vstd::prelude::*;

verus! {

/// A unit of text to be indexed, identified by `id`.
pub struct Document {
    id: String,
    text: String,
}

/// The mathematical content of a [`Document`].
pub ghost struct DocumentView {
    pub id: Seq<char>,
    pub text: Seq<char>,
}

impl View for Document {
    type V = DocumentView;

    closed spec fn view(&self) -> DocumentView {
        DocumentView { id: self.id@, text: self.text@ }
    }
}

impl Document {
    pub fn new(id: String, text: String) -> (r: Document)
        ensures
            r@ == (DocumentView { id: id@, text: text@ }),
    {
        Document { id, text }
    }

    /// The identifier recorded in every posting this document produces.
    pub fn id(&self) -> (r: &String)
        ensures
            r@ == self@.id,
    {
        &self.id
    }

    /// The raw content that is split into terms.
    pub fn text(&self) -> (r: &String)
        ensures
            r@ == self@.text,
    {
        &self.text
    }
}

} // verus!
