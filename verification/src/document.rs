//! The record that flows through the pipeline.

use vstd::prelude::*;

verus! {

/// Mathematical model of a [`Document`]: its text and its metadata entries,
/// in the order they were attached.
pub struct DocumentView {
    pub page_content: Seq<char>,
    pub metadata: Seq<(Seq<char>, Seq<char>)>,
}

/// A unit of content together with the metadata describing where it came from.
#[derive(Debug, Clone, PartialEq, Eq)]
pub struct Document {
    pub page_content: String,
    pub metadata: Vec<(String, String)>,
}

impl View for Document {
    type V = DocumentView;

    open spec fn view(&self) -> DocumentView {
        DocumentView {
            page_content: self.page_content@,
            metadata: Seq::new(
                self.metadata@.len(),
                |i: int| (self.metadata@[i].0@, self.metadata@[i].1@),
            ),
        }
    }
}

impl Document {
    /// A document holding `page_content` and no metadata.
    pub fn new(page_content: String) -> (doc: Document)
        ensures
            doc.page_content == page_content,
            doc.metadata@.len() == 0,
            doc@ == (DocumentView { page_content: page_content@, metadata: Seq::empty() }),
    {
        let doc = Document { page_content, metadata: Vec::new() };
        assert(doc@.metadata =~= Seq::empty());
        doc
    }
}

} // verus!
