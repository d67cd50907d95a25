//! The document handle handed to the host: a thin layer over the engine.
use vstd::prelude::*;

use crate::engine::{
    EngineModel, MarkdownEngine, PaginatedResult, markdown_index, model_wf, strings_view,
    content_from_text_lines,
    page_items, ls_entries, effective_size, full_text, search_result,
};

verus! {

/// The primary interface for the Markdown VFS: an index of the headings
/// and content of one document.
pub struct MarkdownDB {
    inner: MarkdownEngine,
}

impl View for MarkdownDB {
    type V = EngineModel;

    closed spec fn view(&self) -> EngineModel {
        self.inner@
    }
}

impl MarkdownDB {
    /// Creates a new instance by parsing and indexing the provided Markdown string.
    pub fn new(content: &str) -> (db: MarkdownDB)
        ensures
            db@ == markdown_index(content@),
            model_wf(db@),
            content_from_text_lines(db@),
    {
        MarkdownDB { inner: MarkdownEngine::new(content) }
    }

    /// Lists child sections for a given path with pagination.
    pub fn ls(&self, path: &str, page: usize, page_size: usize) -> (r: PaginatedResult)
        ensures
            strings_view(r.items@) == page_items(ls_entries(self@, path@), page, page_size),
            r.page == page,
            r.size == effective_size(page_size),
            r.total == ls_entries(self@, path@).len(),
    {
        self.inner.ls(path, page, page_size)
    }

    /// Returns the title of a section at the specified path.
    pub fn get_title(&self, path: &str) -> (r: Option<String>)
        ensures
            r is Some <==> self@.nodes.contains_key(path@),
            r matches Some(t) ==> t@ == self@.nodes[path@].title,
    {
        self.inner.get_title(path)
    }

    /// Retrieves the content of a section (excluding nested sub-sections).
    pub fn read(&self, path: &str) -> (r: Option<String>)
        ensures
            r is Some <==> self@.nodes.contains_key(path@),
            r matches Some(t) ==> t@ == self@.nodes[path@].content,
    {
        self.inner.read(path)
    }

    /// Retrieves the content of a section INCLUDING all nested sub-sections.
    pub fn read_full(&self, path: &str) -> (r: Option<String>)
        ensures
            r is Some <==> self@.nodes.contains_key(path@),
            r matches Some(t) ==> t@ == full_text(self@, path@),
    {
        self.inner.read_full(path)
    }

    /// Resolves a reference ID from the Markdown document.
    pub fn get_reference(&self, ref_id: &str) -> (r: Option<String>)
        ensures
            r is Some <==> self@.references.contains_key(ref_id@),
            r matches Some(u) ==> u@ == self@.references[ref_id@],
    {
        self.inner.get_reference(ref_id)
    }

    /// Searches for matching section titles and returns their paths.
    pub fn search(&self, query: &str) -> (r: Vec<String>)
        ensures
            search_result(self@, query@, strings_view(r@)),
    {
        self.inner.search(query)
    }
}

} // verus!
