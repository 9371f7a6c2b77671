//! The open-document table and the decision `sync` makes for a document:
//! open it, send its new text, or do nothing.

use vstd::prelude::*;
use crate::table::{entry_map, get_entry, insert_entry, keys_unique};

verus! {

/// What synchronising a document asks of the backend.
#[derive(Debug, Clone, Copy, PartialEq, Eq, Structural)]
pub enum SyncAction {
    /// The text is what the backend already has.
    NoChange,
    /// The document is new to the backend.
    Open { version: u64 },
    /// The text changed; the whole new text is sent.
    Change { version: u64 },
}

/// A document the backend knows: its version and its text.
pub struct OpenDocumentState {
    pub version: u64,
    pub content: String,
}

/// Documents by uri.
pub struct DocumentTable {
    entries: Vec<(String, OpenDocumentState)>,
}

/// The model of the table: each uri's version and text.
pub type DocumentsView = Map<Seq<char>, (u64, Seq<char>)>;

/// The decision for `content` at `uri`, and the table after it.
pub open spec fn sync_step(docs: DocumentsView, uri: Seq<char>, content: Seq<char>) -> (SyncAction, DocumentsView) {
    if !docs.contains_key(uri) {
        (SyncAction::Open { version: 1 }, docs.insert(uri, (1, content)))
    } else if docs[uri].1 == content {
        (SyncAction::NoChange, docs)
    } else {
        let v = (docs[uri].0 + 1) as u64;
        (SyncAction::Change { version: v }, docs.insert(uri, (v, content)))
    }
}

/// A `sync` of `content` at `uri` cannot run the version past `u64::MAX`:
/// only new text raises it.
pub open spec fn can_sync(docs: DocumentsView, uri: Seq<char>, content: Seq<char>) -> bool {
    docs.contains_key(uri) && docs[uri].1 != content ==> docs[uri].0 < u64::MAX
}

impl View for DocumentTable {
    type V = DocumentsView;

    closed spec fn view(&self) -> DocumentsView {
        entry_map(self.entries@).map_values(|s: OpenDocumentState| (s.version, s.content@))
    }
}

impl DocumentTable {
    pub closed spec fn wf(&self) -> bool {
        keys_unique(self.entries@)
    }

    pub fn new() -> (r: Self)
        ensures
            r.wf(),
            r@ == DocumentsView::empty(),
    {
        let r = DocumentTable { entries: Vec::new() };
        assert(r@ =~= DocumentsView::empty());
        r
    }

    /// The version stored for `uri`.
    pub fn version(&self, uri: &str) -> (r: Option<u64>)
        requires
            self.wf(),
        ensures
            r is Some <==> self@.contains_key(uri@),
            r matches Some(v) ==> v == self@[uri@].0,
    {
        match get_entry(&self.entries, uri) {
            Some(state) => Some(state.version),
            None => None,
        }
    }

    /// Whether `sync(uri, content)` may be called: false only when new
    /// text would raise a version that is already `u64::MAX`.
    pub fn sync_allowed(&self, uri: &str, content: &str) -> (r: bool)
        requires
            self.wf(),
        ensures
            r == can_sync(self@, uri@, content@),
    {
        match get_entry(&self.entries, uri) {
            Some(state) => state.version < u64::MAX || state.content.as_str().to_owned() == content.to_owned(),
            None => true,
        }
    }

    /// Records `content` for `uri` and says what the backend must be told:
    /// version 1 for a new document, one more for new text, nothing when
    /// the text is unchanged.
    pub fn sync(&mut self, uri: &str, content: &str) -> (r: SyncAction)
        requires
            old(self).wf(),
            can_sync(old(self)@, uri@, content@),
        ensures
            final(self).wf(),
            (r, final(self)@) == sync_step(old(self)@, uri@, content@),
    {
        let found = match get_entry(&self.entries, uri) {
            Some(state) => Some((state.version, state.content.as_str().to_owned() == content.to_owned())),
            None => None,
        };
        let next = match found {
            Some((_, true)) => return SyncAction::NoChange,
            Some((version, false)) => version + 1,
            None => 1,
        };
        insert_entry(
            &mut self.entries,
            uri.to_owned(),
            OpenDocumentState { version: next, content: content.to_owned() },
        );
        assert(self@ =~= old(self)@.insert(uri@, (next, content@)));
        if found.is_some() {
            SyncAction::Change { version: next }
        } else {
            SyncAction::Open { version: 1 }
        }
    }

    /// Forgets every document.
    pub fn clear(&mut self)
        ensures
            final(self).wf(),
            final(self)@ == DocumentsView::empty(),
    {
        self.entries = Vec::new();
        assert(self@ =~= DocumentsView::empty());
    }
}

} // verus!
