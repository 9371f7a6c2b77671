//! The state one bridge instance keeps about its backend: open documents,
//! stored diagnostics and what the handshake revealed.

use vstd::prelude::*;
use crate::documents::{can_sync, sync_step, DocumentTable, DocumentsView, SyncAction};
use crate::json::{as_u64, as_u64_spec, field, find_field, take_field, JsonValue};
use crate::table::{entry_map, get_entry, insert_entry, keys_unique, remove_entry};

verus! {

/// Stored diagnostics by uri; each list replaces the one before it.
pub struct DiagnosticsStore {
    entries: Vec<(String, Vec<JsonValue>)>,
}

pub type DiagnosticsView = Map<Seq<char>, Seq<JsonValue>>;

impl View for DiagnosticsStore {
    type V = DiagnosticsView;

    closed spec fn view(&self) -> DiagnosticsView {
        entry_map(self.entries@).map_values(|d: Vec<JsonValue>| d@)
    }
}

impl DiagnosticsStore {
    pub closed spec fn wf(&self) -> bool {
        keys_unique(self.entries@)
    }

    pub fn new() -> (r: Self)
        ensures
            r.wf(),
            r@ == DiagnosticsView::empty(),
    {
        let r = DiagnosticsStore { entries: Vec::new() };
        assert(r@ =~= DiagnosticsView::empty());
        r
    }

    /// Stores `items` as the whole list for `uri`.
    pub fn publish(&mut self, uri: String, items: Vec<JsonValue>)
        requires
            old(self).wf(),
        ensures
            final(self).wf(),
            final(self)@ == old(self)@.insert(uri@, items@),
    {
        let ghost u = uri@;
        let ghost d = items@;
        insert_entry(&mut self.entries, uri, items);
        assert(self@ =~= old(self)@.insert(u, d));
    }

    /// The list stored for `uri`.
    pub fn get(&self, uri: &str) -> (r: Option<&Vec<JsonValue>>)
        requires
            self.wf(),
        ensures
            r is Some <==> self@.contains_key(uri@),
            r matches Some(d) ==> d@ == self@[uri@],
    {
        get_entry(&self.entries, uri)
    }

    /// Drops the list stored for `uri`.
    pub fn remove(&mut self, uri: &str)
        requires
            old(self).wf(),
        ensures
            final(self).wf(),
            final(self)@ == old(self)@.remove(uri@),
    {
        remove_entry(&mut self.entries, uri);
        assert(self@ =~= old(self)@.remove(uri@));
    }

    pub fn is_empty(&self) -> (r: bool)
        ensures
            r == (self@ == DiagnosticsView::empty()),
    {
        let r = self.entries.len() == 0;
        proof {
            if r {
                assert(self@ =~= DiagnosticsView::empty());
            } else {
                assert(entry_map(self.entries@).contains_key(self.entries@[0].0@));
                assert(self@.contains_key(self.entries@[0].0@));
            }
        }
        r
    }

    /// Every stored list, by uri.
    pub fn entries(&self) -> (r: &Vec<(String, Vec<JsonValue>)>)
        requires
            self.wf(),
        ensures
            keys_unique(r@),
            entry_map(r@).map_values(|d: Vec<JsonValue>| d@) == self@,
    {
        &self.entries
    }

    pub fn clear(&mut self)
        ensures
            final(self).wf(),
            final(self)@ == DiagnosticsView::empty(),
    {
        self.entries = Vec::new();
        assert(self@ =~= DiagnosticsView::empty());
    }
}

/// What the bridge knows about its backend.
pub struct BridgeState {
    pub documents: DocumentTable,
    pub diagnostics: DiagnosticsStore,
    pub initialized: bool,
    pub workspace_diagnostics_supported: bool,
}

/// The stored diagnostics after a `sync` that decided `action` for `uri`:
/// any change of the text drops the list computed for the old text.
pub open spec fn diagnostics_after_sync(d: DiagnosticsView, uri: Seq<char>, action: SyncAction) -> DiagnosticsView {
    if action == SyncAction::NoChange {
        d
    } else {
        d.remove(uri)
    }
}

impl BridgeState {
    pub open spec fn wf(&self) -> bool {
        self.documents.wf() && self.diagnostics.wf()
    }

    pub fn new() -> (r: Self)
        ensures
            r.wf(),
            r.documents@ == DocumentsView::empty(),
            r.diagnostics@ == DiagnosticsView::empty(),
            !r.initialized,
            !r.workspace_diagnostics_supported,
    {
        BridgeState {
            documents: DocumentTable::new(),
            diagnostics: DiagnosticsStore::new(),
            initialized: false,
            workspace_diagnostics_supported: false,
        }
    }

    /// Decides how to bring the backend up to date with `content` at
    /// `uri`, and drops the diagnostics of `uri` unless nothing changed.
    pub fn sync_document(&mut self, uri: &str, content: &str) -> (r: SyncAction)
        requires
            old(self).wf(),
            can_sync(old(self).documents@, uri@, content@),
        ensures
            final(self).wf(),
            (r, final(self).documents@) == sync_step(old(self).documents@, uri@, content@),
            final(self).diagnostics@ == diagnostics_after_sync(old(self).diagnostics@, uri@, r),
            final(self).initialized == old(self).initialized,
            final(self).workspace_diagnostics_supported == old(self).workspace_diagnostics_supported,
    {
        let action = self.documents.sync(uri, content);
        match action {
            SyncAction::NoChange => {},
            _ => self.diagnostics.remove(uri),
        }
        action
    }

    /// Records what the backend's handshake response says.
    pub fn record_handshake(&mut self, response: &JsonValue)
        ensures
            final(self).initialized,
            final(self).workspace_diagnostics_supported == workspace_diagnostics_flag(*response),
            final(self).documents == old(self).documents,
            final(self).diagnostics == old(self).diagnostics,
    {
        self.workspace_diagnostics_supported = workspace_diagnostics_capability(response);
        self.initialized = true;
    }

    /// Forgets documents, diagnostics and the handshake.
    pub fn reset(&mut self)
        ensures
            final(self).wf(),
            final(self).documents@ == DocumentsView::empty(),
            final(self).diagnostics@ == DiagnosticsView::empty(),
            !final(self).initialized,
            !final(self).workspace_diagnostics_supported,
    {
        self.documents.clear();
        self.diagnostics.clear();
        self.initialized = false;
        self.workspace_diagnostics_supported = false;
    }
}

/// `capabilities.diagnosticProvider.workspaceDiagnostics` is `true`.
pub open spec fn workspace_diagnostics_flag(response: JsonValue) -> bool {
    match field(response, "capabilities"@) {
        Some(caps) => match field(caps, "diagnosticProvider"@) {
            Some(provider) => field(provider, "workspaceDiagnostics"@) == Some(JsonValue::Bool(true)),
            None => false,
        },
        None => false,
    }
}

/// Whether a handshake response advertises workspace-wide diagnostics.
pub fn workspace_diagnostics_capability(response: &JsonValue) -> (r: bool)
    ensures
        r == workspace_diagnostics_flag(*response),
{
    let caps = match crate::json::get_field(response, "capabilities") {
        Some(c) => c,
        None => return false,
    };
    let provider = match crate::json::get_field(caps, "diagnosticProvider") {
        Some(p) => p,
        None => return false,
    };
    match crate::json::get_field(provider, "workspaceDiagnostics") {
        Some(JsonValue::Bool(b)) => *b,
        _ => false,
    }
}

/// The list a single-document pull response carries under `items`, or an
/// empty list when it has none.
pub fn pulled_items(response: JsonValue) -> (r: JsonValue)
    ensures
        match field(response, "items"@) {
            Some(items) => r == items,
            None => r matches JsonValue::Array(a) && a@.len() == 0,
        },
{
    match response {
        JsonValue::Object(fields) => {
            let mut fields = fields;
            match take_field(&mut fields, "items") {
                Some(items) => items,
                None => JsonValue::Array(Vec::new()),
            }
        },
        _ => JsonValue::Array(Vec::new()),
    }
}

/// Syncing the text a document already has tells the backend nothing and
/// keeps its version and its diagnostics; syncing different text raises
/// the version by exactly one and drops the document's diagnostics.
pub proof fn lemma_resync(docs: DocumentsView, diags: DiagnosticsView, uri: Seq<char>, x: Seq<char>, y: Seq<char>)
    requires
        can_sync(sync_step(docs, uri, x).1, uri, y),
    ensures
        ({
            let d1 = sync_step(docs, uri, x).1;
            let g1 = diagnostics_after_sync(diags, uri, sync_step(docs, uri, x).0);
            &&& sync_step(d1, uri, x) == (SyncAction::NoChange, d1)
            &&& diagnostics_after_sync(g1, uri, SyncAction::NoChange) == g1
            &&& x != y ==> {
                let (a2, d2) = sync_step(d1, uri, y);
                &&& a2 == SyncAction::Change { version: (d1[uri].0 + 1) as u64 }
                &&& d2[uri] == ((d1[uri].0 + 1) as u64, y)
                &&& d2[uri].0 == d1[uri].0 + 1
                &&& !diagnostics_after_sync(g1, uri, a2).contains_key(uri)
            }
        }),
{
}

/// What a message from the backend is for.
pub enum BackendMessage {
    /// The response to request `id`: its result, or the error it reports.
    Reply(u64, Result<JsonValue, JsonValue>),
    /// Diagnostics pushed for a uri, replacing what was stored.
    Publish(String, Vec<JsonValue>),
    /// Anything else.
    Ignore,
}

/// The id a backend message answers, when it carries one.
pub open spec fn reply_id(msg: JsonValue) -> Option<u64> {
    match field(msg, "id"@) {
        Some(v) => as_u64_spec(v),
        None => None,
    }
}

/// What a response hands its waiter: the reported error if there is one,
/// else the result (`null` when missing).
pub open spec fn reply_payload(msg: JsonValue) -> Result<JsonValue, JsonValue> {
    match field(msg, "error"@) {
        Some(e) => Err(e),
        None => match field(msg, "result"@) {
            Some(x) => Ok(x),
            None => Ok(JsonValue::Null),
        },
    }
}

/// A `textDocument/publishDiagnostics` notification: its uri, and its
/// list (empty when missing or not a list).
pub open spec fn published(msg: JsonValue) -> Option<(Seq<char>, Seq<JsonValue>)> {
    match field(msg, "method"@) {
        Some(JsonValue::Str(m)) => if m@ == "textDocument/publishDiagnostics"@ {
            match field(msg, "params"@) {
                Some(params) => match field(params, "uri"@) {
                    Some(JsonValue::Str(u)) => Some(
                        (
                            u@,
                            match field(params, "diagnostics"@) {
                                Some(JsonValue::Array(a)) => a@,
                                _ => Seq::empty(),
                            },
                        ),
                    ),
                    _ => None,
                },
                None => None,
            }
        } else {
            None
        },
        _ => None,
    }
}

/// Sorts a message from the backend: a message with an id answers the
/// request of that id, a diagnostics notification is stored, and the
/// rest is dropped.
pub fn classify_backend_message(msg: JsonValue) -> (r: BackendMessage)
    ensures
        match reply_id(msg) {
            Some(id) => r matches BackendMessage::Reply(rid, payload) && rid == id && payload == reply_payload(msg),
            None => match published(msg) {
                Some((u, d)) => r matches BackendMessage::Publish(ru, rd) && ru@ == u && rd@ == d,
                None => r is Ignore,
            },
        },
{
    proof {
        reveal_strlit("error");
        reveal_strlit("result");
        reveal_strlit("method");
        reveal_strlit("params");
        reveal_strlit("uri");
        reveal_strlit("diagnostics");
        assert("error"@[0] != "result"@[0]);
        assert("params"@[0] != "method"@[0]);
        assert("uri"@.len() != "diagnostics"@.len());
    }
    let mut fields = match msg {
        JsonValue::Object(f) => f,
        _ => return BackendMessage::Ignore,
    };
    let id = match find_field(&fields, "id") {
        Some(i) => as_u64(&fields[i].1),
        None => None,
    };
    if let Some(id) = id {
        if let Some(e) = take_field(&mut fields, "error") {
            return BackendMessage::Reply(id, Err(e));
        }
        let result = match take_field(&mut fields, "result") {
            Some(x) => x,
            None => JsonValue::Null,
        };
        return BackendMessage::Reply(id, Ok(result));
    }
    let is_publish = match take_field(&mut fields, "method") {
        Some(JsonValue::Str(m)) => m == "textDocument/publishDiagnostics".to_owned(),
        _ => false,
    };
    if !is_publish {
        return BackendMessage::Ignore;
    }
    let mut params = match take_field(&mut fields, "params") {
        Some(JsonValue::Object(p)) => p,
        _ => return BackendMessage::Ignore,
    };
    let uri = match take_field(&mut params, "uri") {
        Some(JsonValue::Str(u)) => u,
        _ => return BackendMessage::Ignore,
    };
    let items = match take_field(&mut params, "diagnostics") {
        Some(JsonValue::Array(a)) => a,
        _ => Vec::new(),
    };
    BackendMessage::Publish(uri, items)
}

} // verus!
