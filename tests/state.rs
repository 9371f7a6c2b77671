use ra_bridge::diagnostics::{workspace_pull_step, WorkspacePullStep};
use ra_bridge::session::{classify_backend_message, BackendMessage};
use ra_bridge::dispatch::{route_method, RequestRoute, INVALID_PARAMS, METHOD_NOT_FOUND};
use ra_bridge::correlator::PendingRequests;
use ra_bridge::documents::{DocumentTable, SyncAction};
use ra_bridge::json::JsonValue;
use ra_bridge::session::{pulled_items, workspace_diagnostics_capability, BridgeState, DiagnosticsStore};
use ra_bridge::workspace::{file_uri, is_rust_source, should_skip_workspace_dir, WorkspaceScan, MAX_WORKSPACE_DIAGNOSTIC_FILES};

fn text(s: &str) -> JsonValue {
    JsonValue::Str(s.to_string())
}

fn object(fields: Vec<(&str, JsonValue)>) -> JsonValue {
    JsonValue::Object(fields.into_iter().map(|(k, v)| (k.to_string(), v)).collect())
}

#[test]
fn ids_increase_and_responses_reach_their_own_waiter() {
    let mut pending: PendingRequests<&str> = PendingRequests::new();
    let first = pending.allocate_id().unwrap();
    let second = pending.allocate_id().unwrap();
    assert_eq!(first, 1);
    assert_eq!(second, 2);
    pending.register(first, "first");
    pending.register(second, "second");
    assert_eq!(pending.resolve(second), Some("second"));
    assert_eq!(pending.resolve(first), Some("first"));
    assert_eq!(pending.resolve(first), None);
}

#[test]
fn timed_out_request_leaves_no_slot() {
    let mut pending: PendingRequests<u32> = PendingRequests::new();
    let id = pending.allocate_id().unwrap();
    pending.register(id, 7);
    assert!(pending.is_waiting(id));
    assert_eq!(pending.resolve(id), Some(7));
    assert!(!pending.is_waiting(id));
    assert_eq!(pending.resolve(id), None);
    let next = pending.allocate_id().unwrap();
    assert!(next > id);
}

#[test]
fn sync_open_noop_change() {
    let mut docs = DocumentTable::new();
    assert_eq!(docs.sync("file:///a.rs", "fn main() {}"), SyncAction::Open { version: 1 });
    assert_eq!(docs.sync("file:///a.rs", "fn main() {}"), SyncAction::NoChange);
    assert_eq!(docs.version("file:///a.rs"), Some(1));
    assert_eq!(docs.sync("file:///a.rs", "fn main() { }"), SyncAction::Change { version: 2 });
    assert_eq!(docs.version("file:///a.rs"), Some(2));
    assert_eq!(docs.version("file:///b.rs"), None);
}

#[test]
fn sync_clears_diagnostics_only_on_change() {
    let mut state = BridgeState::new();
    state.sync_document("file:///a.rs", "x");
    state.diagnostics.publish("file:///a.rs".to_string(), vec![text("d")]);
    assert_eq!(state.sync_document("file:///a.rs", "x"), SyncAction::NoChange);
    assert_eq!(state.diagnostics.get("file:///a.rs").map(|d| d.len()), Some(1));
    assert_eq!(state.sync_document("file:///a.rs", "y"), SyncAction::Change { version: 2 });
    assert!(state.diagnostics.get("file:///a.rs").is_none());
    state.reset();
    assert!(state.diagnostics.is_empty());
    assert_eq!(state.documents.version("file:///a.rs"), None);
}

#[test]
fn diagnostics_store_replaces_lists() {
    let mut store = DiagnosticsStore::new();
    assert!(store.is_empty());
    store.publish("u".to_string(), vec![text("a"), text("b")]);
    store.publish("u".to_string(), vec![text("c")]);
    assert_eq!(store.get("u"), Some(&vec![text("c")]));
    assert_eq!(store.entries().len(), 1);
    store.remove("u");
    assert!(store.is_empty());
}

#[test]
fn handshake_capability_and_pulled_items() {
    let response = object(vec![(
        "capabilities",
        object(vec![("diagnosticProvider", object(vec![("workspaceDiagnostics", JsonValue::Bool(true))]))]),
    )]);
    assert!(workspace_diagnostics_capability(&response));
    assert!(!workspace_diagnostics_capability(&object(vec![("capabilities", object(vec![]))])));
    let mut state = BridgeState::new();
    state.record_handshake(&response);
    assert!(state.initialized && state.workspace_diagnostics_supported);

    let pulled = pulled_items(object(vec![("kind", text("full")), ("items", JsonValue::Array(vec![text("d")]))]));
    assert_eq!(pulled, JsonValue::Array(vec![text("d")]));
    assert_eq!(pulled_items(object(vec![])), JsonValue::Array(vec![]));
}

#[test]
fn workspace_scan_skips_and_bounds() {
    assert!(should_skip_workspace_dir(Some("target")));
    assert!(should_skip_workspace_dir(Some(".git")));
    assert!(should_skip_workspace_dir(Some("node_modules")));
    assert!(!should_skip_workspace_dir(Some("src")));
    assert!(!should_skip_workspace_dir(None));
    assert!(is_rust_source(Some("rs")));
    assert!(!is_rust_source(Some("toml")));

    let mut scan: WorkspaceScan<String> = WorkspaceScan::new();
    assert!(scan.should_enter(Some("src")));
    assert!(!scan.should_enter(Some(".vscode")));
    assert!(scan.offer_file("Cargo.toml".to_string(), Some("toml")));
    for i in 0..200 {
        scan.offer_file(format!("f{}.rs", i), Some("rs"));
    }
    assert!(scan.is_full());
    assert!(!scan.should_enter(Some("src")));
    let files = scan.into_files();
    assert_eq!(files.len(), MAX_WORKSPACE_DIAGNOSTIC_FILES);
    assert_eq!(files[0], "f0.rs");
}

#[test]
fn file_uri_prefixes_scheme() {
    assert_eq!(file_uri("/work/src/main.rs"), "file:///work/src/main.rs");
}

#[test]
fn requests_route_by_method() {
    assert_eq!(route_method("initialize"), RequestRoute::Initialize);
    assert_eq!(route_method("ping"), RequestRoute::Ping);
    assert_eq!(route_method("tools/list"), RequestRoute::ToolsList);
    assert_eq!(route_method("tools/call"), RequestRoute::ToolsCall);
    assert_eq!(route_method("tools/unknown"), RequestRoute::NotFound);
    assert_eq!(METHOD_NOT_FOUND, -32601);
    assert_eq!(INVALID_PARAMS, -32602);
}

#[test]
fn workspace_pull_steps() {
    assert!(matches!(workspace_pull_step(true, None, true, false), WorkspacePullStep::SendPull));
    assert!(matches!(workspace_pull_step(false, None, true, false), WorkspacePullStep::Sweep));
    assert!(matches!(workspace_pull_step(false, None, false, false), WorkspacePullStep::ReturnStored));
    assert!(matches!(workspace_pull_step(true, Some(None), true, false), WorkspacePullStep::Sweep));
    assert!(matches!(workspace_pull_step(true, None, true, true), WorkspacePullStep::ReturnStored));
    let unreadable = object(vec![("a", text("b"))]);
    assert!(matches!(workspace_pull_step(true, Some(Some(unreadable)), false, false), WorkspacePullStep::ReturnStored));
    let report = object(vec![(
        "items",
        JsonValue::Array(vec![object(vec![("uri", text("u")), ("items", JsonValue::Array(vec![text("d")]))])]),
    )]);
    match workspace_pull_step(true, Some(Some(report)), true, false) {
        WorkspacePullStep::Return(map) => {
            assert_eq!(map, object(vec![("u", JsonValue::Array(vec![text("d")]))]))
        }
        _ => panic!("expected the normalised report"),
    }
}

#[test]
fn backend_messages_are_sorted() {
    let reply = object(vec![("jsonrpc", text("2.0")), ("id", JsonValue::Number("4".to_string())), ("result", text("ok"))]);
    assert!(matches!(classify_backend_message(reply), BackendMessage::Reply(4, Ok(JsonValue::Str(ref s))) if s == "ok"));
    let failed = object(vec![("id", JsonValue::Number("5".to_string())), ("error", object(vec![("code", JsonValue::Number("-32601".to_string()))]))]);
    assert!(matches!(classify_backend_message(failed), BackendMessage::Reply(5, Err(_))));
    let bare = object(vec![("id", JsonValue::Number("6".to_string()))]);
    assert!(matches!(classify_backend_message(bare), BackendMessage::Reply(6, Ok(JsonValue::Null))));
    let publish = object(vec![
        ("method", text("textDocument/publishDiagnostics")),
        ("params", object(vec![("uri", text("file:///a.rs")), ("diagnostics", JsonValue::Array(vec![text("d")]))])),
    ]);
    match classify_backend_message(publish) {
        BackendMessage::Publish(uri, items) => {
            assert_eq!(uri, "file:///a.rs");
            assert_eq!(items, vec![text("d")]);
        }
        _ => panic!("expected a publish"),
    }
    let other = object(vec![("method", text("window/logMessage")), ("params", object(vec![]))]);
    assert!(matches!(classify_backend_message(other), BackendMessage::Ignore));
    assert!(matches!(classify_backend_message(JsonValue::Null), BackendMessage::Ignore));
}

#[test]
fn resolving_one_id_keeps_the_other_slot() {
    let mut pending: PendingRequests<&str> = PendingRequests::new();
    let a = pending.allocate_id().unwrap();
    let b = pending.allocate_id().unwrap();
    let late = pending.allocate_id().unwrap();
    pending.register(a, "a");
    pending.register(late, "late");
    assert_eq!(pending.resolve(late), Some("late"));
    pending.register(b, "b");
    assert_eq!(pending.resolve(late), None);
    assert_eq!(pending.resolve(b), Some("b"));
    assert_eq!(pending.resolve(a), Some("a"));
}

#[test]
fn unchanged_text_syncs_even_without_version_room() {
    let mut docs = DocumentTable::new();
    docs.sync("u", "x");
    assert!(docs.sync_allowed("u", "x"));
    assert!(docs.sync_allowed("u", "y"));
    assert!(docs.sync_allowed("v", "y"));
}
