use ra_bridge::diagnostics::{filter_diagnostics_in_range, normalize_workspace_diagnostic_report};
use ra_bridge::json::JsonValue;

fn num(n: u64) -> JsonValue {
    JsonValue::Number(n.to_string())
}

fn object(fields: Vec<(&str, JsonValue)>) -> JsonValue {
    JsonValue::Object(fields.into_iter().map(|(k, v)| (k.to_string(), v)).collect())
}

fn diag(start: u64, end: u64, message: &str) -> JsonValue {
    object(vec![
        (
            "range",
            object(vec![
                ("start", object(vec![("line", num(start)), ("character", num(0))])),
                ("end", object(vec![("line", num(end)), ("character", num(1))])),
            ]),
        ),
        ("message", JsonValue::Str(message.to_string())),
    ])
}

#[test]
fn range_filter_is_inclusive_and_drops_malformed() {
    let list = JsonValue::Array(vec![
        diag(1, 2, "before"),
        diag(2, 5, "touches start"),
        diag(6, 8, "inside"),
        diag(10, 12, "touches end"),
        diag(11, 12, "after"),
        object(vec![("message", JsonValue::Str("no range".to_string()))]),
        object(vec![("range", object(vec![("start", object(vec![("line", num(7))]))]))]),
    ]);
    let kept = filter_diagnostics_in_range(list, 5, 10);
    assert_eq!(
        kept,
        JsonValue::Array(vec![diag(2, 5, "touches start"), diag(6, 8, "inside"), diag(10, 12, "touches end")])
    );
}

#[test]
fn range_filter_of_non_list_is_empty() {
    assert_eq!(filter_diagnostics_in_range(JsonValue::Null, 0, 3), JsonValue::Array(vec![]));
}

#[test]
fn range_filter_drops_positions_without_lines() {
    let d = object(vec![("range", object(vec![("start", object(vec![])), ("end", object(vec![]))]))]);
    let kept = filter_diagnostics_in_range(JsonValue::Array(vec![d]), 0, 0);
    assert_eq!(kept, JsonValue::Array(vec![]));
    let negative = object(vec![(
        "range",
        object(vec![
            ("start", object(vec![("line", JsonValue::Number("-1".to_string()))])),
            ("end", object(vec![("line", num(3))])),
        ]),
    )]);
    let kept = filter_diagnostics_in_range(JsonValue::Array(vec![negative]), 0, 5);
    assert_eq!(kept, JsonValue::Array(vec![]));
}

#[test]
fn range_filter_does_not_wrap_large_lines() {
    let far = diag(4_294_967_298, 4_294_967_300, "far");
    let kept = filter_diagnostics_in_range(JsonValue::Array(vec![far]), 1, 5);
    assert_eq!(kept, JsonValue::Array(vec![]));
}

#[test]
fn list_and_map_reports_normalise_alike() {
    let list = object(vec![(
        "items",
        JsonValue::Array(vec![
            object(vec![("uri", JsonValue::Str("file:///a.rs".to_string())), ("items", JsonValue::Array(vec![diag(1, 1, "x")]))]),
            object(vec![("uri", JsonValue::Str("file:///b.rs".to_string())), ("diagnostics", JsonValue::Array(vec![]))]),
            object(vec![("kind", JsonValue::Str("unchanged".to_string()))]),
        ]),
    )]);
    let map = object(vec![
        ("file:///a.rs", JsonValue::Array(vec![diag(1, 1, "x")])),
        ("file:///b.rs", JsonValue::Array(vec![])),
    ]);
    let from_list = normalize_workspace_diagnostic_report(list).unwrap();
    let expected = object(vec![
        ("file:///a.rs", JsonValue::Array(vec![diag(1, 1, "x")])),
        ("file:///b.rs", JsonValue::Array(vec![])),
    ]);
    assert_eq!(from_list, expected);
    assert_eq!(normalize_workspace_diagnostic_report(map), Some(expected));
}

#[test]
fn report_without_known_shape_is_rejected() {
    assert_eq!(normalize_workspace_diagnostic_report(JsonValue::Null), None);
    assert_eq!(normalize_workspace_diagnostic_report(object(vec![("a", num(1))])), None);
    assert_eq!(normalize_workspace_diagnostic_report(object(vec![])), Some(object(vec![])));
}

#[test]
fn later_entry_for_same_uri_wins() {
    let list = object(vec![(
        "items",
        JsonValue::Array(vec![
            object(vec![("uri", JsonValue::Str("u".to_string())), ("items", JsonValue::Array(vec![num(1)]))]),
            object(vec![("uri", JsonValue::Str("u".to_string())), ("items", JsonValue::Array(vec![num(2)]))]),
        ]),
    )]);
    assert_eq!(
        normalize_workspace_diagnostic_report(list),
        Some(object(vec![("u", JsonValue::Array(vec![num(2)]))]))
    );
}
